use code_bundler::compression::brace;
use code_bundler::compression::python;
use code_bundler::compression::safely_compress;

#[test]
fn preserves_strings_and_token_boundaries() {
    assert_eq!(
        brace::compress("  function  test ( ) {\n return  \"a  b\\n\";\n}\n"),
        "function test ( ) { return \"a  b\\n\"; }"
    );
}

#[test]
fn keeps_line_comment_endings() {
    assert_eq!(
        brace::compress("let a = 1; // explanation\n  let b = 2;"),
        "let a = 1; // explanation\nlet b = 2;"
    );
}

#[test]
fn preserves_raw_strings_and_heredocs() {
    assert_eq!(
        brace::compress("let  value = r#\"a   b\n c\"#;\n next();"),
        "let value = r#\"a   b\n c\"#; next();"
    );
    assert_eq!(
        brace::compress("echo   <<<TEXT\n  keep me\nTEXT;\nnext();"),
        "echo <<<TEXT\n  keep me\nTEXT;\nnext();"
    );
}

#[test]
fn unknown_formats_are_left_unchanged() {
    let source = "key:  value\n  nested: item\n";
    assert_eq!(safely_compress("settings.yml", source), source);
}

#[test]
fn preserves_indentation_and_multiline_strings() {
    let source = [
        "\n",
        "def  greet ( name ):\n",
        "    message  =  f\"hello  {name}\"\n",
        "\n",
        "    text = \"\"\"first\n",
        "  significant spaces\n",
        "\n",
        "third\"\"\"\n",
        "    return  message  # keep  comment\n",
    ]
    .concat();
    let expected = [
        "def greet ( name ):\n",
        "    message = f\"hello  {name}\"\n",
        "    text = \"\"\"first\n",
        "  significant spaces\n",
        "\n",
        "third\"\"\"\n",
        "    return message # keep  comment\n",
    ]
    .concat();
    assert_eq!(python::compress(&source), expected);
}

fn words(text: &str) -> Vec<&str> {
    text.split_whitespace().collect()
}

#[test]
fn compaction_keeps_every_word_apart() {
    let samples = [
        ("a.php", "if ($a)\t{\r\n    echo  $b;   // note\r\n}\n\n"),
        ("main.rs", "fn  main()\n{\n    let s = \"x   y\";\n    /* keep\n   this */ run( s );\n}\n"),
        ("tool.py", "def  f( a ,b ):\n\n    return  a  +  b   # sum\n\n\nprint( f(1,  2) )\n"),
        ("style.css", "a  >  b\n{\n  color :  red ;\n}\n"),
    ];
    for (name, source) in samples {
        let compact = safely_compress(name, source);
        assert_eq!(words(&compact), words(source), "{name}");
        assert!(compact.len() <= source.len(), "{name}");
    }
}

#[test]
fn python_compaction_drops_blank_lines_and_keeps_indentation() {
    let source = "def f():\n\n\n    x  =  1\n    return x\n";
    assert_eq!(
        safely_compress("m.py", source),
        "def f():\n    x = 1\n    return x\n"
    );
}
