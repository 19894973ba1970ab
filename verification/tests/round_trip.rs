use code_bundler::embedder::parse_document;
use code_bundler::extractor::{bundle_item, render_bundle, BundleItem};
use code_bundler::modification::{apply_modifications, parse_modifications};

fn text_item(path: &str, text: &str) -> BundleItem {
    BundleItem::Text {
        path: path.to_string(),
        text: text.to_string(),
    }
}

#[test]
fn extract_then_embed_round_trip_recreates_files_and_folders() {
    let items = vec![
        bundle_item("empty.txt", "empty.txt", b"", false),
        bundle_item("no-final-newline.txt", "no-final-newline.txt", b"exact", false),
        bundle_item(
            "src/header-like.txt",
            "header-like.txt",
            b"before\n==fake.txt content==\nafter\n",
            false,
        ),
    ];
    let bundle = render_bundle(&items);
    let parsed = parse_document(&bundle).unwrap();

    assert_eq!(parsed.files.len(), 3);
    assert_eq!(parsed.files[0].relative_path, "empty.txt");
    assert_eq!(parsed.files[0].contents.as_bytes(), b"");
    assert_eq!(parsed.files[1].relative_path, "no-final-newline.txt");
    assert_eq!(parsed.files[1].contents.as_bytes(), b"exact");
    assert_eq!(parsed.files[2].relative_path, "src/header-like.txt");
    assert_eq!(
        parsed.files[2].contents.as_bytes(),
        b"before\n==fake.txt content==\nafter\n"
    );
}

#[test]
fn modified_extraction_applies_changes_before_writing_files() {
    let items = vec![bundle_item(
        "example.php",
        "example.php",
        b"line one\nline two\nline three\nline four\n",
        false,
    )];
    let bundle = render_bundle(&items);
    let mut parsed = parse_document(&bundle).unwrap();
    let modifications = parse_modifications(
        &[
            "file:example.php,line:2,new_content:replacement A\n",
            "replacement B\n",
            "file:example.php,line:4,new_content:last replacement\n",
        ]
        .concat(),
    )
    .unwrap();

    let report = apply_modifications(&mut parsed, modifications).unwrap();

    assert_eq!(report.0, 2);
    assert_eq!(report.1, 1);
    assert_eq!(
        parsed.files[0].contents.as_bytes(),
        b"line one\nreplacement A\nreplacement B\nline three\nlast replacement\n"
    );
}

#[test]
fn written_bundle_has_the_documented_layout() {
    let items = vec![
        text_item("a.txt", "hi"),
        BundleItem::Binary {
            path: "b.bin".to_string(),
        },
        text_item("src/ü.txt", "é"),
    ];
    assert_eq!(
        render_bundle(&items),
        [
            "==code-bundler:v2==\n",
            "==a.txt content==\n==utf8-bytes:2==\nhi\n",
            "==b.bin content==\n[Skipped: binary file]\n\n",
            "==src/ü.txt content==\n==utf8-bytes:2==\né\n",
        ]
        .concat()
    );
}

#[test]
fn reading_back_a_written_bundle_gives_its_files_and_skipped_count() {
    let items = vec![
        text_item("one.txt", ""),
        BundleItem::Binary {
            path: "image.png".to_string(),
        },
        text_item("dir\\two.txt", "==x content==\n\r\n"),
        text_item("Three.TXT", "no newline"),
    ];
    let parsed = parse_document(&render_bundle(&items)).unwrap();

    assert!(!parsed.legacy_format);
    assert_eq!(parsed.binary_files_skipped, 1);
    assert_eq!(parsed.files.len(), 3);
    assert_eq!(parsed.files[0].relative_path, "one.txt");
    assert_eq!(parsed.files[0].contents, "");
    assert_eq!(parsed.files[1].relative_path, "dir/two.txt");
    assert_eq!(parsed.files[1].contents, "==x content==\n\r\n");
    assert_eq!(parsed.files[2].relative_path, "Three.TXT");
    assert_eq!(parsed.files[2].contents, "no newline");
}

#[test]
fn binary_files_are_listed_without_contents() {
    let item = bundle_item("logo.png", "logo.png", b"\x89PNG\0\0data", true);
    assert!(matches!(item, BundleItem::Binary { ref path } if path == "logo.png"));
}

#[test]
fn compression_is_applied_only_when_asked() {
    let source: &[u8] = b"$a  = 1;\n\n  $b = 2;";
    let plain = bundle_item("src/a.php", "a.php", source, false);
    let compact = bundle_item("src/a.php", "a.php", source, true);
    let unknown = bundle_item("src/a.js", "a.js", source, true);
    assert!(matches!(plain, BundleItem::Text { ref text, .. } if text == "$a  = 1;\n\n  $b = 2;"));
    assert!(matches!(compact, BundleItem::Text { ref text, .. } if text == "$a = 1; $b = 2;"));
    assert!(matches!(unknown, BundleItem::Text { ref text, .. } if text == "$a  = 1;\n\n  $b = 2;"));
}

#[test]
fn records_in_any_order_rewrite_the_same_way() {
    let records = [
        "file:a.txt,line:3,new_content:THREE\nand more\n",
        "file:b.txt,line:1,new_content:B1\n",
        "file:a.txt,line:1,new_content:ONE\n",
    ];
    let bundle = render_bundle(&vec![
        text_item("a.txt", "1\n2\n3\n4\n"),
        text_item("b.txt", "x\r\ny"),
    ]);
    let orders = [[0, 1, 2], [2, 1, 0], [1, 2, 0]];
    let mut results = Vec::new();
    for order in orders {
        let mut parsed = parse_document(&bundle).unwrap();
        let text: String = order.iter().map(|&i| records[i]).collect();
        let report = apply_modifications(&mut parsed, parse_modifications(&text).unwrap()).unwrap();
        assert_eq!(report, (3, 2));
        let contents: Vec<String> = parsed.files.iter().map(|f| f.contents.clone()).collect();
        results.push(contents);
    }
    assert_eq!(results[0], vec!["ONE\n2\nTHREE\nand more\n4\n".to_string(), "B1\r\ny".to_string()]);
    assert_eq!(results[0], results[1]);
    assert_eq!(results[0], results[2]);
}
