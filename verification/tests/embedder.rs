use std::path::Path;

use code_bundler::embedder::{parse_document, FileEntry, ParsedDocument};
use code_bundler::extractor::{FORMAT_MARKER, LENGTH_PREFIX, METADATA_SUFFIX, PREVIOUS_FORMAT_MARKER};
use code_bundler::modification::{apply_modifications, parse_modifications};

#[test]
fn version_two_preserves_exact_contents_and_header_like_lines() {
    let contents = "first\n==not/a/real/file content==\nlast";
    let document = format!(
        "{FORMAT_MARKER}\n==src/main.txt content==\n{LENGTH_PREFIX}{}{METADATA_SUFFIX}\n{contents}\n",
        contents.len()
    );
    let parsed = parse_document(&document).unwrap();

    assert!(!parsed.legacy_format);
    assert_eq!(parsed.files.len(), 1);
    assert_eq!(Path::new(&parsed.files[0].relative_path), Path::new("src/main.txt"));
    assert_eq!(parsed.files[0].contents.as_bytes(), contents.as_bytes());
}

#[test]
fn accepts_extracts_created_under_the_previous_package_name() {
    let document = format!(
        "{PREVIOUS_FORMAT_MARKER}\n==old.txt content==\n{LENGTH_PREFIX}3{METADATA_SUFFIX}\nold\n"
    );
    let parsed = parse_document(&document).unwrap();

    assert!(!parsed.legacy_format);
    assert_eq!(parsed.files[0].contents.as_bytes(), b"old");
}

#[test]
fn parses_original_legacy_format() {
    let document = "==one.txt content==\nhello\n\n==src/two.txt content==\nworld\n\n";
    let parsed = parse_document(document).unwrap();

    assert!(parsed.legacy_format);
    assert_eq!(parsed.files.len(), 2);
    assert_eq!(parsed.files[0].contents.as_bytes(), b"hello\n");
    assert_eq!(parsed.files[1].contents.as_bytes(), b"world\n");
}

#[test]
fn rejects_paths_that_can_escape_the_output_folder() {
    let document = "==../outside.txt content==\nnope\n\n";
    let error = parse_document(document).err().unwrap();
    assert!(error.message().contains("unsafe file path"));
}

#[test]
fn rejects_file_and_folder_path_conflicts() {
    let document = [
        "==folder content==\nfile\n\n",
        "==folder/child.txt content==\nchild\n\n",
    ]
    .concat();
    let error = parse_document(&document).err().unwrap();
    assert!(error.message().contains("both a file and a parent folder"));
}

fn single_file(path: &str, contents: &str) -> ParsedDocument {
    ParsedDocument {
        files: vec![FileEntry {
            relative_path: path.to_string(),
            contents: contents.to_string(),
        }],
        binary_files_skipped: 0,
        legacy_format: false,
    }
}

#[test]
fn multiline_modifications_use_original_line_numbers() {
    let mut parsed = single_file("1.php", "one\ntwo\nthree\nfour\n");
    let modifications = parse_modifications(
        &[
            "file:1.php,line:2,new_content:TWO-A\n",
            "TWO-B\n",
            "file:1.php,line:4,new_content:FOUR\n",
        ]
        .concat(),
    )
    .unwrap();

    let report = apply_modifications(&mut parsed, modifications).unwrap();

    assert_eq!(report, (2, 1));
    assert_eq!(
        parsed.files[0].contents.as_bytes(),
        b"one\nTWO-A\nTWO-B\nthree\nFOUR\n"
    );
}

#[test]
fn modifications_preserve_crlf_line_endings() {
    let mut parsed = single_file("src/file.txt", "first\r\nsecond\r\nthird");
    let modifications =
        parse_modifications("file:src/file.txt,line:2,new_content:new\ncontinued").unwrap();

    apply_modifications(&mut parsed, modifications).unwrap();

    assert_eq!(
        parsed.files[0].contents.as_bytes(),
        b"first\r\nnew\r\ncontinued\r\nthird"
    );
}

#[test]
fn duplicate_targets_are_rejected() {
    let mut parsed = single_file("one.txt", "original");
    let modifications = parse_modifications(
        &[
            "file:one.txt,line:1,new_content:first\n",
            "file:one.txt,line:1,new_content:second",
        ]
        .concat(),
    )
    .unwrap();

    let error = apply_modifications(&mut parsed, modifications).unwrap_err();

    assert!(error.message().contains("more than one modification"));
}

#[test]
fn legacy_entry_of_one_line_break_reads_as_an_empty_file() {
    let parsed = parse_document("==empty.txt content==\n\n\n==b.txt content==\n[Skipped: binary file]\n\n").unwrap();
    assert!(parsed.legacy_format);
    assert_eq!(parsed.files.len(), 1);
    assert_eq!(parsed.files[0].contents, "");
    assert_eq!(parsed.binary_files_skipped, 1);
}

#[test]
fn backslashes_in_bundled_paths_become_slashes() {
    let parsed = parse_document("==src\\lib.rs content==\nfn f() {}\n\n").unwrap();
    assert_eq!(parsed.files[0].relative_path, "src/lib.rs");
    assert_eq!(parsed.files[0].contents, "fn f() {}\n");
}
