use code_bundler::embedder::{parse_document, FileEntry, ParsedDocument, PathError};
use code_bundler::extractor::FORMAT_MARKER;
use code_bundler::modification::{apply_modifications, parse_modifications};

fn parse_error(document: &str) -> String {
    parse_document(document).err().unwrap().message()
}

fn modification_error(document: &str) -> String {
    parse_modifications(document).err().unwrap().message()
}

fn apply_error(contents: &str, document: &str) -> (String, ParsedDocument) {
    let mut parsed = ParsedDocument {
        files: vec![FileEntry {
            relative_path: "one.txt".to_string(),
            contents: contents.to_string(),
        }],
        binary_files_skipped: 0,
        legacy_format: false,
    };
    let modifications = parse_modifications(document).unwrap();
    let error = apply_modifications(&mut parsed, modifications).unwrap_err();
    (error.message(), parsed)
}

#[test]
fn bundle_that_stops_after_a_header_ends_unexpectedly() {
    let document = format!("{FORMAT_MARKER}\n==a.txt content==");
    assert_eq!(parse_error(&document), "the extracted text ends unexpectedly");
}

#[test]
fn marker_with_two_carriage_returns_is_not_supported() {
    let document = format!("{FORMAT_MARKER}\r\r\n==a.txt content==\n==utf8-bytes:0==\n\n");
    assert_eq!(
        parse_error(&document),
        "this is not a supported extracted text file"
    );
}

#[test]
fn invalid_header_reports_the_byte_after_it() {
    let document = format!("{FORMAT_MARKER}\nnot a header\n");
    assert_eq!(
        parse_error(&document),
        "invalid file header at byte 33: 'not a header'"
    );
}

#[test]
fn header_without_length_line_is_refused() {
    let document = format!("{FORMAT_MARKER}\n==a.txt content==\nsomething\n");
    assert_eq!(
        parse_error(&document),
        "missing content length after header for 'a.txt'"
    );
}

#[test]
fn length_that_is_not_a_number_is_refused() {
    let document = format!("{FORMAT_MARKER}\n==a.txt content==\n==utf8-bytes:x==\n");
    assert_eq!(parse_error(&document), "invalid content length for 'a.txt'");
}

#[test]
fn length_past_the_end_is_refused() {
    let document = format!("{FORMAT_MARKER}\n==a.txt content==\n==utf8-bytes:100==\nabc");
    assert_eq!(
        parse_error(&document),
        "content for 'a.txt' is shorter than its byte count"
    );
}

#[test]
fn length_inside_a_character_is_refused() {
    let document = format!("{FORMAT_MARKER}\n==a.txt content==\n==utf8-bytes:1==\né\n");
    assert_eq!(
        parse_error(&document),
        "content length for 'a.txt' ends inside a UTF-8 character"
    );
}

#[test]
fn contents_must_be_followed_by_a_separator() {
    let document = format!("{FORMAT_MARKER}\n==a.txt content==\n==utf8-bytes:2==\nabc\n");
    assert_eq!(
        parse_error(&document),
        "content for 'a.txt' is not followed by an entry separator"
    );
}

#[test]
fn text_without_headers_is_refused() {
    assert_eq!(
        parse_error("just some text\n"),
        "no file headers were found in the selected text file"
    );
}

#[test]
fn text_before_the_first_header_is_refused() {
    assert_eq!(
        parse_error("intro\n==a.txt content==\nx\n"),
        "unexpected text appears before the first file header"
    );
}

#[test]
fn empty_path_message() {
    assert_eq!(
        PathError::Empty.message(),
        "a file header contains an empty path"
    );
}

#[test]
fn paths_differing_only_in_case_are_duplicates() {
    assert_eq!(
        parse_error("==a.txt content==\nx\n\n==A.txt content==\ny\n\n"),
        "the extracted text contains the file path 'A.txt' more than once"
    );
}

#[test]
fn conflict_is_reported_by_its_folder_key() {
    assert_eq!(
        parse_error("==Docs content==\nx\n\n==docs/a.txt content==\ny\n\n"),
        "'docs' cannot be both a file and a parent folder"
    );
}

#[test]
fn modification_line_outside_a_record_is_refused() {
    assert_eq!(
        modification_error("# comment\nhello\n"),
        "line 2 must start with 'file:'"
    );
}

#[test]
fn modification_without_line_field_is_refused() {
    assert_eq!(
        modification_error("file:a.txt,new_content:x"),
        "line 1 is missing the ',line:' field"
    );
}

#[test]
fn modification_without_content_field_is_refused() {
    assert_eq!(
        modification_error("file:a.txt,line:1"),
        "line 1 is missing the ',new_content:' field"
    );
}

#[test]
fn modification_with_empty_path_is_refused() {
    assert_eq!(
        modification_error("file:,line:1,new_content:x"),
        "line 1 has an empty file path"
    );
}

#[test]
fn modification_with_invalid_line_number_is_refused() {
    assert_eq!(
        modification_error("file:a.txt,line:two,new_content:x"),
        "line 1 has an invalid target line number 'two'"
    );
}

#[test]
fn modification_of_line_zero_is_refused() {
    assert_eq!(
        modification_error("file:a.txt,line:0,new_content:x"),
        "line 1 has target line 0; line numbers start at 1"
    );
}

#[test]
fn modification_with_unsafe_path_is_refused() {
    assert_eq!(
        modification_error("file:../a.txt,line:1,new_content:x"),
        "line 1: unsafe file path in extracted text: '../a.txt'"
    );
}

#[test]
fn modification_file_without_records_is_refused() {
    assert_eq!(
        modification_error("# only a comment\n\n   \n"),
        "no modification records were found"
    );
}

#[test]
fn modification_of_a_missing_file_is_refused_and_changes_nothing() {
    let (message, parsed) = apply_error("a\nb\n", "file:two.txt,line:1,new_content:x");
    assert_eq!(
        message,
        "modification line 1 refers to 'two.txt', which is not in the bundled text"
    );
    assert_eq!(parsed.files[0].contents, "a\nb\n");
}

#[test]
fn modification_past_the_last_line_is_refused_and_changes_nothing() {
    let (message, parsed) = apply_error(
        "a\nb\n",
        "file:one.txt,line:1,new_content:x\nfile:one.txt,line:3,new_content:y",
    );
    assert_eq!(
        message,
        "modification line 2 targets line 3 of 'one.txt', but that file has 2 line(s)"
    );
    assert_eq!(parsed.files[0].contents, "a\nb\n");
}

#[test]
fn same_line_under_another_case_is_a_duplicate_target() {
    let (message, _) = apply_error(
        "a\n",
        "file:one.txt,line:1,new_content:x\nfile:ONE.txt,line:1,new_content:y",
    );
    assert_eq!(message, "more than one modification targets line 1 of 'ONE.txt'");
}

#[test]
fn absolute_and_drive_paths_are_refused() {
    assert_eq!(
        parse_error("==/etc/passwd content==\nx\n\n"),
        "unsafe file path in extracted text: '/etc/passwd'"
    );
    assert_eq!(
        parse_error("==C:\\temp\\a.txt content==\nx\n\n"),
        "unsafe file path in extracted text: 'C:\\temp\\a.txt'"
    );
    assert_eq!(
        parse_error("==a/./b.txt content==\nx\n\n"),
        "unsafe file path in extracted text: 'a/./b.txt'"
    );
}

#[test]
fn folder_conflicts_are_found_between_neighbours_in_sorted_order() {
    let document = "==x content==\n1\n\n==x-y content==\n2\n\n==x/z content==\n3\n\n";
    let parsed = parse_document(document).unwrap();
    assert_eq!(parsed.files.len(), 3);
    assert_eq!(
        parse_error("==x content==\n1\n\n==x/z content==\n3\n\n"),
        "'x' cannot be both a file and a parent folder"
    );
}
