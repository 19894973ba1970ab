use std::path::PathBuf;

use code_bundler::prompt::{
    clean_input, complete_choices, parse_compression_answer, parse_extraction_mode,
    parse_operation, ExtractionMode, Operation, EXTRACTION_MODE_CHOICES, OPERATION_CHOICES,
};

#[test]
fn input_may_be_quoted() {
    assert_eq!(
        PathBuf::from(clean_input("  \"C:\\some folder\"\r\n")),
        PathBuf::from("C:\\some folder")
    );
    assert_eq!(
        PathBuf::from(clean_input("\"C:\\some folder")),
        PathBuf::from("C:\\some folder")
    );
}

#[test]
fn operation_answers_are_parsed() {
    assert_eq!(parse_operation(" Embed "), Some(Operation::Embed));
    assert_eq!(parse_operation("extract"), Some(Operation::Extract));
    assert_eq!(parse_operation("e"), None);
}

#[test]
fn fixed_answers_are_completed_from_the_typed_prefix() {
    let (start, candidates) =
        complete_choices("  with_", "  with_".len(), &EXTRACTION_MODE_CHOICES);

    assert_eq!(start, 2);
    assert_eq!(candidates.len(), 1);
    assert_eq!(candidates[0], "with_modification");

    let (_, candidates) = complete_choices("", 0, &OPERATION_CHOICES);
    assert_eq!(candidates.len(), 2);
    assert_eq!(candidates[0], "embed");
    assert_eq!(candidates[1], "extract");
}

#[test]
fn extraction_modes_are_parsed() {
    assert_eq!(parse_extraction_mode("raw"), Some(ExtractionMode::Raw));
    assert_eq!(parse_extraction_mode("R"), Some(ExtractionMode::Raw));
    assert_eq!(
        parse_extraction_mode("modified"),
        Some(ExtractionMode::WithModification)
    );
    assert_eq!(
        parse_extraction_mode("with_modification"),
        Some(ExtractionMode::WithModification)
    );
    assert_eq!(parse_extraction_mode("other"), None);
}

#[test]
fn compression_answers_are_parsed() {
    assert_eq!(parse_compression_answer("yes"), Some(true));
    assert_eq!(parse_compression_answer(" Y "), Some(true));
    assert_eq!(parse_compression_answer("no"), Some(false));
    assert_eq!(parse_compression_answer(""), Some(false));
    assert_eq!(parse_compression_answer("maybe"), None);
}
