use code_bundler::extractor::{decode_text, is_probably_binary};

#[test]
fn detects_nul_heavy_binary_data() {
    assert!(is_probably_binary(b"PNG\0binary"));
    assert!(!is_probably_binary(b"normal source code\n"));
}

#[test]
fn decodes_utf16_little_endian() {
    assert_eq!(decode_text(&[0xff, 0xfe, b'H', 0, b'i', 0]), "Hi");
}
