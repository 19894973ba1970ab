use code_bundler::extractor::{
    bundle_order, decode_text, embed_folder_name, is_probably_binary, output_file_name, relative_display,
};
use code_bundler::order::sorted_order;

#[test]
fn bundle_file_names_count_up_from_the_second() {
    assert_eq!(output_file_name(1), "extracted_contents.txt");
    assert_eq!(output_file_name(2), "extracted_contents_2.txt");
    assert_eq!(output_file_name(10), "extracted_contents_10.txt");
}

#[test]
fn embed_folder_names_follow_the_bundle_stem() {
    assert_eq!(
        embed_folder_name(Some("extracted_contents"), 1),
        "extracted_contents_embedded"
    );
    assert_eq!(embed_folder_name(Some("bundle"), 3), "bundle_embedded_3");
    assert_eq!(embed_folder_name(None, 1), "extracted_contents_embedded");
    assert_eq!(embed_folder_name(Some(""), 2), "extracted_contents_embedded_2");
}

#[test]
fn relative_paths_are_joined_with_slashes() {
    let parts = vec!["src".to_string(), "nested".to_string(), "a.txt".to_string()];
    assert_eq!(relative_display(&parts), "src/nested/a.txt");
    assert_eq!(relative_display(&vec!["top.txt".to_string()]), "top.txt");
}

#[test]
fn text_is_decoded_by_its_byte_order_mark() {
    assert_eq!(decode_text(&[0xfe, 0xff, 0, b'H', 0, b'i']), "Hi");
    assert_eq!(decode_text(&[0xef, 0xbb, 0xbf, b'a', b'b']), "ab");
    assert_eq!(decode_text(&[0xff, 0xfe, 0x3d, 0xd8, 0x00, 0xde]), "\u{1F600}");
    assert_eq!(decode_text(&[0xff, 0xfe, 0x00, 0xd8, b'x', 0]), "\u{FFFD}x");
    assert_eq!(decode_text(&[0xff, 0xfe, b'a', 0, b'b']), "a");
}

#[test]
fn invalid_utf8_is_replaced() {
    assert_eq!(decode_text(&[b'f', 0xff, b'g']), "f\u{FFFD}g");
    assert_eq!(decode_text("héllo".as_bytes()), "héllo");
}

#[test]
fn utf16_text_with_nul_bytes_is_not_binary() {
    assert!(!is_probably_binary(&[0xff, 0xfe, b'H', 0]));
    assert!(!is_probably_binary(&[0xfe, 0xff, 0, b'H']));
    let mut late_nul = vec![b'a'; 8192];
    late_nul.push(0);
    assert!(!is_probably_binary(&late_nul));
    late_nul[8191] = 0;
    assert!(is_probably_binary(&late_nul));
}

#[test]
fn sorting_keeps_equal_keys_in_their_order() {
    let keys: Vec<Vec<char>> = ["b", "a", "b", "a/c", "A"]
        .iter()
        .map(|k| k.chars().collect())
        .collect();
    assert_eq!(sorted_order(&keys), vec![4, 1, 3, 0, 2]);
}

#[test]
fn files_are_bundled_in_case_folded_path_order() {
    let paths: Vec<String> = ["a2", "B1", "A1", "src/Zeta.txt", "src/alpha.txt", "ÉCOLE", "école"]
        .iter()
        .map(|p| p.to_string())
        .collect();
    assert_eq!(bundle_order(&paths), vec![2, 0, 1, 4, 3, 5, 6]);
}

#[test]
fn candidate_names_never_repeat() {
    let mut bundle_names: Vec<String> = (1..=300).map(output_file_name).collect();
    let mut folder_names: Vec<String> = (1..=300).map(|n| embed_folder_name(Some("b"), n)).collect();
    bundle_names.sort();
    bundle_names.dedup();
    folder_names.sort();
    folder_names.dedup();
    assert_eq!(bundle_names.len(), 300);
    assert_eq!(folder_names.len(), 300);
}
