use code_bundler::modification::{line_spans, normalize_line_endings, preferred_line_ending};

fn chars(s: &str) -> Vec<char> {
    s.chars().collect()
}

#[test]
fn line_spans_separate_contents_from_endings() {
    let spans = line_spans(&chars("a\r\nbc\n\nd"));
    let found: Vec<(usize, usize, usize, usize)> = spans
        .iter()
        .map(|s| (s.content_start, s.content_end, s.ending_start, s.ending_end))
        .collect();
    assert_eq!(found, vec![(0, 1, 1, 3), (3, 5, 5, 6), (6, 6, 6, 7), (7, 8, 8, 8)]);
    assert!(line_spans(&chars("")).is_empty());
    assert_eq!(line_spans(&chars("x\n")).len(), 1);
}

#[test]
fn crlf_is_preferred_when_present() {
    assert_eq!(preferred_line_ending(&chars("a\nb\r\nc")), "\r\n");
    assert_eq!(preferred_line_ending(&chars("a\nb\rc")), "\n");
}

#[test]
fn line_endings_are_normalized() {
    assert_eq!(normalize_line_endings("a\r\nb\rc\n", "\r\n"), "a\r\nb\r\nc\r\n");
    assert_eq!(normalize_line_endings("a\r\nb\rc\n", "\n"), "a\nb\nc\n");
}
