use hashline::document::{original_line_byte_span, Document, FileContent, NewlineStyle};
use std::path::PathBuf;

#[test]
fn test_lines_with_hashes_includes_all_lines() {
    let fc = FileContent {
        path: PathBuf::from("demo.txt"),
        raw: "a\nb\n".into(),
        normalized: "a\nb\n".into(),
        newline: NewlineStyle::Lf,
        trailing_newline: true,
        hash: "abcd".into(),
    };
    let entries = fc.lines_with_hashes();
    assert_eq!(entries.len(), 3); // "a", "b", ""
    assert_eq!(entries[0].content, "a");
    assert_eq!(entries[1].content, "b");
    assert_eq!(entries[2].content, "");
}

#[test]
fn original_line_spans_count_bytes_and_separators() {
    let doc = Document::from_str("a.txt", "ab\r\ncd\r\n").unwrap();
    assert_eq!(original_line_byte_span(&doc, 1, 2), Some((4, 6)));
    assert_eq!(original_line_byte_span(&doc, 0, 2), Some((0, 2)));
    assert_eq!(original_line_byte_span(&doc, 2, 0), None);
    let doc = Document::from_str("b.txt", "\u{e9}\nx").unwrap();
    assert_eq!(original_line_byte_span(&doc, 1, 1), Some((3, 4)));
}
