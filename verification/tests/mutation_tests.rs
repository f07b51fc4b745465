use hashline::document::{Document, NewlineStyle};
use hashline::error::HashlineError;
use hashline::mutation::{
    delete_line, delete_range, insert_line, move_line, replace_line, replace_range,
    replace_range_with_line, split_content_lines, swap_lines, validate_single_line_content,
};


#[test]
fn replace_line_recomputes_hashes_and_preserves_document_flags() {
    let mut doc = Document::from_str("demo.txt", "alpha\nbeta\n").unwrap();
    let original_newline = doc.newline;
    let original_trailing_newline = doc.trailing_newline;

    replace_line(&mut doc, 1, "gamma").unwrap();

    assert_eq!(doc.lines[1].content.as_ref(), "gamma");
    assert_eq!(doc.newline, original_newline);
    assert_eq!(doc.trailing_newline, original_trailing_newline);
    assert_eq!(doc.render(), b"alpha\ngamma\n");
}

#[test]
fn replace_range_collapses_to_single_line() {
    let mut doc =
        Document::from_str("demo.txt", "alpha\nbeta\ngamma\ndelta\n").unwrap();

    replace_range_with_line(&mut doc, 1, 2, "merged").unwrap();

    assert_eq!(doc.lines.len(), 3);
    assert_eq!(doc.lines[0].content.as_ref(), "alpha");
    assert_eq!(doc.lines[1].content.as_ref(), "merged");
    assert_eq!(doc.lines[2].content.as_ref(), "delta");
    assert_eq!(doc.render(), b"alpha\nmerged\ndelta\n");
}

#[test]
fn replace_range_expands_to_multiple_lines() {
    let mut doc =
        Document::from_str("demo.txt", "alpha\nbeta\ngamma\ndelta\n").unwrap();

    replace_range(&mut doc, 1, 2, "left\nmiddle\nright").unwrap();

    assert_eq!(doc.lines.len(), 5);
    assert_eq!(doc.lines[0].content.as_ref(), "alpha");
    assert_eq!(doc.lines[1].content.as_ref(), "left");
    assert_eq!(doc.lines[2].content.as_ref(), "middle");
    assert_eq!(doc.lines[3].content.as_ref(), "right");
    assert_eq!(doc.lines[4].content.as_ref(), "delta");
    assert_eq!(doc.render(), b"alpha\nleft\nmiddle\nright\ndelta\n");
}

#[test]
fn insert_line_at_index_renumbers_following_lines() {
    let mut doc = Document::from_str("demo.txt", "alpha\ngamma\n").unwrap();
    let original_hash = doc.lines[1].short_hash;

    insert_line(&mut doc, 1, "beta").unwrap();

    assert_eq!(doc.lines.len(), 3);
    assert_eq!(doc.lines[1].content.as_ref(), "beta");
    assert_eq!(doc.lines[2].content.as_ref(), "gamma");
    assert_eq!(doc.lines[2].short_hash, original_hash);
    assert_eq!(doc.render(), b"alpha\nbeta\ngamma\n");
}

#[test]
fn insert_line_allows_appending_to_end() {
    let mut doc = Document::from_str("demo.txt", "alpha\n").unwrap();

    insert_line(&mut doc, 1, "beta").unwrap();

    assert_eq!(doc.render(), b"alpha\nbeta\n");
}

#[test]
fn insert_line_allows_multiline_content() {
    let mut doc = Document::from_str("demo.txt", "alpha\ndelta\n").unwrap();

    insert_line(&mut doc, 1, "beta\ngamma").unwrap();

    assert_eq!(doc.lines.len(), 4);
    assert_eq!(doc.lines[0].content.as_ref(), "alpha");
    assert_eq!(doc.lines[1].content.as_ref(), "beta");
    assert_eq!(doc.lines[2].content.as_ref(), "gamma");
    assert_eq!(doc.lines[3].content.as_ref(), "delta");
    assert_eq!(doc.render(), b"alpha\nbeta\ngamma\ndelta\n");
}

#[test]
fn insert_line_multiline_with_blank_lines() {
    let mut doc = Document::from_str("demo.txt", "alpha\nepsilon\n").unwrap();

    insert_line(&mut doc, 1, "beta\ngamma").unwrap();

    assert_eq!(doc.lines.len(), 4);
    assert_eq!(doc.lines[0].content.as_ref(), "alpha");
    assert_eq!(doc.lines[1].content.as_ref(), "beta");
    assert_eq!(doc.lines[2].content.as_ref(), "gamma");
    assert_eq!(doc.lines[3].content.as_ref(), "epsilon");
    assert_eq!(doc.render(), b"alpha\nbeta\ngamma\nepsilon\n");
}

#[test]
fn delete_line_removes_middle_line() {
    let mut doc = Document::from_str("demo.txt", "alpha\nbeta\ngamma\n").unwrap();
    let original_hash = doc.lines[2].short_hash;

    delete_line(&mut doc, 1).unwrap();

    assert_eq!(doc.lines.len(), 2);
    assert_eq!(doc.lines[0].content.as_ref(), "alpha");
    assert_eq!(doc.lines[1].content.as_ref(), "gamma");
    assert_eq!(doc.lines[1].short_hash, original_hash);
    assert_eq!(doc.render(), b"alpha\ngamma\n");
}

#[test]
fn delete_last_remaining_line_produces_empty_document() {
    let mut doc = Document::from_str("demo.txt", "alpha").unwrap();

    delete_line(&mut doc, 0).unwrap();

    assert!(doc.lines.is_empty());
    assert_eq!(doc.render(), b"");
    assert!(!doc.trailing_newline);
}

#[test]
fn delete_range_removes_multiple_lines() {
    let mut doc =
        Document::from_str("demo.txt", "alpha\nbeta\ngamma\ndelta\n").unwrap();
    let original_hash = doc.lines[3].short_hash;

    delete_range(&mut doc, 1, 2).unwrap();

    assert_eq!(doc.lines.len(), 2);
    assert_eq!(doc.lines[0].content.as_ref(), "alpha");
    assert_eq!(doc.lines[1].content.as_ref(), "delta");
    assert_eq!(doc.lines[1].short_hash, original_hash);
    assert_eq!(doc.render(), b"alpha\ndelta\n");
}

#[test]
fn swap_lines_exchanges_contents_and_recomputes_numbers() {
    let mut doc =
        Document::from_str("demo.txt", "alpha\nbeta\ngamma\ndelta\n").unwrap();
    let beta_hash = doc.lines[1].short_hash;
    let delta_hash = doc.lines[3].short_hash;

    swap_lines(&mut doc, 1, 3).unwrap();

    assert_eq!(doc.render(), b"alpha\ndelta\ngamma\nbeta\n");
    assert_eq!(doc.lines[1].short_hash, delta_hash);
    assert_eq!(doc.lines[3].short_hash, beta_hash);
}

#[test]
fn swap_lines_rejects_same_source_and_target() {
    let mut doc = Document::from_str("demo.txt", "alpha\nbeta\n").unwrap();

    let error = swap_lines(&mut doc, 1, 1).unwrap_err();
    assert!(matches!(
        error,
        HashlineError::PatchFailed { op_index: 0, .. }
    ));
}

#[test]
fn move_line_after_target_adjusts_when_source_is_above_target() {
    let mut doc =
        Document::from_str("demo.txt", "alpha\nbeta\ngamma\ndelta\n").unwrap();
    let alpha_hash = doc.lines[0].short_hash;
    let beta_hash = doc.lines[1].short_hash;

    let inserted_at = move_line(&mut doc, 1, 3, false).unwrap();

    assert_eq!(inserted_at, 3);
    assert_eq!(doc.render(), b"alpha\ngamma\ndelta\nbeta\n");
    assert_eq!(doc.lines[0].short_hash, alpha_hash);
    assert_eq!(doc.lines[3].short_hash, beta_hash);
}

#[test]
fn move_line_before_target_adjusts_when_source_is_above_target() {
    let mut doc =
        Document::from_str("demo.txt", "alpha\nbeta\ngamma\ndelta\n").unwrap();

    let inserted_at = move_line(&mut doc, 1, 3, true).unwrap();

    assert_eq!(inserted_at, 2);
    assert_eq!(doc.render(), b"alpha\ngamma\nbeta\ndelta\n");
}

#[test]
fn move_line_before_target_keeps_target_position_when_source_is_below() {
    let mut doc =
        Document::from_str("demo.txt", "alpha\nbeta\ngamma\ndelta\n").unwrap();

    let inserted_at = move_line(&mut doc, 3, 1, true).unwrap();

    assert_eq!(inserted_at, 1);
    assert_eq!(doc.render(), b"alpha\ndelta\nbeta\ngamma\n");
}

#[test]
fn move_line_rejects_same_source_and_target() {
    let mut doc = Document::from_str("demo.txt", "alpha\nbeta\n").unwrap();

    let error = move_line(&mut doc, 1, 1, true).unwrap_err();
    assert!(matches!(
        error,
        HashlineError::PatchFailed { op_index: 0, .. }
    ));
}

#[test]
fn preserves_crlf_and_trailing_newline_flags_through_mutation() {
    let mut doc = Document::from_str("demo.txt", "alpha\r\nbeta\r\n").unwrap();

    insert_line(&mut doc, 1, "middle").unwrap();

    assert_eq!(doc.newline, NewlineStyle::Crlf);
    assert!(doc.trailing_newline);
    assert_eq!(doc.render(), b"alpha\r\nmiddle\r\nbeta\r\n");
}

#[test]
fn multiline_content_is_rejected() {
    let mut doc = Document::from_str("demo.txt", "alpha\n").unwrap();

    let error = replace_line(&mut doc, 0, "beta\ngamma").unwrap_err();
    assert!(matches!(error, HashlineError::MultiLineContentUnsupported));
}

#[test]
fn split_content_lines_preserves_internal_blank_lines() {
    assert_eq!(
        split_content_lines("alpha\n\nbeta"),
        vec![
            Box::<str>::from("alpha"),
            Box::<str>::from(""),
            Box::<str>::from("beta")
        ]
    );
}

#[test]
fn invalid_indices_are_rejected() {
    let mut doc = Document::from_str("demo.txt", "alpha\n").unwrap();

    let error = delete_line(&mut doc, 1).unwrap_err();
    assert!(matches!(
        error,
        HashlineError::MutationIndexOutOfBounds { index: 1, len: 1 }
    ));
}

#[test]
fn invalid_range_is_rejected() {
    let mut doc = Document::from_str("demo.txt", "alpha\nbeta\n").unwrap();

    let error = replace_range_with_line(&mut doc, 1, 2, "gamma").unwrap_err();
    assert!(matches!(
        error,
        HashlineError::InvalidMutationRange {
            start: 1,
            end: 2,
            len: 2
        }
    ));
}

#[test]
fn validate_single_line_content_rejects_carriage_return() {
    let error = validate_single_line_content("alpha\rbeta").unwrap_err();
    assert!(matches!(error, HashlineError::MultiLineContentUnsupported));
}
