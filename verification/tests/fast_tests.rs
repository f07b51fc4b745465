use hashline::document::Document;
use hashline::error::HashlineError;
use hashline::mutation::move_line;
use hashline::fast::{
    fast_delete_lines, fast_find_query, fast_from_hash, fast_fuzzy_resolve, fast_indent_checked, fast_indent_guarded, fast_move_line_checked, fast_query_edit, fast_replace_range_checked,
    fast_indent_lines,
    fast_insert_line, fast_insert_line_before, fast_move_line, fast_replace_line, fast_replace_range,
    fast_swap_lines, get_line_content, get_line_range,
};
use hashline::hash::short_hash_value;

fn h(s: &str) -> u8 {
    short_hash_value(s)
}

#[test]
fn line_content_strips_cr_before_newline() {
    assert_eq!(get_line_content("a\r\nb\n", 0), Some("a".to_string()));
    assert_eq!(get_line_content("a\r\nb\n", 1), Some("b".to_string()));
    assert_eq!(get_line_content("a\r\nb\n", 2), None);
    assert_eq!(get_line_content("", 0), None);
}

#[test]
fn line_range_is_cut_at_last_line() {
    assert_eq!(get_line_range("a\nb\nc", 1, 5), vec!["b".to_string(), "c".to_string()]);
    assert_eq!(get_line_range("a\nb\nc", 0, 0), vec!["a".to_string()]);
    assert!(get_line_range("a\nb", 4, 6).is_empty());
}

#[test]
fn replace_line_keeps_crlf_and_returns_old_line() {
    let (text, old) = fast_replace_line("a\r\nb\n", 0, h("a"), "x").unwrap();
    assert_eq!(text, "x\r\nb\n");
    assert_eq!(old, "a");
    let (text, old) = fast_replace_line("a\nb", 1, h("b"), "y").unwrap();
    assert_eq!(text, "a\ny");
    assert_eq!(old, "b");
}

#[test]
fn replace_line_reports_stale_hash() {
    let wrong = h("a").wrapping_add(1);
    match fast_replace_line("a\nb", 0, wrong, "x") {
        Err(HashlineError::StaleAnchor { line, anchor, .. }) => {
            assert_eq!(line, 1);
            assert!(anchor.starts_with("1:"));
        }
        other => panic!("unexpected {:?}", other),
    }
}

#[test]
fn out_of_range_line_reports_byte_offset_of_last_line() {
    match fast_replace_line("a\nb", 5, 0, "x") {
        Err(HashlineError::MutationIndexOutOfBounds { index, len }) => {
            assert_eq!(index, 5);
            assert_eq!(len, 3);
        }
        other => panic!("unexpected {:?}", other),
    }
    match fast_delete_lines("\u{e9}\nb", 3, 3, 0) {
        Err(HashlineError::MutationIndexOutOfBounds { index, len }) => {
            assert_eq!(index, 3);
            assert_eq!(len, 4);
        }
        other => panic!("unexpected {:?}", other),
    }
}

#[test]
fn replace_range_splices_lines() {
    let (text, first, last) = fast_replace_range("a\nb\nc\nd", 1, 2, h("b"), h("c"), "X").unwrap();
    assert_eq!(text, "a\nX\nd");
    assert_eq!(first, "b");
    assert_eq!(last, "c");
    let (text, _, last) = fast_replace_range("a\nb", 0, 9, h("a"), h("b"), "Z").unwrap();
    assert_eq!(text, "Z");
    assert_eq!(last, "b");
}

#[test]
fn replace_range_checks_end_hash() {
    let wrong = h("c").wrapping_add(1);
    match fast_replace_range("a\nb\nc", 0, 2, h("a"), wrong, "X") {
        Err(HashlineError::StaleAnchor { line, .. }) => assert_eq!(line, 3),
        other => panic!("unexpected {:?}", other),
    }
}

#[test]
fn insert_line_after_and_before() {
    assert_eq!(fast_insert_line("a\nb", 0, "x").unwrap(), "a\nx\nb");
    assert_eq!(fast_insert_line("a\r\nb", 0, "x").unwrap(), "a\r\nx\r\nb");
    assert_eq!(fast_insert_line("a", 5, "x").unwrap(), "ax\n");
    assert_eq!(fast_insert_line_before("a\nb", 0, "x").unwrap(), "x\na\nb");
    assert_eq!(fast_insert_line_before("a\nb", 1, "x").unwrap(), "a\nx\nb");
}

#[test]
fn find_query_gives_line_of_first_match() {
    assert_eq!(fast_find_query("ab\ncd\nef", "cd").unwrap(), 1);
    assert_eq!(fast_find_query("ab\ncd\nef", "").unwrap(), 0);
    match fast_find_query("ab", "zz") {
        Err(HashlineError::QueryNotFound { query, path }) => {
            assert_eq!(query, "zz");
            assert_eq!(path, "");
        }
        other => panic!("unexpected {:?}", other),
    }
}

#[test]
fn delete_lines_removes_range() {
    assert_eq!(fast_delete_lines("a\nb\nc", 1, 1, h("b")).unwrap(), "a\nc");
    assert_eq!(fast_delete_lines("a\nb", 1, 1, h("b")).unwrap(), "a\n");
    assert_eq!(fast_delete_lines("a\nb\nc", 0, 1, h("a")).unwrap(), "c");
    assert_eq!(fast_delete_lines("a\nb", 1, 0, h("b")).unwrap(), "a\nb");
}

#[test]
fn swap_lines_exchanges_whole_lines() {
    assert_eq!(fast_swap_lines("a\nb\nc", 0, 2, h("a"), h("c")).unwrap(), "c\nb\na");
    assert_eq!(fast_swap_lines("a\r\nb", 0, 1, h("a"), h("b")).unwrap(), "b\na\r");
    match fast_swap_lines("a\nb", 1, 1, 0, 0) {
        Err(HashlineError::PatchFailed { op_index, reason }) => {
            assert_eq!(op_index, 0);
            assert_eq!(reason, "source and target must resolve to different lines");
        }
        other => panic!("unexpected {:?}", other),
    }
}

#[test]
fn move_line_before_and_after_target() {
    assert_eq!(fast_move_line("a\nb\nc\n", 0, 2, h("a"), false).unwrap(), "b\nc\na\n");
    assert_eq!(fast_move_line("a\nb\nc\n", 0, 2, h("a"), true).unwrap(), "b\na\nc\n");
    assert_eq!(fast_move_line("a\r\nb\r\nc", 2, 0, h("c"), true).unwrap(), "c\r\na\r\nb");
    match fast_move_line("a\nb", 0, 0, h("a"), true) {
        Err(HashlineError::PatchFailed { reason, .. }) => {
            assert_eq!(reason, "source and target must be different")
        }
        other => panic!("unexpected {:?}", other),
    }
}

#[test]
fn indent_lines_adds_and_removes_spaces() {
    assert_eq!(fast_indent_lines("a\n b\nc", 0, 1, h("a"), 2).unwrap(), "  a\n   b\nc");
    assert_eq!(fast_indent_lines("a\n   b\nc\n", 1, 9, h("   b"), -2).unwrap(), "a\n b\nc\n");
    match fast_indent_lines("a\nb", 0, 0, h("a").wrapping_add(1), 1) {
        Err(HashlineError::StaleAnchor { anchor, line, .. }) => {
            assert_eq!(&*anchor, "1");
            assert_eq!(line, 1);
        }
        other => panic!("unexpected {:?}", other),
    }
}

#[test]
fn from_hash_finds_unique_line() {
    assert_eq!(fast_from_hash("a\nb\na", h("b")).unwrap(), 1);
    match fast_from_hash("a\nb\na", h("a")) {
        Err(HashlineError::AmbiguousHash { count, lines, .. }) => {
            assert_eq!(count, 2);
            assert_eq!(lines, "1, 3");
        }
        other => panic!("unexpected {:?}", other),
    }
}

#[test]
fn fuzzy_resolve_looks_three_lines_around() {
    assert_eq!(fast_fuzzy_resolve("x\ny\nz\na", 1, h("a")), Some(3));
    assert_eq!(fast_fuzzy_resolve("x\ny\nz\na", 3, h("a")), Some(3));
    assert_eq!(fast_fuzzy_resolve("a\nx\nx\nx\nx\nx", 5, h("a")), None);
}

#[test]
fn replaced_line_reads_back() {
    let (text, _) = fast_replace_line("a\r\nb\r\nc", 1, h("b"), "new").unwrap();
    assert_eq!(get_line_content(&text, 1), Some("new".to_string()));
    assert_eq!(get_line_content(&text, 0), Some("a".to_string()));
    assert_eq!(get_line_content(&text, 2), Some("c".to_string()));
}

#[test]
fn swapping_twice_restores_text() {
    let c = "one\ntwo\r\nthree\n";
    let once = fast_swap_lines(c, 0, 2, h("one"), h("three")).unwrap();
    let twice = fast_swap_lines(&once, 0, 2, h("three"), h("one")).unwrap();
    assert_eq!(twice, c);
}

#[test]
fn insert_then_delete_restores_text() {
    for c in ["a\nb\nc", "a\r\nb\r\n", "x\ny\n"] {
        let t = fast_insert_line(c, 0, "new").unwrap();
        let back = fast_delete_lines(&t, 1, 1, h("new")).unwrap();
        assert_eq!(back, c);
    }
}

#[test]
fn guarded_indent_checks_whole_text_first() {
    match fast_indent_guarded("\ta\n b\n", 1, 1, h(" b"), 1) {
        Err(HashlineError::MixedIndentation { line_no }) => assert_eq!(line_no, 2),
        other => panic!("unexpected {:?}", other),
    }
    match fast_indent_guarded(" a\n  b", 0, 1, h(" a"), -2) {
        Err(HashlineError::IndentUnderflow { line_no, amount, available, kind }) => {
            assert_eq!((line_no, amount, available, kind), (1, 2, 1, "spaces"));
        }
        other => panic!("unexpected {:?}", other),
    }
    assert_eq!(fast_indent_guarded("  a\n  b", 0, 1, h("  a"), -2).unwrap(), "a\nb");
}

#[test]
fn fast_move_line_agrees_with_document_move_line() {
    let text = "alpha\nbeta\ngamma\ndelta\n";
    for (source, target, before) in [(1usize, 3usize, false), (1, 3, true), (3, 0, true), (2, 0, false)] {
        let moved = fast_move_line(text, source, target, h(text.lines().nth(source).unwrap()), before).unwrap();
        let mut doc = Document::from_str("demo.txt", text).unwrap();
        move_line(&mut doc, source, target, before).unwrap();
        assert_eq!(moved.as_bytes(), doc.render().as_slice());
    }
}

#[test]
fn checked_indent_refuses_only_the_empty_text_whose_hash_fits() {
    assert!(fast_indent_checked("", 0, 0, h(""), 2).is_none());
    let other = h("").wrapping_add(1);
    match fast_indent_checked("", 0, 0, other, 2) {
        Some(Err(HashlineError::StaleAnchor { line: 1, .. })) => {}
        r => panic!("unexpected {r:?}"),
    }
    assert_eq!(fast_indent_checked("a\n", 0, 0, h("a"), 2).unwrap().unwrap(), "  a\n");
}

#[test]
fn checked_move_refuses_only_the_final_empty_piece_when_it_passes() {
    assert!(fast_move_line_checked("a\nb\n", 2, 0, h(""), true).is_none());
    match fast_move_line_checked("a\nb\n", 2, 0, h("").wrapping_add(1), true) {
        Some(Err(HashlineError::StaleAnchor { line: 3, .. })) => {}
        r => panic!("unexpected {r:?}"),
    }
    assert_eq!(fast_move_line_checked("a\nb\n", 0, 1, h("a"), false).unwrap().unwrap(), "b\na\n");
}

#[test]
fn query_edit_replaces_the_line_holding_the_query() {
    let (n, text, old) = fast_query_edit("a\nfind me\nc\n", "find", "found").unwrap();
    assert_eq!((n, text.as_str(), old.as_str()), (1, "a\nfound\nc\n", "find me"));
    assert!(matches!(fast_query_edit("a\nb\n", "zz", "x"), Err(HashlineError::QueryNotFound { .. })));
}

#[test]
fn checked_range_refuses_only_a_backwards_range_that_passes_its_first_check() {
    assert!(fast_replace_range_checked("a\nb\nc\n", 2, 1, h("c"), h("b"), "x").is_none());
    match fast_replace_range_checked("a\nb\nc\n", 2, 1, h("c").wrapping_add(1), h("b"), "x") {
        Some(Err(HashlineError::StaleAnchor { line: 3, .. })) => {}
        r => panic!("unexpected {r:?}"),
    }
    let (text, _, _) = fast_replace_range_checked("a\nb\nc\n", 0, 1, h("a"), h("b"), "x").unwrap().unwrap();
    assert_eq!(text, "x\nc\n");
}
