use hashline::document::LineEntry;
use hashline::edit::{Anchor, BlockMode, Cursor, Edit, InsertMode};
use hashline::error::HashlineError;
use hashline::hash::{format_short_hash, short_hash_value};
use hashline::patch::{apply_edits, apply_edits_with, split_normalized};

// The edits a patch parses into: each operation carries the patch line it
// was written on; a `SWAP a..=b` is one replacement insert per body row
// before `a` and one delete per line of `a..=b`.

fn insert(cursor: Cursor, text: &str, line_num: usize, mode: Option<InsertMode>) -> Edit {
    Edit::Insert {
        cursor,
        text: text.to_string(),
        line_num,
        index: 0,
        mode,
        block_start: None,
        expected_hash: None,
    }
}

fn swap(first: usize, last: usize, body: &[&str], line_num: usize, hash: Option<u8>) -> Vec<Edit> {
    let mut v = Vec::new();
    for row in body {
        v.push(Edit::Insert {
            cursor: Cursor::BeforeAnchor(Anchor { line: first }),
            text: row.to_string(),
            line_num,
            index: 0,
            mode: Some(InsertMode::Replacement),
            block_start: None,
            expected_hash: hash,
        });
    }
    for line in first..=last {
        v.push(Edit::Delete { anchor: Anchor { line }, line_num, index: 0, expected_hash: hash });
    }
    v
}

fn del(first: usize, last: usize, line_num: usize, hash: Option<u8>) -> Vec<Edit> {
    (first..=last)
        .map(|line| Edit::Delete { anchor: Anchor { line }, line_num, index: 0, expected_hash: hash })
        .collect()
}

fn post(after: usize, body: &[&str], line_num: usize) -> Vec<Edit> {
    body.iter().map(|t| insert(Cursor::AfterAnchor(Anchor { line: after }), t, line_num, None)).collect()
}

fn block(line: usize, body: &[&str], mode: Option<BlockMode>, line_num: usize, hash: Option<u8>) -> Edit {
    Edit::Block {
        anchor: Anchor { line },
        payloads: body.iter().map(|s| s.to_string()).collect(),
        line_num,
        mode,
        expected_hash: hash,
    }
}

fn entries_of(lines: &[String]) -> Vec<LineEntry> {
    lines.iter().map(|s| LineEntry { content: s.clone(), short_hash: short_hash_value(s) }).collect()
}

fn apply_text_ext(original: &str, edits: &[Edit], ext: &str) -> String {
    let mut lines: Vec<String> =
        if original.is_empty() { Vec::new() } else { original.split('\n').map(|s| s.to_string()).collect() };
    let entries = entries_of(&lines);
    let path_str = format!("test.{ext}");
    apply_edits(&mut lines, &entries, &path_str, edits).expect("edit should succeed");
    lines.join("\n")
}

fn apply_text(original: &str, edits: &[Edit]) -> String {
    apply_text_ext(original, edits, "rs")
}

fn apply_text_result(original: &str, edits: &[Edit], ext: &str) -> Result<String, HashlineError> {
    let mut lines = split_normalized(original);
    let entries = entries_of(&lines);
    let path_str = format!("test.{ext}");
    apply_edits(&mut lines, &entries, &path_str, edits)?;
    let result = lines.join("\n");
    Ok(if original.ends_with('\n') && !lines.is_empty() { result + "\n" } else { result })
}

fn h(s: &str) -> u8 {
    short_hash_value(s)
}

const L12: &str = "L01\nL02\nL03\nL04\nL05\nL06\nL07\nL08\nL09\nL10\nL11\nL12";

#[test]
fn test_swap_single_line() {
    let result = apply_text("line1\nline2\nline3", &swap(2, 2, &["replaced2"], 1, None));
    assert_eq!(result, "line1\nreplaced2\nline3");
}

#[test]
fn test_swap_range() {
    let result = apply_text("line1\nline2\nline3\nline4", &swap(2, 3, &["x", "y"], 1, None));
    assert_eq!(result, "line1\nx\ny\nline4");
}

#[test]
fn test_delete_single() {
    let result = apply_text("line1\nline2\nline3", &del(2, 2, 1, None));
    assert_eq!(result, "line1\nline3");
}

#[test]
fn test_delete_range() {
    let result = apply_text("line1\nline2\nline3\nline4", &del(2, 3, 1, None));
    assert_eq!(result, "line1\nline4");
}

#[test]
fn test_insert_post() {
    let result = apply_text("line1\nline2", &post(1, &["inserted"], 1));
    assert_eq!(result, "line1\ninserted\nline2");
}

#[test]
fn test_insert_pre() {
    let edits = vec![insert(Cursor::BeforeAnchor(Anchor { line: 2 }), "inserted", 1, None)];
    let result = apply_text("line1\nline2", &edits);
    assert_eq!(result, "line1\ninserted\nline2");
}

#[test]
fn test_insert_head() {
    let result = apply_text("line1\nline2", &[insert(Cursor::Bof, "header", 1, None)]);
    assert_eq!(result, "header\nline1\nline2");
}

#[test]
fn test_insert_tail() {
    let result = apply_text("line1\nline2", &[insert(Cursor::Eof, "footer", 1, None)]);
    assert_eq!(result, "line1\nline2\nfooter");
}

#[test]
fn test_multiple_insert_post() {
    let result = apply_text("line1\nline2", &post(1, &["a", "b"], 1));
    assert_eq!(result, "line1\na\nb\nline2");
}

#[test]
fn test_swap_without_body_reduces_to_delete_range() {
    let result = apply_text("line1\nline2\nline3", &swap(2, 2, &[], 1, None));
    assert_eq!(result, "line1\nline3");
}

#[test]
fn test_empty_original_swapped() {
    let result = apply_text("", &[insert(Cursor::Bof, "newline", 1, None)]);
    assert_eq!(result, "newline");
}

#[test]
fn test_patch_with_header() {
    let result = apply_text("line1\nline2\nline3", &del(2, 2, 2, None));
    assert_eq!(result, "line1\nline3");
}

#[test]
fn test_swap_then_insert() {
    let mut edits = swap(2, 2, &["x"], 1, None);
    edits.push(insert(Cursor::Eof, "y", 3, None));
    let result = apply_text("a\nb\nc", &edits);
    assert_eq!(result, "a\nx\nc\ny");
}

#[test]
fn test_swap_block_rust_function() {
    let original = "fn hello() {\n    let x = 1;\n    if true {\n        println!(\"ok\");\n    }\n}\n";
    let edits = vec![block(1, &["fn replaced() {", "    // new body", "}"], None, 1, None)];
    let result = apply_text(original, &edits);
    assert_eq!(result, "fn replaced() {\n    // new body\n}\n");
}

#[test]
fn test_swap_block_inner() {
    let original = "fn hello() {\n    let x = 1;\n    if true {\n        println!(\"ok\");\n    }\n}\n";
    let edits = vec![block(3, &["if false {", "        // nothing", "    }"], None, 1, None)];
    let result = apply_text(original, &edits);
    assert_eq!(result, "fn hello() {\n    let x = 1;\nif false {\n        // nothing\n    }\n}\n");
}

#[test]
fn test_delete_block_rust() {
    let original = "fn hello() {\n    let x = 1;\n}\n";
    let result = apply_text(original, &[block(1, &[], None, 1, None)]);
    assert_eq!(result, "");
}

#[test]
fn test_insert_after_block_rust() {
    let original = "fn hello() {\n    let x = 1;\n}\n";
    let edits = vec![block(1, &["fn world() {", "    let y = 2;", "}"], Some(BlockMode::InsertAfter), 1, None)];
    let result = apply_text(original, &edits);
    assert_eq!(result, "fn hello() {\n    let x = 1;\n}\nfn world() {\n    let y = 2;\n}\n");
}

#[test]
fn test_swap_block_python() {
    let original = "def hello():\n    x = 1\n    if True:\n        print('ok')\n    return x\n";
    let result = apply_text_ext(original, &[block(1, &["def hi():", "    pass"], None, 1, None)], "py");
    assert_eq!(result, "def hi():\n    pass\n");
}

#[test]
fn test_escape_plus_in_payload() {
    let result = apply_text("before\nafter", &swap(2, 2, &["+x"], 1, None));
    assert_eq!(result, "before\n+x");
}

#[test]
fn test_escape_dash_in_payload() {
    let result = apply_text("before\nafter", &swap(2, 2, &["-x"], 1, None));
    assert_eq!(result, "before\n-x");
}

#[test]
fn bug89_multi_op_insert_then_hash_swap_respects_shift() {
    let mut edits = post(1, &["XXX"], 1);
    edits.extend(swap(4, 4, &["ZZZ"], 3, None));
    let result = apply_text_result("AAA\nBBB\nCCC\nDDD", &edits, "txt").unwrap();
    assert_eq!(result, "AAA\nXXX\nBBB\nCCC\nZZZ");
}

#[test]
fn bug89_multi_op_hash_rejected_on_wrong_line_after_insert() {
    assert_eq!(format_short_hash(h("DDD")), "ac");
    let mut edits = post(1, &["XXX"], 1);
    edits.extend(swap(4, 4, &["ZZZ"], 3, Some(0xac)));
    let result = apply_text_result("AAA\nBBB\nCCC\nDDD", &edits, "txt").unwrap();
    assert_eq!(result, "AAA\nXXX\nBBB\nCCC\nZZZ");
}

#[test]
fn bug89_blk_swap_with_bad_hash_errors() {
    let original = "fn hello() {\n    let x = 1;\n}\n";
    let edits = vec![block(1, &["fn replaced() {", "}"], None, 1, Some(0xff))];
    let err = apply_text_result(original, &edits, "rs").unwrap_err();
    assert!(err.message().contains("content changed since last read"), "expected StaleAnchor error, got: {err:?}");
}

#[test]
fn bug89_blk_del_with_bad_hash_errors() {
    let original = "fn hello() {\n    let x = 1;\n}\n";
    let err = apply_text_result(original, &[block(1, &[], None, 1, Some(0xff))], "rs").unwrap_err();
    assert!(err.message().contains("content changed since last read"), "expected StaleAnchor error, got: {err:?}");
}

#[test]
fn bug89_blk_ins_after_with_valid_hash_succeeds() {
    let original = "fn hello() {\n    let x = 1;\n}\n";
    let edits = vec![block(1, &["fn world() {", "}"], Some(BlockMode::InsertAfter), 1, Some(h("fn hello() {")))];
    let result = apply_text_result(original, &edits, "rs").unwrap();
    assert!(result.contains("fn world()"));
}

#[test]
fn bug89_blk_out_of_range_errors() {
    let err = apply_text_result("a\nb\nc\n", &[block(999, &["x"], None, 1, None)], "rs").unwrap_err();
    assert!(err.message().contains("not found"), "expected InvalidAnchor error, got: {err:?}");
}

#[test]
fn bug89_python_block_at_interior_line_only_replaces_that_line() {
    let original = "def hello():\n    # comment\n    x = 1\n    return x";
    let edits = vec![block(2, &["    # replaced comment"], None, 1, None)];
    let result = apply_text_result(original, &edits, "py").unwrap();
    assert_eq!(result, "def hello():\n    # replaced comment\n    x = 1\n    return x");
}

#[test]
fn bug89_ins_blk_alias_works() {
    let original = "fn hello() {\n    let x = 1;\n}\n";
    let edits = vec![block(1, &["fn world() {", "}"], Some(BlockMode::InsertAfter), 1, None)];
    let result = apply_text_result(original, &edits, "rs").unwrap();
    assert_eq!(result, "fn hello() {\n    let x = 1;\n}\nfn world() {\n}\n");
}

#[test]
fn bug89_ins_blk_pre_works() {
    let original = "fn hello() {\n    let x = 1;\n}\n";
    let edits = vec![block(1, &["fn preamble() {", "}"], Some(BlockMode::InsertBefore), 1, None)];
    let result = apply_text_result(original, &edits, "rs").unwrap();
    assert_eq!(result, "fn preamble() {\n}\nfn hello() {\n    let x = 1;\n}\n");
}

#[test]
fn bug89_case_insensitive_keywords() {
    let result = apply_text_result("AAA\nBBB\nCCC", &swap(2, 2, &["replaced"], 1, None), "txt").unwrap();
    assert_eq!(result, "AAA\nreplaced\nCCC");
}

#[test]
fn bug89_blk_hash_on_swap_block_mismatch() {
    assert_ne!(h("DDD"), 0xff);
    let err = apply_text_result("AAA\nBBB\nCCC\nDDD\n", &[block(4, &["ZZZ"], None, 1, Some(0xff))], "txt").unwrap_err();
    assert!(
        err.message().contains("content changed since last read"),
        "expected StaleAnchor error for BLK hash mismatch, got: {err:?}"
    );
}

#[test]
fn bug89_blk_valid_hash_swap_block_succeeds() {
    let original = "fn a() {}\nfn b() {\n    let x = 1;\n}";
    let edits = vec![block(1, &["fn replaced() {", "}"], None, 1, Some(h("fn a() {}")))];
    let result = apply_text_result(original, &edits, "rs").unwrap();
    assert_eq!(result, "fn replaced() {\n}\nfn b() {\n    let x = 1;\n}");
}

#[test]
fn bug95_swap_blk_range_replaces_concrete_lines() {
    let result = apply_text("line1\nline2\nline3\nline4\nline5", &swap(2, 4, &["x", "y", "z"], 1, None));
    assert_eq!(result, "line1\nx\ny\nz\nline5");
}

#[test]
fn bug95_swap_blk_range_with_hash() {
    let mut edits = swap(2, 4, &["x", "y", "z"], 1, None);
    if let Edit::Insert { expected_hash, .. } = &mut edits[0] {
        *expected_hash = Some(h("line2"));
    }
    let result = apply_text("line1\nline2\nline3\nline4\nline5", &edits);
    assert_eq!(result, "line1\nx\ny\nz\nline5");
}

#[test]
fn bug95_del_blk_range_deletes_concrete_lines() {
    let result = apply_text("line1\nline2\nline3\nline4\nline5", &del(2, 4, 1, None));
    assert_eq!(result, "line1\nline5");
}

#[test]
fn bug95_swap_blk_range_after_swap_no_corruption() {
    let mut edits = swap(1, 1, &["updated1"], 1, None);
    edits.extend(swap(3, 4, &["x", "y"], 3, None));
    let result = apply_text("line1\nline2\nline3\nline4\nline5", &edits);
    assert_eq!(result, "updated1\nline2\nx\ny\nline5");
}

#[test]
fn bug95_swap_blk_single_anchor_still_resolves_block() {
    let original = "fn hello() {\n    let x = 1;\n    if true {\n        println!(\"ok\");\n    }\n}\n";
    let edits = vec![block(1, &["fn replaced() {", "    // new body", "}"], None, 1, None)];
    let result = apply_text(original, &edits);
    assert_eq!(result, "fn replaced() {\n    // new body\n}\n");
}

#[test]
fn bug95_del_blk_single_anchor_still_resolves_block() {
    let result = apply_text("fn hello() {\n    let x = 1;\n}\n", &[block(1, &[], None, 1, None)]);
    assert_eq!(result, "");
}

#[test]
fn bug95_swap_blk_range_followed_by_insert() {
    let mut edits = swap(2, 3, &["x", "y"], 1, None);
    edits.push(insert(Cursor::Eof, "z", 4, None));
    let result = apply_text("line1\nline2\nline3\nline4\nline5", &edits);
    assert_eq!(result, "line1\nx\ny\nline4\nline5\nz");
}

#[test]
fn bug95_del_blk_range_followed_by_insert() {
    let mut edits = del(2, 4, 1, None);
    edits.push(insert(Cursor::Bof, "prefix", 2, None));
    let result = apply_text("line1\nline2\nline3\nline4\nline5", &edits);
    assert_eq!(result, "prefix\nline1\nline5");
}

#[test]
fn bug95_swap_blk_range_no_hash_on_second_anchor() {
    let mut edits = swap(2, 4, &["x", "y", "z"], 1, None);
    if let Edit::Insert { expected_hash, .. } = &mut edits[0] {
        *expected_hash = Some(h("line2"));
    }
    let result = apply_text("line1\nline2\nline3\nline4\nline5", &edits);
    assert_eq!(result, "line1\nx\ny\nz\nline5");
}

#[test]
fn bug93_interior_blank_lines_in_ins_post() {
    let edits = post(2, &["First paragraph.", "", "Second paragraph."], 1);
    let result = apply_text("Intro line.\nAnchor paragraph.\nTrailing line.", &edits);
    assert_eq!(result, "Intro line.\nAnchor paragraph.\nFirst paragraph.\n\nSecond paragraph.\nTrailing line.");
}

#[test]
fn bug93_bare_minus_lines_preserved() {
    let edits = post(2, &["Here is a list:", "- first item", "- second item", "Done."], 1);
    let result = apply_text("Intro line.\nAnchor paragraph.\nTrailing line.", &edits);
    assert_eq!(
        result,
        "Intro line.\nAnchor paragraph.\nHere is a list:\n- first item\n- second item\nDone.\nTrailing line."
    );
}

#[test]
fn bug93_trailing_blanks_still_stripped() {
    let result = apply_text("AAA\nBBB\nCCC", &post(2, &["XXX", "YYY"], 1));
    assert_eq!(result, "AAA\nBBB\nXXX\nYYY\nCCC");
}

#[test]
fn bug93_interior_and_trailing_blanks() {
    let result = apply_text("AAA\nBBB\nCCC", &post(2, &["XXX", "", "YYY"], 1));
    assert_eq!(result, "AAA\nBBB\nXXX\n\nYYY\nCCC");
}

#[test]
fn bug104_del_after_swap_non_adjacent_targets() {
    let mut edits = swap(10, 10, &["S10"], 1, None);
    edits.extend(del(5, 5, 3, None));
    assert_eq!(apply_text(L12, &edits), "L01\nL02\nL03\nL04\nL06\nL07\nL08\nL09\nS10\nL11\nL12");
}

#[test]
fn bug104_del_range_after_swap() {
    let mut edits = swap(10, 10, &["S10"], 1, None);
    edits.extend(del(5, 7, 3, None));
    assert_eq!(apply_text(L12, &edits), "L01\nL02\nL03\nL04\nL08\nL09\nS10\nL11\nL12");
}

#[test]
fn bug104_del_after_multi_line_swap() {
    let mut edits = swap(10, 10, &["S10a", "S10b"], 1, None);
    edits.extend(del(5, 5, 4, None));
    assert_eq!(apply_text(L12, &edits), "L01\nL02\nL03\nL04\nL06\nL07\nL08\nL09\nS10a\nS10b\nL11\nL12");
}

#[test]
fn bug104_del_after_swap_range() {
    let mut edits = swap(9, 10, &["S9"], 1, None);
    edits.extend(del(5, 5, 3, None));
    assert_eq!(apply_text(L12, &edits), "L01\nL02\nL03\nL04\nL06\nL07\nL08\nS9\nL11\nL12");
}

#[test]
fn bug104_del_after_interleaved_swaps() {
    let mut edits = swap(12, 12, &["S12"], 1, None);
    edits.extend(swap(10, 10, &["S10"], 3, None));
    edits.extend(del(5, 5, 5, None));
    assert_eq!(apply_text(L12, &edits), "L01\nL02\nL03\nL04\nL06\nL07\nL08\nL09\nS10\nL11\nS12");
}

#[test]
fn bug104_two_dels_after_one_swap() {
    let mut edits = swap(10, 10, &["S10"], 1, None);
    edits.extend(del(5, 5, 3, None));
    edits.extend(del(3, 3, 4, None));
    assert_eq!(apply_text(L12, &edits), "L01\nL02\nL04\nL06\nL07\nL08\nL09\nS10\nL11\nL12");
}

#[test]
fn bug104_del_blk_two_anchor_after_swap() {
    let mut edits = swap(10, 10, &["S10"], 1, None);
    edits.extend(del(5, 7, 3, None));
    assert_eq!(apply_text(L12, &edits), "L01\nL02\nL03\nL04\nL08\nL09\nS10\nL11\nL12");
}

#[test]
fn bug104_del_after_swap_wrong_hash_guard() {
    assert_ne!(h("L05"), 0xaa);
    let mut edits = swap(10, 10, &["S10"], 1, None);
    edits.extend(del(5, 5, 3, Some(0xaa)));
    let err = apply_text_result(L12, &edits, "md").unwrap_err();
    assert!(err.message().contains("content changed since last read"), "expected StaleAnchor error, got: {err:?}");
}

// ---- further cases ----

#[test]
fn split_normalized_drops_final_empty_piece() {
    assert_eq!(split_normalized("a\nb\n"), vec!["a".to_string(), "b".to_string()]);
    assert_eq!(split_normalized("a\nb"), vec!["a".to_string(), "b".to_string()]);
    assert_eq!(split_normalized("a\n\n"), vec!["a".to_string(), "".to_string()]);
    assert!(split_normalized("").is_empty());
}

#[test]
fn stale_anchor_error_names_line_hashes_and_path() {
    let mut lines = split_normalized("one\ntwo\nthree");
    let entries = entries_of(&lines);
    let bad = h("two").wrapping_add(1);
    let edits = del(2, 2, 1, Some(bad));
    let err = apply_edits_with(&mut lines, &entries, "txt", "notes.txt", &edits).unwrap_err();
    match err {
        HashlineError::StaleAnchor { anchor, line, expected, actual, path, relocated_suffix } => {
            assert_eq!(line, 2);
            assert_eq!(&*anchor, format!("2:{}", format_short_hash(bad)).as_str());
            assert_eq!(&*expected, format_short_hash(bad).as_str());
            assert_eq!(&*actual, format_short_hash(h("two")).as_str());
            assert_eq!(&*path, "notes.txt");
            assert_eq!(&*relocated_suffix, "");
        }
        other => panic!("expected StaleAnchor, got {other:?}"),
    }
}

#[test]
fn line_past_the_visible_end_is_refused() {
    let mut lines = split_normalized("one\ntwo\n");
    let mut entries = entries_of(&lines);
    entries.push(LineEntry { content: String::new(), short_hash: h("") });
    let err = apply_edits_with(&mut lines, &entries, "txt", "f", &del(3, 3, 1, None)).unwrap_err();
    match err {
        HashlineError::InvalidAnchor { anchor } => assert_eq!(anchor, "line 3 not found (file has 2 lines)"),
        other => panic!("expected InvalidAnchor, got {other:?}"),
    }
}

#[test]
fn swap_on_a_deleted_line_is_refused() {
    let mut edits = del(2, 2, 1, None);
    edits.extend(swap(2, 2, &["x"], 2, None));
    let mut lines = split_normalized("a\nb\nc");
    let entries = entries_of(&lines);
    let err = apply_edits_with(&mut lines, &entries, "txt", "f", &edits).unwrap_err();
    match err {
        HashlineError::InvalidAnchor { anchor } => assert_eq!(anchor, "line 2 has been deleted by a prior edit"),
        other => panic!("expected InvalidAnchor, got {other:?}"),
    }
}

#[test]
fn unbalanced_block_names_the_line() {
    let mut lines = split_normalized("fn a() {\n  x\n");
    let entries = entries_of(&lines);
    let err = apply_edits_with(&mut lines, &entries, "rs", "f", &[block(2, &[], None, 1, None)]).unwrap_err();
    assert!(matches!(err, HashlineError::UnbalancedBlock { line_no: 2 }));
}

#[test]
fn swap_reports_boundary_echo() {
    let mut lines = split_normalized("a\nb\nc");
    let entries = entries_of(&lines);
    let warnings = apply_edits_with(&mut lines, &entries, "txt", "f", &swap(2, 2, &["a", "x"], 1, None)).unwrap();
    assert_eq!(lines, vec!["a", "a", "x", "c"]);
    assert_eq!(warnings.len(), 1);
    assert!(warnings[0].starts_with("Boundary echo detected: first payload line"));
}

#[test]
fn inserts_at_one_anchor_keep_their_order() {
    let mut edits = post(1, &["p"], 1);
    edits.extend(post(1, &["q"], 2));
    assert_eq!(apply_text("a\nb", &edits), "a\np\nq\nb");
}

#[test]
fn delete_block_consumes_one_trailing_blank_line() {
    let original = "fn a() {\n}\n\nfn b() {}";
    assert_eq!(apply_text(original, &[block(1, &[], None, 1, None)]), "fn b() {}");
}

#[test]
fn format_diff_reports_no_changes() {
    assert_eq!(hashline::patch::format_diff("a\nb", "a\nb"), vec!["(no changes)".to_string()]);
}

#[test]
fn format_diff_lists_removed_then_added_lines() {
    assert_eq!(
        hashline::patch::format_diff("a\nb\nc", "a\nx\nc"),
        vec!["@@ -- ++ @@".to_string(), "-b".to_string(), "+x".to_string()]
    );
    assert_eq!(hashline::patch::format_diff("", "x"), vec!["@@ -- ++ @@".to_string(), "+x".to_string()]);
    assert_eq!(
        hashline::patch::format_diff("a\nb\n", "a\n"),
        vec!["@@ -- ++ @@".to_string(), "-b".to_string()]
    );
}

#[test]
fn refused_apply_leaves_lines_unchanged() {
    let mut lines: Vec<String> = L12.split('\n').map(|s| s.to_string()).collect();
    let before = lines.clone();
    let entries = entries_of(&lines);
    let mut edits = swap(10, 10, &["S10"], 1, None);
    edits.extend(del(5, 5, 3, Some(0xaa)));
    assert_ne!(h("L05"), 0xaa);
    let err = apply_edits(&mut lines, &entries, "test.md", &edits).unwrap_err();
    assert!(matches!(err, HashlineError::StaleAnchor { line: 5, ref path, .. } if &**path == "test.md"));
    assert_eq!(lines, before);
}

#[test]
fn distinct_single_line_deletes_in_any_order_remove_exactly_their_lines() {
    let mut edits = del(7, 7, 1, None);
    edits.extend(del(2, 2, 2, None));
    edits.extend(del(11, 11, 3, None));
    edits.extend(del(5, 5, 4, None));
    let result = apply_text(L12, &edits);
    assert_eq!(result, "L01\nL03\nL04\nL06\nL08\nL09\nL10\nL12");
}

#[test]
fn block_edit_follows_the_extension_of_a_path_with_directories() {
    let original = "def hello():\n    x = 1\n    if True:\n        print('ok')\n    return x\n";
    let mut lines = split_normalized(original);
    let entries = entries_of(&lines);
    apply_edits(&mut lines, &entries, "src/pkg/test.py", &[block(1, &["def hi():", "    pass"], None, 1, None)]).unwrap();
    assert_eq!(lines, vec!["def hi():".to_string(), "    pass".to_string()]);
}
