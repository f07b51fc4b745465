use hashline::diff_apply::{apply_hunks, parse_unified_diff, plan_diff, DiffPlan, Hunk};
use hashline::document::Document;
use hashline::error::HashlineError;

const DIFF: &str = "--- a/f.txt\n+++ b/f.txt\n@@ -1,2 +1,2 @@\n a\n-b\n+c\n";

fn doc(text: &str) -> Document {
    Document::from_str("f.txt", text).unwrap()
}

fn hunk(old_start: usize, lines: &[&str]) -> Hunk {
    Hunk {
        old_start,
        old_count: 0,
        new_start: old_start,
        new_count: 0,
        lines: lines.iter().map(|s| s.to_string()).collect(),
    }
}

#[test]
fn parses_files_and_hunks() {
    let (old, new, hunks) = parse_unified_diff(DIFF).unwrap();
    assert_eq!(old, "a/f.txt");
    assert_eq!(new, "b/f.txt");
    assert_eq!(hunks.len(), 1);
    let h = &hunks[0];
    assert_eq!((h.old_start, h.old_count, h.new_start, h.new_count), (1, 2, 1, 2));
    assert_eq!(h.lines, vec![" a".to_string(), "-b".to_string(), "+c".to_string()]);
}

#[test]
fn single_number_range_counts_one() {
    let (_, _, hunks) = parse_unified_diff("@@ -3 +4 @@\n x\n").unwrap();
    assert_eq!((hunks[0].old_start, hunks[0].old_count, hunks[0].new_start, hunks[0].new_count), (3, 1, 4, 1));
}

#[test]
fn malformed_hunk_header_names_its_line() {
    match parse_unified_diff("--- a\n+++ b\n@@ bogus @@\n") {
        Err(HashlineError::DiffHunkMismatch { hunk_line }) => assert_eq!(hunk_line, 3),
        other => panic!("unexpected {:?}", other),
    }
}

#[test]
fn diff_without_hunks_is_answered_at_once() {
    match plan_diff("--- a\n+++ b\n").unwrap() {
        DiffPlan::NoHunks(r) => {
            assert!(!r.applied);
            assert!(r.anchor_changes.is_empty());
            assert_eq!(r.conflicts.len(), 1);
            assert_eq!(r.conflicts[0].hunk_line, 0);
            assert_eq!(r.conflicts[0].reason, "diff contains no hunks");
        }
        DiffPlan::Hunks(_) => panic!("expected no hunks"),
    }
    assert!(matches!(plan_diff(DIFF).unwrap(), DiffPlan::Hunks(ref h) if h.len() == 1));
}

#[test]
fn matching_hunk_is_applied() {
    let (_, _, hunks) = parse_unified_diff(DIFF).unwrap();
    let (receipt, text) = apply_hunks(&doc("a\nb\n"), &hunks);
    assert!(receipt.applied);
    assert_eq!(receipt.anchor_changes, vec![(1, 1), (2, 2)]);
    assert!(receipt.conflicts.is_empty());
    assert_eq!(text.unwrap(), "a\nc\n");
}

#[test]
fn crlf_and_missing_final_newline_are_kept() {
    let (_, _, hunks) = parse_unified_diff(DIFF).unwrap();
    let (_, text) = apply_hunks(&doc("a\r\nb"), &hunks);
    assert_eq!(text.unwrap(), "a\r\nc");
}

#[test]
fn shifted_context_is_found_elsewhere() {
    let (_, _, hunks) = parse_unified_diff(DIFF).unwrap();
    let (receipt, text) = apply_hunks(&doc("x\na\nb\n"), &hunks);
    assert!(receipt.applied);
    assert_eq!(receipt.anchor_changes, vec![(2, 2), (3, 3)]);
    assert_eq!(text.unwrap(), "x\na\nc\n");
}

#[test]
fn unmatched_context_is_a_conflict() {
    let (_, _, hunks) = parse_unified_diff(DIFF).unwrap();
    let (receipt, text) = apply_hunks(&doc("x\ny\n"), &hunks);
    assert!(!receipt.applied);
    assert!(text.is_none());
    assert_eq!(receipt.conflicts.len(), 1);
    assert_eq!(receipt.conflicts[0].hunk_line, 1);
    assert_eq!(
        receipt.conflicts[0].reason,
        "hunk context does not match file content around line 1"
    );
}

#[test]
fn hunk_past_the_end_is_a_conflict() {
    let (receipt, _) = apply_hunks(&doc("a\nb\n"), &[hunk(10, &["-a"])]);
    assert_eq!(receipt.conflicts[0].reason, "hunk start 10 is beyond file length 2");
}

#[test]
fn pure_insertion_adds_lines() {
    let (receipt, text) = apply_hunks(&doc("a\nb\n"), &[hunk(2, &["+z"])]);
    assert!(receipt.applied);
    assert_eq!(receipt.anchor_changes, vec![(2, 2)]);
    assert_eq!(text.unwrap(), "a\nz\nb\n");
}

#[test]
fn later_hunks_follow_earlier_line_shifts() {
    let hunks = vec![hunk(1, &["+top"]), hunk(2, &["-b", "+B"])];
    let (receipt, text) = apply_hunks(&doc("a\nb\n"), &hunks);
    assert!(receipt.applied);
    assert_eq!(text.unwrap(), "top\na\nB\n");
    assert_eq!(receipt.anchor_changes, vec![(1, 1), (3, 3)]);
}

#[test]
fn blank_context_matches_whitespace_line() {
    let (receipt, text) = apply_hunks(&doc("a\n  \nc\n"), &[hunk(1, &[" a", "", "-c", "+C"])]);
    assert!(receipt.applied);
    assert_eq!(text.unwrap(), "a\n\nC\n");
}
