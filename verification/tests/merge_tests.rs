use hashline::merge::merge_texts;


#[test]
fn test_no_changes() {
    let r = merge_texts("a\nb\nc", "a\nb\nc", "a\nb\nc");
    assert_eq!(r.conflict_count, 0);
    assert_eq!(r.result, "a\nb\nc");
}

#[test]
fn test_target_change_only() {
    let r = merge_texts("a\nb\nc", "a\nX\nc", "a\nb\nc");
    assert_eq!(r.conflict_count, 0);
    assert_eq!(r.result, "a\nX\nc");
}

#[test]
fn test_current_change_only() {
    let r = merge_texts("a\nb\nc", "a\nb\nc", "a\nY\nc");
    assert_eq!(r.conflict_count, 0);
    assert_eq!(r.result, "a\nY\nc");
}

#[test]
fn test_conflict_same_line() {
    let r = merge_texts("a\nb\nc", "a\nX\nc", "a\nY\nc");
    assert_eq!(r.conflict_count, 1);
    assert!(r.result.contains("<<<<<<< target"), "result: {r:?}");
    assert!(r.result.contains(">>>>>>> current"), "result: {r:?}");
}

#[test]
fn test_same_change_no_conflict() {
    let r = merge_texts("a\nb\nc", "a\nX\nc", "a\nX\nc");
    assert_eq!(r.conflict_count, 0);
    assert_eq!(r.result, "a\nX\nc");
}

#[test]
fn test_independent_changes() {
    let r = merge_texts("a\nb\nc\nd", "a\nX\nc\nd", "a\nb\nY\nd");
    assert_eq!(r.conflict_count, 0);
    assert_eq!(r.result, "a\nX\nY\nd");
}

#[test]
fn test_conflicting_insertions() {
    let r = merge_texts("a\nc", "a\nX\nc", "a\nY\nc");
    assert_eq!(r.conflict_count, 1);
    assert!(r.result.contains("<<<<<<<"));
}

#[test]
fn test_same_insertion() {
    let r = merge_texts("a\nc", "a\nX\nc", "a\nX\nc");
    assert_eq!(r.conflict_count, 0);
    assert_eq!(r.result, "a\nX\nc");
}

#[test]
fn test_target_delete_only() {
    let r = merge_texts("a\nb\nc", "a\nc", "a\nb\nc");
    assert_eq!(r.conflict_count, 0);
    assert_eq!(r.result, "a\nc");
}

#[test]
fn test_current_delete_only() {
    let r = merge_texts("a\nb\nc", "a\nb\nc", "a\nc");
    assert_eq!(r.conflict_count, 0);
    assert_eq!(r.result, "a\nc");
}

#[test]
fn test_both_delete_same() {
    let r = merge_texts("a\nb\nc", "a\nc", "a\nc");
    assert_eq!(r.conflict_count, 0);
    assert_eq!(r.result, "a\nc");
}

#[test]
fn test_target_multiline_replace() {
    let r = merge_texts("a\nb\nc\nd", "a\nX\nY\nd", "a\nb\nc\nd");
    assert_eq!(r.conflict_count, 0);
    assert_eq!(r.result, "a\nX\nY\nd");
}

#[test]
fn test_conflict_same_range() {
    let r = merge_texts("a\nb\nc\nd", "a\nX\nY\nd", "a\nP\nQ\nd");
    assert_eq!(r.conflict_count, 1);
    assert!(r.result.contains("<<<<<<<"));
}

#[test]
fn test_empty_base() {
    let r = merge_texts("", "a\nb\nc", "");
    assert_eq!(r.conflict_count, 0);
    assert_eq!(r.result, "a\nb\nc");
}

#[test]
fn test_empty_target() {
    let r = merge_texts("a\nb\nc", "", "");
    assert_eq!(r.conflict_count, 0);
    assert_eq!(r.result, "");
}

#[test]
fn test_single_line() {
    let r = merge_texts("hello", "world", "hello");
    assert_eq!(r.conflict_count, 0);
    assert_eq!(r.result, "world");
}

#[test]
fn test_single_line_conflict() {
    let r = merge_texts("hello", "world", "there");
    assert_eq!(r.conflict_count, 1);
    assert!(r.result.contains("world"));
    assert!(r.result.contains("there"));
}

#[test]
fn test_target_insert_current_delete() {
    let r = merge_texts("a\nb\nc", "a\nX\nb\nc", "a\nc");
    assert_eq!(r.result, "a\nX\nc");
}

#[test]
fn test_both_append_same() {
    let r = merge_texts("a\nb", "a\nb\nc", "a\nb\nc");
    assert_eq!(r.conflict_count, 0);
    assert_eq!(r.result, "a\nb\nc");
}

#[test]
fn test_both_append_different() {
    let r = merge_texts("a\nb", "a\nb\nc", "a\nb\nd");
    assert_eq!(r.conflict_count, 1);
    assert!(r.result.contains("<<<<<<<"));
}

#[test]
fn test_target_drop_current_replace() {
    let r = merge_texts("a\nb\nc", "a\nc", "a\nX\nc");
    assert_eq!(r.conflict_count, 1);
    assert!(r.result.contains("<<<<<<<"));
}

#[test]
fn test_target_replace_current_drop() {
    let r = merge_texts("a\nb\nc", "a\nX\nc", "a\nc");
    assert_eq!(r.conflict_count, 1);
    assert!(r.result.contains("<<<<<<<"));
}
