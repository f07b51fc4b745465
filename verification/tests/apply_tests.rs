use hashline::apply::{
    detect_boundary_issues, duplicate_prefix_count, duplicate_suffix_count, is_structural_closer,
};
use hashline::document::LineEntry;


fn make_entry(content: &str) -> LineEntry {
    LineEntry {
        content: content.to_string(),
        short_hash: 0,
    }
}

#[test]
fn test_is_structural_closer() {
    assert!(is_structural_closer("}"));
    assert!(is_structural_closer("});"));
    assert!(is_structural_closer("end"));
    assert!(!is_structural_closer("fn main() {"));
    assert!(!is_structural_closer("    let x = 1;"));
}

#[test]
fn test_detect_boundary_echo_no_issues() {
    let payload = vec!["fn new_func() {".to_string(), "    let x = 1;".to_string()];
    let entries = vec![make_entry("fn old_func() {"), make_entry("    let x = 2;")];
    let warnings = detect_boundary_issues(&payload, 1, 1, &entries);
    assert!(warnings.is_empty());
}

#[test]
fn test_detect_boundary_echo_leading() {
    let payload = vec!["fn old_func() {".to_string(), "    let x = 2;".to_string()];
    let entries = vec![make_entry("fn old_func() {"), make_entry("    let x = 2;")];
    let warnings = detect_boundary_issues(&payload, 2, 2, &entries);
    // First payload line \'fn old_func() {\' matches line above (line 1)
    assert!(warnings.iter().any(|w| w.contains("Boundary echo")));
}

#[test]
fn test_detect_dropped_closers() {
    // Range 1..=3 includes the closing brace, but payload doesn't restate it
    let payload = vec!["    let x = 1;".to_string()];
    let entries = vec![
        make_entry("fn test() {"),
        make_entry("    let x = 1;"),
        make_entry("}"),
    ];
    let warnings = detect_boundary_issues(&payload, 1, 3, &entries);
    assert!(warnings.iter().any(|w| w.contains("Dropped closers")));
}

#[test]
fn test_duplicate_prefix_count() {
    let payload = vec!["keep me".to_string(), "same line".to_string()];
    let entries = vec![make_entry("same line")];
    assert_eq!(duplicate_prefix_count(&payload, 2, &entries), 1);
}

#[test]
fn test_duplicate_suffix_count() {
    let payload = vec!["same line".to_string()];
    let entries = vec![make_entry("keep me"), make_entry("same line")];
    assert_eq!(duplicate_suffix_count(&payload, 1, &entries), 1);
}

#[test]
fn test_no_false_positive_boundary_echo() {
    let payload = vec!["different content".to_string()];
    let entries = vec![make_entry("same line")];
    let warnings = detect_boundary_issues(&payload, 2, 2, &entries);
    assert!(warnings.is_empty());
}
