use hashline::index::adaptive::{
    classify_pattern, search_adaptive, search_adaptive_checked, search_in, PatternType,
};

#[test]
fn test_classify_single_byte() {
    assert!(matches!(
        classify_pattern("a"),
        PatternType::SingleByte(b'a')
    ));
}

#[test]
fn test_classify_literal() {
    assert!(matches!(classify_pattern("hello"), PatternType::Literal(ref s) if s == "hello"));
}

#[test]
fn test_classify_multi_literal() {
    let result = classify_pattern("foo|bar|baz");
    assert!(matches!(result, PatternType::MultiLiteral(ref v) if v.len() == 3));
}

#[test]
fn test_classify_regex() {
    let result = classify_pattern("hel+o");
    assert!(matches!(result, PatternType::Regex { .. }));
}

#[test]
fn test_search_single_byte() {
    let content = "hello\nworld\nfoo\n";
    let offsets = vec![0, 6, 12, 16];
    let results = search_in("o", &offsets, content);
    assert_eq!(results.len(), 3); // "hello", "world", and "foo" all contain "o"
}

#[test]
fn test_search_literal() {
    let content = "fn main() {\n  hello world\n}";
    let offsets = vec![0, 14, 27];
    let results = search_in("hello", &offsets, content);
    assert_eq!(results.len(), 1);
    assert_eq!(results[0].line_idx, 1);
}

#[test]
fn test_search_multi_literal() {
    let content = "foo bar\nbaz qux\nfoo qux\n";
    let offsets = vec![0, 8, 17, 26];
    let results = search_in("foo|bar", &offsets, content);
    assert_eq!(results.len(), 1);
    assert_eq!(results[0].line_idx, 0);
}

#[test]
fn test_search_adaptive_literal() {
    let content = "fn main() {\n  let x = 42;\n}";
    let offsets = vec![0, 14, 27];
    let results = search_adaptive("let", false, &offsets, content);
    assert_eq!(results.len(), 1);
    assert_eq!(results[0].line_idx, 1);
}

#[test]
fn test_search_adaptive_case_insensitive() {
    let content = "Hello World\nhello world\n";
    let offsets = vec![0, 12, 24];
    let results = search_adaptive("HELLO", true, &offsets, content);
    assert_eq!(results.len(), 2);
}

#[test]
fn classify_regex_is_case_insensitive_when_nonempty() {
    assert!(matches!(classify_pattern("a.b"), PatternType::Regex { case_insensitive: true }));
    assert!(matches!(classify_pattern("foo|b.r"), PatternType::Regex { .. }));
}

#[test]
fn result_text_drops_line_endings() {
    let content = "alpha\r\nbeta\n";
    let offsets = vec![0, 7, 12];
    let results = search_in("et", &offsets, content);
    assert_eq!(results.len(), 1);
    assert_eq!(results[0].line_idx, 1);
    assert_eq!(results[0].line_text, "beta");
}

#[test]
fn regex_runs_only_on_lines_with_its_trigrams() {
    let content = "hello world\nhelo\nhellllo\n";
    let offsets = vec![0, 12, 17, 25];
    let results = search_in("hel+o", &offsets, content);
    // the required trigrams are "elo" and "hel": only "helo" holds both
    let idx: Vec<usize> = results.iter().map(|r| r.line_idx).collect();
    assert_eq!(idx, vec![1]);
}

#[test]
fn regex_without_trigrams_finds_nothing() {
    let content = "ab\nab\n";
    let offsets = vec![0, 3, 6];
    assert!(search_in("a.", &offsets, content).is_empty());
}

#[test]
fn invalid_regex_finds_nothing() {
    let content = "abc(\n";
    let offsets = vec![0, 5];
    assert!(search_in("abc(", &offsets, content).is_empty());
}

#[test]
fn empty_literal_finds_nothing() {
    let offsets = vec![0, 3];
    assert!(search_in("", &offsets, "ab\n").is_empty());
}

#[test]
fn checked_search_refuses_offsets_inside_a_character() {
    let content = "\u{e9}a\n";
    assert!(search_adaptive_checked("a", false, &[1, 4], content).is_none());
    let found = search_adaptive_checked("a", false, &[0, 4], content).unwrap();
    assert_eq!(found.len(), 1);
    assert_eq!(found[0].line_text, "\u{e9}a");
}
