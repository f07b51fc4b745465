use hashline::error::HashlineError;
use hashline::grep::grep_lines_regex;

#[test]
fn grep_lines_regex_finds_matches() {
    let results = grep_lines_regex("hello world\nfoo bar\nbaz hello\n", "hello", false, false).unwrap();
    assert_eq!(results.len(), 2);
    assert_eq!(results[0].content, "hello world");
    assert_eq!(results[1].content, "baz hello");
}

#[test]
fn grep_lines_regex_invert_matches() {
    let results = grep_lines_regex("hello world\nfoo bar\nbaz hello\n", "hello", false, true).unwrap();
    // Two non-matching lines: "foo bar" and the trailing empty line
    assert_eq!(results.len(), 2);
    assert_eq!(results[0].content, "foo bar");
    assert_eq!(results[1].content, "");
}

#[test]
fn grep_lines_regex_case_insensitive() {
    let results = grep_lines_regex("Hello World\nfoo bar\n", "hello", true, false).unwrap();
    assert_eq!(results.len(), 1);
    assert_eq!(results[0].content, "Hello World");
}

#[test]
fn grep_lines_regex_case_sensitive_no_match() {
    let results = grep_lines_regex("Hello World\nfoo bar\n", "hello", false, false).unwrap();
    assert_eq!(results.len(), 0);
}

#[test]
fn grep_lines_regex_invalid_pattern() {
    let err = grep_lines_regex("hello\n", "(unclosed", false, false).unwrap_err();
    assert!(matches!(err, HashlineError::InvalidPattern { .. }));
}

#[test]
fn grep_lines_regex_empty_file() {
    let results = grep_lines_regex("", ".*", false, false).unwrap();
    assert!(!results.is_empty());
    assert_eq!(&results[0].content, "");
}

#[test]
fn grep_lines_regex_no_matches_returns_empty() {
    let results = grep_lines_regex("alpha\nbeta\n", "gamma", false, false).unwrap();
    assert!(results.is_empty());
}

#[test]
fn grep_lines_regex_strips_carriage_returns_and_numbers_lines() {
    let results = grep_lines_regex("x\r\ny\r\nxx\r\n", "^x+$", false, false).unwrap();
    assert_eq!(results.len(), 2);
    assert_eq!((results[0].n, results[0].content.as_str()), (1, "x"));
    assert_eq!((results[1].n, results[1].content.as_str()), (3, "xx"));
}

#[test]
fn grep_lines_regex_invalid_pattern_keeps_pattern() {
    match grep_lines_regex("a", "[", true, false).unwrap_err() {
        HashlineError::InvalidPattern { pattern, message } => {
            assert_eq!(pattern, "[");
            assert!(!message.is_empty());
        }
        other => panic!("unexpected error {other:?}"),
    }
}
