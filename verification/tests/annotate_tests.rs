use hashline::annotate::{search_literal, search_regex};
use hashline::error::HashlineError;
use hashline::hash::{format_short_hash, short_hash_value};

#[test]
fn annotate_literal_finds_matches() {
    let results = search_literal("hello world\nfoo bar\nbaz hello\n", "hello", false).unwrap();
    assert_eq!(results.len(), 2);
    assert_eq!(results[0].content, "hello world");
    assert_eq!(results[1].content, "baz hello");
}

#[test]
fn annotate_literal_no_matches_returns_empty() {
    let results = search_literal("alpha\nbeta\n", "gamma", false).unwrap();
    assert!(results.is_empty());
}

#[test]
fn annotate_literal_expect_one_ok() {
    let results = search_literal("hello world\nfoo bar\n", "hello", true).unwrap();
    assert_eq!(results.len(), 1);
    assert_eq!(results[0].content, "hello world");
}

#[test]
fn annotate_literal_expect_one_zero_matches() {
    let err = search_literal("hello world\nfoo bar\n", "zzzz", true).unwrap_err();
    assert!(matches!(err, HashlineError::InvalidPattern { .. }));
    assert!(err.message().contains("found 0"));
}

#[test]
fn annotate_literal_expect_one_multiple_matches() {
    let err = search_literal("hello world\nfoo bar\nbaz hello\n", "hello", true).unwrap_err();
    assert!(matches!(err, HashlineError::InvalidPattern { .. }));
    assert!(err.message().contains("found 2"));
}

#[test]
fn annotate_literal_numbers_and_hashes_lines() {
    let results = search_literal("a\r\nxb\nc", "b", false).unwrap();
    assert_eq!(results.len(), 1);
    assert_eq!(results[0].n, 2);
    assert_eq!(results[0].content, "xb");
    assert_eq!(results[0].hash, format_short_hash(short_hash_value("xb")));
    let crlf = search_literal("a\r\nb", "a", false).unwrap();
    assert_eq!(crlf[0].content, "a");
}

#[test]
fn annotate_literal_refusal_names_the_query() {
    match search_literal("x\n", "q", true).unwrap_err() {
        HashlineError::InvalidPattern { pattern, message } => {
            assert_eq!(pattern, "q");
            assert_eq!(message, "expected exactly 1 match for query 'q', but found 0");
        }
        other => panic!("unexpected {other:?}"),
    }
}

#[test]
fn annotate_regex_finds_matches() {
    let results = search_regex("hello world\nfoo bar\nbaz hello\n", "h[a-z]+", false).unwrap();
    assert_eq!(results.len(), 2);
    assert_eq!(results[0].content, "hello world");
    assert_eq!(results[1].content, "baz hello");
}

#[test]
fn annotate_regex_case_sensitive_by_default() {
    let results = search_regex("Hello World\nfoo bar\nhello world\n", "hello", false).unwrap();
    assert_eq!(results.len(), 1);
    assert_eq!(results[0].content, "hello world");
}

#[test]
fn annotate_regex_invalid_pattern() {
    let err = search_regex("hello\n", "(unclosed", false).unwrap_err();
    assert!(matches!(err, HashlineError::InvalidPattern { .. }));
}

#[test]
fn annotate_regex_expect_one_ok() {
    let results = search_regex("hello world\nfoo bar\nbaz world\n", "^hello", true).unwrap();
    assert_eq!(results.len(), 1);
    assert_eq!(results[0].content, "hello world");
}

#[test]
fn annotate_regex_expect_one_multiple_matches() {
    let err = search_regex("hello world\nfoo bar\nhello again\n", "^hello", true).unwrap_err();
    assert!(matches!(err, HashlineError::InvalidPattern { .. }));
    assert!(err.message().contains("found 2"));
}

#[test]
fn annotate_empty_file() {
    let results = search_regex("", ".*", false).unwrap();
    assert_eq!(results.len(), 1);
    assert_eq!(&results[0].content, "");
}

#[test]
fn annotate_regex_numbers_and_hashes_lines() {
    let results = search_regex("a1\nb\nc22\n", "[0-9]+$", false).unwrap();
    assert_eq!(results.len(), 2);
    assert_eq!(results[0].n, 1);
    assert_eq!(results[1].n, 3);
    assert_eq!(results[1].hash, format_short_hash(short_hash_value("c22")));
}

#[test]
fn annotate_regex_expect_one_zero_matches_names_the_query() {
    let err = search_regex("a\nb\n", "z+", true).unwrap_err();
    match err {
        HashlineError::InvalidPattern { pattern, message } => {
            assert_eq!(pattern, "z+");
            assert_eq!(message, "expected exactly 1 match for query 'z+', but found 0");
        }
        other => panic!("unexpected error {other:?}"),
    }
}
