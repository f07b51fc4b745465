use hashline::mismatch::{parse_tag, validate_line_ref};

#[test]
fn parse_tag_reads_bare_and_decorated_numbers() {
    assert_eq!(parse_tag("42").unwrap().line, 42);
    assert_eq!(parse_tag("*42:foo").unwrap().line, 42);
    assert_eq!(parse_tag(" > 7").unwrap().line, 7);
    assert_eq!(parse_tag("+-3:  x  ").unwrap().line, 3);
}

#[test]
fn parse_tag_refuses_line_zero() {
    assert_eq!(parse_tag("0").unwrap_err(), "Line number must be >= 1, got 0 in \"0\".");
}

#[test]
fn parse_tag_refuses_a_number_that_does_not_fit() {
    let text = "99999999999999999999999999";
    assert_eq!(parse_tag(text).unwrap_err(), format!("Invalid line number in reference: {text:?}"));
}

#[test]
fn parse_tag_refuses_unicode_digits_it_cannot_read() {
    let text = "\u{0663}";
    assert_eq!(parse_tag(text).unwrap_err(), format!("Invalid line number in reference: {text:?}"));
}

#[test]
fn parse_tag_refuses_text_that_is_not_a_reference() {
    let err = parse_tag("abc").unwrap_err();
    assert!(err.starts_with("Invalid line reference. Expected "));
    assert!(err.ends_with("Received \"abc\"."));
}

#[test]
fn parsed_tag_checks_against_the_file() {
    let tag = parse_tag("3").unwrap();
    let lines = vec!["a".to_string(), "b".to_string()];
    assert_eq!(validate_line_ref(&tag, &lines).unwrap_err(), "Line 3 does not exist (file has 2 lines)");
}
