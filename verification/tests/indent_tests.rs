use hashline::document::Document;
use hashline::error::HashlineError;
use hashline::indent::{apply_indent, parse_indent_change, validate_range_style, IndentChange};

#[test]
fn indent_amounts_parse() {
    assert_eq!(parse_indent_change("+4").unwrap(), IndentChange::Indent(4));
    assert_eq!(parse_indent_change("-2").unwrap(), IndentChange::Dedent(2));
    assert_eq!(parse_indent_change("++3").unwrap(), IndentChange::Indent(3));
    for bad in ["4", "+0", "+", "", "*3", "-x"] {
        match parse_indent_change(bad) {
            Err(HashlineError::InvalidIndentAmount { amount }) => assert_eq!(amount, bad),
            other => panic!("unexpected {:?} for {:?}", other, bad),
        }
    }
}

#[test]
fn indent_adds_spaces() {
    assert_eq!(apply_indent("x", IndentChange::Indent(2), 1).unwrap(), "  x");
}

#[test]
fn dedent_takes_spaces() {
    assert_eq!(apply_indent("    x", IndentChange::Dedent(2), 1).unwrap(), "  x");
    assert_eq!(apply_indent("  x", IndentChange::Dedent(2), 1).unwrap(), "x");
}

#[test]
fn dedent_refuses_tabs_and_missing_spaces() {
    match apply_indent("\t x", IndentChange::Dedent(2), 7) {
        Err(HashlineError::IndentUnderflow { line_no, amount, available, kind }) => {
            assert_eq!((line_no, amount, available, kind), (7, 2, 1, "tabs"));
        }
        other => panic!("unexpected {:?}", other),
    }
    match apply_indent("  x", IndentChange::Dedent(3), 4) {
        Err(HashlineError::IndentUnderflow { line_no, amount, available, kind }) => {
            assert_eq!((line_no, amount, available, kind), (4, 3, 2, "spaces"));
        }
        other => panic!("unexpected {:?}", other),
    }
}

#[test]
fn range_style_rejects_mixed_indentation() {
    let doc = Document::from_str("a.txt", "  a\nb\n\tc\n  d\n").unwrap();
    assert!(validate_range_style(&doc, 0, 1).is_ok());
    match validate_range_style(&doc, 0, 3) {
        Err(HashlineError::MixedIndentation { line_no }) => assert_eq!(line_no, 3),
        other => panic!("unexpected {:?}", other),
    }
    assert!(validate_range_style(&doc, 2, 1).is_ok());
}
