use hashline::common::interpret_escapes;
use hashline::messages::{
    after_insert_landing_shift_warning, block_insert_landing_shift_warning, block_unresolved_message,
    missing_snapshot_tag_message, unseen_lines_message,
};
use hashline::mismatch::{validate_line_ref, MismatchDetails, MismatchError, ParsedTag};

#[test]
fn escapes_are_interpreted() {
    assert_eq!(interpret_escapes("a\\nb\\tc"), "a\nb\tc");
    assert_eq!(interpret_escapes("\\r\\\\\\0\\\"\\'"), "\r\\\0\"'");
    assert_eq!(interpret_escapes("\\q"), "\\q");
    assert_eq!(interpret_escapes("end\\"), "end\\");
    assert_eq!(interpret_escapes("plain"), "plain");
}

#[test]
fn line_reference_must_name_a_line() {
    let lines = vec!["a".to_string(), "b".to_string()];
    assert!(validate_line_ref(&ParsedTag { line: 2 }, &lines).is_ok());
    assert_eq!(
        validate_line_ref(&ParsedTag { line: 3 }, &lines).unwrap_err(),
        "Line 3 does not exist (file has 2 lines)"
    );
    assert_eq!(
        validate_line_ref(&ParsedTag { line: 0 }, &lines).unwrap_err(),
        "Line 0 does not exist (file has 2 lines)"
    );
}

#[test]
fn mismatch_error_defaults_to_recognized_hash() {
    let e = MismatchError::new(MismatchDetails {
        path: Some("f.rs".to_string()),
        expected_file_hash: "aaaa".to_string(),
        actual_file_hash: "bbbb".to_string(),
        file_lines: vec!["x".to_string()],
        anchor_lines: vec![1],
        hash_recognized: None,
    });
    assert!(e.hash_recognized);
    assert_eq!(e.expected_hash, "aaaa");
    assert_eq!(e.actual_hash, "bbbb");
    assert_eq!(e.anchor_lines, vec![1]);
    let e = MismatchError::new(MismatchDetails {
        path: None,
        expected_file_hash: String::new(),
        actual_file_hash: String::new(),
        file_lines: vec![],
        anchor_lines: vec![],
        hash_recognized: Some(false),
    });
    assert!(!e.hash_recognized);
}

#[test]
fn messages_read_as_documented() {
    assert_eq!(
        missing_snapshot_tag_message("src/a.rs"),
        "File src/a.rs has no snapshot tag. Use `read` to get the current snapshot hash, then include `[path#HASH]` in your patch header."
    );
    assert_eq!(
        unseen_lines_message("a.rs", &[3, 7], "ab12"),
        "File a.rs: snapshot #ab12 does not include line(s) 3, 7. Re-read the file and retry with lines that were actually displayed."
    );
    assert_eq!(
        block_unresolved_message(4, "DEL"),
        "line 4: cannot resolve block anchor for `DEL` \u{2014} no block resolver available"
    );
    assert_eq!(
        after_insert_landing_shift_warning(2, 5),
        "insert body indentation suggests it belongs after line 5, not after line 2; shifted landing accordingly"
    );
    assert_eq!(
        block_insert_landing_shift_warning(1, 9, 3),
        "block insert body indentation suggests it belongs inside the block (line 3), not after the closing line; shifted landing inward from block start at line 1"
    );
}
