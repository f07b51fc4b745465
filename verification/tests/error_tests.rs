use hashline::error::HashlineError;

#[test]
fn every_error_variant_has_a_recovery_hint() {
    let errors = vec![
        HashlineError::NotImplemented { command: "patch" },
        HashlineError::Io(std::io::Error::other("boom")),
        HashlineError::Json(serde_json::from_str::<serde_json::Value>("{").unwrap_err()),
        HashlineError::InvalidUtf8 {
            path: "demo.txt".into(),
        },
        HashlineError::BinaryFile {
            path: "demo.bin".into(),
        },
        HashlineError::MixedNewlines {
            path: "demo.txt".into(),
        },
        HashlineError::InvalidAnchor {
            anchor: "bogus".into(),
        },
        HashlineError::InvalidRange {
            range: "1:aa..0:bb".into(),
        },
        HashlineError::HashNotFound {
            hash: "ff".into(),
            path: "demo.txt".into(),
        },
        HashlineError::AmbiguousHash {
            hash: "aa".into(),
            count: 2,
            lines: "1, 3".into(),
            path: "demo.txt".into(),
        },
        HashlineError::StaleAnchor {
            anchor: "2:aa".into(),
            line: 2,
            expected: "aa".into(),
            actual: "bb".into(),
            path: "demo.txt".into(),
            relocated_suffix: "".into(),
        },
        HashlineError::StaleFile {
            path: "demo.txt".into(),
        },
        HashlineError::InvalidIndentAmount {
            amount: "sideways".into(),
        },
        HashlineError::InvalidIndentRange { start: 4, end: 2 },
        HashlineError::IndentUnderflow {
            line_no: 2,
            amount: 2,
            available: 1,
            kind: "spaces",
        },
        HashlineError::MixedIndentation { line_no: 3 },
        HashlineError::UnbalancedBlock { line_no: 8 },
        HashlineError::AmbiguousBlockLanguage { line_no: 5 },
        HashlineError::InvalidPattern {
            pattern: "(".into(),
            message: "unclosed group".into(),
        },
        HashlineError::DiffHunkMismatch { hunk_line: 12 },
        HashlineError::DiffFileMismatch {
            diff_file: "a/demo.txt".into(),
            given_file: "demo.txt".into(),
        },
        HashlineError::ExplodeTargetExists {
            path: "out/dir".into(),
        },
        HashlineError::ImplodeMissingMeta {
            path: "out/dir".into(),
        },
        HashlineError::ImplodeInvalidMeta {
            path: "out/dir/.meta.json".into(),
            reason: "missing newline".into(),
        },
        HashlineError::ImplodeDirtyDirectory {
            path: "out/dir".into(),
            entry: "notes.txt".into(),
        },
        HashlineError::ImplodeMissingLineFile {
            path: "out/dir".into(),
            line_no: 2,
        },
        HashlineError::PatchFailed {
            op_index: 1,
            reason: "bad op".into(),
        },
        HashlineError::MultiLineContentUnsupported,
        HashlineError::MutationIndexOutOfBounds { index: 5, len: 2 },
        HashlineError::InvalidMutationRange {
            start: 3,
            end: 1,
            len: 2,
        },
        HashlineError::ServerError {
            message: "connection refused".into(),
            kind: "not_running".into(),
        },
        HashlineError::QueryNotFound {
            query: "fn main".into(),
            path: "demo.txt".into(),
        },
        HashlineError::AmbiguousQuery {
            query: "println".into(),
            count: 3,
            lines: "5, 10, 15".into(),
            path: "demo.txt".into(),
        },
        HashlineError::QueryRangeTooLarge {
            count: 15000,
            max: 10000,
        },
        HashlineError::ParseError {
            line: 42,
            message: "unexpected token".into(),
        },
        HashlineError::FileNotFound {
            path: "missing.txt".into(),
        },
        HashlineError::StaleHash {
            path: "demo.txt".into(),
            expected: "aa".into(),
            actual: "bb".into(),
        },
        HashlineError::CannotRecover {
            path: "broken.txt".into(),
        },
        HashlineError::BlockUnresolved {
            line: 15,
            message: "mismatched braces".into(),
        },
        HashlineError::MissingSnapshotTag {
            path: "snapshot.txt".into(),
        },
        HashlineError::NoBlockResolver,
    ];

    for error in errors {
        assert!(
            error.hint().is_some(),
            "expected a recovery hint for error variant: {error:?}"
        );
    }
}

#[test]
fn not_implemented_reports_command_name() {
    let error = HashlineError::NotImplemented { command: "patch" };
    assert_eq!(error.command(), Some("patch"));
}

#[test]
fn stale_anchor_hint_mentions_relocated_lines() {
    let error = HashlineError::StaleAnchor {
        anchor: "2:aa".into(),
        line: 2,
        expected: "aa".into(),
        actual: "bb".into(),
        path: "demo.txt".into(),
        relocated_suffix: "; hash still exists at line(s) 9".into(),
    };

    assert_eq!(
        error.hint(),
        Some(
            "re-read the file with `hashline read <file>`; if the hash moved, use the reported line(s) and retry with a fresh qualified anchor"
        )
    );
    assert!(error.message().contains("hash still exists at line(s) 9"));
}

#[test]
fn recoverable_validation_errors_do_not_log_as_error() {
    let error = HashlineError::StaleAnchor {
        anchor: "2:aa".into(),
        line: 2,
        expected: "aa".into(),
        actual: "bb".into(),
        path: "demo.txt".into(),
        relocated_suffix: "".into(),
    };

    assert!(!error.log_as_error());
}

#[test]
fn invariant_failures_log_as_error() {
    assert!(
        HashlineError::InvalidMutationRange {
            start: 3,
            end: 1,
            len: 2,
        }
        .log_as_error()
    );
}

#[test]
fn implode_errors_have_recovery_hints() {
    assert!(
        HashlineError::ImplodeMissingMeta { path: "out".into() }
            .hint()
            .is_some()
    );
    assert!(
        HashlineError::ImplodeInvalidMeta {
            path: "out/.meta.json".into(),
            reason: "bad".into()
        }
        .hint()
        .is_some()
    );
    assert!(
        HashlineError::ImplodeDirtyDirectory {
            path: "out".into(),
            entry: "notes.txt".into()
        }
        .hint()
        .is_some()
    );
    assert!(
        HashlineError::ImplodeMissingLineFile {
            path: "out".into(),
            line_no: 2
        }
        .hint()
        .is_some()
    );
}

#[test]
fn messages_follow_each_kind() {
    assert_eq!(
        HashlineError::NotImplemented { command: "patch" }.message(),
        "patch is not implemented yet"
    );
    assert_eq!(
        HashlineError::AmbiguousHash {
            hash: "aa".into(),
            count: 2,
            lines: "1, 3".into(),
            path: "demo.txt".into()
        }
        .message(),
        "hash 'aa' matches 2 lines in demo.txt (lines 1, 3)"
    );
    assert_eq!(
        HashlineError::StaleAnchor {
            anchor: "2:aa".into(),
            line: 2,
            expected: "aa".into(),
            actual: "bb".into(),
            path: "demo.txt".into(),
            relocated_suffix: "".into(),
        }
        .message(),
        "line 2 content changed since last read in demo.txt (expected hash aa, got bb)"
    );
    assert_eq!(
        HashlineError::UnbalancedBlock { line_no: 8 }.message(),
        "could not find balanced block boundary from line 8 \u{2014} check for unmatched braces or inconsistent indentation"
    );
    assert_eq!(
        HashlineError::InvalidMutationRange { start: 3, end: 1, len: 2 }.message(),
        "mutation range 3..=1 is invalid for document with 2 lines"
    );
    assert_eq!(
        HashlineError::OutlineInputTooLarge { path: "big".into(), actual: 9, limit: 5, unit: "bytes" }.message(),
        "outline input 'big' is too large to parse safely: 9 bytes (limit: 5 bytes)"
    );
    assert_eq!(HashlineError::NoBlockResolver.message(), "no block resolver configured");
    let io = HashlineError::Io(std::io::Error::other("boom"));
    assert_eq!(io.message(), "I/O error: boom");
    assert_eq!(io.hint(), Some("check the file path and permissions, then retry the command"));
    let json = HashlineError::Json(serde_json::from_str::<serde_json::Value>("{").unwrap_err());
    assert!(json.message().starts_with("JSON error: "));
}

#[test]
fn only_not_implemented_names_a_command() {
    assert_eq!(HashlineError::NoBlockResolver.command(), None);
    assert!(HashlineError::MutationIndexOutOfBounds { index: 1, len: 0 }.log_as_error());
    assert!(!HashlineError::FileNotFound { path: "x".into() }.log_as_error());
    assert!(HashlineError::StaleAnchor {
        anchor: "1".into(),
        line: 1,
        expected: "aa".into(),
        actual: "aa".into(),
        path: "".into(),
        relocated_suffix: "".into()
    }
    .is_stale_anchor());
}
