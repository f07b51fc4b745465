//! The library's error type and the recovery hint for each kind of error.

use vstd::prelude::*;
use crate::text::push_str;
use crate::ascii::{decimal, push_decimal};

verus! {

#[verifier::external_type_specification]
#[verifier::external_body]
pub struct ExIoError(std::io::Error);

#[verifier::external_type_specification]
#[verifier::external_body]
pub struct ExJsonError(serde_json::Error);

/// Every failure the library reports.
#[derive(Debug)]
#[allow(inconsistent_fields)]
pub enum HashlineError {
    NotImplemented { command: &'static str },

    Io(std::io::Error),

    Json(serde_json::Error),

    InvalidUtf8 { path: String },

    BinaryFile { path: String },

    MixedNewlines { path: String },

    InvalidAnchor { anchor: String },

    InvalidRange { range: String },

    HashNotFound { hash: String, path: String },

    AmbiguousHash {
        hash: String,
        count: usize,
        lines: String,
        path: String,
    },

    StaleAnchor {
        anchor: Box<str>,
        line: usize,
        expected: Box<str>,
        actual: Box<str>,
        path: Box<str>,
        relocated_suffix: Box<str>,
    },

    StaleFile { path: String },

    InvalidIndentAmount { amount: String },

    InvalidIndentRange { start: usize, end: usize },

    IndentUnderflow {
        line_no: usize,
        amount: usize,
        available: usize,
        kind: &'static str,
    },

    MixedIndentation { line_no: usize },

    UnbalancedBlock { line_no: usize },

    AmbiguousBlockLanguage { line_no: usize },

    InvalidPattern { pattern: String, message: String },

    DiffHunkMismatch { hunk_line: usize },

    DiffFileMismatch {
        diff_file: String,
        given_file: String,
    },

    ExplodeTargetExists { path: String },

    ImplodeMissingMeta { path: String },

    ImplodeInvalidMeta { path: String, reason: String },

    ImplodeDirtyDirectory { path: String, entry: String },

    ImplodeMissingLineFile { path: String, line_no: usize },

    InvalidWorkflowPack { path: String, reason: String },

    PatchFailed { op_index: usize, reason: String },

    MultiLineContentUnsupported,

    MutationIndexOutOfBounds { index: usize, len: usize },

    InvalidMutationRange {
        start: usize,
        end: usize,
        len: usize,
    },

    ServerError { message: String, kind: String },

    OutlineInputTooLarge {
        path: String,
        actual: usize,
        limit: usize,
        unit: &'static str,
    },

    QueryNotFound { query: String, path: String },

    AmbiguousQuery {
        query: String,
        count: usize,
        lines: String,
        path: String,
    },

    QueryRangeTooLarge { count: usize, max: usize },

    ParseError { line: usize, message: String },

    FileNotFound { path: String },

    StaleHash {
        path: String,
        expected: String,
        actual: String,
    },

    CannotRecover { path: String },

    BlockUnresolved { line: usize, message: String },

    MissingSnapshotTag { path: String },

    NoBlockResolver,
}


impl HashlineError {
    /// A recovery hint for the error; every kind has one.
    pub fn hint(&self) -> (h: Option<&'static str>)
        ensures
            h matches Some(t) && t@ == hint_text(*self),
    {
        match self {
            HashlineError::NotImplemented { .. } => {
                Some("continue with the next planned implementation bead")
            }
            HashlineError::InvalidUtf8 { .. } => {
                Some("convert the file to UTF-8 before using hashline")
            }
            HashlineError::BinaryFile { .. } => Some("hashline only supports UTF-8 text files"),
            HashlineError::MixedNewlines { .. } => {
                Some("run `dos2unix <file>` or `unix2dos <file>` to normalize first")
            }
            HashlineError::InvalidAnchor { .. } => {
                Some("use a 2-char hash like 'f1' or a qualified anchor like '2:f1'")
            }
            HashlineError::InvalidRange { .. } => Some("use a range like '2:f1..4:9c'"),
            HashlineError::HashNotFound { .. } => {
                Some("run `hashline read <file>` to get current hashes")
            }
            HashlineError::AmbiguousHash { .. } => {
                Some("use a line-qualified hash like '2:f1' to disambiguate")
            }
            HashlineError::StaleAnchor { .. } => Some(
                "re-read the file with `hashline read <file>`; if the hash moved, use the reported line(s) and retry with a fresh qualified anchor",
            ),
            HashlineError::StaleFile { .. } => Some(
                "re-read the file metadata and retry with fresh --expect-mtime/--expect-inode values",
            ),
            HashlineError::InvalidIndentAmount { .. } => {
                Some("use an amount like '+4' to indent or '-2' to dedent")
            }
            HashlineError::InvalidIndentRange { .. } => {
                Some("use a range where the start anchor resolves before the end anchor")
            }
            HashlineError::IndentUnderflow { .. } => {
                Some("reduce the dedent amount or narrow the target range")
            }
            HashlineError::MixedIndentation { .. } => {
                Some("normalize indentation in the target range before retrying the command")
            }
            HashlineError::UnbalancedBlock { .. } => {
                Some("check the surrounding braces or indentation and retry on a well-formed file")
            }
            HashlineError::AmbiguousBlockLanguage { .. } => {
                Some("rename the file to a supported extension or pass an explicit range instead")
            }
            HashlineError::InvalidPattern { .. } => Some("fix the pattern syntax and try again"),
            HashlineError::OutlineInputTooLarge { .. } => Some(
                "use `hashline read --anchor` for a focused view, or run on a smaller file region",
            ),
            HashlineError::DiffHunkMismatch { .. } => {
                Some("re-generate the diff from the current file and retry the command")
            }
            HashlineError::DiffFileMismatch { .. } => {
                Some("check that the diff target matches the file argument and retry")
            }
            HashlineError::ExplodeTargetExists { .. } => {
                Some("remove the output directory first or rerun with --force")
            }
            HashlineError::ImplodeMissingMeta { .. } => Some(
                "run `hashline explode <file> --out <dir>` first or restore the missing .meta.json",
            ),
            HashlineError::ImplodeInvalidMeta { .. } => {
                Some("recreate the exploded directory from a fresh `hashline explode` and retry")
            }
            HashlineError::ImplodeDirtyDirectory { .. } => {
                Some("remove unexpected files from the explode directory and retry the implode")
            }
            HashlineError::ImplodeMissingLineFile { .. } => Some(
                "restore the missing line file or regenerate the explode directory before retrying",
            ),
            HashlineError::InvalidWorkflowPack { .. } => {
                Some("fix the markdown frontmatter fields in the workflow pack and retry")
            }
            HashlineError::PatchFailed { .. } => {
                Some("fix the failing patch operation and retry the transaction")
            }
            HashlineError::MultiLineContentUnsupported => Some(
                "use a range anchor like '2:f1..4:9c' for multi-line replacement, or use `hashline patch` for mixed edits",
            ),
            HashlineError::MutationIndexOutOfBounds { .. } => {
                Some("re-check the resolved line number against the current document and retry")
            }
            HashlineError::InvalidMutationRange { .. } => {
                Some("use a valid in-bounds range where the start line is not after the end line")
            }
            HashlineError::ServerError { .. } => {
                Some("ensure the daemon is running with `hashline daemon`")
            }
            HashlineError::QueryNotFound { .. } => {
                Some("check the query text against the file content and retry")
            }
            HashlineError::AmbiguousQuery { .. } => Some(
                "use a more specific query that matches exactly one line, or use an explicit anchor instead",
            ),
            HashlineError::QueryRangeTooLarge { .. } => {
                Some("narrow the query range by using a more specific start-query or end-query")
            }
            HashlineError::Io(_) => {
                Some("check the file path and permissions, then retry the command")
            }
            HashlineError::Json(_) => {
                Some("fix the JSON input or output handling and retry the command")
            }
            HashlineError::ParseError { .. } => {
                Some("check the input syntax around the reported line and retry")
            }
            HashlineError::FileNotFound { .. } => {
                Some("verify the file path exists and is accessible")
            }
            HashlineError::StaleHash { .. } => {
                Some("re-read the file with `hashline read <file>` to get current hashes")
            }
            HashlineError::CannotRecover { .. } => {
                Some("examine the file for structural issues and consider manual repair")
            }
            HashlineError::BlockUnresolved { .. } => {
                Some("check the block boundaries around the reported line and retry")
            }
            HashlineError::MissingSnapshotTag { .. } => {
                Some("ensure the file contains a snapshot tag marker")
            }
            HashlineError::NoBlockResolver => {
                Some("configure a block resolver before using block-based operations")
            }
        }
    }

    /// The command that is not implemented, for that error.
    pub fn command(&self) -> (c: Option<&'static str>)
        ensures
            c == match self {
                HashlineError::NotImplemented { command } => Some(*command),
                _ => None,
            },
    {
        match self {
            HashlineError::NotImplemented { command } => Some(command),
            HashlineError::Io(_)
            | HashlineError::Json(_)
            | HashlineError::InvalidUtf8 { .. }
            | HashlineError::BinaryFile { .. }
            | HashlineError::MixedNewlines { .. }
            | HashlineError::InvalidAnchor { .. }
            | HashlineError::InvalidRange { .. }
            | HashlineError::HashNotFound { .. }
            | HashlineError::AmbiguousHash { .. }
            | HashlineError::StaleAnchor { .. }
            | HashlineError::StaleFile { .. }
            | HashlineError::InvalidIndentAmount { .. }
            | HashlineError::InvalidIndentRange { .. }
            | HashlineError::IndentUnderflow { .. }
            | HashlineError::MixedIndentation { .. }
            | HashlineError::UnbalancedBlock { .. }
            | HashlineError::AmbiguousBlockLanguage { .. }
            | HashlineError::InvalidPattern { .. }
            | HashlineError::OutlineInputTooLarge { .. }
            | HashlineError::DiffHunkMismatch { .. }
            | HashlineError::DiffFileMismatch { .. }
            | HashlineError::ExplodeTargetExists { .. }
            | HashlineError::ImplodeMissingMeta { .. }
            | HashlineError::ImplodeInvalidMeta { .. }
            | HashlineError::ImplodeDirtyDirectory { .. }
            | HashlineError::ImplodeMissingLineFile { .. }
            | HashlineError::InvalidWorkflowPack { .. }
            | HashlineError::PatchFailed { .. }
            | HashlineError::MultiLineContentUnsupported
            | HashlineError::MutationIndexOutOfBounds { .. }
            | HashlineError::InvalidMutationRange { .. }
            | HashlineError::ServerError { .. }
            | HashlineError::QueryNotFound { .. }
            | HashlineError::AmbiguousQuery { .. }
            | HashlineError::QueryRangeTooLarge { .. }
            | HashlineError::ParseError { .. }
            | HashlineError::FileNotFound { .. }
            | HashlineError::StaleHash { .. }
            | HashlineError::CannotRecover { .. }
            | HashlineError::BlockUnresolved { .. }
            | HashlineError::MissingSnapshotTag { .. }
            | HashlineError::NoBlockResolver => None,
        }
    }

    /// Whether the error marks a broken invariant that should be logged as an error.
    pub fn log_as_error(&self) -> (b: bool)
        ensures
            b == (self is NotImplemented || self is MutationIndexOutOfBounds || self is InvalidMutationRange),
    {
        matches!(
            self,
            HashlineError::NotImplemented { .. }
                | HashlineError::MutationIndexOutOfBounds { .. }
                | HashlineError::InvalidMutationRange { .. }
        )
    }

    /// Returns `true` if this is a [`StaleAnchor`] error, meaning the
    /// file content changed since the anchor was fetched. Retrying after
    /// a forced re-read may resolve it.
    pub fn is_stale_anchor(&self) -> (b: bool)
        ensures
            b == self is StaleAnchor,
    {
        matches!(self, HashlineError::StaleAnchor { .. })
    }
}

impl From<std::io::Error> for HashlineError {
    /// An I/O failure becomes [`HashlineError::Io`].
    fn from(e: std::io::Error) -> (r: HashlineError)
    {
        HashlineError::Io(e)
    }
}

impl vstd::std_specs::convert::FromSpecImpl<std::io::Error> for HashlineError {
    open spec fn obeys_from_spec() -> bool {
        true
    }

    open spec fn from_spec(v: std::io::Error) -> HashlineError {
        HashlineError::Io(v)
    }
}

impl From<serde_json::Error> for HashlineError {
    /// A JSON failure becomes [`HashlineError::Json`].
    fn from(e: serde_json::Error) -> (r: HashlineError)
    {
        HashlineError::Json(e)
    }
}

impl vstd::std_specs::convert::FromSpecImpl<serde_json::Error> for HashlineError {
    open spec fn obeys_from_spec() -> bool {
        true
    }

    open spec fn from_spec(v: serde_json::Error) -> HashlineError {
        HashlineError::Json(v)
    }
}

/// The recovery hint of each kind of error.
pub open spec fn hint_text(e: HashlineError) -> Seq<char> {
    match e {
        HashlineError::NotImplemented { .. } => "continue with the next planned implementation bead"@,
        HashlineError::InvalidUtf8 { .. } => "convert the file to UTF-8 before using hashline"@,
        HashlineError::BinaryFile { .. } => "hashline only supports UTF-8 text files"@,
        HashlineError::MixedNewlines { .. } => "run `dos2unix <file>` or `unix2dos <file>` to normalize first"@,
        HashlineError::InvalidAnchor { .. } => "use a 2-char hash like 'f1' or a qualified anchor like '2:f1'"@,
        HashlineError::InvalidRange { .. } => "use a range like '2:f1..4:9c'"@,
        HashlineError::HashNotFound { .. } => "run `hashline read <file>` to get current hashes"@,
        HashlineError::AmbiguousHash { .. } => "use a line-qualified hash like '2:f1' to disambiguate"@,
        HashlineError::StaleAnchor { .. } => "re-read the file with `hashline read <file>`; if the hash moved, use the reported line(s) and retry with a fresh qualified anchor"@,
        HashlineError::StaleFile { .. } => "re-read the file metadata and retry with fresh --expect-mtime/--expect-inode values"@,
        HashlineError::InvalidIndentAmount { .. } => "use an amount like '+4' to indent or '-2' to dedent"@,
        HashlineError::InvalidIndentRange { .. } => "use a range where the start anchor resolves before the end anchor"@,
        HashlineError::IndentUnderflow { .. } => "reduce the dedent amount or narrow the target range"@,
        HashlineError::MixedIndentation { .. } => "normalize indentation in the target range before retrying the command"@,
        HashlineError::UnbalancedBlock { .. } => "check the surrounding braces or indentation and retry on a well-formed file"@,
        HashlineError::AmbiguousBlockLanguage { .. } => "rename the file to a supported extension or pass an explicit range instead"@,
        HashlineError::InvalidPattern { .. } => "fix the pattern syntax and try again"@,
        HashlineError::OutlineInputTooLarge { .. } => "use `hashline read --anchor` for a focused view, or run on a smaller file region"@,
        HashlineError::DiffHunkMismatch { .. } => "re-generate the diff from the current file and retry the command"@,
        HashlineError::DiffFileMismatch { .. } => "check that the diff target matches the file argument and retry"@,
        HashlineError::ExplodeTargetExists { .. } => "remove the output directory first or rerun with --force"@,
        HashlineError::ImplodeMissingMeta { .. } => "run `hashline explode <file> --out <dir>` first or restore the missing .meta.json"@,
        HashlineError::ImplodeInvalidMeta { .. } => "recreate the exploded directory from a fresh `hashline explode` and retry"@,
        HashlineError::ImplodeDirtyDirectory { .. } => "remove unexpected files from the explode directory and retry the implode"@,
        HashlineError::ImplodeMissingLineFile { .. } => "restore the missing line file or regenerate the explode directory before retrying"@,
        HashlineError::InvalidWorkflowPack { .. } => "fix the markdown frontmatter fields in the workflow pack and retry"@,
        HashlineError::PatchFailed { .. } => "fix the failing patch operation and retry the transaction"@,
        HashlineError::MultiLineContentUnsupported => "use a range anchor like '2:f1..4:9c' for multi-line replacement, or use `hashline patch` for mixed edits"@,
        HashlineError::MutationIndexOutOfBounds { .. } => "re-check the resolved line number against the current document and retry"@,
        HashlineError::InvalidMutationRange { .. } => "use a valid in-bounds range where the start line is not after the end line"@,
        HashlineError::ServerError { .. } => "ensure the daemon is running with `hashline daemon`"@,
        HashlineError::QueryNotFound { .. } => "check the query text against the file content and retry"@,
        HashlineError::AmbiguousQuery { .. } => "use a more specific query that matches exactly one line, or use an explicit anchor instead"@,
        HashlineError::QueryRangeTooLarge { .. } => "narrow the query range by using a more specific start-query or end-query"@,
        HashlineError::Io(_) => "check the file path and permissions, then retry the command"@,
        HashlineError::Json(_) => "fix the JSON input or output handling and retry the command"@,
        HashlineError::ParseError { .. } => "check the input syntax around the reported line and retry"@,
        HashlineError::FileNotFound { .. } => "verify the file path exists and is accessible"@,
        HashlineError::StaleHash { .. } => "re-read the file with `hashline read <file>` to get current hashes"@,
        HashlineError::CannotRecover { .. } => "examine the file for structural issues and consider manual repair"@,
        HashlineError::BlockUnresolved { .. } => "check the block boundaries around the reported line and retry"@,
        HashlineError::MissingSnapshotTag { .. } => "ensure the file contains a snapshot tag marker"@,
        HashlineError::NoBlockResolver => "configure a block resolver before using block-based operations"@,
    }
}

/// The message of each kind of error; for I/O and JSON errors, the text
/// that comes before the source error's own message.
pub open spec fn message_text(e: HashlineError) -> Seq<char> {
    match e {
        HashlineError::Io(_) => "I/O error: "@,
        HashlineError::Json(_) => "JSON error: "@,
        HashlineError::NotImplemented { command, .. } => command@ + " is not implemented yet"@,
        HashlineError::InvalidUtf8 { path, .. } => "file '"@ + path@ + "' is not valid UTF-8"@,
        HashlineError::BinaryFile { path, .. } => "file '"@ + path@ + "' appears to be binary and cannot be edited safely"@,
        HashlineError::MixedNewlines { path, .. } => "file '"@ + path@ + "' uses mixed newline styles"@,
        HashlineError::InvalidAnchor { anchor, .. } => "invalid anchor '"@ + anchor@ + "'"@,
        HashlineError::InvalidRange { range, .. } => "invalid range anchor '"@ + range@ + "'"@,
        HashlineError::HashNotFound { hash, path, .. } => "hash '"@ + hash@ + "' not found in "@ + path@,
        HashlineError::AmbiguousHash { hash, count, path, lines, .. } => "hash '"@ + hash@ + "' matches "@ + decimal(count as nat) + " lines in "@ + path@ + " (lines "@ + lines@ + ")"@,
        HashlineError::StaleAnchor { line, path, expected, actual, relocated_suffix, .. } => "line "@ + decimal(line as nat) + " content changed since last read in "@ + path@ + " (expected hash "@ + expected@ + ", got "@ + actual@ + ")"@ + relocated_suffix@,
        HashlineError::StaleFile { path, .. } => "file '"@ + path@ + "' changed since the last read"@,
        HashlineError::InvalidIndentAmount { amount, .. } => "invalid indent amount '"@ + amount@ + "' (expected +N or -N)"@,
        HashlineError::InvalidIndentRange { start, end, .. } => "range start (line "@ + decimal(start as nat) + ") is after range end (line "@ + decimal(end as nat) + ")"@,
        HashlineError::IndentUnderflow { amount, line_no, available, kind, .. } => "dedent by "@ + decimal(amount as nat) + " would underflow line "@ + decimal(line_no as nat) + " (only "@ + decimal(available as nat) + " leading "@ + kind@ + " available)"@,
        HashlineError::MixedIndentation { line_no, .. } => "range uses mixed indentation styles (spaces and tabs) at line "@ + decimal(line_no as nat),
        HashlineError::UnbalancedBlock { line_no, .. } => "could not find balanced block boundary from line "@ + decimal(line_no as nat) + " — check for unmatched braces or inconsistent indentation"@,
        HashlineError::AmbiguousBlockLanguage { line_no, .. } => "block language is ambiguous at line "@ + decimal(line_no as nat) + " — use an explicit range anchor instead"@,
        HashlineError::InvalidPattern { pattern, message, .. } => "invalid pattern '"@ + pattern@ + "': "@ + message@,
        HashlineError::DiffHunkMismatch { hunk_line, .. } => "diff hunk at line "@ + decimal(hunk_line as nat) + " could not be matched to current file content"@,
        HashlineError::DiffFileMismatch { diff_file, given_file, .. } => "diff targets '"@ + diff_file@ + "' but file argument is '"@ + given_file@ + "'"@,
        HashlineError::ExplodeTargetExists { path, .. } => "explode target '"@ + path@ + "' already exists — use --force to overwrite it"@,
        HashlineError::ImplodeMissingMeta { path, .. } => "implode directory '"@ + path@ + "' is missing .meta.json"@,
        HashlineError::ImplodeInvalidMeta { path, reason, .. } => "implode metadata in '"@ + path@ + "' is invalid: "@ + reason@,
        HashlineError::ImplodeDirtyDirectory { path, entry, .. } => "implode directory '"@ + path@ + "' contains unexpected entry '"@ + entry@ + "'"@,
        HashlineError::ImplodeMissingLineFile { path, line_no, .. } => "implode directory '"@ + path@ + "' is missing line file for line "@ + decimal(line_no as nat),
        HashlineError::InvalidWorkflowPack { path, reason, .. } => "workflow pack '"@ + path@ + "' is invalid: "@ + reason@,
        HashlineError::PatchFailed { op_index, reason, .. } => "patch failed at operation "@ + decimal(op_index as nat) + ": "@ + reason@,
        HashlineError::MultiLineContentUnsupported => "multi-line content is only supported for range edits"@,
        HashlineError::MutationIndexOutOfBounds { index, len, .. } => "mutation index "@ + decimal(index as nat) + " is out of bounds for document with "@ + decimal(len as nat) + " lines"@,
        HashlineError::InvalidMutationRange { start, end, len, .. } => "mutation range "@ + decimal(start as nat) + "..="@ + decimal(end as nat) + " is invalid for document with "@ + decimal(len as nat) + " lines"@,
        HashlineError::ServerError { message, .. } => "server error: "@ + message@,
        HashlineError::OutlineInputTooLarge { path, actual, unit, limit, .. } => "outline input '"@ + path@ + "' is too large to parse safely: "@ + decimal(actual as nat) + " "@ + unit@ + " (limit: "@ + decimal(limit as nat) + " "@ + unit@ + ")"@,
        HashlineError::QueryNotFound { query, path, .. } => "query '"@ + query@ + "' not found in "@ + path@,
        HashlineError::AmbiguousQuery { query, count, path, lines, .. } => "query '"@ + query@ + "' matches "@ + decimal(count as nat) + " lines in "@ + path@ + " (lines "@ + lines@ + ")"@,
        HashlineError::QueryRangeTooLarge { count, max, .. } => "query range covers "@ + decimal(count as nat) + " lines, exceeds maximum of "@ + decimal(max as nat),
        HashlineError::ParseError { line, message, .. } => "parse error at line "@ + decimal(line as nat) + ": "@ + message@,
        HashlineError::FileNotFound { path, .. } => "file not found: '"@ + path@ + "'"@,
        HashlineError::StaleHash { path, expected, actual, .. } => "file '"@ + path@ + "' hash mismatch: expected "@ + expected@ + ", got "@ + actual@,
        HashlineError::CannotRecover { path, .. } => "cannot recover from inconsistency in '"@ + path@ + "'"@,
        HashlineError::BlockUnresolved { line, message, .. } => "block unresolved at line "@ + decimal(line as nat) + ": "@ + message@,
        HashlineError::MissingSnapshotTag { path, .. } => "missing snapshot tag in '"@ + path@ + "'"@,
        HashlineError::NoBlockResolver => "no block resolver configured"@,
    }
}

/// Calls `<std::io::Error as Display>::fmt` through `to_string`.
#[verifier::external_body]
fn io_error_text(e: &std::io::Error) -> String {
    e.to_string()
}

/// Calls `<serde_json::Error as Display>::fmt` through `to_string`.
#[verifier::external_body]
fn json_error_text(e: &serde_json::Error) -> String {
    e.to_string()
}

impl HashlineError {
    /// The error's message. For I/O and JSON errors it is the prefix
    /// followed by the source error's own message, which this library does
    /// not describe.
    pub fn message(&self) -> (s: String)
        ensures
            match self {
                HashlineError::Io(_) | HashlineError::Json(_) => s@.len() >= message_text(*self).len() && s@.take(
                    message_text(*self).len() as int,
                ) == message_text(*self),
                _ => s@ == message_text(*self),
            },
    {
        let mut s = String::new();
        match self {
            HashlineError::Io(e) => {
                push_str(&mut s, "I/O error: ");
                let t = io_error_text(e);
                push_str(&mut s, t.as_str());
            },
            HashlineError::Json(e) => {
                push_str(&mut s, "JSON error: ");
                let t = json_error_text(e);
                push_str(&mut s, t.as_str());
            },
            HashlineError::NotImplemented { command, .. } => {
                push_str(&mut s, *command);
                push_str(&mut s, " is not implemented yet");
            },
            HashlineError::InvalidUtf8 { path, .. } => {
                push_str(&mut s, "file '");
                push_str(&mut s, path.as_str());
                push_str(&mut s, "' is not valid UTF-8");
            },
            HashlineError::BinaryFile { path, .. } => {
                push_str(&mut s, "file '");
                push_str(&mut s, path.as_str());
                push_str(&mut s, "' appears to be binary and cannot be edited safely");
            },
            HashlineError::MixedNewlines { path, .. } => {
                push_str(&mut s, "file '");
                push_str(&mut s, path.as_str());
                push_str(&mut s, "' uses mixed newline styles");
            },
            HashlineError::InvalidAnchor { anchor, .. } => {
                push_str(&mut s, "invalid anchor '");
                push_str(&mut s, anchor.as_str());
                push_str(&mut s, "'");
            },
            HashlineError::InvalidRange { range, .. } => {
                push_str(&mut s, "invalid range anchor '");
                push_str(&mut s, range.as_str());
                push_str(&mut s, "'");
            },
            HashlineError::HashNotFound { hash, path, .. } => {
                push_str(&mut s, "hash '");
                push_str(&mut s, hash.as_str());
                push_str(&mut s, "' not found in ");
                push_str(&mut s, path.as_str());
            },
            HashlineError::AmbiguousHash { hash, count, path, lines, .. } => {
                push_str(&mut s, "hash '");
                push_str(&mut s, hash.as_str());
                push_str(&mut s, "' matches ");
                push_decimal(&mut s, *count);
                push_str(&mut s, " lines in ");
                push_str(&mut s, path.as_str());
                push_str(&mut s, " (lines ");
                push_str(&mut s, lines.as_str());
                push_str(&mut s, ")");
            },
            HashlineError::StaleAnchor { line, path, expected, actual, relocated_suffix, .. } => {
                push_str(&mut s, "line ");
                push_decimal(&mut s, *line);
                push_str(&mut s, " content changed since last read in ");
                push_str(&mut s, &**path);
                push_str(&mut s, " (expected hash ");
                push_str(&mut s, &**expected);
                push_str(&mut s, ", got ");
                push_str(&mut s, &**actual);
                push_str(&mut s, ")");
                push_str(&mut s, &**relocated_suffix);
            },
            HashlineError::StaleFile { path, .. } => {
                push_str(&mut s, "file '");
                push_str(&mut s, path.as_str());
                push_str(&mut s, "' changed since the last read");
            },
            HashlineError::InvalidIndentAmount { amount, .. } => {
                push_str(&mut s, "invalid indent amount '");
                push_str(&mut s, amount.as_str());
                push_str(&mut s, "' (expected +N or -N)");
            },
            HashlineError::InvalidIndentRange { start, end, .. } => {
                push_str(&mut s, "range start (line ");
                push_decimal(&mut s, *start);
                push_str(&mut s, ") is after range end (line ");
                push_decimal(&mut s, *end);
                push_str(&mut s, ")");
            },
            HashlineError::IndentUnderflow { amount, line_no, available, kind, .. } => {
                push_str(&mut s, "dedent by ");
                push_decimal(&mut s, *amount);
                push_str(&mut s, " would underflow line ");
                push_decimal(&mut s, *line_no);
                push_str(&mut s, " (only ");
                push_decimal(&mut s, *available);
                push_str(&mut s, " leading ");
                push_str(&mut s, *kind);
                push_str(&mut s, " available)");
            },
            HashlineError::MixedIndentation { line_no, .. } => {
                push_str(&mut s, "range uses mixed indentation styles (spaces and tabs) at line ");
                push_decimal(&mut s, *line_no);
            },
            HashlineError::UnbalancedBlock { line_no, .. } => {
                push_str(&mut s, "could not find balanced block boundary from line ");
                push_decimal(&mut s, *line_no);
                push_str(&mut s, " — check for unmatched braces or inconsistent indentation");
            },
            HashlineError::AmbiguousBlockLanguage { line_no, .. } => {
                push_str(&mut s, "block language is ambiguous at line ");
                push_decimal(&mut s, *line_no);
                push_str(&mut s, " — use an explicit range anchor instead");
            },
            HashlineError::InvalidPattern { pattern, message, .. } => {
                push_str(&mut s, "invalid pattern '");
                push_str(&mut s, pattern.as_str());
                push_str(&mut s, "': ");
                push_str(&mut s, message.as_str());
            },
            HashlineError::DiffHunkMismatch { hunk_line, .. } => {
                push_str(&mut s, "diff hunk at line ");
                push_decimal(&mut s, *hunk_line);
                push_str(&mut s, " could not be matched to current file content");
            },
            HashlineError::DiffFileMismatch { diff_file, given_file, .. } => {
                push_str(&mut s, "diff targets '");
                push_str(&mut s, diff_file.as_str());
                push_str(&mut s, "' but file argument is '");
                push_str(&mut s, given_file.as_str());
                push_str(&mut s, "'");
            },
            HashlineError::ExplodeTargetExists { path, .. } => {
                push_str(&mut s, "explode target '");
                push_str(&mut s, path.as_str());
                push_str(&mut s, "' already exists — use --force to overwrite it");
            },
            HashlineError::ImplodeMissingMeta { path, .. } => {
                push_str(&mut s, "implode directory '");
                push_str(&mut s, path.as_str());
                push_str(&mut s, "' is missing .meta.json");
            },
            HashlineError::ImplodeInvalidMeta { path, reason, .. } => {
                push_str(&mut s, "implode metadata in '");
                push_str(&mut s, path.as_str());
                push_str(&mut s, "' is invalid: ");
                push_str(&mut s, reason.as_str());
            },
            HashlineError::ImplodeDirtyDirectory { path, entry, .. } => {
                push_str(&mut s, "implode directory '");
                push_str(&mut s, path.as_str());
                push_str(&mut s, "' contains unexpected entry '");
                push_str(&mut s, entry.as_str());
                push_str(&mut s, "'");
            },
            HashlineError::ImplodeMissingLineFile { path, line_no, .. } => {
                push_str(&mut s, "implode directory '");
                push_str(&mut s, path.as_str());
                push_str(&mut s, "' is missing line file for line ");
                push_decimal(&mut s, *line_no);
            },
            HashlineError::InvalidWorkflowPack { path, reason, .. } => {
                push_str(&mut s, "workflow pack '");
                push_str(&mut s, path.as_str());
                push_str(&mut s, "' is invalid: ");
                push_str(&mut s, reason.as_str());
            },
            HashlineError::PatchFailed { op_index, reason, .. } => {
                push_str(&mut s, "patch failed at operation ");
                push_decimal(&mut s, *op_index);
                push_str(&mut s, ": ");
                push_str(&mut s, reason.as_str());
            },
            HashlineError::MultiLineContentUnsupported => {
                push_str(&mut s, "multi-line content is only supported for range edits");
            },
            HashlineError::MutationIndexOutOfBounds { index, len, .. } => {
                push_str(&mut s, "mutation index ");
                push_decimal(&mut s, *index);
                push_str(&mut s, " is out of bounds for document with ");
                push_decimal(&mut s, *len);
                push_str(&mut s, " lines");
            },
            HashlineError::InvalidMutationRange { start, end, len, .. } => {
                push_str(&mut s, "mutation range ");
                push_decimal(&mut s, *start);
                push_str(&mut s, "..=");
                push_decimal(&mut s, *end);
                push_str(&mut s, " is invalid for document with ");
                push_decimal(&mut s, *len);
                push_str(&mut s, " lines");
            },
            HashlineError::ServerError { message, .. } => {
                push_str(&mut s, "server error: ");
                push_str(&mut s, message.as_str());
            },
            HashlineError::OutlineInputTooLarge { path, actual, unit, limit, .. } => {
                push_str(&mut s, "outline input '");
                push_str(&mut s, path.as_str());
                push_str(&mut s, "' is too large to parse safely: ");
                push_decimal(&mut s, *actual);
                push_str(&mut s, " ");
                push_str(&mut s, *unit);
                push_str(&mut s, " (limit: ");
                push_decimal(&mut s, *limit);
                push_str(&mut s, " ");
                push_str(&mut s, *unit);
                push_str(&mut s, ")");
            },
            HashlineError::QueryNotFound { query, path, .. } => {
                push_str(&mut s, "query '");
                push_str(&mut s, query.as_str());
                push_str(&mut s, "' not found in ");
                push_str(&mut s, path.as_str());
            },
            HashlineError::AmbiguousQuery { query, count, path, lines, .. } => {
                push_str(&mut s, "query '");
                push_str(&mut s, query.as_str());
                push_str(&mut s, "' matches ");
                push_decimal(&mut s, *count);
                push_str(&mut s, " lines in ");
                push_str(&mut s, path.as_str());
                push_str(&mut s, " (lines ");
                push_str(&mut s, lines.as_str());
                push_str(&mut s, ")");
            },
            HashlineError::QueryRangeTooLarge { count, max, .. } => {
                push_str(&mut s, "query range covers ");
                push_decimal(&mut s, *count);
                push_str(&mut s, " lines, exceeds maximum of ");
                push_decimal(&mut s, *max);
            },
            HashlineError::ParseError { line, message, .. } => {
                push_str(&mut s, "parse error at line ");
                push_decimal(&mut s, *line);
                push_str(&mut s, ": ");
                push_str(&mut s, message.as_str());
            },
            HashlineError::FileNotFound { path, .. } => {
                push_str(&mut s, "file not found: '");
                push_str(&mut s, path.as_str());
                push_str(&mut s, "'");
            },
            HashlineError::StaleHash { path, expected, actual, .. } => {
                push_str(&mut s, "file '");
                push_str(&mut s, path.as_str());
                push_str(&mut s, "' hash mismatch: expected ");
                push_str(&mut s, expected.as_str());
                push_str(&mut s, ", got ");
                push_str(&mut s, actual.as_str());
            },
            HashlineError::CannotRecover { path, .. } => {
                push_str(&mut s, "cannot recover from inconsistency in '");
                push_str(&mut s, path.as_str());
                push_str(&mut s, "'");
            },
            HashlineError::BlockUnresolved { line, message, .. } => {
                push_str(&mut s, "block unresolved at line ");
                push_decimal(&mut s, *line);
                push_str(&mut s, ": ");
                push_str(&mut s, message.as_str());
            },
            HashlineError::MissingSnapshotTag { path, .. } => {
                push_str(&mut s, "missing snapshot tag in '");
                push_str(&mut s, path.as_str());
                push_str(&mut s, "'");
            },
            HashlineError::NoBlockResolver => {
                push_str(&mut s, "no block resolver configured");
            },
        }
        s
    }
}

} // verus!
