//! What a snapshot-tag mismatch carries: the expected and actual file
//! hashes, the file's lines and the anchored lines, and the check of a
//! bare line reference against the file.

use vstd::prelude::*;
use crate::ascii::{decimal, push_decimal, parse_usize, parse_usize_spec};
use crate::text::{push_str, chars_of};
use crate::grep::{build_text_regex, text_regex_builds, text_regex_first_group, text_regex_group};

verus! {

/// Lines of context shown on either side of a mismatch.
pub const MISMATCH_CONTEXT: usize = 2;

/// A bare line-number reference like `42`.
#[derive(Clone, Copy, Debug)]
pub struct ParsedTag {
    pub line: usize,
}

/// Whether `tag` names a line of the file; the error says which line and
/// how many there are.
pub fn validate_line_ref(tag: &ParsedTag, file_lines: &[String]) -> (r: Result<(), String>)
    ensures
        r is Ok <==> 1 <= tag.line <= file_lines@.len(),
        r matches Err(m) ==> m@ == "Line "@ + decimal(tag.line as nat) + " does not exist (file has "@ + decimal(
            file_lines@.len(),
        ) + " lines)"@,
{
    if tag.line == 0 || tag.line > file_lines.len() {
        let mut m = String::new();
        push_str(&mut m, "Line ");
        push_decimal(&mut m, tag.line);
        push_str(&mut m, " does not exist (file has ");
        push_decimal(&mut m, file_lines.len());
        push_str(&mut m, " lines)");
        Err(m)
    } else {
        Ok(())
    }
}

/// The form of a bare line reference: optional whitespace and `>`, `+`,
/// `-`, `*` marks, the line number (group 1), then optionally `:` and
/// anything, and whitespace. `\s` and `\d` are the Unicode classes.
pub open spec fn line_ref_pattern() -> Seq<char> {
    "^\\s*[>+\\-*]*\\s*(\\d+)(?::.*)?\\s*$"@
}

/// The number text of a line reference, if `text` has the form.
pub open spec fn line_ref_digits(text: Seq<char>) -> Option<Seq<char>> {
    if text_regex_builds(line_ref_pattern(), false) {
        text_regex_group(line_ref_pattern(), false, text)
    } else {
        None
    }
}

/// The `Debug` rendering of a string: quoted, with escapes.
pub uninterp spec fn str_debug(s: Seq<char>) -> Seq<char>;

/// Renders `s` with `format!("{:?}")`.
#[verifier::external_body]
fn debug_quoted(s: &str) -> (r: String)
    ensures
        r@ == str_debug(s@),
{
    format!("{:?}", s)
}

/// The refusal of text that is not a line reference.
pub open spec fn not_a_line_ref_msg(text: Seq<char>) -> Seq<char> {
    "Invalid line reference. Expected a bare line number from read/search output plus the section header content-hash tag. Received "@
        + str_debug(text) + "."@
}

/// The refusal of `text` as a line reference.
fn not_a_line_ref(text: &str) -> (m: String)
    ensures
        m@ == not_a_line_ref_msg(text@),
{
    let mut m = String::new();
    push_str(
        &mut m,
        "Invalid line reference. Expected a bare line number from read/search output plus the section header content-hash tag. Received ",
    );
    let q = debug_quoted(text);
    push_str(&mut m, q.as_str());
    push_str(&mut m, ".");
    m
}

/// Parses a decorated bare line reference such as `42`, `*42:foo` or
/// ` > 7`: the number must read as a `usize` and be at least 1.
pub fn parse_tag(ref_text: &str) -> (r: Result<ParsedTag, String>)
    ensures
        match line_ref_digits(ref_text@) {
            None => r matches Err(m) && m@ == not_a_line_ref_msg(ref_text@),
            Some(d) => match parse_usize_spec(d) {
                None => r matches Err(m) && m@ == "Invalid line number in reference: "@ + str_debug(ref_text@),
                Some(n) => if n == 0 {
                    r matches Err(m) && m@ == "Line number must be >= 1, got 0 in \""@ + ref_text@ + "\"."@
                } else {
                    r matches Ok(t) && t.line == n
                },
            },
        },
{
    let re = match build_text_regex("^\\s*[>+\\-*]*\\s*(\\d+)(?::.*)?\\s*$", false) {
        Ok(re) => re,
        Err(_) => {
            return Err(not_a_line_ref(ref_text));
        },
    };
    let digits = match text_regex_first_group(&re, ref_text) {
        Some(d) => d,
        None => {
            return Err(not_a_line_ref(ref_text));
        },
    };
    let cs = chars_of(digits.as_str());
    match parse_usize(cs.as_slice()) {
        None => {
            let mut m = String::new();
            push_str(&mut m, "Invalid line number in reference: ");
            let q = debug_quoted(ref_text);
            push_str(&mut m, q.as_str());
            Err(m)
        },
        Some(n) => {
            if n == 0 {
                let mut m = String::new();
                push_str(&mut m, "Line number must be >= 1, got 0 in \"");
                push_str(&mut m, ref_text);
                push_str(&mut m, "\".");
                Err(m)
            } else {
                Ok(ParsedTag { line: n })
            }
        },
    }
}

/// What a mismatch error is built from.
pub struct MismatchDetails {
    pub path: Option<String>,
    pub expected_file_hash: String,
    pub actual_file_hash: String,
    pub file_lines: Vec<String>,
    pub anchor_lines: Vec<usize>,
    /// Whether the expected hash names a recorded snapshot (the file
    /// drifted since) rather than no snapshot at all; absent means yes.
    pub hash_recognized: Option<bool>,
}

/// A section's snapshot tag did not match the file.
pub struct MismatchError {
    pub path: Option<String>,
    pub expected_hash: String,
    pub actual_hash: String,
    pub file_lines: Vec<String>,
    pub anchor_lines: Vec<usize>,
    pub hash_recognized: bool,
}

impl MismatchError {
    /// The error for `details`; an absent `hash_recognized` counts as true.
    pub fn new(details: MismatchDetails) -> (e: MismatchError)
        ensures
            e.path == details.path,
            e.expected_hash == details.expected_file_hash,
            e.actual_hash == details.actual_file_hash,
            e.file_lines == details.file_lines,
            e.anchor_lines == details.anchor_lines,
            e.hash_recognized == match details.hash_recognized {
                Some(b) => b,
                None => true,
            },
    {
        let recognized = match details.hash_recognized {
            Some(b) => b,
            None => true,
        };
        MismatchError {
            path: details.path,
            expected_hash: details.expected_file_hash,
            actual_hash: details.actual_file_hash,
            file_lines: details.file_lines,
            anchor_lines: details.anchor_lines,
            hash_recognized: recognized,
        }
    }
}

} // verus!
