//! Searching the lines of a document with a regular expression, optionally
//! ignoring case and optionally keeping the lines that do not match.

use vstd::prelude::*;
use crate::annotate::{LineView, doc_lines, lines_of, shows_line};
use crate::error::HashlineError;
use crate::hash::{format_short_hash, short_hash_value};
use crate::text::{lines_view, owned, string_of};

verus! {

#[verifier::external_type_specification]
#[verifier::external_body]
pub struct ExTextRegex(regex::Regex);

/// Whether `RegexBuilder` builds pattern `p`, with case folding when `ci`.
pub uninterp spec fn text_regex_builds(p: Seq<char>, ci: bool) -> bool;

/// The text of the error `RegexBuilder` reports for pattern `p`.
pub uninterp spec fn text_regex_error(p: Seq<char>, ci: bool) -> Seq<char>;

/// Whether the regular expression built from `p` (case folded when `ci`)
/// matches somewhere in `hay`.
pub uninterp spec fn text_regex_matches(p: Seq<char>, ci: bool, hay: Seq<char>) -> bool;

/// The text of capture group 1 in the first match of the regular expression
/// built from `p` (case folded when `ci`) in `hay`, if it matches and the
/// group takes part.
pub uninterp spec fn text_regex_group(p: Seq<char>, ci: bool, hay: Seq<char>) -> Option<Seq<char>>;

/// A regular expression over text, with the pattern and the case setting it
/// was built from.
pub struct TextRegex {
    pattern: String,
    case_insensitive: bool,
    re: regex::Regex,
}

impl View for TextRegex {
    type V = (Seq<char>, bool);

    closed spec fn view(&self) -> (Seq<char>, bool) {
        (self.pattern@, self.case_insensitive)
    }
}

/// Calls `RegexBuilder::new(p).case_insensitive(ci).build()`: the
/// expression when the pattern builds, else the error's text.
#[verifier::external_body]
pub(crate) fn build_text_regex(p: &str, ci: bool) -> (r: Result<TextRegex, String>)
    ensures
        r is Ok == text_regex_builds(p@, ci),
        r matches Ok(c) ==> c@ == (p@, ci),
        r matches Err(m) ==> m@ == text_regex_error(p@, ci),
{
    match regex::RegexBuilder::new(p).case_insensitive(ci).build() {
        Ok(re) => Ok(TextRegex { pattern: p.to_string(), case_insensitive: ci, re }),
        Err(e) => Err(e.to_string()),
    }
}

/// Calls `Regex::is_match` on `hay`.
#[verifier::external_body]
pub(crate) fn text_regex_is_match(c: &TextRegex, hay: &str) -> (b: bool)
    ensures
        b == text_regex_matches(c@.0, c@.1, hay@),
{
    c.re.is_match(hay)
}

/// Calls `Regex::captures` on `hay` and takes group 1 of the match as text.
#[verifier::external_body]
pub(crate) fn text_regex_first_group(c: &TextRegex, hay: &str) -> (r: Option<String>)
    ensures
        r is None <==> text_regex_group(c@.0, c@.1, hay@) is None,
        r matches Some(g) ==> Some(g@) == text_regex_group(c@.0, c@.1, hay@),
{
    match c.re.captures(hay) {
        Some(caps) => match caps.get(1) {
            Some(m) => Some(m.as_str().to_string()),
            None => None,
        },
        None => None,
    }
}

/// The indices of the lines of `ls` whose match against pattern `p` (case
/// folded when `ci`) differs from `invert`, in order.
pub open spec fn regex_hits(ls: Seq<Seq<char>>, p: Seq<char>, ci: bool, invert: bool) -> Seq<int>
    decreases ls.len(),
{
    if ls.len() == 0 {
        Seq::empty()
    } else {
        let h = regex_hits(ls.drop_last(), p, ci, invert);
        if text_regex_matches(p, ci, ls.last()) != invert {
            h.push(ls.len() - 1)
        } else {
            h
        }
    }
}

/// `v` shows, in order, the lines of `ls` at `hits`.
pub open spec fn shows_hits(v: Seq<LineView>, ls: Seq<Seq<char>>, hits: Seq<int>) -> bool {
    v.len() == hits.len() && forall|i: int| 0 <= i < hits.len() ==> shows_line(#[trigger] v[i], ls, hits[i])
}

/// The lines of `lines` kept by `re` (see [`regex_hits`]), numbered and
/// hashed.
pub(crate) fn regex_scan(lines: &Vec<Vec<char>>, re: &TextRegex, invert: bool) -> (r: Vec<LineView>)
    ensures
        shows_hits(r@, lines_view(lines@), regex_hits(lines_view(lines@), re@.0, re@.1, invert)),
{
    let ghost ls = lines_view(lines@);
    let mut results: Vec<LineView> = Vec::new();
    let mut k: usize = 0;
    while k < lines.len()
        invariant
            k <= lines@.len(),
            ls == lines_view(lines@),
            shows_hits(results@, ls, regex_hits(ls.take(k as int), re@.0, re@.1, invert)),
        decreases lines@.len() - k,
    {
        proof {
            assert(ls.take(k + 1).drop_last() =~= ls.take(k as int));
            assert(ls.take(k + 1).last() == ls[k as int]);
            assert(ls[k as int] == lines@[k as int]@);
        }
        let content = string_of(lines[k].as_slice());
        let m = text_regex_is_match(re, content.as_str());
        if m != invert {
            let hash = format_short_hash(short_hash_value(content.as_str()));
            let ghost before = results@;
            results.push(LineView { n: k + 1, hash, content });
            proof {
                let h = regex_hits(ls.take(k + 1), re@.0, re@.1, invert);
                assert forall|i: int| 0 <= i < h.len() implies shows_line(#[trigger] results@[i], ls, h[i]) by {
                    if i < before.len() {
                        assert(results@[i] == before[i]);
                    }
                }
            }
        }
        k = k + 1;
    }
    assert(ls.take(k as int) =~= ls);
    results
}

/// Greps the lines of `text` (see [`doc_lines`]) with `pattern`, case
/// folded when `case_insensitive`: the lines that match, or with `invert`
/// those that do not, numbered and hashed. A pattern that does not build is
/// refused with the builder's error.
pub fn grep_lines_regex(text: &str, pattern: &str, case_insensitive: bool, invert: bool) -> (r: Result<
    Vec<LineView>,
    HashlineError,
>)
    ensures
        !text_regex_builds(pattern@, case_insensitive) ==> (r matches Err(
            HashlineError::InvalidPattern { pattern: p, message },
        ) && p@ == pattern@ && message@ == text_regex_error(pattern@, case_insensitive)),
        text_regex_builds(pattern@, case_insensitive) ==> (r matches Ok(v) && shows_hits(
            v@,
            doc_lines(text@),
            regex_hits(doc_lines(text@), pattern@, case_insensitive, invert),
        )),
{
    let re = match build_text_regex(pattern, case_insensitive) {
        Ok(re) => re,
        Err(message) => {
            return Err(HashlineError::InvalidPattern { pattern: owned(pattern), message });
        },
    };
    let lines = lines_of(text, true);
    Ok(regex_scan(&lines, &re, invert))
}

} // verus!
