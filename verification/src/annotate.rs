//! Annotating the lines of a file that contain a literal query with their
//! line numbers and short hashes.

use vstd::prelude::*;
use crate::ascii::{decimal, push_decimal};
use crate::error::HashlineError;
use crate::fast::{find_sub, find_sub_from};
use crate::hash::{format_short_hash, hex2, short_hash_spec, short_hash_value};
use crate::grep::{build_text_regex, regex_hits, regex_scan, shows_hits, text_regex_builds, text_regex_error};
use crate::text::{chars_of, lines_view, owned, push_str, split_chars, split_seq, string_of};

verus! {

/// A matching line: its 1-based number, short hash and content.
#[derive(Clone, Debug, PartialEq, Eq)]
pub struct LineView {
    pub n: usize,
    pub hash: String,
    pub content: String,
}

/// `l` without one trailing carriage return.
pub open spec fn strip_cr(l: Seq<char>) -> Seq<char> {
    if l.len() > 0 && l.last() == '\r' {
        l.drop_last()
    } else {
        l
    }
}

/// The lines of a searched file: the pieces between LFs (an empty file is
/// one empty line; a final LF ends the last line), each without a
/// trailing carriage return.
pub open spec fn search_lines(text: Seq<char>) -> Seq<Seq<char>> {
    let p = split_seq(text, '\n');
    let q = if text.len() > 0 && text.last() == '\n' { p.drop_last() } else { p };
    Seq::new(q.len(), |k: int| strip_cr(q[k]))
}

/// The indices of the lines of `ls` that contain `q`, in order.
pub open spec fn hit_lines(ls: Seq<Seq<char>>, q: Seq<char>) -> Seq<int>
    decreases ls.len(),
{
    if ls.len() == 0 {
        Seq::empty()
    } else {
        let p = hit_lines(ls.drop_last(), q);
        if find_sub_from(ls.last(), q, 0) >= 0 {
            p.push(ls.len() - 1)
        } else {
            p
        }
    }
}

/// `v` shows line `k` (0-based) of `ls`.
pub open spec fn shows_line(v: LineView, ls: Seq<Seq<char>>, k: int) -> bool {
    &&& v.n == k + 1
    &&& v.content@ == ls[k]
    &&& v.hash@ == hex2(short_hash_spec(ls[k]))
}

/// The refusal when `expect_one` is asked and `found` lines match.
pub open spec fn expect_one_msg(q: Seq<char>, found: nat) -> Seq<char> {
    "expected exactly 1 match for query '"@ + q + "', but found "@ + decimal(found)
}

proof fn lemma_hit_lines_bound(ls: Seq<Seq<char>>, q: Seq<char>)
    ensures
        hit_lines(ls, q).len() <= ls.len(),
        forall|i: int| 0 <= i < hit_lines(ls, q).len() ==> 0 <= #[trigger] hit_lines(ls, q)[i] < ls.len(),
    decreases ls.len(),
{
    if ls.len() > 0 {
        lemma_hit_lines_bound(ls.drop_last(), q);
    }
}

/// The lines of a document cut at its line starts: every piece between
/// LFs, the empty piece after a final LF included, each without a trailing
/// carriage return.
pub open spec fn doc_lines(text: Seq<char>) -> Seq<Seq<char>> {
    let p = split_seq(text, '\n');
    Seq::new(p.len(), |k: int| strip_cr(p[k]))
}

/// The lines of `text`: with `keep_final` those of [`doc_lines`], else
/// those of [`search_lines`].
pub(crate) fn lines_of(text: &str, keep_final: bool) -> (r: Vec<Vec<char>>)
    ensures
        lines_view(r@) == (if keep_final { doc_lines(text@) } else { search_lines(text@) }),
{
    let cs = chars_of(text);
    let parts = split_chars(cs.as_slice(), '\n');
    let ghost p = split_seq(text@, '\n');
    let mut count = parts.len();
    if !keep_final && cs.len() > 0 && cs[cs.len() - 1] == '\n' && count > 0 {
        count = count - 1;
    }
    proof {
        crate::text::lemma_split_nonempty(text@, '\n');
    }
    let mut r: Vec<Vec<char>> = Vec::new();
    let mut i: usize = 0;
    while i < count
        invariant
            i <= count <= parts@.len(),
            lines_view(parts@) == p,
            count == (if !keep_final && text@.len() > 0 && text@.last() == '\n' { p.len() - 1 } else { p.len() as int }),
            lines_view(r@) == Seq::new(i as nat, |k: int| strip_cr(p[k])),
        decreases count - i,
    {
        let part = &parts[i];
        let mut line: Vec<char> = Vec::new();
        let keep = if part.len() > 0 && part[part.len() - 1] == '\r' { part.len() - 1 } else { part.len() };
        let mut j: usize = 0;
        while j < keep
            invariant
                j <= keep <= part@.len(),
                line@ == part@.take(j as int),
            decreases keep - j,
        {
            line.push(part[j]);
            assert(part@.take(j + 1) =~= part@.take(j as int).push(part@[j as int]));
            j = j + 1;
        }
        proof {
            assert(p[i as int] == part@);
            assert(line@ =~= strip_cr(p[i as int]));
        }
        let ghost before = r@;
        r.push(line);
        proof {
            crate::text::lemma_lines_view_push(before, r@.last());
            assert(lines_view(r@) =~= Seq::new((i + 1) as nat, |k: int| strip_cr(p[k])));
        }
        i = i + 1;
    }
    assert(lines_view(r@) =~= (if keep_final { doc_lines(text@) } else { search_lines(text@) }));
    r
}

/// The lines of `text` that contain `query`, numbered and hashed; with
/// `expect_one`, a refusal unless exactly one line matches.
pub fn search_literal(text: &str, query: &str, expect_one: bool) -> (r: Result<Vec<LineView>, HashlineError>)
    ensures
        ({
            let ls = search_lines(text@);
            let hits = hit_lines(ls, query@);
            if expect_one && hits.len() != 1 {
                r matches Err(HashlineError::InvalidPattern { pattern, message }) && pattern@ == query@ && message@
                    == expect_one_msg(query@, hits.len())
            } else {
                r matches Ok(v) && v@.len() == hits.len() && forall|i: int|
                    0 <= i < hits.len() ==> shows_line(#[trigger] v@[i], ls, hits[i])
            }
        }),
{
    let lines = lines_of(text, false);
    let ghost ls = lines_view(lines@);
    let qs = chars_of(query);
    let mut results: Vec<LineView> = Vec::new();
    let mut k: usize = 0;
    while k < lines.len()
        invariant
            k <= lines@.len(),
            ls == lines_view(lines@),
            qs@ == query@,
            hit_lines(ls.take(k as int), query@).len() == results@.len(),
            forall|i: int|
                0 <= i < results@.len() ==> shows_line(#[trigger] results@[i], ls, hit_lines(ls.take(k as int), query@)[i]),
        decreases lines@.len() - k,
    {
        proof {
            assert(ls.take(k + 1).drop_last() =~= ls.take(k as int));
            assert(ls.take(k + 1).last() == ls[k as int]);
            assert(ls[k as int] == lines@[k as int]@);
        }
        let found = find_sub(lines[k].as_slice(), qs.as_slice());
        if found.is_some() {
            let content = string_of(lines[k].as_slice());
            let hash = format_short_hash(short_hash_value(content.as_str()));
            let ghost before = results@;
            results.push(LineView { n: k + 1, hash, content });
            proof {
                assert forall|i: int| 0 <= i < results@.len() implies shows_line(
                    #[trigger] results@[i],
                    ls,
                    hit_lines(ls.take(k + 1), query@)[i],
                ) by {
                    if i < before.len() {
                        assert(results@[i] == before[i]);
                    }
                }
            }
        }
        k = k + 1;
    }
    assert(ls.take(k as int) =~= ls);
    if expect_one && results.len() != 1 {
        let mut message = String::new();
        push_str(&mut message, "expected exactly 1 match for query '");
        push_str(&mut message, query);
        push_str(&mut message, "', but found ");
        push_decimal(&mut message, results.len());
        assert(message@ =~= expect_one_msg(query@, results@.len()));
        return Err(HashlineError::InvalidPattern { pattern: owned(query), message });
    }
    Ok(results)
}

/// The lines of `text` (see [`doc_lines`]) that `query` matches as a
/// regular expression, case sensitive, numbered and hashed; with
/// `expect_one`, a refusal unless exactly one line matches. A query that
/// does not build is refused with the builder's error.
pub fn search_regex(text: &str, query: &str, expect_one: bool) -> (r: Result<Vec<LineView>, HashlineError>)
    ensures
        !text_regex_builds(query@, false) ==> (r matches Err(HashlineError::InvalidPattern { pattern, message })
            && pattern@ == query@ && message@ == text_regex_error(query@, false)),
        text_regex_builds(query@, false) ==> ({
            let ls = doc_lines(text@);
            let hits = regex_hits(ls, query@, false, false);
            if expect_one && hits.len() != 1 {
                r matches Err(HashlineError::InvalidPattern { pattern, message }) && pattern@ == query@ && message@
                    == expect_one_msg(query@, hits.len())
            } else {
                r matches Ok(v) && shows_hits(v@, ls, hits)
            }
        }),
{
    let re = match build_text_regex(query, false) {
        Ok(re) => re,
        Err(message) => {
            return Err(HashlineError::InvalidPattern { pattern: owned(query), message });
        },
    };
    let lines = lines_of(text, true);
    let results = regex_scan(&lines, &re, false);
    if expect_one && results.len() != 1 {
        let mut message = String::new();
        push_str(&mut message, "expected exactly 1 match for query '");
        push_str(&mut message, query);
        push_str(&mut message, "', but found ");
        push_decimal(&mut message, results.len());
        assert(message@ =~= expect_one_msg(query@, results@.len()));
        return Err(HashlineError::InvalidPattern { pattern: owned(query), message });
    }
    Ok(results)
}

} // verus!
