//! Checks on a range replacement's payload: lines that repeat the
//! neighbours of the range (boundary echoes, duplicated prefixes and
//! suffixes) and structural closers the range drops. They only report;
//! nothing is changed.

use vstd::prelude::*;
use crate::ascii::{decimal, push_decimal};
use crate::text::{chars_of, string_of, str_eq, push_str, trim};
use crate::ascii::trim_chars;
use crate::document::{LineEntry, entry_contents};

verus! {

/// A trimmed line that only closes a structure: a brace, bracket or
/// parenthesis closer, or `end`.
pub open spec fn closer_spec(t: Seq<char>) -> bool {
    ||| t == "}"@
    ||| t == "});"@
    ||| t == "},"@
    ||| t == ")"@
    ||| t == "]);"@
    ||| t == "])"@
    ||| t == "]"@
    ||| t == "end"@
}

/// Whether the (already trimmed) line is a structural closer.
pub fn is_structural_closer(trimmed: &str) -> (r: bool)
    ensures
        r == closer_spec(trimmed@),
{
    str_eq(trimmed, "}") || str_eq(trimmed, "});") || str_eq(trimmed, "},") || str_eq(trimmed, ")")
        || str_eq(trimmed, "]);") || str_eq(trimmed, "])") || str_eq(trimmed, "]") || str_eq(trimmed, "end")
}

/// The texts of a run of strings.
pub open spec fn strings_view(v: Seq<String>) -> Seq<Seq<char>> {
    Seq::new(v.len(), |i: int| v[i]@)
}

/// Some line of `p` is, trimmed, a structural closer.
pub open spec fn has_closer(p: Seq<Seq<char>>) -> bool {
    exists|i: int| 0 <= i < p.len() && closer_spec(trim(#[trigger] p[i]))
}

/// How many of lines `lo..hi` (1-based, half-open) of `c` are closers.
pub open spec fn closer_count(c: Seq<Seq<char>>, lo: int, hi: int) -> nat
    decreases hi - lo,
{
    if hi <= lo {
        0
    } else {
        closer_count(c, lo, hi - 1) + if closer_spec(trim(c[hi - 2])) {
            1nat
        } else {
            0nat
        }
    }
}

/// The warning for a payload whose first line repeats the line above.
pub open spec fn echo_above_msg() -> Seq<char> {
    "Boundary echo detected: first payload line duplicates the line above the range. Use SWAP on the range whose content actually changes."@
}

/// The warning for a payload whose last line repeats the line below.
pub open spec fn echo_below_msg() -> Seq<char> {
    "Boundary echo detected: last payload line duplicates the line below the range. Use SWAP on the range whose content actually changes."@
}

/// The warning for `n` dropped closers.
pub open spec fn dropped_msg(n: nat) -> Seq<char> {
    "Dropped closers: the range deleted "@ + decimal(n)
        + " structural closer(s) but the payload does not restate them. Consider widening the SWAP body or narrowing the range."@
}

/// The warnings for replacing 1-based lines `start..=end` of `c` with `p`:
/// an echo of the line above, an echo of the line below, and closers in
/// the range that the payload does not restate.
pub open spec fn boundary_warnings(p: Seq<Seq<char>>, start: int, end: int, c: Seq<Seq<char>>) -> Seq<Seq<char>> {
    if p.len() == 0 || c.len() == 0 {
        Seq::empty()
    } else {
        let w1 = if start > 1 && start <= c.len() && p[0] == c[start - 2] {
            seq![echo_above_msg()]
        } else {
            Seq::empty()
        };
        let w2 = if end < c.len() && p.last() == c[end] {
            seq![echo_below_msg()]
        } else {
            Seq::empty()
        };
        let hi = if end < c.len() { end } else { c.len() as int };
        let n = closer_count(c, start, hi + 1);
        let w3 = if !has_closer(p) && n > 0 {
            seq![dropped_msg(n)]
        } else {
            Seq::empty()
        };
        w1 + w2 + w3
    }
}

/// Whether some line of `payload`, trimmed, is a closer.
fn payload_has_closer(payload: &[String]) -> (r: bool)
    ensures
        r == has_closer(strings_view(payload@)),
{
    let ghost p = strings_view(payload@);
    let mut i: usize = 0;
    while i < payload.len()
        invariant
            i <= payload@.len(),
            p == strings_view(payload@),
            forall|j: int| 0 <= j < i ==> !closer_spec(trim(#[trigger] p[j])),
        decreases payload@.len() - i,
    {
        let cs = chars_of(payload[i].as_str());
        let t = trim_chars(cs.as_slice());
        let ts = string_of(t.as_slice());
        if is_structural_closer(ts.as_str()) {
            assert(p[i as int] == payload@[i as int]@);
            return true;
        }
        i = i + 1;
    }
    false
}

/// Reports boundary echoes and dropped closers for replacing 1-based lines
/// `start_line..=end_line` of `entries` with `payload`.
pub fn detect_boundary_issues(payload: &[String], start_line: usize, end_line: usize, entries: &[LineEntry]) -> (w: Vec<String>)
    requires
        start_line == 0 ==> payload@.len() == 0 || entries@.len() == 0 || has_closer(strings_view(payload@)),
    ensures
        strings_view(w@) == boundary_warnings(
            strings_view(payload@),
            start_line as int,
            end_line as int,
            entry_contents(entries@),
        ),
{
    let ghost p = strings_view(payload@);
    let ghost c = entry_contents(entries@);
    let mut warnings: Vec<String> = Vec::new();
    if payload.len() == 0 || entries.len() == 0 {
        assert(strings_view(warnings@) =~= Seq::<Seq<char>>::empty());
        return warnings;
    }
    let n = entries.len();
    let ghost w1: Seq<Seq<char>> = if start_line > 1 && start_line <= n && p[0] == c[start_line - 2] {
        seq![echo_above_msg()]
    } else {
        Seq::empty()
    };
    if start_line > 1 && start_line <= n {
        if str_eq(payload[0].as_str(), entries[start_line - 2].content.as_str()) {
            let mut m = String::new();
            push_str(
                &mut m,
                "Boundary echo detected: first payload line duplicates the line above the range. Use SWAP on the range whose content actually changes.",
            );
            warnings.push(m);
        }
    }
    assert(strings_view(warnings@) =~= w1);
    let ghost w2: Seq<Seq<char>> = if end_line < n && p.last() == c[end_line as int] {
        seq![echo_below_msg()]
    } else {
        Seq::empty()
    };
    if end_line < n {
        if str_eq(payload[payload.len() - 1].as_str(), entries[end_line].content.as_str()) {
            let mut m = String::new();
            push_str(
                &mut m,
                "Boundary echo detected: last payload line duplicates the line below the range. Use SWAP on the range whose content actually changes.",
            );
            warnings.push(m);
        }
    }
    assert(strings_view(warnings@) =~= w1 + w2);
    if !payload_has_closer(payload) {
        let hi = if end_line < n { end_line } else { n };
        let mut deleted: usize = 0;
        let mut j: usize = start_line - 1;
        while j < hi
            invariant
                start_line >= 1,
                hi <= n,
                n == entries@.len(),
                c == entry_contents(entries@),
                start_line - 1 <= j,
                j <= hi || j == start_line - 1,
                deleted == closer_count(c, start_line as int, j + 1),
                deleted <= j - (start_line - 1),
            decreases hi - j,
        {
            let cs = chars_of(entries[j].content.as_str());
            let t = trim_chars(cs.as_slice());
            let ts = string_of(t.as_slice());
            if is_structural_closer(ts.as_str()) {
                deleted = deleted + 1;
            }
            j = j + 1;
        }
        assert(deleted == closer_count(c, start_line as int, hi + 1));
        if deleted > 0 {
            let mut m = String::new();
            push_str(&mut m, "Dropped closers: the range deleted ");
            push_decimal(&mut m, deleted);
            push_str(
                &mut m,
                " structural closer(s) but the payload does not restate them. Consider widening the SWAP body or narrowing the range.",
            );
            assert(m@ =~= dropped_msg(deleted as nat));
            warnings.push(m);
        }
    }
    assert(strings_view(warnings@) =~= boundary_warnings(p, start_line as int, end_line as int, c));
    warnings
}

/// How many lines, counting back from the payload's last line, repeat the
/// lines above line `start` (1-based) of `c`, counting back from the one
/// just above.
pub open spec fn prefix_dups(p: Seq<Seq<char>>, start: int, c: Seq<Seq<char>>, k: int) -> int
    decreases k,
{
    if k <= 0 {
        0
    } else if prefix_dups(p, start, c, k - 1) == k - 1 && p[p.len() - k] == c[start - 1 - k] {
        k
    } else {
        prefix_dups(p, start, c, k - 1)
    }
}

/// The number of payload lines, from its end backwards, that repeat the
/// lines above the range (0 when the first comparison fails).
pub fn duplicate_prefix_count(payload: &[String], start_line: usize, entries: &[LineEntry]) -> (n: usize)
    requires
        payload@.len() > 0 && start_line > 1 ==> start_line - 2 < entries@.len(),
    ensures
        n == if payload@.len() == 0 || start_line <= 1 {
            0
        } else {
            prefix_dups(
                strings_view(payload@),
                start_line as int,
                entry_contents(entries@),
                if payload@.len() < start_line - 1 { payload@.len() as int } else { start_line - 1 },
            )
        },
{
    let ghost p = strings_view(payload@);
    let ghost c = entry_contents(entries@);
    if payload.len() == 0 || start_line <= 1 {
        return 0;
    }
    let max_check = if payload.len() < start_line - 1 { payload.len() } else { start_line - 1 };
    let mut count: usize = 0;
    let mut i: usize = 0;
    while i < max_check
        invariant
            i <= max_check,
            max_check <= payload@.len(),
            max_check <= start_line - 1,
            max_check == (if payload@.len() < start_line - 1 { payload@.len() as int } else { start_line - 1 }),
            start_line > 1,
            start_line - 2 < entries@.len(),
            p == strings_view(payload@),
            c == entry_contents(entries@),
            count == i,
            count == prefix_dups(p, start_line as int, c, i as int),
        decreases max_check - i,
    {
        if str_eq(payload[payload.len() - 1 - i].as_str(), entries[start_line - 2 - i].content.as_str()) {
            count = count + 1;
        } else {
            proof {
                let k = i as int + 1;
                assert(p[p.len() - k] == payload@[payload@.len() - 1 - i]@);
                assert(c[start_line - 1 - k] == entries@[start_line - 2 - i].content@);
                assert(prefix_dups(p, start_line as int, c, k) == i);
                lemma_prefix_dups_stuck(p, start_line as int, c, k, max_check as int);
                assert(count == prefix_dups(p, start_line as int, c, max_check as int));
            }
            return count;
        }
        i = i + 1;
    }
    count
}

proof fn lemma_prefix_dups_stuck(p: Seq<Seq<char>>, start: int, c: Seq<Seq<char>>, k: int, m: int)
    requires
        1 <= k <= m,
        prefix_dups(p, start, c, k) < k,
    ensures
        prefix_dups(p, start, c, m) == prefix_dups(p, start, c, k),
    decreases m - k,
{
    if k < m {
        lemma_prefix_dups_stuck(p, start, c, k + 1, m);
    }
}

/// How many lines, counting back from the payload's last line, repeat the
/// lines of `c` from index `end` on.
pub open spec fn suffix_dups(p: Seq<Seq<char>>, end: int, c: Seq<Seq<char>>, k: int) -> int
    decreases k,
{
    if k <= 0 {
        0
    } else if suffix_dups(p, end, c, k - 1) == k - 1 && p[p.len() - k] == c[end + k - 1] {
        k
    } else {
        suffix_dups(p, end, c, k - 1)
    }
}

/// The number of payload lines, from its end backwards, that repeat the
/// lines below the range, from the one just below onwards (0 when the
/// first comparison fails).
pub fn duplicate_suffix_count(payload: &[String], end_line: usize, entries: &[LineEntry]) -> (n: usize)
    ensures
        n == if payload@.len() == 0 || end_line >= entries@.len() {
            0
        } else {
            suffix_dups(
                strings_view(payload@),
                end_line as int,
                entry_contents(entries@),
                if payload@.len() < entries@.len() - end_line {
                    payload@.len() as int
                } else {
                    entries@.len() - end_line
                },
            )
        },
{
    let ghost p = strings_view(payload@);
    let ghost c = entry_contents(entries@);
    if payload.len() == 0 || end_line >= entries.len() {
        return 0;
    }
    let rest = entries.len() - end_line;
    let max_check = if payload.len() < rest { payload.len() } else { rest };
    let mut count: usize = 0;
    let mut i: usize = 0;
    while i < max_check
        invariant
            i <= max_check,
            max_check <= payload@.len(),
            max_check <= entries@.len() - end_line,
            max_check == (if payload@.len() < entries@.len() - end_line {
                payload@.len() as int
            } else {
                entries@.len() - end_line
            }),
            end_line < entries@.len() <= usize::MAX,
            p == strings_view(payload@),
            c == entry_contents(entries@),
            count == i,
            count == suffix_dups(p, end_line as int, c, i as int),
        decreases max_check - i,
    {
        if str_eq(payload[payload.len() - 1 - i].as_str(), entries[end_line + i].content.as_str()) {
            count = count + 1;
        } else {
            proof {
                let k = i as int + 1;
                assert(p[p.len() - k] == payload@[payload@.len() - 1 - i]@);
                assert(c[end_line + k - 1] == entries@[end_line + i].content@);
                assert(suffix_dups(p, end_line as int, c, k) == i);
                lemma_suffix_dups_stuck(p, end_line as int, c, k, max_check as int);
                assert(count == suffix_dups(p, end_line as int, c, max_check as int));
            }
            return count;
        }
        i = i + 1;
    }
    count
}

proof fn lemma_suffix_dups_stuck(p: Seq<Seq<char>>, end: int, c: Seq<Seq<char>>, k: int, m: int)
    requires
        1 <= k <= m,
        suffix_dups(p, end, c, k) < k,
    ensures
        suffix_dups(p, end, c, m) == suffix_dups(p, end, c, k),
    decreases m - k,
{
    if k < m {
        lemma_suffix_dups_stuck(p, end, c, k + 1, m);
    }
}

} // verus!
