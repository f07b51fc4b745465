//! Shifting lines right or left by a number of spaces: the amount is read
//! from `+N` or `-N`, a range must not mix space and tab indentation, and a
//! dedent may only take away spaces that are there.

use vstd::prelude::*;
use vstd::utf8::encode_utf8;
use crate::ascii::{parse_usize, parse_usize_spec};
use crate::document::Document;
use crate::error::HashlineError;
use crate::text::{chars_of, string_of, owned, push_char, push_str};

verus! {

/// An indentation change by a number of spaces.
#[derive(Clone, Copy, Debug, PartialEq, Eq, Structural)]
pub enum IndentChange {
    Indent(usize),
    Dedent(usize),
}

/// The change `+N` or `-N` asks for (`N` a positive number, which may carry
/// its own `+`).
pub open spec fn indent_change_spec(raw: Seq<char>) -> Option<IndentChange> {
    if encode_utf8(raw).len() < 2 {
        None
    } else {
        match parse_usize_spec(raw.skip(1)) {
            Some(n) => if n == 0 {
                None
            } else if raw[0] == '+' {
                Some(IndentChange::Indent(n))
            } else if raw[0] == '-' {
                Some(IndentChange::Dedent(n))
            } else {
                None
            },
            None => None,
        }
    }
}

/// Reads an indentation amount such as `+4` or `-2`.
pub fn parse_indent_change(raw: &str) -> (r: Result<IndentChange, HashlineError>)
    requires
        raw@.len() > 0 ==> (raw@[0] as u32) < 128,
    ensures
        match indent_change_spec(raw@) {
            Some(c) => r matches Ok(d) && d == c,
            None => r matches Err(HashlineError::InvalidIndentAmount { amount }) && amount@ == raw@,
        },
{
    if raw.as_bytes().len() < 2 {
        return Err(HashlineError::InvalidIndentAmount { amount: owned(raw) });
    }
    let cs = chars_of(raw);
    let mut rest: Vec<char> = Vec::new();
    let mut i: usize = 1;
    while i < cs.len()
        invariant
            1 <= i <= cs@.len(),
            rest@ == cs@.subrange(1, i as int),
        decreases cs@.len() - i,
    {
        rest.push(cs[i]);
        i = i + 1;
        assert(rest@ =~= cs@.subrange(1, i as int));
    }
    assert(rest@ =~= raw@.skip(1));
    match parse_usize(rest.as_slice()) {
        Some(n) => {
            if n == 0 {
                return Err(HashlineError::InvalidIndentAmount { amount: owned(raw) });
            }
            if cs[0] == '+' {
                Ok(IndentChange::Indent(n))
            } else if cs[0] == '-' {
                Ok(IndentChange::Dedent(n))
            } else {
                Err(HashlineError::InvalidIndentAmount { amount: owned(raw) })
            }
        },
        None => Err(HashlineError::InvalidIndentAmount { amount: owned(raw) }),
    }
}

/// The spaces and the tabs in the run of spaces and tabs that starts `s`.
pub open spec fn lead_counts(s: Seq<char>) -> (nat, nat)
    decreases s.len(),
{
    if s.len() == 0 {
        (0, 0)
    } else if s[0] == ' ' {
        let r = lead_counts(s.drop_first());
        (r.0 + 1, r.1)
    } else if s[0] == '\t' {
        let r = lead_counts(s.drop_first());
        (r.0, r.1 + 1)
    } else {
        (0, 0)
    }
}

/// `n` spaces.
pub open spec fn space_run(n: nat) -> Seq<char> {
    Seq::new(n, |i: int| ' ')
}

proof fn lemma_lead_counts_bound(s: Seq<char>)
    ensures
        lead_counts(s).0 + lead_counts(s).1 <= s.len(),
        lead_counts(s).1 == 0 ==> forall|i: int| 0 <= i < lead_counts(s).0 ==> s[i] == ' ',
    decreases s.len(),
{
    if s.len() > 0 && (s[0] == ' ' || s[0] == '\t') {
        lemma_lead_counts_bound(s.drop_first());
        if lead_counts(s).1 == 0 {
            assert forall|i: int| 0 <= i < lead_counts(s).0 implies s[i] == ' ' by {
                if i > 0 {
                    assert(s.drop_first()[i - 1] == s[i]);
                }
            }
        }
    }
}

/// Shifts one line as `change` asks. A dedent fails when the leading
/// spaces and tabs hold a tab, or fewer spaces than asked for.
pub fn apply_indent(line: &str, change: IndentChange, line_no: usize) -> (r: Result<String, HashlineError>)
    ensures
        ({
            let c = lead_counts(line@);
            match change {
                IndentChange::Indent(n) => r matches Ok(s) && s@ == space_run(n as nat) + line@,
                IndentChange::Dedent(n) => if c.1 > 0 {
                    r matches Err(HashlineError::IndentUnderflow { line_no: l, amount, available, kind }) && l
                        == line_no && amount == n && available == c.1 && kind@ == "tabs"@
                } else if c.0 < n {
                    r matches Err(HashlineError::IndentUnderflow { line_no: l, amount, available, kind }) && l
                        == line_no && amount == n && available == c.0 && kind@ == "spaces"@
                } else {
                    r matches Ok(s) && s@ == line@.skip(n as int)
                },
            }
        }),
{
    let cs = chars_of(line);
    match change {
        IndentChange::Indent(n) => {
            let mut s = String::new();
            let mut k: usize = 0;
            while k < n
                invariant
                    k <= n,
                    s@ == space_run(k as nat),
                decreases n - k,
            {
                push_char(&mut s, ' ');
                k = k + 1;
                assert(s@ =~= space_run(k as nat));
            }
            push_str(&mut s, line);
            Ok(s)
        },
        IndentChange::Dedent(n) => {
            let mut spaces: usize = 0;
            let mut tabs: usize = 0;
            let mut i: usize = 0;
            proof {
                lemma_lead_counts_bound(line@);
                assert(line@.skip(0) =~= line@);
            }
            while i < cs.len() && (cs[i] == ' ' || cs[i] == '\t')
                invariant
                    i <= cs@.len(),
                    cs@ == line@,
                    spaces + tabs == i,
                    lead_counts(line@).0 == spaces + lead_counts(line@.skip(i as int)).0,
                    lead_counts(line@).1 == tabs + lead_counts(line@.skip(i as int)).1,
                decreases cs@.len() - i,
            {
                assert(line@.skip(i as int).drop_first() =~= line@.skip(i + 1));
                if cs[i] == ' ' {
                    spaces = spaces + 1;
                } else {
                    tabs = tabs + 1;
                }
                i = i + 1;
            }
            proof {
                if i < cs@.len() {
                    assert(line@.skip(i as int)[0] == cs@[i as int]);
                } else {
                    assert(line@.skip(i as int) =~= Seq::<char>::empty());
                }
            }
            if tabs > 0 {
                return Err(HashlineError::IndentUnderflow { line_no, amount: n, available: tabs, kind: "tabs" });
            }
            if spaces < n {
                return Err(
                    HashlineError::IndentUnderflow { line_no, amount: n, available: spaces, kind: "spaces" },
                );
            }
            let mut rest: Vec<char> = Vec::new();
            let mut j: usize = n;
            while j < cs.len()
                invariant
                    n <= j <= cs@.len(),
                    rest@ == cs@.subrange(n as int, j as int),
                decreases cs@.len() - j,
            {
                rest.push(cs[j]);
                j = j + 1;
                assert(rest@ =~= cs@.subrange(n as int, j as int));
            }
            assert(rest@ =~= line@.skip(n as int));
            Ok(string_of(rest.as_slice()))
        },
    }
}

/// The line starts with a space.
pub open spec fn starts_space(l: Seq<char>) -> bool {
    l.len() > 0 && l[0] == ' '
}

/// The line starts with a tab.
pub open spec fn starts_tab(l: Seq<char>) -> bool {
    l.len() > 0 && l[0] == '\t'
}

/// Lines `start..=idx` of `c` hold one that starts with a space and one
/// that starts with a tab.
pub open spec fn mixed_upto(c: Seq<Seq<char>>, start: int, idx: int) -> bool {
    (exists|j: int| start <= j <= idx && starts_space(#[trigger] c[j])) && (exists|j: int|
        start <= j <= idx && starts_tab(#[trigger] c[j]))
}

/// Checks that lines `start..=end` (0-based) do not mix space and tab
/// indentation; the error names the first line at which both were seen.
pub fn validate_range_style(doc: &Document, start: usize, end: usize) -> (r: Result<(), HashlineError>)
    requires
        start <= end ==> end < doc.contents().len(),
    ensures
        ({
            let c = doc.contents();
            match r {
                Ok(()) => start > end || !mixed_upto(c, start as int, end as int),
                Err(e) => e matches HashlineError::MixedIndentation { line_no } && start + 1 <= line_no <= end + 1
                    && mixed_upto(c, start as int, line_no - 1) && (line_no - 1 > start ==> !mixed_upto(
                    c,
                    start as int,
                    line_no - 2,
                ))
            }
        }),
{
    if start > end {
        return Ok(());
    }
    let _n = doc.lines.len();
    let ghost c = doc.contents();
    let mut saw_spaces = false;
    let mut saw_tabs = false;
    let mut idx = start;
    while idx <= end
        invariant
            start <= idx <= end + 1,
            end < c.len(),
            end < usize::MAX,
            c == doc.contents(),
            saw_spaces == exists|j: int| start <= j < idx && starts_space(#[trigger] c[j]),
            saw_tabs == exists|j: int| start <= j < idx && starts_tab(#[trigger] c[j]),
            idx > start ==> !mixed_upto(c, start as int, idx - 1),
        decreases end + 1 - idx,
    {
        let line = chars_of(&*doc.lines[idx].content);
        assert(line@ == c[idx as int]);
        if line.len() > 0 && line[0] == ' ' {
            saw_spaces = true;
        }
        if line.len() > 0 && line[0] == '\t' {
            saw_tabs = true;
        }
        assert(saw_spaces == exists|j: int| start <= j <= idx && starts_space(#[trigger] c[j]));
        assert(saw_tabs == exists|j: int| start <= j <= idx && starts_tab(#[trigger] c[j]));
        if saw_spaces && saw_tabs {
            return Err(HashlineError::MixedIndentation { line_no: idx + 1 });
        }
        idx = idx + 1;
    }
    Ok(())
}

} // verus!
