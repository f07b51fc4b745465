//! Applying parsed patch edits to a file's lines.
//!
//! Every edit names lines of the snapshot that the patch was written
//! against (`entries`). As earlier edits insert and delete lines of the
//! live buffer, a later edit's target moves: the applier keeps, per
//! snapshot line, whether it was deleted and how far it has shifted, and
//! resolves each edit to its live position through them.

use vstd::prelude::*;
use crate::apply::{strings_view, has_closer, boundary_warnings, detect_boundary_issues};
use crate::ascii::{decimal, push_decimal, trim_chars};
use crate::block_scan::{
    lead_ws, leading_ws, header_at_or_before, find_header_before, ruby_block_spec, ruby_start_from, ruby_end_from,
    ruby_opener, count_if, law_brace_pairs_ordered, law_enclosing_pair_innermost, brace_pairs_spec,
};
use crate::builtin_resolver::{
    brace_ext, is_brace_ext, brace_block_spec, or_else, resolve_brace_block, resolve_ruby_block,
};
use crate::document::{LineEntry, entry_contents};
use crate::builtin_resolver::{str_extension, simple_path, file_extension};
use crate::edit::{Anchor, BlockMode, Cursor, Edit, EditV, InsertMode, edits_view, copy_strings};
use crate::error::HashlineError;
use crate::fast::line_hash_text;
use crate::hash::{format_short_hash, hex2};
use crate::text::{
    boxed_str, chars_of, chars_equal, line_ranges_equal, push_chars, split_chars, split_seq, string_of, lines_view,
    push_str, str_eq, trim,
};
use std::collections::HashMap;

verus! {

// ---------------------------------------------------------------------------
// Splitting
// ---------------------------------------------------------------------------

/// The lines of LF text: none for empty text, else the pieces between LFs,
/// without the empty piece after a final LF.
pub open spec fn normalized_lines(s: Seq<char>) -> Seq<Seq<char>> {
    if s.len() == 0 {
        Seq::empty()
    } else {
        let p = split_seq(s, '\n');
        if s.last() == '\n' && p.last().len() == 0 {
            p.drop_last()
        } else {
            p
        }
    }
}

/// Splits LF text into lines (see [`normalized_lines`]).
pub fn split_normalized(text: &str) -> (r: Vec<String>)
    ensures
        strings_view(r@) == normalized_lines(text@),
{
    let cs = chars_of(text);
    let mut r: Vec<String> = Vec::new();
    if cs.len() == 0 {
        assert(strings_view(r@) =~= normalized_lines(text@));
        return r;
    }
    let parts = split_chars(cs.as_slice(), '\n');
    let ghost p = split_seq(text@, '\n');
    let mut count = parts.len();
    if cs[cs.len() - 1] == '\n' && count > 0 && parts[count - 1].len() == 0 {
        count = count - 1;
    }
    proof {
        assert(lines_view(parts@) == p);
    }
    let mut i: usize = 0;
    while i < count
        invariant
            i <= count <= parts@.len(),
            lines_view(parts@) == p,
            strings_view(r@) == p.take(i as int),
        decreases count - i,
    {
        let s = string_of(parts[i].as_slice());
        let ghost before = r@;
        r.push(s);
        proof {
            assert(strings_view(r@) =~= strings_view(before).push(p[i as int]));
            assert(p.take(i + 1) =~= p.take(i as int).push(p[i as int]));
        }
        i = i + 1;
    }
    proof {
        if count < parts@.len() {
            assert(p.take(count as int) =~= p.drop_last());
        } else {
            assert(p.take(count as int) =~= p);
        }
    }
    r
}

// ---------------------------------------------------------------------------
// Block spans
// ---------------------------------------------------------------------------

/// The last line of the block continuing from line `from`: the line before
/// the first line at or after `from` indented no deeper than `indent`
/// (blank lines skipped when `skip_blank`); else the last line.
pub open spec fn block_end_from(c: Seq<Seq<char>>, from: int, indent: int, skip_blank: bool) -> int
    decreases c.len() - from,
{
    if from < 0 || from >= c.len() {
        c.len() - 1
    } else if !(skip_blank && trim(c[from]).len() == 0) && lead_ws(c[from]) <= indent {
        from - 1
    } else {
        block_end_from(c, from + 1, indent, skip_blank)
    }
}

/// A Python block around line `a`: an unindented line starts a block that
/// runs to the line before the next unindented line; an indented line runs
/// to the line before the next non-blank line indented no deeper.
pub open spec fn python_block_spec(c: Seq<Seq<char>>, a: int) -> Option<(int, int)> {
    let ai = lead_ws(c[a]);
    if ai == 0 {
        Some((a, block_end_from(c, a + 1, 0, false)))
    } else {
        Some((a, block_end_from(c, a + 1, ai, true)))
    }
}

/// An indentation block around line `a`: an unindented line starts a block
/// as in Python; an indented line belongs to the nearest non-blank line
/// above indented less, whose block runs to the line before the next
/// non-blank line indented no deeper than it.
pub open spec fn plain_indent_block_spec(c: Seq<Seq<char>>, a: int) -> Option<(int, int)> {
    let ai = lead_ws(c[a]);
    if ai == 0 {
        Some((a, block_end_from(c, a + 1, 0, false)))
    } else {
        let h = header_at_or_before(c, a - 1, ai);
        if h < 0 {
            None
        } else {
            Some((h, block_end_from(c, h + 1, lead_ws(c[h]), true)))
        }
    }
}

/// The block that a block edit on line `a` (0-based) of `c` covers, by the
/// file's extension: braces for C-family files, indentation for Python and
/// Verse, `end` for Ruby, and braces then indentation otherwise.
pub open spec fn patch_block_span(c: Seq<Seq<char>>, a: int, ext: Seq<char>) -> Option<(int, int)> {
    if brace_ext(ext) {
        brace_block_spec(c, a, ext)
    } else if ext == "py"@ || ext == "verse"@ {
        python_block_spec(c, a)
    } else if ext == "rb"@ {
        ruby_block_spec(c, a, false)
    } else {
        or_else(brace_block_spec(c, a, ext), plain_indent_block_spec(c, a))
    }
}


proof fn lemma_block_end_range(c: Seq<Seq<char>>, from: int, indent: int, skip_blank: bool)
    requires
        1 <= from <= c.len(),
    ensures
        from - 1 <= block_end_from(c, from, indent, skip_blank) < c.len(),
    decreases c.len() - from,
{
    if from < c.len() && !(!(skip_blank && trim(c[from]).len() == 0) && lead_ws(c[from]) <= indent) {
        lemma_block_end_range(c, from + 1, indent, skip_blank);
    }
}

proof fn lemma_header_range(c: Seq<Seq<char>>, i: int, indent: int)
    ensures
        -1 <= header_at_or_before(c, i, indent),
        header_at_or_before(c, i, indent) >= 0 ==> header_at_or_before(c, i, indent) <= i
            && header_at_or_before(c, i, indent) < c.len(),
    decreases i + 1,
{
    if 0 <= i < c.len() && !(trim(c[i]).len() > 0 && lead_ws(c[i]) < indent) {
        lemma_header_range(c, i - 1, indent);
    }
}

proof fn lemma_ruby_start_range(c: Seq<Seq<char>>, i: int, ends: int, opens: int, w: bool)
    ensures
        ruby_start_from(c, i, ends, opens, w) == -1 || 0 <= ruby_start_from(c, i, ends, opens, w) <= i,
        ruby_start_from(c, i, ends, opens, w) < c.len(),
    decreases i + 1,
{
    if 0 <= i < c.len() {
        let t = trim(c[i]);
        let e = ends + count_if(t == "end"@);
        let o = opens + count_if(ruby_opener(t, w));
        if !(ruby_opener(t, w) && e <= o) {
            lemma_ruby_start_range(c, i - 1, e, o, w);
        }
    }
}

proof fn lemma_ruby_end_range(c: Seq<Seq<char>>, start: int, i: int, opens: int, ends: int, w: bool)
    ensures
        ruby_end_from(c, start, i, opens, ends, w) == -1 || i <= ruby_end_from(c, start, i, opens, ends, w) < c.len(),
    decreases c.len() - i,
{
    if 0 <= i < c.len() {
        let t = trim(c[i]);
        let o = opens + count_if(ruby_opener(t, w));
        let e = ends + count_if(t == "end"@);
        if !((i > start && o <= e && t == "end"@) || (i == start && o <= e)) {
            lemma_ruby_end_range(c, start, i + 1, o, e, w);
        }
    }
}

/// A block found around a line lies within the file and starts no later
/// than it ends.
pub proof fn lemma_span_in_file(c: Seq<Seq<char>>, a: int, ext: Seq<char>)
    requires
        0 <= a < c.len(),
    ensures
        patch_block_span(c, a, ext) matches Some((bs, be)) ==> 0 <= bs <= be < c.len(),
{
    law_brace_pairs_ordered(c, ext);
    law_enclosing_pair_innermost(brace_pairs_spec(c, ext), a);
    lemma_block_end_range(c, a + 1, 0, false);
    lemma_block_end_range(c, a + 1, lead_ws(c[a]), true);
    lemma_ruby_start_range(c, a, 0, 0, false);
    let s = ruby_start_from(c, a, 0, 0, false);
    if s >= 0 {
        lemma_ruby_end_range(c, s, s, 0, 0, false);
    }
    lemma_header_range(c, a - 1, lead_ws(c[a]));
    let h = header_at_or_before(c, a - 1, lead_ws(c[a]));
    if h >= 0 {
        lemma_block_end_range(c, h + 1, lead_ws(c[h]), true);
    }
    if let Some(p) = brace_block_spec(c, a, ext) {
        let k = choose|k: int| 0 <= k < brace_pairs_spec(c, ext).len() && brace_pairs_spec(c, ext)[k] == p;
        assert(0 <= brace_pairs_spec(c, ext)[k].0 <= brace_pairs_spec(c, ext)[k].1 < c.len());
    }
}

/// Whether line `s` is blank.
fn blank_line(s: &str) -> (r: bool)
    ensures
        r == (trim(s@).len() == 0),
{
    let cs = chars_of(s);
    let t = trim_chars(cs.as_slice());
    t.len() == 0
}

/// See [`block_end_from`].
fn find_block_end(entries: &[LineEntry], from: usize, indent: usize, skip_blank: bool) -> (r: usize)
    requires
        entries@.len() > 0,
        from >= 1,
    ensures
        r == block_end_from(entry_contents(entries@), from as int, indent as int, skip_blank),
{
    let ghost c = entry_contents(entries@);
    let mut i: usize = from;
    while i < entries.len()
        invariant
            from <= i,
            from >= 1,
            entries@.len() > 0,
            c == entry_contents(entries@),
            block_end_from(c, from as int, indent as int, skip_blank) == block_end_from(
                c,
                i as int,
                indent as int,
                skip_blank,
            ),
        decreases entries@.len() - i,
    {
        let s = entries[i].content.as_str();
        if !(skip_blank && blank_line(s)) && leading_ws(s) <= indent {
            return i - 1;
        }
        i = i + 1;
    }
    entries.len() - 1
}

/// The contents of the entries.
fn entry_lines(entries: &[LineEntry]) -> (r: Vec<String>)
    ensures
        strings_view(r@) == entry_contents(entries@),
{
    let mut r: Vec<String> = Vec::new();
    let mut i: usize = 0;
    while i < entries.len()
        invariant
            i <= entries@.len(),
            strings_view(r@) == entry_contents(entries@).take(i as int),
        decreases entries@.len() - i,
    {
        let ghost before = r@;
        r.push(entries[i].content.clone());
        proof {
            assert(strings_view(r@) =~= strings_view(before).push(entries@[i as int].content@));
            assert(entry_contents(entries@).take(i + 1) =~= entry_contents(entries@).take(i as int).push(
                entries@[i as int].content@,
            ));
        }
        i = i + 1;
    }
    assert(entry_contents(entries@).take(i as int) =~= entry_contents(entries@));
    r
}

/// See [`python_block_spec`].
fn python_block(entries: &[LineEntry], a: usize) -> (r: Option<(usize, usize)>)
    requires
        a < entries@.len(),
    ensures
        match r {
            Some(p) => python_block_spec(entry_contents(entries@), a as int) == Some((p.0 as int, p.1 as int)),
            None => python_block_spec(entry_contents(entries@), a as int) is None,
        },
{
    let ai = leading_ws(entries[a].content.as_str());
    if ai == 0 {
        Some((a, find_block_end(entries, a + 1, 0, false)))
    } else {
        Some((a, find_block_end(entries, a + 1, ai, true)))
    }
}

/// See [`plain_indent_block_spec`].
fn plain_indent_block(entries: &[LineEntry], a: usize) -> (r: Option<(usize, usize)>)
    requires
        a < entries@.len(),
    ensures
        match r {
            Some(p) => plain_indent_block_spec(entry_contents(entries@), a as int) == Some(
                (p.0 as int, p.1 as int),
            ),
            None => plain_indent_block_spec(entry_contents(entries@), a as int) is None,
        },
{
    let ai = leading_ws(entries[a].content.as_str());
    if ai == 0 {
        return Some((a, find_block_end(entries, a + 1, 0, false)));
    }
    let lines = entry_lines(entries);
    match find_header_before(lines.as_slice(), a, ai) {
        None => None,
        Some(h) => {
            let hi = leading_ws(entries[h].content.as_str());
            Some((h, find_block_end(entries, h + 1, hi, true)))
        },
    }
}

/// The block a block edit on line `a` (0-based) covers (see
/// [`patch_block_span`]).
pub fn block_span(entries: &[LineEntry], a: usize, ext: &str) -> (r: Option<(usize, usize)>)
    requires
        a < entries@.len(),
    ensures
        match r {
            Some(p) => patch_block_span(entry_contents(entries@), a as int, ext@) == Some((p.0 as int, p.1 as int)),
            None => patch_block_span(entry_contents(entries@), a as int, ext@) is None,
        },
{
    if is_brace_ext(ext) {
        resolve_brace_block(entries, a, ext)
    } else if str_eq(ext, "py") || str_eq(ext, "verse") {
        python_block(entries, a)
    } else if str_eq(ext, "rb") {
        resolve_ruby_block(entries, a)
    } else {
        match resolve_brace_block(entries, a, ext) {
            Some(p) => Some(p),
            None => plain_indent_block(entries, a),
        }
    }
}

// ---------------------------------------------------------------------------
// The applier's state and steps
// ---------------------------------------------------------------------------

/// The live lines, which snapshot lines are deleted, how far each snapshot
/// line has shifted, how many inserts landed at each position, and the
/// warnings so far.
pub struct ApplyState {
    pub lines: Seq<Seq<char>>,
    pub deleted: Seq<bool>,
    pub shift: Seq<int>,
    pub counts: Map<usize, usize>,
    pub warnings: Seq<Seq<char>>,
}

/// An error the applier reports.
pub enum ApplyError {
    Invalid(Seq<char>),
    Stale(usize, u8, u8),
    Unbalanced(usize),
}

/// What one step does: go on at an edit index with a new state, fail, or
/// panic (an input the applier does not accept).
pub enum Flow {
    Next(ApplyState, int),
    Fail(ApplyError),
    Panic,
}

/// The result of applying all edits.
pub enum Outcome {
    Done(ApplyState),
    Fail(ApplyError),
    Panic,
}

/// `e` is the error `v`, a stale anchor naming file `path`.
pub open spec fn error_is(e: HashlineError, v: ApplyError, path: Seq<char>) -> bool {
    match v {
        ApplyError::Invalid(m) => e matches HashlineError::InvalidAnchor { anchor } && anchor@ == m,
        ApplyError::Stale(line, x, y) => e matches HashlineError::StaleAnchor {
            anchor,
            line: l,
            expected,
            actual,
            path: p,
            relocated_suffix,
        } && anchor@ == line_hash_text(line as int, x) && l == line && expected@ == hex2(x) && actual@ == hex2(y)
            && p@ == path && relocated_suffix@ == Seq::<char>::empty(),
        ApplyError::Unbalanced(k) => e matches HashlineError::UnbalancedBlock { line_no } && line_no == k,
    }
}

/// The refusal of a line past the end.
pub open spec fn not_found_msg(line: nat, visible: nat) -> Seq<char> {
    "line "@ + decimal(line) + " not found (file has "@ + decimal(visible) + " lines)"@
}

/// The refusal of a line an earlier edit deleted.
pub open spec fn deleted_msg(line: nat) -> Seq<char> {
    "line "@ + decimal(line) + " has been deleted by a prior edit"@
}

/// The number of lines a reader was shown: a final empty entry (from a
/// trailing LF) is not one.
pub open spec fn visible_count(ents: Seq<LineEntry>) -> int {
    let n = ents.len() as int;
    if n > 0 && ents[n - 1].content@.len() == 0 {
        n - 1
    } else {
        n
    }
}

/// Line `line` (1-based) still has hash `exp`, when one is given and the
/// line is in the snapshot.
pub open spec fn hash_ok(ents: Seq<LineEntry>, line: int, exp: Option<u8>) -> bool {
    match exp {
        None => true,
        Some(h) => !(1 <= line <= ents.len()) || h == ents[line - 1].short_hash,
    }
}

/// The stale-anchor error for line `line` expected to hash to `exp`.
pub open spec fn stale_of(ents: Seq<LineEntry>, line: usize, exp: Option<u8>) -> ApplyError {
    ApplyError::Stale(line, exp->0, ents[line - 1].short_hash)
}

/// The anchor line of a `SWAP` insert.
pub open spec fn swap_line(e: EditV) -> Option<usize> {
    match e {
        EditV::Insert { cursor: Cursor::BeforeAnchor(a), mode: Some(InsertMode::Replacement), .. } => Some(a.line),
        _ => None,
    }
}

/// The text of an insert.
pub open spec fn text_of(e: EditV) -> Seq<char> {
    match e {
        EditV::Insert { text, .. } => text,
        _ => Seq::empty(),
    }
}

/// The patch line an edit came from.
pub open spec fn line_num_of(e: EditV) -> usize {
    match e {
        EditV::Insert { line_num, .. } => line_num,
        EditV::Delete { line_num, .. } => line_num,
        EditV::Block { line_num, .. } => line_num,
    }
}

/// The hash an edit expects of its anchor.
pub open spec fn hash_of(e: EditV) -> Option<u8> {
    match e {
        EditV::Insert { expected_hash, .. } => expected_hash,
        EditV::Delete { expected_hash, .. } => expected_hash,
        EditV::Block { expected_hash, .. } => expected_hash,
    }
}

/// The line a delete removes.
pub open spec fn del_line(e: EditV) -> usize {
    match e {
        EditV::Delete { anchor, .. } => anchor.line,
        _ => 0,
    }
}

/// The end of the run of `SWAP` inserts on line `line` from `j`.
pub open spec fn swap_run_end(es: Seq<EditV>, j: int, line: usize) -> int
    decreases es.len() - j,
{
    if 0 <= j < es.len() && swap_line(es[j]) == Some(line) {
        swap_run_end(es, j + 1, line)
    } else {
        j
    }
}

/// The end of the run of deletes from `j`; only those from patch line `op`
/// when `op` is given.
pub open spec fn dels_end(es: Seq<EditV>, j: int, op: Option<usize>) -> int
    decreases es.len() - j,
{
    if 0 <= j < es.len() && es[j] is Delete && (op is None || line_num_of(es[j]) == op->0) {
        dels_end(es, j + 1, op)
    } else {
        j
    }
}

/// The first delete in `j..end` whose line no longer has its expected
/// hash, else `end`.
pub open spec fn first_stale(es: Seq<EditV>, j: int, end: int, ents: Seq<LineEntry>) -> int
    decreases end - j,
{
    if j >= end {
        end
    } else if !hash_ok(ents, del_line(es[j]) as int, hash_of(es[j])) {
        j
    } else {
        first_stale(es, j + 1, end, ents)
    }
}

/// The texts of inserts `i..j`.
pub open spec fn texts_of(es: Seq<EditV>, i: int, j: int) -> Seq<Seq<char>> {
    Seq::new((j - i) as nat, |k: int| text_of(es[i + k]))
}

/// Where adding to shifts from 1-based snapshot line `from` starts.
pub open spec fn delta_start(len: int, from: int) -> int {
    let f = if from < 1 { 1 } else { from };
    if f - 1 < len { f - 1 } else { len }
}

/// The shifts with `d` added from snapshot line `from` on.
pub open spec fn add_delta(s: Seq<int>, from: int, d: int) -> Seq<int> {
    Seq::new(s.len(), |j: int| if j >= delta_start(s.len() as int, from) { s[j] + d } else { s[j] })
}

/// Adding `d` from line `from` on keeps every shift an `isize`.
pub open spec fn delta_fits(s: Seq<int>, from: int, d: int) -> bool {
    forall|j: int| delta_start(s.len() as int, from) <= j < s.len() ==> isize::MIN <= #[trigger] s[j] + d <= isize::MAX
}

/// Snapshot lines `lo..hi` (0-based) marked deleted.
pub open spec fn mark_deleted(d: Seq<bool>, lo: int, hi: int) -> Seq<bool> {
    Seq::new(d.len(), |k: int| if lo <= k < hi { true } else { d[k] })
}

/// `st` with its shifts moved by `d` from line `from`, going on at `j`; a
/// panic when a shift leaves `isize`.
pub open spec fn shifted(st: ApplyState, from: int, d: int, j: int) -> Flow {
    if delta_fits(st.shift, from, d) {
        Flow::Next(ApplyState { shift: add_delta(st.shift, from, d), ..st }, j)
    } else {
        Flow::Panic
    }
}

/// `new` inserted into `c` at `at`.
pub open spec fn insert_at(c: Seq<Seq<char>>, at: int, new: Seq<Seq<char>>) -> Seq<Seq<char>> {
    c.take(at) + new + c.skip(at)
}

/// The `SWAP` starting at edit `i`: its run of replacement inserts on one
/// line, then the deletes from the same patch line, replace the live lines
/// where the anchor now is.
#[verifier::opaque]
pub open spec fn swap_step(es: Seq<EditV>, i: int, st: ApplyState, ents: Seq<LineEntry>) -> Flow {
    let line = swap_line(es[i])->0;
    let l = line as int;
    let vis = visible_count(ents);
    let n = ents.len() as int;
    if l > vis {
        Flow::Fail(ApplyError::Invalid(not_found_msg(line as nat, vis as nat)))
    } else if !hash_ok(ents, l, hash_of(es[i])) {
        Flow::Fail(stale_of(ents, line, hash_of(es[i])))
    } else {
        let j1 = swap_run_end(es, i, line);
        let j2 = dels_end(es, j1, Some(line_num_of(es[i])));
        let bad = first_stale(es, j1, j2, ents);
        if bad < j2 {
            Flow::Fail(stale_of(ents, del_line(es[bad]), hash_of(es[bad])))
        } else {
            let texts = texts_of(es, i, j1);
            let nn = j1 - i;
            let no = j2 - j1;
            if no > 0 && l + no - 1 > usize::MAX {
                Flow::Panic
            } else if no > 0 && l == 0 && n > 0 && !has_closer(texts) {
                Flow::Panic
            } else {
                let w = if no > 0 {
                    boundary_warnings(texts, l, l + no - 1, entry_contents(ents))
                } else {
                    Seq::empty()
                };
                if !(1 <= l <= n && !st.deleted[l - 1]) || l - 1 + st.shift[l - 1] < 0 {
                    Flow::Fail(ApplyError::Invalid(deleted_msg(line as nat)))
                } else {
                    let raw = l - 1 + st.shift[l - 1];
                    if raw > isize::MAX || raw + no > usize::MAX || raw > st.lines.len() {
                        Flow::Panic
                    } else {
                        let re = if raw + no < st.lines.len() { raw + no } else { st.lines.len() as int };
                        let last = if no == 0 { l } else { l + no - 1 };
                        let hi = if last < n { last } else { n };
                        let st2 = ApplyState {
                            lines: st.lines.take(raw) + texts + st.lines.skip(re),
                            deleted: mark_deleted(st.deleted, l - 1, hi),
                            warnings: st.warnings + w,
                            ..st
                        };
                        if last < n {
                            shifted(st2, last + 1, nn - no, j2)
                        } else {
                            Flow::Next(st2, j2)
                        }
                    }
                }
            }
        }
    }
}

/// Inserts `x` into descending `t` before its first smaller element.
pub open spec fn insert_desc(t: Seq<int>, x: int) -> Seq<int>
    decreases t.len(),
{
    if t.len() == 0 {
        seq![x]
    } else if t[0] < x {
        seq![x] + t
    } else {
        seq![t[0]] + insert_desc(t.drop_first(), x)
    }
}

/// `s` sorted largest first.
pub open spec fn sort_desc(s: Seq<int>) -> Seq<int>
    decreases s.len(),
{
    if s.len() == 0 {
        s
    } else {
        insert_desc(sort_desc(s.drop_last()), s.last())
    }
}

/// The live lines after removing snapshot lines `s`, in order, at their
/// shifted positions, skipping lines already deleted or out of the buffer;
/// `None` when a position leaves `isize`.
pub open spec fn remove_lines(
    lines: Seq<Seq<char>>,
    s: Seq<int>,
    deleted: Seq<bool>,
    shift: Seq<int>,
    n: int,
) -> Option<Seq<Seq<char>>>
    decreases s.len(),
{
    if s.len() == 0 {
        Some(lines)
    } else {
        let o = s[0];
        if 1 <= o <= n && !deleted[o - 1] {
            let raw = o - 1 + shift[o - 1];
            if raw > isize::MAX {
                None
            } else if raw < 0 || raw >= lines.len() {
                remove_lines(lines, s.drop_first(), deleted, shift, n)
            } else {
                remove_lines(lines.remove(raw), s.drop_first(), deleted, shift, n)
            }
        } else {
            remove_lines(lines, s.drop_first(), deleted, shift, n)
        }
    }
}

/// The lines of deletes `i..j`.
pub open spec fn del_lines_of(es: Seq<EditV>, i: int, j: int) -> Seq<int> {
    Seq::new((j - i) as nat, |k: int| del_line(es[i + k]) as int)
}

/// The first of `d` past `vis`, else its length.
pub open spec fn first_past(d: Seq<int>, vis: int, k: int) -> int
    decreases d.len() - k,
{
    if k < 0 || k >= d.len() {
        d.len() as int
    } else if d[k] > vis {
        k
    } else {
        first_past(d, vis, k + 1)
    }
}

/// The run of deletes starting at edit `i`: each keeps its expected hash
/// and is in range; the lines are removed from the bottom up.
#[verifier::opaque]
pub open spec fn delete_step(es: Seq<EditV>, i: int, st: ApplyState, ents: Seq<LineEntry>) -> Flow {
    let vis = visible_count(ents);
    let n = ents.len() as int;
    let j2 = dels_end(es, i, None);
    let bad = first_stale(es, i, j2, ents);
    if bad < j2 {
        Flow::Fail(stale_of(ents, del_line(es[bad]), hash_of(es[bad])))
    } else {
        let d = del_lines_of(es, i, j2);
        let p = first_past(d, vis, 0);
        if p < d.len() {
            Flow::Fail(ApplyError::Invalid(not_found_msg(d[p] as nat, vis as nat)))
        } else {
            let sorted = sort_desc(d);
            match remove_lines(st.lines, sorted, st.deleted, st.shift, n) {
                None => Flow::Panic,
                Some(lines) => if sorted.contains(0) {
                    Flow::Panic
                } else {
                    let st2 = ApplyState {
                        lines,
                        deleted: Seq::new(st.deleted.len(), |k: int| sorted.contains(k + 1) || st.deleted[k]),
                        ..st
                    };
                    if sorted[0] < n {
                        shifted(st2, sorted[0] + 1, -(sorted.len() as int), j2)
                    } else {
                        Flow::Next(st2, j2)
                    }
                },
            }
        }
    }
}

/// A single insert at edit `i`: it lands at its cursor's position, after
/// the inserts that already landed there.
#[verifier::opaque]
pub open spec fn insert_step(es: Seq<EditV>, i: int, st: ApplyState, ents: Seq<LineEntry>) -> Flow {
    let n = ents.len() as int;
    match es[i] {
        EditV::Insert { cursor, text, .. } => {
            let base: int = match cursor {
                Cursor::BeforeAnchor(a) => if a.line == 0 { usize::MAX as int } else { a.line - 1 },
                Cursor::AfterAnchor(a) => a.line as int,
                Cursor::Bof => 0,
                Cursor::Eof => st.lines.len() as int,
            };
            let off: int = if st.counts.contains_key(base as usize) { st.counts[base as usize] as int } else { 0 };
            if base + off > usize::MAX {
                Flow::Panic
            } else {
                let pos = if base + off <= st.lines.len() { base + off } else { st.lines.len() as int };
                let st2 = ApplyState {
                    lines: st.lines.insert(pos, text),
                    counts: st.counts.insert(base as usize, (off + 1) as usize),
                    ..st
                };
                match cursor {
                    Cursor::BeforeAnchor(a) => if a.line <= n { shifted(st2, a.line as int, 1, i + 1) } else { Flow::Next(st2, i + 1) },
                    Cursor::AfterAnchor(a) => if a.line < n { shifted(st2, a.line + 1, 1, i + 1) } else { Flow::Next(st2, i + 1) },
                    Cursor::Bof => if n > 0 { shifted(st2, 1, 1, i + 1) } else { Flow::Next(st2, i + 1) },
                    Cursor::Eof => Flow::Next(st2, i + 1),
                }
            }
        },
        _ => Flow::Panic,
    }
}

/// A block edit at edit `i`: the block around its anchor line in the
/// snapshot is deleted (with one blank line after it), replaced, or has the
/// payload inserted after or before it.
#[verifier::opaque]
pub open spec fn block_step(es: Seq<EditV>, i: int, st: ApplyState, ents: Seq<LineEntry>, ext: Seq<char>) -> Flow {
    let vis = visible_count(ents);
    let n = ents.len() as int;
    match es[i] {
        EditV::Block { anchor, payloads, mode, expected_hash, .. } => {
            let line = anchor.line as int;
            if line > vis {
                Flow::Fail(ApplyError::Invalid(not_found_msg(line as nat, vis as nat)))
            } else if !hash_ok(ents, line, expected_hash) {
                Flow::Fail(stale_of(ents, anchor.line, expected_hash))
            } else if line == 0 {
                Flow::Panic
            } else {
                match patch_block_span(entry_contents(ents), line - 1, ext) {
                    None => Flow::Fail(ApplyError::Unbalanced(anchor.line)),
                    Some((bs, be)) => {
                        let len = st.lines.len() as int;
                        let hi_del = if be + 1 < n { be + 1 } else { n };
                        match mode {
                            None => if payloads.len() == 0 {
                                let hi = if be < len - 1 { be } else if len > 0 { len - 1 } else { 0 };
                                if bs <= hi && len == 0 {
                                    Flow::Panic
                                } else {
                                    let l1 = if bs <= hi { st.lines.take(bs) + st.lines.skip(hi + 1) } else { st.lines };
                                    let l2 = if bs < l1.len() && trim(l1[bs]).len() == 0 { l1.remove(bs) } else { l1 };
                                    let st2 = ApplyState { lines: l2, deleted: mark_deleted(st.deleted, bs, hi_del), ..st };
                                    if be + 1 < n {
                                        shifted(st2, be + 2, -(be - bs + 1), i + 1)
                                    } else {
                                        Flow::Next(st2, i + 1)
                                    }
                                }
                            } else {
                                let no = be - bs + 1;
                                let l1 = if bs < len {
                                    st.lines.take(bs) + st.lines.skip(bs + if no < len - bs { no } else { len - bs })
                                } else {
                                    st.lines
                                };
                                if bs > l1.len() {
                                    Flow::Panic
                                } else {
                                    let st2 = ApplyState {
                                        lines: insert_at(l1, bs, payloads),
                                        deleted: mark_deleted(st.deleted, bs, hi_del),
                                        ..st
                                    };
                                    if be + 1 < n {
                                        shifted(st2, be + 2, payloads.len() - no, i + 1)
                                    } else {
                                        Flow::Next(st2, i + 1)
                                    }
                                }
                            },
                            Some(BlockMode::InsertAfter) => {
                                let pos = if be + 1 < len { be + 1 } else { len };
                                let st2 = ApplyState { lines: insert_at(st.lines, pos, payloads), ..st };
                                if be + 1 < n {
                                    shifted(st2, be + 2, payloads.len() as int, i + 1)
                                } else {
                                    Flow::Next(st2, i + 1)
                                }
                            },
                            Some(BlockMode::InsertBefore) => {
                                let pos = if bs < len { bs } else { len };
                                let st2 = ApplyState { lines: insert_at(st.lines, pos, payloads), ..st };
                                if bs < n {
                                    shifted(st2, bs + 1, payloads.len() as int, i + 1)
                                } else {
                                    Flow::Next(st2, i + 1)
                                }
                            },
                        }
                    },
                }
            }
        },
        _ => Flow::Panic,
    }
}

/// The step at edit `i`.
pub open spec fn apply_step(es: Seq<EditV>, i: int, st: ApplyState, ents: Seq<LineEntry>, ext: Seq<char>) -> Flow {
    if swap_line(es[i]) is Some {
        swap_step(es, i, st, ents)
    } else if es[i] is Delete {
        delete_step(es, i, st, ents)
    } else if es[i] is Insert {
        insert_step(es, i, st, ents)
    } else {
        block_step(es, i, st, ents, ext)
    }
}

/// Applying edits `i..` from state `st`.
pub open spec fn apply_from(es: Seq<EditV>, i: int, st: ApplyState, ents: Seq<LineEntry>, ext: Seq<char>) -> Outcome
    decreases es.len() - i,
{
    if i < 0 || i >= es.len() {
        Outcome::Done(st)
    } else {
        match apply_step(es, i, st, ents, ext) {
            Flow::Next(st2, j) => if i < j <= es.len() {
                apply_from(es, j, st2, ents, ext)
            } else {
                Outcome::Panic
            },
            Flow::Fail(e) => Outcome::Fail(e),
            Flow::Panic => Outcome::Panic,
        }
    }
}

/// The state before any edit: the given lines, nothing deleted or shifted.
pub open spec fn initial_state(lines: Seq<Seq<char>>, n: nat) -> ApplyState {
    ApplyState {
        lines,
        deleted: Seq::new(n, |k: int| false),
        shift: Seq::new(n, |k: int| 0int),
        counts: Map::empty(),
        warnings: Seq::empty(),
    }
}

/// Applying all edits to `lines` against snapshot `ents` of a file with
/// extension `ext`.
pub open spec fn apply_outcome(es: Seq<EditV>, lines: Seq<Seq<char>>, ents: Seq<LineEntry>, ext: Seq<char>) -> Outcome {
    apply_from(es, 0, initial_state(lines, ents.len()), ents, ext)
}

// ---------------------------------------------------------------------------
// The applier
// ---------------------------------------------------------------------------

/// The shifts as integers.
pub open spec fn ints_of(s: Seq<isize>) -> Seq<int> {
    Seq::new(s.len(), |k: int| s[k] as int)
}

/// What the applier tracks besides the live lines.
struct Tracker {
    deleted: Vec<bool>,
    shift: Vec<isize>,
    counts: HashMap<usize, usize>,
    warnings: Vec<String>,
}

/// The state the live lines and tracker stand for.
spec fn state_of(lines: Seq<String>, t: Tracker) -> ApplyState {
    ApplyState {
        lines: strings_view(lines),
        deleted: t.deleted@,
        shift: ints_of(t.shift@),
        counts: t.counts@,
        warnings: strings_view(t.warnings@),
    }
}

/// The tracker covers `n` snapshot lines, and at most `i` inserts landed
/// at any one position.
spec fn tracker_ok(t: Tracker, n: nat, i: int) -> bool {
    &&& t.deleted@.len() == n
    &&& t.shift@.len() == n
    &&& forall|k: usize| #[trigger] t.counts@.contains_key(k) ==> t.counts@[k] <= i
}

/// The step result `f` is what happened: the next edit index and state, or
/// the error.
spec fn flow_is(f: Flow, r: Result<usize, HashlineError>, st: ApplyState, path: Seq<char>) -> bool {
    match f {
        Flow::Next(st2, j) => r is Ok && r->Ok_0 == j && st == st2,
        Flow::Fail(e) => r is Err && error_is(r->Err_0, e, path),
        Flow::Panic => true,
    }
}

/// Adds `delta` to the shifts from snapshot line `from` on.
fn apply_delta(shift: &mut Vec<isize>, from: usize, delta: isize)
    requires
        delta_fits(ints_of(old(shift)@), from as int, delta as int),
    ensures
        ints_of(final(shift)@) == add_delta(ints_of(old(shift)@), from as int, delta as int),
{
    let ghost s0 = ints_of(shift@);
    let f = if from < 1 { 1 } else { from };
    let start = if f - 1 < shift.len() { f - 1 } else { shift.len() };
    assert(start == delta_start(s0.len() as int, from as int));
    let mut j = start;
    while j < shift.len()
        invariant
            start <= j <= shift@.len(),
            shift@.len() == s0.len(),
            s0 == ints_of(old(shift)@),
            start == delta_start(s0.len() as int, from as int),
            delta_fits(s0, from as int, delta as int),
            forall|k: int| 0 <= k < shift@.len() ==> #[trigger] shift@[k] as int == if start <= k < j {
                s0[k] + delta
            } else {
                s0[k]
            },
        decreases shift@.len() - j,
    {
        assert(isize::MIN <= s0[j as int] + delta <= isize::MAX);
        let v = shift[j] + delta;
        shift.set(j, v);
        j = j + 1;
    }
    assert(ints_of(shift@) =~= add_delta(s0, from as int, delta as int));
}

/// Marks snapshot lines `lo..hi` (0-based) deleted.
fn mark_range(deleted: &mut Vec<bool>, lo: usize, hi: usize)
    requires
        hi <= old(deleted)@.len(),
    ensures
        final(deleted)@ == mark_deleted(old(deleted)@, lo as int, hi as int),
{
    let ghost d0 = deleted@;
    if lo >= hi {
        assert(deleted@ =~= mark_deleted(d0, lo as int, hi as int));
        return;
    }
    let mut k = lo;
    while k < hi
        invariant
            lo <= k <= hi,
            hi <= deleted@.len(),
            deleted@.len() == d0.len(),
            forall|m: int| 0 <= m < deleted@.len() ==> #[trigger] deleted@[m] == if lo <= m < k {
                true
            } else {
                d0[m]
            },
        decreases hi - k,
    {
        deleted.set(k, true);
        k = k + 1;
    }
    assert(deleted@ =~= mark_deleted(d0, lo as int, hi as int));
}

/// Removes lines `from..to`.
fn remove_range(lines: &mut Vec<String>, from: usize, to: usize)
    requires
        from <= to <= old(lines)@.len(),
    ensures
        strings_view(final(lines)@) == strings_view(old(lines)@).take(from as int) + strings_view(old(lines)@).skip(
            to as int,
        ),
{
    let ghost l0 = strings_view(lines@);
    let mut k = from;
    while k < to
        invariant
            from <= k <= to <= l0.len(),
            lines@.len() == l0.len() - (k - from),
            strings_view(lines@) == l0.take(from as int) + l0.skip(k as int),
        decreases to - k,
    {
        let ghost before = strings_view(lines@);
        lines.remove(from);
        proof {
            assert(strings_view(lines@) =~= before.remove(from as int));
            assert(l0.take(from as int) + l0.skip(k + 1) =~= (l0.take(from as int) + l0.skip(k as int)).remove(
                from as int,
            ));
        }
        k = k + 1;
    }
}

/// Inserts copies of `texts` at `at`.
fn insert_lines(lines: &mut Vec<String>, at: usize, texts: &Vec<String>)
    requires
        at <= old(lines)@.len(),
    ensures
        strings_view(final(lines)@) == insert_at(strings_view(old(lines)@), at as int, strings_view(texts@)),
{
    let ghost l0 = strings_view(lines@);
    let ghost t = strings_view(texts@);
    let mut k: usize = 0;
    while k < texts.len()
        invariant
            k <= texts@.len(),
            at <= l0.len(),
            t == strings_view(texts@),
            lines@.len() == l0.len() + k,
            strings_view(lines@) == l0.take(at as int) + t.take(k as int) + l0.skip(at as int),
        decreases texts@.len() - k,
    {
        let ghost before = strings_view(lines@);
        assert(at + k <= lines.len());
        lines.insert(at + k, texts[k].clone());
        proof {
            assert(strings_view(lines@) =~= before.insert(at + k, t[k as int]));
            assert(l0.take(at as int) + t.take(k + 1) + l0.skip(at as int) =~= (l0.take(at as int) + t.take(
                k as int,
            ) + l0.skip(at as int)).insert(at + k, t[k as int]));
        }
        k = k + 1;
    }
    assert(t.take(k as int) =~= t);
}

/// See [`visible_count`].
fn visible_lines(entries: &[LineEntry]) -> (r: usize)
    ensures
        r as int == visible_count(entries@),
{
    let n = entries.len();
    if n > 0 && chars_of(entries[n - 1].content.as_str()).len() == 0 {
        n - 1
    } else {
        n
    }
}

/// See [`hash_ok`].
fn hash_matches(entries: &[LineEntry], line: usize, exp: Option<u8>) -> (r: bool)
    ensures
        r == hash_ok(entries@, line as int, exp),
{
    match exp {
        None => true,
        Some(h) => !(1 <= line && line <= entries.len()) || h == entries[line - 1].short_hash,
    }
}

/// The stale-anchor error for line `line` of the snapshot.
fn stale_error(entries: &[LineEntry], line: usize, exp: u8, path: &str) -> (e: HashlineError)
    requires
        1 <= line <= entries@.len(),
    ensures
        error_is(e, stale_of(entries@, line, Some(exp)), path@),
{
    let mut a = String::new();
    push_decimal(&mut a, line);
    push_str(&mut a, ":");
    let x = format_short_hash(exp);
    push_str(&mut a, x.as_str());
    proof {
        reveal_strlit(":");
    }
    assert(a@ =~= line_hash_text(line as int, exp));
    let y = format_short_hash(entries[line - 1].short_hash);
    let empty = String::new();
    HashlineError::StaleAnchor {
        anchor: boxed_str(a.as_str()),
        line,
        expected: boxed_str(x.as_str()),
        actual: boxed_str(y.as_str()),
        path: boxed_str(path),
        relocated_suffix: boxed_str(empty.as_str()),
    }
}

/// The refusal of line `line` past the `visible` lines.
fn not_found_error(line: usize, visible: usize) -> (e: HashlineError)
    ensures
        error_is(e, ApplyError::Invalid(not_found_msg(line as nat, visible as nat)), Seq::empty()),
{
    let mut m = String::new();
    push_str(&mut m, "line ");
    push_decimal(&mut m, line);
    push_str(&mut m, " not found (file has ");
    push_decimal(&mut m, visible);
    push_str(&mut m, " lines)");
    assert(m@ =~= not_found_msg(line as nat, visible as nat));
    HashlineError::InvalidAnchor { anchor: m }
}

/// The refusal of a line an earlier edit deleted.
fn deleted_error(line: usize) -> (e: HashlineError)
    ensures
        error_is(e, ApplyError::Invalid(deleted_msg(line as nat)), Seq::empty()),
{
    let mut m = String::new();
    push_str(&mut m, "line ");
    push_decimal(&mut m, line);
    push_str(&mut m, " has been deleted by a prior edit");
    assert(m@ =~= deleted_msg(line as nat));
    HashlineError::InvalidAnchor { anchor: m }
}

/// The anchor line of a `SWAP` insert.
fn swap_line_of(e: &Edit) -> (r: Option<usize>)
    ensures
        r == swap_line(e@),
{
    match e {
        Edit::Insert { cursor: Cursor::BeforeAnchor(a), mode: Some(InsertMode::Replacement), .. } => Some(a.line),
        _ => None,
    }
}

/// A copy of an insert's text.
fn text_copy(e: &Edit) -> (s: String)
    ensures
        s@ == text_of(e@),
{
    match e {
        Edit::Insert { text, .. } => text.clone(),
        _ => String::new(),
    }
}

/// A delete's line, patch line and expected hash.
fn delete_parts(e: &Edit) -> (r: Option<(usize, usize, Option<u8>)>)
    ensures
        match r {
            Some((l, ln, h)) => e@ is Delete && l == del_line(e@) && ln == line_num_of(e@) && h == hash_of(e@),
            None => !(e@ is Delete),
        },
{
    match e {
        Edit::Delete { anchor, line_num, expected_hash, .. } => Some((anchor.line, *line_num, *expected_hash)),
        _ => None,
    }
}

/// Appends copies of `w`.
fn append_strings(out: &mut Vec<String>, w: &Vec<String>)
    ensures
        strings_view(final(out)@) == strings_view(old(out)@) + strings_view(w@),
{
    let ghost o0 = strings_view(out@);
    let mut k: usize = 0;
    while k < w.len()
        invariant
            k <= w@.len(),
            strings_view(out@) == o0 + strings_view(w@).take(k as int),
        decreases w@.len() - k,
    {
        let ghost before = strings_view(out@);
        out.push(w[k].clone());
        proof {
            assert(strings_view(out@) =~= before.push(w@[k as int]@));
            assert(strings_view(w@).take(k + 1) =~= strings_view(w@).take(k as int).push(w@[k as int]@));
        }
        k = k + 1;
    }
    assert(strings_view(w@).take(k as int) =~= strings_view(w@));
}

proof fn lemma_dels_end_ge(es: Seq<EditV>, j: int, op: Option<usize>)
    requires
        0 <= j,
    ensures
        dels_end(es, j, op) >= j,
    decreases es.len() - j,
{
    if 0 <= j < es.len() && es[j] is Delete && (op is None || line_num_of(es[j]) == op->0) {
        lemma_dels_end_ge(es, j + 1, op);
    }
}

/// One insert at edit `i` (see [`insert_step`]).
fn do_insert(lines: &mut Vec<String>, t: &mut Tracker, edits: &[Edit], i: usize, entries: &[LineEntry]) -> (r: Result<
    usize,
    HashlineError,
>)
    requires
        i < edits@.len(),
        edits_view(edits@)[i as int] is Insert,
        tracker_ok(*old(t), entries@.len(), i as int),
        !(insert_step(edits_view(edits@), i as int, state_of(old(lines)@, *old(t)), entries@) is Panic),
    ensures
        flow_is(
            insert_step(edits_view(edits@), i as int, state_of(old(lines)@, *old(t)), entries@),
            r,
            state_of(final(lines)@, *final(t)),
            Seq::empty(),
        ),
        !(insert_step(edits_view(edits@), i as int, state_of(old(lines)@, *old(t)), entries@) is Fail),
        r is Ok ==> tracker_ok(*final(t), entries@.len(), r->Ok_0 as int),
{
    let ghost es = edits_view(edits@);
    let ghost st = state_of(lines@, *t);
    proof {
        reveal(insert_step);
        assert(es[i as int] == edits@[i as int]@);
    }
    let n = entries.len();
    let (cursor, text) = match &edits[i] {
        Edit::Insert { cursor, .. } => (*cursor, text_copy(&edits[i])),
        _ => {
            return Ok(i + 1);
        },
    };
    let base: usize = match cursor {
        Cursor::BeforeAnchor(a) => if a.line == 0 { usize::MAX } else { a.line - 1 },
        Cursor::AfterAnchor(a) => a.line,
        Cursor::Bof => 0,
        Cursor::Eof => lines.len(),
    };
    let off: usize = match t.counts.get(&base) {
        Some(v) => *v,
        None => 0,
    };
    assert(off <= i);
    let ghost c0 = t.counts@;
    t.counts.insert(base, off + 1);
    assert forall|k: usize| #[trigger] t.counts@.contains_key(k) implies t.counts@[k] <= i + 1 by {
        if k != base {
            assert(c0.contains_key(k));
        }
    }
    let pos = if base <= lines.len() && off <= lines.len() - base { base + off } else { lines.len() };
    lines.insert(pos, text);
    let ghost st2 = ApplyState {
        lines: st.lines.insert(pos as int, text_of(es[i as int])),
        counts: st.counts.insert(base, (off + 1) as usize),
        ..st
    };
    assert(state_of(lines@, *t) == st2) by {
        assert(strings_view(lines@) =~= st2.lines);
    }
    match cursor {
        Cursor::BeforeAnchor(a) => {
            if a.line <= n {
                apply_delta(&mut t.shift, a.line, 1);
            }
        },
        Cursor::AfterAnchor(a) => {
            if a.line < n {
                apply_delta(&mut t.shift, a.line + 1, 1);
            }
        },
        Cursor::Bof => {
            if n > 0 {
                apply_delta(&mut t.shift, 1, 1);
            }
        },
        Cursor::Eof => {},
    }
    assert(t.shift@.len() == ints_of(t.shift@).len());
    Ok(i + 1)
}

/// A `SWAP` starting at edit `i` (see [`swap_step`]).
fn do_swap(
    lines: &mut Vec<String>,
    t: &mut Tracker,
    edits: &[Edit],
    i: usize,
    entries: &[LineEntry],
    path: &str,
) -> (r: Result<usize, HashlineError>)
    requires
        i < edits@.len(),
        edits@.len() <= isize::MAX,
        entries@.len() <= isize::MAX,
        swap_line(edits_view(edits@)[i as int]) is Some,
        tracker_ok(*old(t), entries@.len(), i as int),
        !(swap_step(edits_view(edits@), i as int, state_of(old(lines)@, *old(t)), entries@) is Panic),
    ensures
        flow_is(
            swap_step(edits_view(edits@), i as int, state_of(old(lines)@, *old(t)), entries@),
            r,
            state_of(final(lines)@, *final(t)),
            path@,
        ),
        r is Ok ==> tracker_ok(*final(t), entries@.len(), r->Ok_0 as int),
{
    let ghost es = edits_view(edits@);
    let ghost st = state_of(lines@, *t);
    let ghost ents = entries@;
    proof {
        reveal(swap_step);
        assert(es[i as int] == edits@[i as int]@);
    }
    let line = match swap_line_of(&edits[i]) {
        Some(l) => l,
        None => {
            return Ok(i + 1);
        },
    };
    let (exp0, op) = match &edits[i] {
        Edit::Insert { expected_hash, line_num, .. } => (*expected_hash, *line_num),
        _ => (None, 0),
    };
    assert(exp0 == hash_of(es[i as int]) && op == line_num_of(es[i as int]));
    let n = entries.len();
    let vis = visible_lines(entries);
    if line > vis {
        return Err(not_found_error(line, vis));
    }
    if !hash_matches(entries, line, exp0) {
        return Err(stale_error(entries, line, exp0.unwrap(), path));
    }
    // The run of replacement inserts on this line.
    let ghost j1s = swap_run_end(es, i as int, line);
    let mut texts: Vec<String> = Vec::new();
    let mut j = i;
    loop
        invariant
            i <= j <= edits@.len(),
            es == edits_view(edits@),
            st == state_of(lines@, *t),
            ents == entries@,
            swap_line(es[i as int]) == Some(line),
            op == line_num_of(es[i as int]),
            exp0 == hash_of(es[i as int]),
            line as int <= visible_count(ents),
            hash_ok(ents, line as int, exp0),
            j1s == swap_run_end(es, i as int, line),
            swap_run_end(es, j as int, line) == j1s,
            strings_view(texts@) == texts_of(es, i as int, j as int),
        ensures
            j == j1s,
            strings_view(texts@) == texts_of(es, i as int, j as int),
        decreases edits@.len() - j,
    {
        if j >= edits.len() {
            break;
        }
        proof {
            assert(es[j as int] == edits@[j as int]@);
        }
        match swap_line_of(&edits[j]) {
            Some(l) => {
                if l != line {
                    break;
                }
            },
            None => {
                break;
            },
        }
        let ghost before = strings_view(texts@);
        texts.push(text_copy(&edits[j]));
        proof {
            assert(strings_view(texts@) =~= before.push(text_of(es[j as int])));
            assert(texts_of(es, i as int, j + 1) =~= texts_of(es, i as int, j as int).push(text_of(es[j as int])));
        }
        j = j + 1;
    }
    let j1 = j;
    // The deletes of the same patch line.
    let ghost j2s = dels_end(es, j1 as int, Some(op));
    loop
        invariant
            j1 <= j <= edits@.len(),
            es == edits_view(edits@),
            ents == entries@,
            st == state_of(lines@, *t),
            j1 as int == swap_run_end(es, i as int, line),
            swap_line(es[i as int]) == Some(line),
            op == line_num_of(es[i as int]),
            exp0 == hash_of(es[i as int]),
            line as int <= visible_count(ents),
            hash_ok(ents, line as int, exp0),
            strings_view(texts@) == texts_of(es, i as int, j1 as int),
            j2s == dels_end(es, j1 as int, Some(op)),
            dels_end(es, j as int, Some(op)) == j2s,
            first_stale(es, j1 as int, j2s, ents) == first_stale(es, j as int, j2s, ents),
        ensures
            j == j2s,
            first_stale(es, j1 as int, j2s, ents) == j2s,
        decreases edits@.len() - j,
    {
        if j >= edits.len() {
            break;
        }
        proof {
            assert(es[j as int] == edits@[j as int]@);
        }
        match delete_parts(&edits[j]) {
            Some((dl, ln, h)) => {
                if ln != op {
                    break;
                }
                if !hash_matches(entries, dl, h) {
                    proof {
                        reveal(swap_step);
                        lemma_dels_end_ge(es, j + 1, Some(op));
                        assert(first_stale(es, j as int, j2s, ents) == j);
                        assert(first_stale(es, j1 as int, j2s, ents) == j);
                        assert(del_line(es[j as int]) == dl);
                    }
                    return Err(stale_error(entries, dl, h.unwrap(), path));
                }
            },
            None => {
                break;
            },
        }
        proof {
            lemma_dels_end_ge(es, j + 1, Some(op));
        }
        j = j + 1;
    }
    let j2 = j;
    let num_new = j1 - i;
    let num_old = j2 - j1;
    assert(texts@.len() == num_new);
    if num_old > 0 {
        let end_l = line + num_old - 1;
        let w = detect_boundary_issues(texts.as_slice(), line, end_l, entries);
        append_strings(&mut t.warnings, &w);
    }
    if !(line >= 1 && line <= n && !t.deleted[line - 1]) {
        return Err(deleted_error(line));
    }
    let sh = t.shift[line - 1];
    let raw: isize = (line as isize - 1) + sh;
    if raw < 0 {
        return Err(deleted_error(line));
    }
    let start = raw as usize;
    assert(start <= lines@.len());
    let re = if num_old < lines.len() - start { start + num_old } else { lines.len() };
    remove_range(lines, start, re);
    assert(lines@.len() == strings_view(lines@).len());
    insert_lines(lines, start, &texts);
    let last = if num_old == 0 { line } else { line + num_old - 1 };
    let hi = if last < n { last } else { n };
    mark_range(&mut t.deleted, line - 1, hi);
    let ghost mid = state_of(lines@, *t);
    proof {
        let w = if num_old > 0 {
            boundary_warnings(strings_view(texts@), line as int, line + num_old - 1, entry_contents(ents))
        } else {
            Seq::empty()
        };
        let st2 = ApplyState {
            lines: st.lines.take(raw as int) + strings_view(texts@) + st.lines.skip(re as int),
            deleted: mark_deleted(st.deleted, line - 1, hi as int),
            warnings: st.warnings + w,
            ..st
        };
        assert(mid.lines =~= st2.lines);
        assert(mid == st2);
    }
    if last < n {
        apply_delta(&mut t.shift, last + 1, (num_new as isize) - (num_old as isize));
    }
    assert(t.shift@.len() == ints_of(t.shift@).len());
    Ok(j2)
}

/// The position of the first element of descending `t` below `x`.
spec fn first_below(t: Seq<int>, x: int) -> int
    decreases t.len(),
{
    if t.len() == 0 {
        0
    } else if t[0] < x {
        0
    } else {
        1 + first_below(t.drop_first(), x)
    }
}

proof fn lemma_insert_desc(t: Seq<int>, x: int)
    ensures
        0 <= first_below(t, x) <= t.len(),
        insert_desc(t, x) == t.insert(first_below(t, x), x),
    decreases t.len(),
{
    if t.len() > 0 && !(t[0] < x) {
        lemma_insert_desc(t.drop_first(), x);
        assert(insert_desc(t, x) =~= t.insert(first_below(t, x), x));
    } else if t.len() > 0 {
        assert(insert_desc(t, x) =~= t.insert(0, x));
    }
}

proof fn lemma_first_below_at(t: Seq<int>, x: int, p: int)
    requires
        0 <= p <= t.len(),
        forall|k: int| 0 <= k < p ==> !(#[trigger] t[k] < x),
        p == t.len() || t[p] < x,
    ensures
        first_below(t, x) == p,
    decreases p,
{
    if p > 0 {
        assert forall|k: int| 0 <= k < p - 1 implies !(#[trigger] t.drop_first()[k] < x) by {
            assert(t.drop_first()[k] == t[k + 1]);
        }
        lemma_first_below_at(t.drop_first(), x, p - 1);
    }
}

/// The values as integers.
pub open spec fn usizes_of(s: Seq<usize>) -> Seq<int> {
    Seq::new(s.len(), |k: int| s[k] as int)
}

/// `d` sorted largest first (see [`sort_desc`]); elements stay at most
/// `bound`.
fn sort_desc_vec(d: &Vec<usize>, bound: usize) -> (r: Vec<usize>)
    requires
        forall|k: int| 0 <= k < d@.len() ==> #[trigger] d@[k] <= bound,
    ensures
        usizes_of(r@) == sort_desc(usizes_of(d@)),
        r@.len() == d@.len(),
        forall|k: int| 0 <= k < r@.len() ==> #[trigger] r@[k] <= bound,
{
    let ghost dv = usizes_of(d@);
    let mut r: Vec<usize> = Vec::new();
    let mut k: usize = 0;
    assert(dv.take(0) =~= Seq::<int>::empty());
    assert(usizes_of(r@) =~= Seq::<int>::empty());
    while k < d.len()
        invariant
            k <= d@.len(),
            dv == usizes_of(d@),
            forall|m: int| 0 <= m < d@.len() ==> #[trigger] d@[m] <= bound,
            usizes_of(r@) == sort_desc(dv.take(k as int)),
            r@.len() == k,
            forall|m: int| 0 <= m < r@.len() ==> #[trigger] r@[m] <= bound,
        decreases d@.len() - k,
    {
        let x = d[k];
        let ghost tv = usizes_of(r@);
        let mut p: usize = 0;
        while p < r.len() && !(r[p] < x)
            invariant
                p <= r@.len(),
                tv == usizes_of(r@),
                forall|m: int| 0 <= m < p ==> !(#[trigger] tv[m] < x),
            decreases r@.len() - p,
        {
            p = p + 1;
        }
        proof {
            lemma_first_below_at(tv, x as int, p as int);
            lemma_insert_desc(tv, x as int);
            assert(dv.take(k + 1).drop_last() =~= dv.take(k as int));
        }
        let ghost r0 = r@;
        r.insert(p, x);
        assert(usizes_of(r@) =~= tv.insert(p as int, x as int));
        assert forall|m: int| 0 <= m < r@.len() implies #[trigger] r@[m] <= bound by {
            if m < p {
                assert(r@[m] == r0[m]);
            } else if m > p {
                assert(r@[m] == r0[m - 1]);
            }
        }
        k = k + 1;
    }
    assert(dv.take(k as int) =~= dv);
    r
}

/// A run of deletes starting at edit `i` (see [`delete_step`]).
#[verifier::loop_isolation(false)]
fn do_delete(
    lines: &mut Vec<String>,
    t: &mut Tracker,
    edits: &[Edit],
    i: usize,
    entries: &[LineEntry],
    path: &str,
) -> (r: Result<usize, HashlineError>)
    requires
        i < edits@.len(),
        edits@.len() <= isize::MAX,
        entries@.len() <= isize::MAX,
        edits_view(edits@)[i as int] is Delete,
        tracker_ok(*old(t), entries@.len(), i as int),
        !(delete_step(edits_view(edits@), i as int, state_of(old(lines)@, *old(t)), entries@) is Panic),
    ensures
        flow_is(
            delete_step(edits_view(edits@), i as int, state_of(old(lines)@, *old(t)), entries@),
            r,
            state_of(final(lines)@, *final(t)),
            path@,
        ),
        r is Ok ==> tracker_ok(*final(t), entries@.len(), r->Ok_0 as int),
{
    let ghost es = edits_view(edits@);
    let ghost st = state_of(lines@, *t);
    let ghost ents = entries@;
    let n = entries.len();
    let vis = visible_lines(entries);
    let ghost j2s = dels_end(es, i as int, None);
    proof {
        reveal(delete_step);
        assert(es[i as int] == edits@[i as int]@);
        lemma_dels_end_ge(es, i + 1, None);
    }
    let mut d: Vec<usize> = Vec::new();
    let mut j = i;
    assert(usizes_of(d@) =~= del_lines_of(es, i as int, i as int));
    while j < edits.len() && delete_parts(&edits[j]).is_some()
        invariant
            i <= j <= edits@.len(),
            dels_end(es, j as int, None) == j2s,
            first_stale(es, i as int, j2s, ents) == first_stale(es, j as int, j2s, ents),
            usizes_of(d@) == del_lines_of(es, i as int, j as int),
        decreases edits@.len() - j,
    {
        proof {
            assert(es[j as int] == edits@[j as int]@);
            lemma_dels_end_ge(es, j + 1, None);
        }
        let (dl, _ln, h) = delete_parts(&edits[j]).unwrap();
        if !hash_matches(entries, dl, h) {
            return Err(stale_error(entries, dl, h.unwrap(), path));
        }
        let ghost before = usizes_of(d@);
        d.push(dl);
        proof {
            assert(usizes_of(d@) =~= before.push(dl as int));
            assert(del_lines_of(es, i as int, j + 1) =~= del_lines_of(es, i as int, j as int).push(
                del_line(es[j as int]) as int,
            ));
        }
        j = j + 1;
    }
    proof {
        if j < edits@.len() {
            assert(es[j as int] == edits@[j as int]@);
        }
    }
    assert(j == j2s);
    let j2 = j;
    let ghost dv = usizes_of(d@);
    let mut k: usize = 0;
    while k < d.len()
        invariant
            k <= d@.len(),
            first_past(dv, vis as int, 0) == first_past(dv, vis as int, k as int),
            forall|m: int| 0 <= m < k ==> #[trigger] d@[m] <= vis,
        decreases d@.len() - k,
    {
        if d[k] > vis {
            return Err(not_found_error(d[k], vis));
        }
        k = k + 1;
    }
    let sorted = sort_desc_vec(&d, vis);
    let ghost sv = usizes_of(sorted@);
    let ghost target = remove_lines(st.lines, sv, st.deleted, st.shift, n as int)->0;
    let mut k: usize = 0;
    assert(sv.skip(0) =~= sv);
    while k < sorted.len()
        invariant
            k <= sorted@.len(),
            remove_lines(strings_view(lines@), sv.skip(k as int), st.deleted, st.shift, n as int) == Some(target),
        decreases sorted@.len() - k,
    {
        let o = sorted[k];
        assert(sv.skip(k as int).drop_first() =~= sv.skip(k + 1));
        if o >= 1 && o <= n && !t.deleted[o - 1] {
            let raw: isize = (o as isize - 1) + t.shift[o - 1];
            if raw >= 0 {
                let idx = raw as usize;
                if idx < lines.len() {
                    let ghost before = strings_view(lines@);
                    lines.remove(idx);
                    assert(strings_view(lines@) =~= before.remove(idx as int));
                }
            }
        }
        k = k + 1;
    }
    assert(sv.skip(k as int) =~= Seq::<int>::empty());
    assert(strings_view(lines@) == target);
    let ghost d0 = t.deleted@;
    let mut k: usize = 0;
    assert(sv.take(0) =~= Seq::<int>::empty());
    assert(t.deleted@ =~= Seq::new(n as nat, |m: int| sv.take(0).contains(m + 1) || d0[m]));
    while k < sorted.len()
        invariant
            k <= sorted@.len(),
            t.deleted@.len() == n,
            t.shift@ == old(t).shift@,
            t.counts@ == old(t).counts@,
            t.warnings@ == old(t).warnings@,
            t.deleted@ == Seq::new(n as nat, |m: int| sv.take(k as int).contains(m + 1) || d0[m]),
        decreases sorted@.len() - k,
    {
        let dl = sorted[k];
        if dl == 0 {
            assert(sv[k as int] == 0);
            assert(false);
        }
        t.deleted.set(dl - 1, true);
        proof {
            let a = sv.take(k as int);
            let b = sv.take(k + 1);
            assert forall|m: int| 0 <= m < n implies t.deleted@[m] == (b.contains(m + 1) || d0[m]) by {
                if a.contains(m + 1) {
                    let w = choose|w: int| 0 <= w < a.len() && a[w] == m + 1;
                    assert(b[w] == m + 1);
                }
                if m + 1 == dl {
                    assert(b[k as int] == m + 1);
                }
                if b.contains(m + 1) {
                    let w = choose|w: int| 0 <= w < b.len() && b[w] == m + 1;
                    if w < k {
                        assert(a[w] == m + 1);
                    }
                }
            }
            assert(t.deleted@ =~= Seq::new(n as nat, |m: int| b.contains(m + 1) || d0[m]));
        }
        k = k + 1;
    }
    assert(sv.take(k as int) =~= sv);
    let last = sorted[0];
    let cnt = sorted.len();
    let ghost mid = state_of(lines@, *t);
    proof {
        let st2 = ApplyState {
            lines: target,
            deleted: Seq::new(st.deleted.len(), |m: int| sv.contains(m + 1) || st.deleted[m]),
            ..st
        };
        assert(mid.deleted =~= st2.deleted);
        assert(mid == st2);
    }
    if last < n {
        apply_delta(&mut t.shift, last + 1, -(cnt as isize));
    }
    assert(t.shift@.len() == ints_of(t.shift@).len());
    Ok(j2)
}

/// The count of an edit list that fits `isize`.
pub open spec fn payloads_fit(es: Seq<EditV>) -> bool {
    forall|k: int| 0 <= k < es.len() ==> (#[trigger] es[k] matches EditV::Block { payloads, .. } ==> payloads.len() <= isize::MAX)
}

/// A block edit at edit `i` (see [`block_step`]).
fn do_block(
    lines: &mut Vec<String>,
    t: &mut Tracker,
    edits: &[Edit],
    i: usize,
    entries: &[LineEntry],
    ext: &str,
    path: &str,
) -> (r: Result<usize, HashlineError>)
    requires
        i < edits@.len(),
        entries@.len() <= isize::MAX,
        payloads_fit(edits_view(edits@)),
        edits_view(edits@)[i as int] is Block,
        tracker_ok(*old(t), entries@.len(), i as int),
        !(block_step(edits_view(edits@), i as int, state_of(old(lines)@, *old(t)), entries@, ext@) is Panic),
    ensures
        flow_is(
            block_step(edits_view(edits@), i as int, state_of(old(lines)@, *old(t)), entries@, ext@),
            r,
            state_of(final(lines)@, *final(t)),
            path@,
        ),
        r is Ok ==> tracker_ok(*final(t), entries@.len(), r->Ok_0 as int),
{
    let ghost es = edits_view(edits@);
    let ghost st = state_of(lines@, *t);
    let ghost ents = entries@;
    proof {
        reveal(block_step);
        assert(es[i as int] == edits@[i as int]@);
    }
    let (anchor, payloads, mode, exp) = match &edits[i] {
        Edit::Block { anchor, payloads, mode, expected_hash, .. } => (*anchor, payloads, *mode, *expected_hash),
        _ => {
            return Ok(i + 1);
        },
    };
    let ghost pv = strings_view(payloads@);
    let n = entries.len();
    let vis = visible_lines(entries);
    let line = anchor.line;
    if line > vis {
        return Err(not_found_error(line, vis));
    }
    if !hash_matches(entries, line, exp) {
        return Err(stale_error(entries, line, exp.unwrap(), path));
    }
    let a = line - 1;
    let (bs, be) = match block_span(entries, a, ext) {
        None => {
            return Err(HashlineError::UnbalancedBlock { line_no: a + 1 });
        },
        Some(p) => p,
    };
    proof {
        lemma_span_in_file(entry_contents(ents), a as int, ext@);
    }
    let len = lines.len();
    let hi_del = if be + 1 < n { be + 1 } else { n };
    let ghost l0 = strings_view(lines@);
    match mode {
        None => {
            if payloads.len() == 0 {
                let hi = if len > 0 && be < len - 1 { be } else if len > 0 { len - 1 } else { 0 };
                proof {
                    assert(hi as int == if (be as int) < len - 1 { be as int } else if len > 0 { len - 1 } else { 0 });
                }
                if bs <= hi {
                    remove_range(lines, bs, hi + 1);
                }
                let ghost l1 = strings_view(lines@);
                assert(lines@.len() == l1.len());
                if bs < lines.len() && blank_line(lines[bs].as_str()) {
                    lines.remove(bs);
                    assert(strings_view(lines@) =~= l1.remove(bs as int));
                }
                mark_range(&mut t.deleted, bs, hi_del);
                let ghost mid = state_of(lines@, *t);
                proof {
                    assert(mid == ApplyState {
                        lines: strings_view(lines@),
                        deleted: mark_deleted(st.deleted, bs as int, hi_del as int),
                        ..st
                    });
                }
                if be + 1 < n {
                    apply_delta(&mut t.shift, be + 2, -((be - bs + 1) as isize));
                }
            } else {
                let no = be - bs + 1;
                if bs < len {
                    let cnt = if no < len - bs { no } else { len - bs };
                    remove_range(lines, bs, bs + cnt);
                }
                assert(lines@.len() == strings_view(lines@).len());
                insert_lines(lines, bs, payloads);
                mark_range(&mut t.deleted, bs, hi_del);
                if be + 1 < n {
                    apply_delta(&mut t.shift, be + 2, (payloads.len() as isize) - (no as isize));
                }
            }
        },
        Some(BlockMode::InsertAfter) => {
            let pos = if be + 1 < len { be + 1 } else { len };
            insert_lines(lines, pos, payloads);
            if be + 1 < n {
                apply_delta(&mut t.shift, be + 2, payloads.len() as isize);
            }
        },
        Some(BlockMode::InsertBefore) => {
            let pos = if bs < len { bs } else { len };
            insert_lines(lines, pos, payloads);
            if bs < n {
                apply_delta(&mut t.shift, bs + 1, payloads.len() as isize);
            }
        },
    }
    assert(t.shift@.len() == ints_of(t.shift@).len());
    Ok(i + 1)
}

proof fn lemma_apply_from_unfold(es: Seq<EditV>, i: int, st: ApplyState, ents: Seq<LineEntry>, ext: Seq<char>)
    requires
        0 <= i < es.len(),
    ensures
        apply_from(es, i, st, ents, ext) == match apply_step(es, i, st, ents, ext) {
            Flow::Next(st2, j) => if i < j <= es.len() {
                apply_from(es, j, st2, ents, ext)
            } else {
                Outcome::Panic
            },
            Flow::Fail(e) => Outcome::Fail(e),
            Flow::Panic => Outcome::Panic,
        },
{
}


// ---------------------------------------------------------------------------
// What single operations do
// ---------------------------------------------------------------------------

/// The edits of `SWAP first..=first+old-1` with body `body`, written on
/// patch line `op`, with no expected hashes.
pub open spec fn swap_edits(first: usize, old: nat, body: Seq<Seq<char>>, op: usize) -> Seq<EditV> {
    Seq::new(
        body.len(),
        |k: int|
            EditV::Insert {
                cursor: Cursor::BeforeAnchor(Anchor { line: first }),
                text: body[k],
                line_num: op,
                index: k as usize,
                mode: Some(InsertMode::Replacement),
                block_start: None,
                expected_hash: None,
            },
    ) + Seq::new(
        old,
        |m: int| EditV::Delete { anchor: Anchor { line: (first + m) as usize }, line_num: op, index: 0, expected_hash: None },
    )
}

/// The edits of `DEL first..=last` with no expected hashes.
pub open spec fn delete_edits(first: usize, last: usize, op: usize) -> Seq<EditV> {
    Seq::new(
        (last - first + 1) as nat,
        |m: int| EditV::Delete { anchor: Anchor { line: (first + m) as usize }, line_num: op, index: 0, expected_hash: None },
    )
}

proof fn lemma_swap_run_end_at(es: Seq<EditV>, j: int, line: usize, e: int)
    requires
        0 <= j <= e <= es.len(),
        forall|k: int| j <= k < e ==> swap_line(#[trigger] es[k]) == Some(line),
        e == es.len() || swap_line(es[e]) != Some(line),
    ensures
        swap_run_end(es, j, line) == e,
    decreases e - j,
{
    if j < e {
        lemma_swap_run_end_at(es, j + 1, line, e);
    }
}

proof fn lemma_dels_end_at(es: Seq<EditV>, j: int, op: Option<usize>, e: int)
    requires
        0 <= j <= e <= es.len(),
        forall|k: int| j <= k < e ==> (#[trigger] es[k] is Delete) && (op is None || line_num_of(es[k]) == op->0),
        e == es.len() || !(es[e] is Delete && (op is None || line_num_of(es[e]) == op->0)),
    ensures
        dels_end(es, j, op) == e,
    decreases e - j,
{
    if j < e {
        lemma_dels_end_at(es, j + 1, op, e);
    }
}

proof fn lemma_no_stale(es: Seq<EditV>, j: int, e: int, ents: Seq<LineEntry>)
    requires
        j <= e,
        forall|k: int| j <= k < e ==> hash_of(#[trigger] es[k]) is None,
    ensures
        first_stale(es, j, e, ents) == e,
    decreases e - j,
{
    if j < e {
        lemma_no_stale(es, j + 1, e, ents);
    }
}

/// A `SWAP` of lines `first..=first+old-1` as the first operation of a
/// patch replaces exactly those lines of the buffer with its body, and
/// reports the boundary warnings for that range.
#[verifier::spinoff_prover]
#[verifier::rlimit(60)]
pub proof fn law_swap_replaces_its_lines(
    first: usize,
    old: nat,
    body: Seq<Seq<char>>,
    op: usize,
    lines: Seq<Seq<char>>,
    ents: Seq<LineEntry>,
    ext: Seq<char>,
)
    requires
        1 <= first,
        body.len() >= 1,
        old >= 1,
        first + old - 1 <= visible_count(ents),
        first + old - 1 <= lines.len(),
        ents.len() <= isize::MAX,
        body.len() + old <= isize::MAX,
    ensures
        apply_outcome(swap_edits(first, old, body, op), lines, ents, ext) matches Outcome::Done(st) && st.lines
            == lines.take(first - 1) + body + lines.skip(first - 1 + old) && st.warnings == boundary_warnings(
            body,
            first as int,
            first + old - 1,
            entry_contents(ents),
        ),
{
    reveal(swap_step);
    let es = swap_edits(first, old, body, op);
    let nn = body.len() as int;
    let st = initial_state(lines, ents.len());
    assert(swap_line(es[0]) == Some(first));
    lemma_swap_run_end_at(es, 0, first, nn);
    lemma_dels_end_at(es, nn, Some(op), nn + old);
    lemma_no_stale(es, nn, nn + old, ents);
    assert(texts_of(es, 0, nn) =~= body);
    let last = first + old - 1;
    let w = boundary_warnings(body, first as int, last, entry_contents(ents));
    let st2 = ApplyState {
        lines: lines.take(first - 1) + body + lines.skip(first - 1 + old),
        deleted: mark_deleted(st.deleted, first - 1, if last < ents.len() { last } else { ents.len() as int }),
        warnings: st.warnings + w,
        ..st
    };
    assert(st2.warnings =~= w);
    let f = apply_step(es, 0, st, ents, ext);
    if last < ents.len() {
        assert(delta_fits(st.shift, last + 1, nn - old));
        assert(f == Flow::Next(ApplyState { shift: add_delta(st.shift, last + 1, nn - old), ..st2 }, nn + old));
    } else {
        assert(f == Flow::Next(st2, nn + old));
    }
    lemma_apply_from_unfold(es, 0, st, ents, ext);
}

proof fn lemma_sort_ascending_run(first: int, count: nat)
    ensures
        sort_desc(Seq::new(count, |m: int| first + m)) == Seq::new(count, |m: int| first + count - 1 - m),
    decreases count,
{
    let s = Seq::new(count, |m: int| first + m);
    if count > 0 {
        lemma_sort_ascending_run(first, (count - 1) as nat);
        assert(s.drop_last() =~= Seq::new((count - 1) as nat, |m: int| first + m));
        let t = Seq::new((count - 1) as nat, |m: int| first + count - 2 - m);
        lemma_insert_desc(t, s.last());
        if t.len() > 0 {
            lemma_first_below_at(t, s.last(), 0);
        } else {
            lemma_first_below_at(t, s.last(), 0);
        }
        assert(t.insert(0, s.last()) =~= Seq::new(count, |m: int| first + count - 1 - m));
    }
}

proof fn lemma_remove_descending(lines: Seq<Seq<char>>, first: int, count: nat, n: int)
    requires
        1 <= first,
        first + count - 1 <= lines.len(),
        first + count - 1 <= n,
        n <= isize::MAX,
    ensures
        remove_lines(
            lines,
            Seq::new(count, |m: int| first + count - 1 - m),
            Seq::new(n as nat, |k: int| false),
            Seq::new(n as nat, |k: int| 0int),
            n,
        ) == Some(lines.take(first - 1) + lines.skip(first - 1 + count)),
    decreases count,
{
    let s = Seq::new(count, |m: int| first + count - 1 - m);
    if count == 0 {
        assert(lines.take(first - 1) + lines.skip(first - 1) =~= lines);
    } else {
        let top = first + count - 1;
        let l2 = lines.remove(top - 1);
        assert(s.drop_first() =~= Seq::new((count - 1) as nat, |m: int| first + (count - 1) - 1 - m));
        lemma_remove_descending(l2, first, (count - 1) as nat, n);
        assert(l2.take(first - 1) + l2.skip(first - 1 + count - 1) =~= lines.take(first - 1) + lines.skip(
            first - 1 + count,
        ));
    }
}

/// A `DEL first..=last` as the first operation of a patch removes exactly
/// those lines of the buffer.
#[verifier::spinoff_prover]
#[verifier::rlimit(60)]
pub proof fn law_delete_removes_its_lines(first: usize, last: usize, op: usize, lines: Seq<Seq<char>>, ents: Seq<LineEntry>, ext: Seq<char>)
    requires
        1 <= first <= last,
        last <= visible_count(ents),
        last <= lines.len(),
        ents.len() <= isize::MAX,
    ensures
        apply_outcome(delete_edits(first, last, op), lines, ents, ext) matches Outcome::Done(st)
            && st.lines == lines.take(first - 1) + lines.skip(last as int),
{
    reveal(delete_step);
    let es = delete_edits(first, last, op);
    let count = (last - first + 1) as nat;
    let st = initial_state(lines, ents.len());
    assert(es[0] is Delete);
    lemma_dels_end_at(es, 0, None, count as int);
    lemma_no_stale(es, 0, count as int, ents);
    let d = del_lines_of(es, 0, count as int);
    assert(d =~= Seq::new(count, |m: int| first + m));
    assert(first_past(d, visible_count(ents), 0) == d.len()) by {
        lemma_first_past_none(d, visible_count(ents), 0);
    }
    lemma_sort_ascending_run(first as int, count);
    let sorted = sort_desc(d);
    lemma_remove_descending(lines, first as int, count, ents.len() as int);
    assert(sorted[count - 1] == first as int);
    assert(!sorted.contains(0));
    let st2 = ApplyState {
        lines: lines.take(first - 1) + lines.skip(last as int),
        deleted: Seq::new(st.deleted.len(), |k: int| sorted.contains(k + 1) || st.deleted[k]),
        ..st
    };
    let f = apply_step(es, 0, st, ents, ext);
    if sorted[0] < ents.len() {
        assert(delta_fits(st.shift, sorted[0] + 1, -(sorted.len() as int)));
        assert(f == Flow::Next(
            ApplyState { shift: add_delta(st.shift, sorted[0] + 1, -(sorted.len() as int)), ..st2 },
            count as int,
        ));
    } else {
        assert(f == Flow::Next(st2, count as int));
    }
    lemma_apply_from_unfold(es, 0, st, ents, ext);
}

/// `lines` without the lines whose 1-based numbers are in `del`.
pub open spec fn drop_lines(lines: Seq<Seq<char>>, del: Set<int>) -> Seq<Seq<char>>
    decreases lines.len(),
{
    if lines.len() == 0 {
        lines
    } else {
        let r = drop_lines(lines.drop_last(), del);
        if del.contains(lines.len() as int) {
            r
        } else {
            r.push(lines.last())
        }
    }
}

/// `s` is strictly decreasing.
pub open spec fn strictly_desc(s: Seq<int>) -> bool {
    forall|a: int, b: int| 0 <= a < b < s.len() ==> #[trigger] s[a] > #[trigger] s[b]
}

proof fn lemma_insert_desc_set(t: Seq<int>, x: int)
    requires
        strictly_desc(t),
        !t.contains(x),
    ensures
        strictly_desc(insert_desc(t, x)),
        insert_desc(t, x).len() == t.len() + 1,
        insert_desc(t, x).to_set() == t.to_set().insert(x),
    decreases t.len(),
{
    let r = insert_desc(t, x);
    if t.len() == 0 {
        assert(r =~= seq![x]);
        assert(r.to_set() =~= t.to_set().insert(x)) by {
            assert forall|v: int| r.to_set().contains(v) <==> t.to_set().insert(x).contains(v) by {
                if r.contains(v) {
                    let k = choose|k: int| 0 <= k < r.len() && r[k] == v;
                    assert(k == 0);
                }
                if v == x {
                    assert(r[0] == v);
                }
                assert(!t.contains(v));
            }
        }
    } else if t[0] < x {
        assert(r =~= seq![x] + t);
        assert forall|a: int, b: int| 0 <= a < b < r.len() implies #[trigger] r[a] > #[trigger] r[b] by {
            if a > 0 {
                assert(r[a] == t[a - 1] && r[b] == t[b - 1]);
            } else if b > 1 {
                assert(t[0] > t[b - 1]);
            }
        }
        assert(r.to_set() =~= t.to_set().insert(x)) by {
            assert forall|v: int| r.to_set().contains(v) <==> t.to_set().insert(x).contains(v) by {
                if r.contains(v) {
                    let k = choose|k: int| 0 <= k < r.len() && r[k] == v;
                    if k > 0 {
                        assert(t[k - 1] == v);
                    }
                }
                if t.contains(v) {
                    let k = choose|k: int| 0 <= k < t.len() && t[k] == v;
                    assert(r[k + 1] == v);
                }
                if v == x {
                    assert(r[0] == v);
                }
            }
        }
    } else {
        let u = t.drop_first();
        assert(strictly_desc(u)) by {
            assert forall|a: int, b: int| 0 <= a < b < u.len() implies #[trigger] u[a] > #[trigger] u[b] by {
                assert(t[a + 1] > t[b + 1]);
            }
        }
        assert(!u.contains(x)) by {
            if u.contains(x) {
                let k = choose|k: int| 0 <= k < u.len() && u[k] == x;
                assert(t[k + 1] == x);
            }
        }
        lemma_insert_desc_set(u, x);
        let w = insert_desc(u, x);
        assert(r =~= seq![t[0]] + w);
        assert(t[0] != x) by {
            assert(t[0] == t[0]);
        }
        assert forall|a: int, b: int| 0 <= a < b < r.len() implies #[trigger] r[a] > #[trigger] r[b] by {
            if a > 0 {
                assert(r[a] == w[a - 1] && r[b] == w[b - 1]);
            } else {
                assert(r[b] == w[b - 1]);
                assert(w.to_set().contains(w[b - 1]));
                assert(u.to_set().insert(x).contains(w[b - 1]));
                if u.contains(w[b - 1]) {
                    let k = choose|k: int| 0 <= k < u.len() && u[k] == w[b - 1];
                    assert(t[0] > t[k + 1]);
                }
            }
        }
        assert(r.to_set() =~= t.to_set().insert(x)) by {
            assert forall|v: int| r.to_set().contains(v) <==> t.to_set().insert(x).contains(v) by {
                if r.contains(v) {
                    let k = choose|k: int| 0 <= k < r.len() && r[k] == v;
                    if k > 0 {
                        assert(w[k - 1] == v);
                        assert(w.to_set().contains(v));
                        if u.contains(v) {
                            let m = choose|m: int| 0 <= m < u.len() && u[m] == v;
                            assert(t[m + 1] == v);
                        }
                    }
                }
                if t.contains(v) {
                    let k = choose|k: int| 0 <= k < t.len() && t[k] == v;
                    if k > 0 {
                        assert(u[k - 1] == v);
                        assert(w.to_set().contains(v));
                        let m = choose|m: int| 0 <= m < w.len() && w[m] == v;
                        assert(r[m + 1] == v);
                    } else {
                        assert(r[0] == v);
                    }
                }
                if v == x {
                    assert(w.to_set().contains(x));
                    let m = choose|m: int| 0 <= m < w.len() && w[m] == x;
                    assert(r[m + 1] == x);
                }
            }
        }
    }
}

/// Sorting distinct numbers orders them strictly and keeps them.
proof fn lemma_sort_desc_set(d: Seq<int>)
    requires
        d.no_duplicates(),
    ensures
        strictly_desc(sort_desc(d)),
        sort_desc(d).len() == d.len(),
        sort_desc(d).to_set() == d.to_set(),
    decreases d.len(),
{
    if d.len() == 0 {
        assert(sort_desc(d) =~= d);
    } else {
        let p = d.drop_last();
        assert(p.no_duplicates());
        lemma_sort_desc_set(p);
        let t = sort_desc(p);
        assert(!t.contains(d.last())) by {
            if t.contains(d.last()) {
                assert(t.to_set().contains(d.last()));
                assert(p.to_set().contains(d.last()));
                let k = choose|k: int| 0 <= k < p.len() && p[k] == d.last();
                assert(d[k] == d[d.len() - 1]);
            }
        }
        lemma_insert_desc_set(t, d.last());
        assert(d.to_set() =~= p.to_set().insert(d.last())) by {
            assert forall|v: int| d.to_set().contains(v) <==> p.to_set().insert(d.last()).contains(v) by {
                if d.contains(v) {
                    let k = choose|k: int| 0 <= k < d.len() && d[k] == v;
                    if k < d.len() - 1 {
                        assert(p[k] == v);
                    }
                }
                if p.contains(v) {
                    let k = choose|k: int| 0 <= k < p.len() && p[k] == v;
                    assert(d[k] == v);
                }
                if v == d.last() {
                    assert(d[d.len() - 1] == v);
                }
            }
        }
    }
}

/// What `drop_lines` keeps depends only on the numbers of lines present.
proof fn lemma_drop_lines_local(lines: Seq<Seq<char>>, a: Set<int>, b: Set<int>)
    requires
        forall|l: int| 1 <= l <= lines.len() ==> (a.contains(l) <==> b.contains(l)),
    ensures
        drop_lines(lines, a) == drop_lines(lines, b),
    decreases lines.len(),
{
    if lines.len() > 0 {
        lemma_drop_lines_local(lines.drop_last(), a, b);
    }
}

/// Taking out line `p + 1` and then the lines `r` below it is dropping
/// both.
proof fn lemma_drop_after_remove(lines: Seq<Seq<char>>, p: int, r: Set<int>)
    requires
        0 <= p < lines.len(),
        forall|l: int| #[trigger] r.contains(l) ==> l < p + 1,
    ensures
        drop_lines(lines.remove(p), r) == drop_lines(lines, r.insert(p + 1)),
    decreases lines.len(),
{
    let rm = lines.remove(p);
    if p == lines.len() - 1 {
        assert(rm =~= lines.drop_last());
        lemma_drop_lines_local(lines.drop_last(), r, r.insert(p + 1));
    } else {
        let dl = lines.drop_last();
        lemma_drop_after_remove(dl, p, r);
        assert(rm.drop_last() =~= dl.remove(p));
        assert(rm.last() == lines.last());
        assert(!r.contains(rm.len() as int));
        assert(!r.insert(p + 1).contains(lines.len() as int));
    }
}

/// Removing strictly decreasing in-range line numbers from untouched lines
/// drops exactly those lines.
proof fn lemma_remove_desc_set(lines: Seq<Seq<char>>, s: Seq<int>, n: int)
    requires
        strictly_desc(s),
        forall|k: int| 0 <= k < s.len() ==> 1 <= #[trigger] s[k] <= lines.len(),
        lines.len() <= n <= isize::MAX,
    ensures
        remove_lines(lines, s, Seq::new(n as nat, |k: int| false), Seq::new(n as nat, |k: int| 0int), n) == Some(
            drop_lines(lines, s.to_set()),
        ),
    decreases s.len(),
{
    let dz = Seq::new(n as nat, |k: int| false);
    let sz = Seq::new(n as nat, |k: int| 0int);
    if s.len() == 0 {
        assert(s.to_set() =~= Set::<int>::empty());
        lemma_drop_lines_local(lines, Set::<int>::empty(), Set::<int>::empty());
        assert(drop_lines(lines, Set::<int>::empty()) == lines) by {
            lemma_drop_none(lines);
        }
    } else {
        let o = s[0];
        let rest = s.drop_first();
        let rm = lines.remove(o - 1);
        assert(strictly_desc(rest)) by {
            assert forall|a: int, b: int| 0 <= a < b < rest.len() implies #[trigger] rest[a] > #[trigger] rest[b] by {
                assert(s[a + 1] > s[b + 1]);
            }
        }
        assert forall|k: int| 0 <= k < rest.len() implies 1 <= #[trigger] rest[k] <= rm.len() by {
            assert(s[0] > s[k + 1]);
        }
        lemma_remove_desc_set(rm, rest, n);
        assert forall|l: int| #[trigger] rest.to_set().contains(l) implies l < o by {
            let k = choose|k: int| 0 <= k < rest.len() && rest[k] == l;
            assert(s[0] > s[k + 1]);
        }
        lemma_drop_after_remove(lines, o - 1, rest.to_set());
        assert(rest.to_set().insert(o) =~= s.to_set()) by {
            assert forall|v: int| rest.to_set().insert(o).contains(v) <==> s.to_set().contains(v) by {
                if rest.contains(v) {
                    let k = choose|k: int| 0 <= k < rest.len() && rest[k] == v;
                    assert(s[k + 1] == v);
                }
                if s.contains(v) {
                    let k = choose|k: int| 0 <= k < s.len() && s[k] == v;
                    if k > 0 {
                        assert(rest[k - 1] == v);
                    }
                }
                if v == o {
                    assert(s[0] == v);
                }
            }
        }
    }
}

/// Dropping no line keeps them all.
proof fn lemma_drop_none(lines: Seq<Seq<char>>)
    ensures
        drop_lines(lines, Set::<int>::empty()) == lines,
    decreases lines.len(),
{
    if lines.len() > 0 {
        lemma_drop_none(lines.drop_last());
        assert(lines.drop_last().push(lines.last()) =~= lines);
    }
}

/// Deleting any set of distinct single lines (a patch of `DEL` lines with
/// no expected hash, each naming a different line the reader was shown)
/// removes exactly those lines of the buffer and keeps the rest in order.
#[verifier::spinoff_prover]
#[verifier::rlimit(60)]
pub proof fn law_deletes_remove_exactly_their_lines(es: Seq<EditV>, lines: Seq<Seq<char>>, ents: Seq<LineEntry>, ext: Seq<char>)
    requires
        es.len() > 0,
        es.len() <= isize::MAX,
        forall|k: int| 0 <= k < es.len() ==> (#[trigger] es[k] is Delete) && hash_of(es[k]) is None,
        forall|k: int| 0 <= k < es.len() ==> 1 <= del_line(#[trigger] es[k]) <= visible_count(ents),
        forall|a: int, b: int| 0 <= a < es.len() && 0 <= b < es.len() && a != b ==> del_line(#[trigger] es[a]) != del_line(#[trigger] es[b]),
        lines.len() == ents.len(),
        ents.len() <= isize::MAX,
    ensures
        apply_outcome(es, lines, ents, ext) matches Outcome::Done(st) && st.lines == drop_lines(
            lines,
            Set::new(|l: int| exists|k: int| 0 <= k < es.len() && #[trigger] del_line(es[k]) == l),
        ),
{
    reveal(delete_step);
    let count = es.len() as int;
    let st = initial_state(lines, ents.len());
    lemma_dels_end_at(es, 0, None, count);
    lemma_no_stale(es, 0, count, ents);
    let d = del_lines_of(es, 0, count);
    let vis = visible_count(ents);
    assert(vis <= ents.len());
    assert(first_past(d, vis, 0) == d.len()) by {
        assert forall|m: int| 0 <= m < d.len() implies #[trigger] d[m] <= vis by {
            assert(d[m] == del_line(es[m]));
        }
        lemma_first_past_none(d, vis, 0);
    }
    assert(d.no_duplicates()) by {
        assert forall|a: int, b: int| 0 <= a < d.len() && 0 <= b < d.len() && a != b implies d[a] != d[b] by {
            assert(d[a] == del_line(es[a]) && d[b] == del_line(es[b]));
        }
    }
    lemma_sort_desc_set(d);
    let sorted = sort_desc(d);
    assert forall|k: int| 0 <= k < sorted.len() implies 1 <= #[trigger] sorted[k] <= lines.len() by {
        assert(sorted.to_set().contains(sorted[k]));
        assert(d.to_set().contains(sorted[k]));
        let m = choose|m: int| 0 <= m < d.len() && d[m] == sorted[k];
        assert(d[m] == del_line(es[m]));
    }
    lemma_remove_desc_set(lines, sorted, ents.len() as int);
    let del = Set::new(|l: int| exists|k: int| 0 <= k < es.len() && #[trigger] del_line(es[k]) == l);
    assert(sorted.to_set() =~= del) by {
        assert forall|v: int| sorted.to_set().contains(v) <==> del.contains(v) by {
            if d.contains(v) {
                let m = choose|m: int| 0 <= m < d.len() && d[m] == v;
                assert(del_line(es[m]) == v);
            }
            if del.contains(v) {
                let k = choose|k: int| 0 <= k < es.len() && #[trigger] del_line(es[k]) == v;
                assert(d[k] == v);
            }
        }
    }
    assert(!sorted.contains(0)) by {
        if sorted.contains(0) {
            let k = choose|k: int| 0 <= k < sorted.len() && sorted[k] == 0;
        }
    }
    let st2 = ApplyState {
        lines: drop_lines(lines, del),
        deleted: Seq::new(st.deleted.len(), |k: int| sorted.contains(k + 1) || st.deleted[k]),
        ..st
    };
    let f = apply_step(es, 0, st, ents, ext);
    if sorted[0] < ents.len() {
        assert(delta_fits(st.shift, sorted[0] + 1, -(sorted.len() as int)));
        assert(f == Flow::Next(
            ApplyState { shift: add_delta(st.shift, sorted[0] + 1, -(sorted.len() as int)), ..st2 },
            count,
        ));
    } else {
        assert(f == Flow::Next(st2, count));
    }
    lemma_apply_from_unfold(es, 0, st, ents, ext);
}

/// What `apply_edits` reports for distinct single-line deletes: whatever
/// extension the path has, the apply succeeds and the buffer keeps exactly
/// the lines not deleted, in order.
pub proof fn law_apply_edits_deletes_exactly_their_lines(
    es: Seq<EditV>,
    lines: Seq<Seq<char>>,
    ents: Seq<LineEntry>,
    ext: Seq<char>,
    r: Result<Vec<String>, HashlineError>,
    after: Seq<Seq<char>>,
    path: Seq<char>,
)
    requires
        es.len() > 0,
        es.len() <= isize::MAX,
        forall|k: int| 0 <= k < es.len() ==> (#[trigger] es[k] is Delete) && hash_of(es[k]) is None,
        forall|k: int| 0 <= k < es.len() ==> 1 <= del_line(#[trigger] es[k]) <= visible_count(ents),
        forall|a: int, b: int| 0 <= a < es.len() && 0 <= b < es.len() && a != b ==> del_line(#[trigger] es[a]) != del_line(#[trigger] es[b]),
        lines.len() == ents.len(),
        ents.len() <= isize::MAX,
        outcome_is(apply_outcome(es, lines, ents, ext), r, after, path),
    ensures
        r is Ok,
        after == drop_lines(lines, Set::new(|l: int| exists|k: int| 0 <= k < es.len() && #[trigger] del_line(es[k]) == l)),
{
    law_deletes_remove_exactly_their_lines(es, lines, ents, ext);
}

proof fn lemma_first_past_none(d: Seq<int>, vis: int, k: int)
    requires
        0 <= k <= d.len(),
        forall|m: int| 0 <= m < d.len() ==> #[trigger] d[m] <= vis,
    ensures
        first_past(d, vis, k) == d.len(),
    decreases d.len() - k,
{
    if k < d.len() {
        lemma_first_past_none(d, vis, k + 1);
    }
}

/// An insert after line `after` as the first operation of a patch puts its
/// text right after that line of the buffer.
#[verifier::spinoff_prover]
#[verifier::rlimit(60)]
pub proof fn law_insert_after_lands_below_its_line(
    after: usize,
    text: Seq<char>,
    op: usize,
    lines: Seq<Seq<char>>,
    ents: Seq<LineEntry>,
    ext: Seq<char>,
)
    requires
        after <= lines.len(),
        ents.len() <= isize::MAX,
    ensures
        apply_outcome(
            seq![EditV::Insert {
                cursor: Cursor::AfterAnchor(Anchor { line: after }),
                text,
                line_num: op,
                index: 0,
                mode: None,
                block_start: None,
                expected_hash: None,
            }],
            lines,
            ents,
            ext,
        ) matches Outcome::Done(st) && st.lines == lines.insert(after as int, text),
{
    reveal(insert_step);
    let es = seq![EditV::Insert {
        cursor: Cursor::AfterAnchor(Anchor { line: after }),
        text,
        line_num: op,
        index: 0,
        mode: None,
        block_start: None,
        expected_hash: None,
    }];
    let st = initial_state(lines, ents.len());
    let st2 = ApplyState {
        lines: lines.insert(after as int, text),
        counts: st.counts.insert(after, 1),
        ..st
    };
    let f = apply_step(es, 0, st, ents, ext);
    assert(!st.counts.contains_key(after));
    if after < ents.len() {
        assert(delta_fits(st.shift, after + 1, 1));
        assert(f == Flow::Next(ApplyState { shift: add_delta(st.shift, after + 1, 1), ..st2 }, 1));
    } else {
        assert(f == Flow::Next(st2, 1));
    }
    lemma_apply_from_unfold(es, 0, st, ents, ext);
}


/// An insert after line `a` does not move the target of a later `SWAP` of
/// a line `b` below it: the swap still replaces snapshot line `b`.
#[verifier::spinoff_prover]
#[verifier::rlimit(60)]
pub proof fn law_insert_keeps_later_swap_on_its_line(
    a: usize,
    t: Seq<char>,
    b: usize,
    body: Seq<Seq<char>>,
    op: usize,
    lines: Seq<Seq<char>>,
    ents: Seq<LineEntry>,
    ext: Seq<char>,
)
    requires
        1 <= a < b,
        b <= visible_count(ents),
        b <= lines.len(),
        body.len() >= 1,
        body.len() + 1 <= isize::MAX,
        ents.len() <= isize::MAX,
    ensures
        apply_outcome(
            seq![EditV::Insert {
                cursor: Cursor::AfterAnchor(Anchor { line: a }),
                text: t,
                line_num: op,
                index: 0,
                mode: None,
                block_start: None,
                expected_hash: None,
            }] + swap_edits(b, 1, body, (op + 1) as usize),
            lines,
            ents,
            ext,
        ) matches Outcome::Done(st) && st.lines == lines.take(a as int) + seq![t] + lines.subrange(a as int, b - 1)
            + body + lines.skip(b as int),
{
    reveal(insert_step);
    reveal(swap_step);
    let ins = EditV::Insert {
        cursor: Cursor::AfterAnchor(Anchor { line: a }),
        text: t,
        line_num: op,
        index: 0,
        mode: None,
        block_start: None,
        expected_hash: None,
    };
    let sw = swap_edits(b, 1, body, (op + 1) as usize);
    let es = seq![ins] + sw;
    let n = ents.len();
    let nn = body.len() as int;
    let st0 = initial_state(lines, n);
    // The insert.
    assert(es[0] == ins);
    assert(!st0.counts.contains_key(a));
    assert(delta_fits(st0.shift, a + 1, 1));
    let sh1 = add_delta(st0.shift, a + 1, 1);
    let st1 = ApplyState {
        lines: lines.insert(a as int, t),
        counts: st0.counts.insert(a, 1),
        shift: sh1,
        ..st0
    };
    assert(apply_step(es, 0, st0, ents, ext) == Flow::Next(st1, 1));
    lemma_apply_from_unfold(es, 0, st0, ents, ext);
    // The swap.
    assert forall|k: int| 0 <= k < sw.len() implies es[1 + k] == #[trigger] sw[k] by {}
    assert(swap_line(es[1]) == Some(b));
    assert forall|k: int| 1 <= k < 1 + nn implies swap_line(#[trigger] es[k]) == Some(b) by {
        assert(es[k] == sw[k - 1]);
    }
    lemma_swap_run_end_at(es, 1, b, 1 + nn);
    assert(es[1 + nn] == sw[nn]);
    lemma_dels_end_at(es, 1 + nn, Some((op + 1) as usize), 2 + nn);
    assert forall|k: int| 1 + nn <= k < 2 + nn implies hash_of(#[trigger] es[k]) is None by {
        assert(es[k] == sw[k - 1]);
    }
    lemma_no_stale(es, 1 + nn, 2 + nn, ents);
    assert(texts_of(es, 1, 1 + nn) =~= body) by {
        assert forall|k: int| 0 <= k < nn implies texts_of(es, 1, 1 + nn)[k] == body[k] by {
            assert(es[1 + k] == sw[k]);
        }
    }
    assert(sh1[b - 1] == 1);
    let raw = b as int;
    let l1 = lines.insert(a as int, t);
    let w = boundary_warnings(body, b as int, b as int, entry_contents(ents));
    let st2 = ApplyState {
        lines: l1.take(raw) + body + l1.skip(raw + 1),
        deleted: mark_deleted(st1.deleted, b - 1, b as int),
        warnings: st1.warnings + w,
        ..st1
    };
    let f = apply_step(es, 1, st1, ents, ext);
    if (b as int) < n {
        assert forall|k: int| delta_start(sh1.len() as int, b + 1) <= k < sh1.len() implies isize::MIN <= #[trigger] sh1[k] + (nn - 1) <= isize::MAX by {}
        assert(f == Flow::Next(ApplyState { shift: add_delta(sh1, b + 1, nn - 1), ..st2 }, 2 + nn));
    } else {
        assert(f == Flow::Next(st2, 2 + nn));
    }
    lemma_apply_from_unfold(es, 1, st1, ents, ext);
    assert(l1.take(raw) + body + l1.skip(raw + 1) =~= lines.take(a as int) + seq![t] + lines.subrange(a as int, b - 1) + body
        + lines.skip(b as int));
}

/// The outcome `o` is what happened: the final lines and the warnings, or
/// the error (a stale anchor naming file `path`).
pub open spec fn outcome_is(o: Outcome, r: Result<Vec<String>, HashlineError>, lines: Seq<Seq<char>>, path: Seq<char>) -> bool {
    match o {
        Outcome::Done(st) => r is Ok && lines == st.lines && strings_view(r->Ok_0@) == st.warnings,
        Outcome::Fail(e) => r is Err && error_is(r->Err_0, e, path),
        Outcome::Panic => true,
    }
}

/// The sizes the applier counts in `isize`.
pub open spec fn apply_sizes_ok(edits: Seq<Edit>, entries: Seq<LineEntry>) -> bool {
    &&& edits.len() <= isize::MAX
    &&& entries.len() <= isize::MAX
    &&& payloads_fit(edits_view(edits))
}

/// Applies `edits` to `lines` against snapshot `entries` of a file with
/// extension `ext`, naming the file `path` in stale-anchor errors (see
/// [`apply_outcome`]); returns the boundary warnings of the `SWAP`s.
pub fn apply_edits_with(
    lines: &mut Vec<String>,
    entries: &[LineEntry],
    ext: &str,
    path: &str,
    edits: &[Edit],
) -> (r: Result<Vec<String>, HashlineError>)
    requires
        apply_sizes_ok(edits@, entries@),
        !(apply_outcome(edits_view(edits@), strings_view(old(lines)@), entries@, ext@) is Panic),
    ensures
        outcome_is(
            apply_outcome(edits_view(edits@), strings_view(old(lines)@), entries@, ext@),
            r,
            strings_view(final(lines)@),
            path@,
        ),
{
    let ghost es = edits_view(edits@);
    let ghost total = apply_outcome(es, strings_view(lines@), entries@, ext@);
    let n = entries.len();
    let mut deleted: Vec<bool> = Vec::new();
    let mut shift: Vec<isize> = Vec::new();
    let mut k: usize = 0;
    while k < n
        invariant
            k <= n,
            n == entries@.len(),
            deleted@ == Seq::new(k as nat, |m: int| false),
            shift@.len() == k,
            forall|m: int| 0 <= m < k ==> #[trigger] shift@[m] == 0,
        decreases n - k,
    {
        deleted.push(false);
        shift.push(0);
        assert(deleted@ =~= Seq::new((k + 1) as nat, |m: int| false));
        k = k + 1;
    }
    assert(ints_of(shift@) =~= Seq::new(n as nat, |m: int| 0int));
    let mut t = Tracker { deleted, shift, counts: HashMap::new(), warnings: Vec::new() };
    assert(state_of(lines@, t).warnings =~= Seq::<Seq<char>>::empty());
    assert(state_of(lines@, t) == initial_state(strings_view(lines@), n as nat));
    let mut i: usize = 0;
    while i < edits.len()
        invariant
            i <= edits@.len(),
            es == edits_view(edits@),
            apply_sizes_ok(edits@, entries@),
            tracker_ok(t, entries@.len(), i as int),
            apply_from(es, i as int, state_of(lines@, t), entries@, ext@) == total,
            total == apply_outcome(edits_view(edits@), strings_view(old(lines)@), entries@, ext@),
            !(total is Panic),
        decreases edits@.len() - i,
    {
        proof {
            assert(es[i as int] == edits@[i as int]@);
        }
        let ghost st = state_of(lines@, t);
        proof {
            lemma_apply_from_unfold(es, i as int, st, entries@, ext@);
        }
        let r = if swap_line_of(&edits[i]).is_some() {
            let r = do_swap(lines, &mut t, edits, i, entries, path);
            assert(flow_is(apply_step(es, i as int, st, entries@, ext@), r, state_of(lines@, t), path@));
            r
        } else if delete_parts(&edits[i]).is_some() {
            let r = do_delete(lines, &mut t, edits, i, entries, path);
            assert(flow_is(apply_step(es, i as int, st, entries@, ext@), r, state_of(lines@, t), path@));
            r
        } else if let Edit::Insert { .. } = &edits[i] {
            let r = do_insert(lines, &mut t, edits, i, entries);
            assert(flow_is(apply_step(es, i as int, st, entries@, ext@), r, state_of(lines@, t), path@));
            r
        } else {
            let r = do_block(lines, &mut t, edits, i, entries, ext, path);
            assert(flow_is(apply_step(es, i as int, st, entries@, ext@), r, state_of(lines@, t), path@));
            r
        };
        assert(flow_is(apply_step(es, i as int, st, entries@, ext@), r, state_of(lines@, t), path@));
        match r {
            Ok(j) => {
                i = j;
            },
            Err(e) => {
                return Err(e);
            },
        }
    }
    Ok(t.warnings)
}

/// Applies `edits` to `lines` against snapshot `entries` of the file at
/// `path` (see [`apply_outcome`]); the block rules follow the path's
/// extension, and stale-anchor errors name the path. Returns the boundary
/// warnings of the `SWAP`s. When an edit is refused, `lines` is left as it
/// was.
pub fn apply_edits(lines: &mut Vec<String>, entries: &[LineEntry], path: &str, edits: &[Edit]) -> (r: Result<
    Vec<String>,
    HashlineError,
>)
    requires
        apply_sizes_ok(edits@, entries@),
        simple_path(path@) ==> !(apply_outcome(edits_view(edits@), strings_view(old(lines)@), entries@, file_extension(path@)) is Panic),
        !simple_path(path@) ==> forall|ext: Seq<char>| !(#[trigger] apply_outcome(edits_view(edits@), strings_view(old(lines)@), entries@, ext) is Panic),
    ensures
        exists|ext: Seq<char>|
            #![trigger apply_outcome(edits_view(edits@), strings_view(old(lines)@), entries@, ext)]
            (simple_path(path@) ==> ext == file_extension(path@)) && outcome_is(
                apply_outcome(edits_view(edits@), strings_view(old(lines)@), entries@, ext),
                r,
                strings_view(final(lines)@),
                path@,
            ),
        simple_path(path@) ==> outcome_is(
            apply_outcome(edits_view(edits@), strings_view(old(lines)@), entries@, file_extension(path@)),
            r,
            strings_view(final(lines)@),
            path@,
        ),
        r is Err ==> final(lines)@ == old(lines)@,
{
    let ext = str_extension(path);
    let mut work = copy_strings(lines);
    assert(!(apply_outcome(edits_view(edits@), strings_view(work@), entries@, ext@) is Panic));
    let r = apply_edits_with(&mut work, entries, ext.as_str(), path, edits);
    if r.is_ok() {
        *lines = work;
    }
    assert(outcome_is(
        apply_outcome(edits_view(edits@), strings_view(old(lines)@), entries@, ext@),
        r,
        strings_view(lines@),
        path@,
    ));
    r
}

// ---------------------------------------------------------------------------
// Dry-run diff
// ---------------------------------------------------------------------------

/// The length of a longest common subsequence of `l[..i]` and `r[..j]`.
pub open spec fn lcs_len(l: Seq<Seq<char>>, r: Seq<Seq<char>>, i: nat, j: nat) -> nat
    decreases i + j,
{
    if i == 0 || j == 0 {
        0
    } else if l[i - 1] == r[j - 1] {
        lcs_len(l, r, (i - 1) as nat, (j - 1) as nat) + 1
    } else {
        let a = lcs_len(l, r, (i - 1) as nat, j);
        let b = lcs_len(l, r, i, (j - 1) as nat);
        if a >= b { a } else { b }
    }
}

/// The changed lines turning `l[..i]` into `r[..j]` along a longest common
/// subsequence, in order: `+` and the line for an added line, `-` and the
/// line for a removed one; an addition is preferred where both keep the
/// common subsequence longest.
pub open spec fn diff_ops(l: Seq<Seq<char>>, r: Seq<Seq<char>>, i: nat, j: nat) -> Seq<Seq<char>>
    decreases i + j,
{
    if i == 0 && j == 0 {
        Seq::empty()
    } else if i > 0 && j > 0 && l[i - 1] == r[j - 1] {
        diff_ops(l, r, (i - 1) as nat, (j - 1) as nat)
    } else if j > 0 && (i == 0 || lcs_len(l, r, i, (j - 1) as nat) >= lcs_len(l, r, (i - 1) as nat, j)) {
        diff_ops(l, r, i, (j - 1) as nat).push("+"@ + r[j - 1])
    } else {
        diff_ops(l, r, (i - 1) as nat, j).push("-"@ + l[i - 1])
    }
}

/// The dry-run diff of `original` against `final_text`: `(no changes)`
/// when their lines agree, else a hunk header and the changed lines.
pub open spec fn diff_spec(original: Seq<char>, final_text: Seq<char>) -> Seq<Seq<char>> {
    let l = if original.len() == 0 { Seq::empty() } else { split_seq(original, '\n') };
    let r = if final_text.len() == 0 { Seq::empty() } else { split_seq(final_text, '\n') };
    if l == r {
        seq!["(no changes)"@]
    } else {
        seq!["@@ -- ++ @@"@] + diff_ops(l, r, l.len(), r.len())
    }
}

proof fn lemma_lcs_le(l: Seq<Seq<char>>, r: Seq<Seq<char>>, i: nat, j: nat)
    ensures
        lcs_len(l, r, i, j) <= j,
        lcs_len(l, r, i, j) <= i,
    decreases i + j,
{
    if i > 0 && j > 0 {
        lemma_lcs_le(l, r, (i - 1) as nat, (j - 1) as nat);
        lemma_lcs_le(l, r, (i - 1) as nat, j);
        lemma_lcs_le(l, r, i, (j - 1) as nat);
    }
}


/// How many of `ops` start with `tag`.
pub open spec fn tag_count(ops: Seq<Seq<char>>, tag: char) -> nat
    decreases ops.len(),
{
    if ops.len() == 0 {
        0
    } else {
        tag_count(ops.drop_last(), tag) + if ops.last().len() > 0 && ops.last()[0] == tag { 1nat } else { 0nat }
    }
}

/// The diff of `l[..i]` against `r[..j]` removes exactly the lines outside
/// a longest common subsequence and adds exactly the lines of `r` outside
/// it.
pub proof fn law_diff_counts_follow_lcs(l: Seq<Seq<char>>, r: Seq<Seq<char>>, i: nat, j: nat)
    ensures
        tag_count(diff_ops(l, r, i, j), '-') == i - lcs_len(l, r, i, j),
        tag_count(diff_ops(l, r, i, j), '+') == j - lcs_len(l, r, i, j),
    decreases i + j,
{
    lemma_lcs_le(l, r, i, j);
    if i == 0 && j == 0 {
    } else if i > 0 && j > 0 && l[i - 1] == r[j - 1] {
        law_diff_counts_follow_lcs(l, r, (i - 1) as nat, (j - 1) as nat);
    } else if j > 0 && (i == 0 || lcs_len(l, r, i, (j - 1) as nat) >= lcs_len(l, r, (i - 1) as nat, j)) {
        law_diff_counts_follow_lcs(l, r, i, (j - 1) as nat);
        lemma_lcs_le(l, r, i, (j - 1) as nat);
        let d = diff_ops(l, r, i, (j - 1) as nat);
        let x = "+"@ + r[j - 1];
        reveal_strlit("+");
        assert(d.push(x).drop_last() =~= d);
        assert(x[0] == '+');
    } else {
        law_diff_counts_follow_lcs(l, r, (i - 1) as nat, j);
        lemma_lcs_le(l, r, (i - 1) as nat, j);
        let d = diff_ops(l, r, (i - 1) as nat, j);
        let x = "-"@ + l[i - 1];
        reveal_strlit("-");
        assert(d.push(x).drop_last() =~= d);
        assert(x[0] == '-');
    }
}

/// The lines of a diff side: none for empty text, else the pieces between
/// LFs.
fn diff_side(text: &str) -> (r: Vec<Vec<char>>)
    ensures
        lines_view(r@) == (if text@.len() == 0 { Seq::<Seq<char>>::empty() } else { split_seq(text@, '\n') }),
{
    let cs = chars_of(text);
    if cs.len() == 0 {
        let r: Vec<Vec<char>> = Vec::new();
        assert(lines_view(r@) =~= Seq::<Seq<char>>::empty());
        return r;
    }
    split_chars(cs.as_slice(), '\n')
}

/// The table of common-subsequence lengths, one row per prefix of `left`.
fn lcs_table(left: &Vec<Vec<char>>, right: &Vec<Vec<char>>) -> (dp: Vec<Vec<usize>>)
    ensures
        dp@.len() == left@.len() + 1,
        forall|i: int| 0 <= i < dp@.len() ==> (#[trigger] dp@[i])@.len() == right@.len() + 1,
        forall|i: int, j: int|
            0 <= i < dp@.len() && 0 <= j <= right@.len() ==> #[trigger] dp@[i]@[j] == lcs_len(
                lines_view(left@),
                lines_view(right@),
                i as nat,
                j as nat,
            ),
{
    let ghost l = lines_view(left@);
    let ghost r = lines_view(right@);
    let m = left.len();
    let n = right.len();
    let mut dp: Vec<Vec<usize>> = Vec::new();
    let mut row0: Vec<usize> = Vec::new();
    row0.push(0);
    let mut j: usize = 0;
    while j < n
        invariant
            j <= n,
            n == right@.len(),
            row0@.len() == j + 1,
            forall|k: int| 0 <= k <= j ==> #[trigger] row0@[k] == 0,
        decreases n - j,
    {
        row0.push(0);
        j = j + 1;
    }
    dp.push(row0);
    assert forall|a: int, b: int| 0 <= a < dp@.len() && 0 <= b <= n implies #[trigger] dp@[a]@[b] == lcs_len(
        l,
        r,
        a as nat,
        b as nat,
    ) by {
        assert(a == 0);
    }
    let mut i: usize = 0;
    while i < m
        invariant
            i <= m,
            m == left@.len(),
            n == right@.len(),
            l == lines_view(left@),
            r == lines_view(right@),
            dp@.len() == i + 1,
            forall|a: int| 0 <= a < dp@.len() ==> (#[trigger] dp@[a])@.len() == n + 1,
            forall|a: int, b: int|
                0 <= a < dp@.len() && 0 <= b <= n ==> #[trigger] dp@[a]@[b] == lcs_len(l, r, a as nat, b as nat),
        decreases m - i,
    {
        let mut row: Vec<usize> = Vec::new();
        row.push(0);
        let mut j: usize = 0;
        while j < n
            invariant
                i < m,
                j <= n,
                m == left@.len(),
                n == right@.len(),
                l == lines_view(left@),
                r == lines_view(right@),
                dp@.len() == i + 1,
                forall|a: int| 0 <= a < dp@.len() ==> (#[trigger] dp@[a])@.len() == n + 1,
                forall|a: int, b: int|
                    0 <= a < dp@.len() && 0 <= b <= n ==> #[trigger] dp@[a]@[b] == lcs_len(l, r, a as nat, b as nat),
                row@.len() == j + 1,
                forall|b: int| 0 <= b <= j ==> #[trigger] row@[b] == lcs_len(l, r, (i + 1) as nat, b as nat),
            decreases n - j,
        {
            let prev = &dp[i];
            proof {
                lemma_lcs_le(l, r, i as nat, j as nat);
                assert(prev@[j as int] == lcs_len(l, r, i as nat, j as nat));
                assert(prev@[j + 1] == lcs_len(l, r, i as nat, (j + 1) as nat));
                assert(row@[j as int] == lcs_len(l, r, (i + 1) as nat, j as nat));
                assert(l[i as int] == left@[i as int]@);
                assert(r[j as int] == right@[j as int]@);
            }
            let v = if chars_equal(left[i].as_slice(), right[j].as_slice()) {
                prev[j] + 1
            } else {
                let a = prev[j + 1];
                let b = row[j];
                if a >= b { a } else { b }
            };
            row.push(v);
            j = j + 1;
        }
        dp.push(row);
        i = i + 1;
    }
    dp
}

/// A diff line: `tag` and then `line`.
fn tagged(tag: &str, line: &Vec<char>) -> (s: String)
    ensures
        s@ == tag@ + line@,
{
    let mut s = String::new();
    push_str(&mut s, tag);
    push_chars(&mut s, line.as_slice());
    s
}

/// The dry-run diff of `original` against `final_text` (see [`diff_spec`]).
pub fn format_diff(original: &str, final_text: &str) -> (out: Vec<String>)
    ensures
        strings_view(out@) == diff_spec(original@, final_text@),
{
    let left = diff_side(original);
    let right = diff_side(final_text);
    let ghost l = lines_view(left@);
    let ghost r = lines_view(right@);
    let mut out: Vec<String> = Vec::new();
    if line_ranges_equal(left.as_slice(), 0, left.len(), right.as_slice(), 0, right.len()) {
        assert(l.subrange(0, l.len() as int) =~= l);
        assert(r.subrange(0, r.len() as int) =~= r);
        let mut m = String::new();
        push_str(&mut m, "(no changes)");
        out.push(m);
        assert(strings_view(out@) =~= seq!["(no changes)"@]);
        return out;
    }
    assert(l.subrange(0, l.len() as int) =~= l);
    assert(r.subrange(0, r.len() as int) =~= r);
    let dp = lcs_table(&left, &right);
    let mut ops: Vec<String> = Vec::new();
    let mut i = left.len();
    let mut j = right.len();
    assert(strings_view(ops@).reverse() =~= Seq::<Seq<char>>::empty());
    assert(diff_ops(l, r, l.len(), r.len()) =~= diff_ops(l, r, i as nat, j as nat) + strings_view(ops@).reverse());
    while i > 0 || j > 0
        invariant
            i <= left@.len(),
            j <= right@.len(),
            l == lines_view(left@),
            r == lines_view(right@),
            dp@.len() == left@.len() + 1,
            forall|a: int| 0 <= a < dp@.len() ==> (#[trigger] dp@[a])@.len() == right@.len() + 1,
            forall|a: int, b: int|
                0 <= a < dp@.len() && 0 <= b <= right@.len() ==> #[trigger] dp@[a]@[b] == lcs_len(
                    l,
                    r,
                    a as nat,
                    b as nat,
                ),
            diff_ops(l, r, l.len(), r.len()) == diff_ops(l, r, i as nat, j as nat) + strings_view(ops@).reverse(),
        decreases i + j,
    {
        let ghost before = strings_view(ops@);
        if i > 0 && j > 0 && chars_equal(left[i - 1].as_slice(), right[j - 1].as_slice()) {
            proof {
                assert(l[i - 1] == left@[i - 1]@ && r[j - 1] == right@[j - 1]@);
            }
            i = i - 1;
            j = j - 1;
        } else if j > 0 && (i == 0 || dp[i][j - 1] >= dp[i - 1][j]) {
            proof {
                assert(r[j - 1] == right@[j - 1]@);
                if i > 0 {
                    assert(l[i - 1] == left@[i - 1]@);
                }
            }
            ops.push(tagged("+", &right[j - 1]));
            proof {
                reveal_strlit("+");
                assert(strings_view(ops@) =~= before.push("+"@ + r[j - 1]));
                assert(strings_view(ops@).reverse() =~= seq!["+"@ + r[j - 1]] + before.reverse());
                assert(diff_ops(l, r, i as nat, j as nat) == diff_ops(l, r, i as nat, (j - 1) as nat).push(
                    "+"@ + r[j - 1],
                ));
                assert(diff_ops(l, r, i as nat, (j - 1) as nat).push("+"@ + r[j - 1]) + before.reverse()
                    =~= diff_ops(l, r, i as nat, (j - 1) as nat) + strings_view(ops@).reverse());
            }
            j = j - 1;
        } else {
            proof {
                assert(l[i - 1] == left@[i - 1]@);
                if j > 0 {
                    assert(r[j - 1] == right@[j - 1]@);
                }
            }
            ops.push(tagged("-", &left[i - 1]));
            proof {
                reveal_strlit("-");
                assert(strings_view(ops@) =~= before.push("-"@ + l[i - 1]));
                assert(strings_view(ops@).reverse() =~= seq!["-"@ + l[i - 1]] + before.reverse());
                assert(diff_ops(l, r, i as nat, j as nat) == diff_ops(l, r, (i - 1) as nat, j as nat).push(
                    "-"@ + l[i - 1],
                ));
                assert(diff_ops(l, r, (i - 1) as nat, j as nat).push("-"@ + l[i - 1]) + before.reverse()
                    =~= diff_ops(l, r, (i - 1) as nat, j as nat) + strings_view(ops@).reverse());
            }
            i = i - 1;
        }
    }
    let mut head = String::new();
    push_str(&mut head, "@@ -- ++ @@");
    out.push(head);
    let ghost ov = strings_view(ops@);
    assert(diff_ops(l, r, 0, 0) =~= Seq::<Seq<char>>::empty());
    assert(diff_ops(l, r, l.len(), r.len()) =~= ov.reverse());
    let mut k = ops.len();
    assert(strings_view(out@) =~= seq!["@@ -- ++ @@"@] + ov.reverse().take(0));
    while k > 0
        invariant
            k <= ops@.len(),
            ov == strings_view(ops@),
            strings_view(out@) == seq!["@@ -- ++ @@"@] + ov.reverse().take(ops@.len() - k),
        decreases k,
    {
        let ghost before = strings_view(out@);
        out.push(ops[k - 1].clone());
        proof {
            assert(ov.reverse()[ops@.len() - k] == ov[k - 1]);
            assert(ov.reverse().take(ops@.len() - k + 1) =~= ov.reverse().take(ops@.len() - k).push(ov[k - 1]));
            assert(strings_view(out@) =~= before.push(ov[k - 1]));
        }
        k = k - 1;
    }
    assert(ov.reverse().take(ops@.len() as int) =~= ov.reverse());
    out
}

} // verus!
