//! Applying a unified diff to a document's lines: parsing the diff into
//! hunks, then placing each hunk at its (shifted) position, or where its
//! context is found nearby, or reporting it as a conflict.

use vstd::prelude::*;
use crate::text::{chars_of, string_of, owned, str_eq, trim, is_whitespace, is_ws, join_seq, push_str, push_char, join_lines, lines_view, push_chars};
use crate::ascii::{sub_chars, trim_chars, parse_usize, parse_usize_spec, find_char, find_char_from, decimal, push_decimal, push_decimal_wide};
use crate::block_scan::{starts_with, starts_with_chars};
use crate::mutation::{content_lines_spec, split_content_lines, str_lines};
use crate::apply::strings_view;
use crate::document::{Document, NewlineStyle, sep_chars};
use crate::error::HashlineError;

verus! {

/// What applying a diff did.
#[derive(Clone, Debug)]
pub struct DiffReceipt {
    pub applied: bool,
    /// `(old line, new line)` for each line a hunk wrote, 1-based.
    pub anchor_changes: Vec<(usize, usize)>,
    pub conflicts: Vec<Conflict>,
}

/// A hunk that could not be applied.
#[derive(Clone, Debug)]
pub struct Conflict {
    /// The hunk's 1-based position in the diff.
    pub hunk_line: usize,
    /// What went wrong.
    pub reason: String,
}

/// One hunk of a unified diff: its header numbers and its raw lines (with
/// their `+`, `-` or space prefixes).
#[derive(Clone, Debug)]
pub struct Hunk {
    pub old_start: usize,
    pub old_count: usize,
    pub new_start: usize,
    pub new_count: usize,
    pub lines: Vec<String>,
}

/// The lines of `s` as `str::lines` yields them.
pub fn str_lines_of(s: &str) -> (r: Vec<String>)
    ensures
        strings_view(r@) == str_lines(s@),
{
    let mut r: Vec<String> = Vec::new();
    if s.as_bytes().len() == 0 {
        assert(s@.len() == 0);
        assert(strings_view(r@) =~= str_lines(s@));
        return r;
    }
    proof {
        if s@.len() == 0 {
            assert(vstd::utf8::encode_utf8(s@) =~= Seq::<u8>::empty());
        }
    }
    let parts = split_content_lines(s);
    let mut i: usize = 0;
    while i < parts.len()
        invariant
            i <= parts@.len(),
            s@.len() > 0,
            parts@.len() == content_lines_spec(s@).len(),
            forall|k: int| 0 <= k < parts@.len() ==> (#[trigger] parts@[k])@ == content_lines_spec(s@)[k],
            strings_view(r@) == content_lines_spec(s@).take(i as int),
        decreases parts@.len() - i,
    {
        let ghost before = r@;
        let x = owned(&*parts[i]);
        r.push(x);
        proof {
            assert(strings_view(r@) =~= strings_view(before).push(x@));
            assert(content_lines_spec(s@).take(i + 1) =~= content_lines_spec(s@).take(i as int).push(x@));
        }
        i = i + 1;
    }
    assert(content_lines_spec(s@).take(i as int) =~= content_lines_spec(s@));
    r
}

/// The first index at or after `i` that is not whitespace (or the end).
pub open spec fn skip_ws(s: Seq<char>, i: int) -> int
    decreases s.len() - i,
{
    if i < 0 || i >= s.len() {
        s.len() as int
    } else if is_ws(s[i]) {
        skip_ws(s, i + 1)
    } else {
        i
    }
}

/// The first index at or after `i` that is whitespace (or the end).
pub open spec fn token_end(s: Seq<char>, i: int) -> int
    decreases s.len() - i,
{
    if i < 0 || i >= s.len() {
        s.len() as int
    } else if is_ws(s[i]) {
        i
    } else {
        token_end(s, i + 1)
    }
}

/// The first two whitespace-separated words of `s`, if it has two.
pub open spec fn two_words(s: Seq<char>) -> Option<(Seq<char>, Seq<char>)> {
    let a1 = skip_ws(s, 0);
    let b1 = token_end(s, a1);
    let a2 = skip_ws(s, b1);
    let b2 = token_end(s, a2);
    if a1 >= s.len() || a2 >= s.len() {
        None
    } else {
        Some((s.subrange(a1, b1), s.subrange(a2, b2)))
    }
}

/// `-start,count`, `+start,count`, `-start` or `+start` (count one).
pub open spec fn range_pair_spec(s: Seq<char>) -> Option<(usize, usize)> {
    if s.len() == 0 || !(s[0] == '-' || s[0] == '+') {
        None
    } else {
        let t = s.skip(1);
        let k = find_char_from(t, ',', 0);
        if k >= 0 {
            match (parse_usize_spec(t.take(k)), parse_usize_spec(t.skip(k + 1))) {
                (Some(a), Some(b)) => Some((a, b)),
                _ => None,
            }
        } else {
            match parse_usize_spec(t) {
                Some(a) => Some((a, 1usize)),
                None => None,
            }
        }
    }
}

/// A hunk header `@@ -a,b +c,d @@`, read as `(a, b, c, d)`.
pub open spec fn hunk_header_spec(line: Seq<char>) -> Option<(usize, usize, usize, usize)> {
    if line.len() < 4 || !starts_with(line, "@@"@) || line.subrange(line.len() - 2, line.len() as int)
        != "@@"@ {
        None
    } else {
        match two_words(trim(line.subrange(2, line.len() - 2))) {
            Some((o, n)) => match (range_pair_spec(o), range_pair_spec(n)) {
                (Some((os, oc)), Some((ns, nc))) => Some((os, oc, ns, nc)),
                _ => None,
            },
            None => None,
        }
    }
}

/// The first index at or after `i` of `v` that is (or, with `want_ws`
/// false, is not) whitespace, else the end.
fn scan_ws(v: &[char], i: usize, want_ws: bool) -> (r: usize)
    requires
        i <= v@.len(),
    ensures
        r == (if want_ws { token_end(v@, i as int) } else { skip_ws(v@, i as int) }),
        i <= r <= v@.len(),
{
    let mut k: usize = i;
    while k < v.len()
        invariant
            i <= k <= v@.len(),
            (if want_ws { token_end(v@, i as int) } else { skip_ws(v@, i as int) }) == (if want_ws {
                token_end(v@, k as int)
            } else {
                skip_ws(v@, k as int)
            }),
        decreases v@.len() - k,
    {
        if is_whitespace(v[k]) == want_ws {
            return k;
        }
        k = k + 1;
    }
    k
}

/// See [`range_pair_spec`].
fn parse_range_pair(s: &[char]) -> (r: Option<(usize, usize)>)
    ensures
        r == range_pair_spec(s@),
{
    if s.len() == 0 || !(s[0] == '-' || s[0] == '+') {
        return None;
    }
    let t = sub_chars(s, 1, s.len());
    assert(t@ =~= s@.skip(1));
    match find_char(t.as_slice(), ',') {
        Some(k) => {
            let a = sub_chars(t.as_slice(), 0, k);
            let b = sub_chars(t.as_slice(), k + 1, t.len());
            assert(a@ =~= t@.take(k as int));
            assert(b@ =~= t@.skip(k + 1));
            match (parse_usize(a.as_slice()), parse_usize(b.as_slice())) {
                (Some(x), Some(y)) => Some((x, y)),
                _ => None,
            }
        },
        None => match parse_usize(t.as_slice()) {
            Some(x) => Some((x, 1)),
            None => None,
        },
    }
}

/// See [`hunk_header_spec`].
fn parse_hunk_header(line: &[char]) -> (r: Option<(usize, usize, usize, usize)>)
    ensures
        r == hunk_header_spec(line@),
{
    let n = line.len();
    if n < 4 || line[0] != '@' || line[1] != '@' || line[n - 2] != '@' || line[n - 1] != '@' {
        proof {
            if n >= 4 && starts_with(line@, "@@"@) && line@.subrange(n - 2, n as int) == "@@"@ {
                reveal_strlit("@@");
                assert(line@.take(2)[0] == line@[0]);
                assert(line@.take(2)[1] == line@[1]);
                assert(line@.subrange(n - 2, n as int)[0] == line@[n - 2]);
                assert(line@.subrange(n - 2, n as int)[1] == line@[n - 1]);
            }
        }
        return None;
    }
    proof {
        reveal_strlit("@@");
        assert(line@.take(2) =~= "@@"@);
        assert(line@.subrange(n - 2, n as int) =~= "@@"@);
    }
    let inner = sub_chars(line, 2, n - 2);
    let rest = trim_chars(inner.as_slice());
    let a1 = scan_ws(rest.as_slice(), 0, false);
    let b1 = scan_ws(rest.as_slice(), a1, true);
    let a2 = scan_ws(rest.as_slice(), b1, false);
    let b2 = scan_ws(rest.as_slice(), a2, true);
    if a1 >= rest.len() || a2 >= rest.len() {
        return None;
    }
    let o = sub_chars(rest.as_slice(), a1, b1);
    let nw = sub_chars(rest.as_slice(), a2, b2);
    match (parse_range_pair(o.as_slice()), parse_range_pair(nw.as_slice())) {
        (Some((os, oc)), Some((ns, nc))) => Some((os, oc, ns, nc)),
        _ => None,
    }
}

/// A hunk as numbers and line texts.
pub type HunkView = (int, int, int, int, Seq<Seq<char>>);

/// The parse state after some lines of a diff: old and new file names,
/// finished hunks, the current hunk's lines and header, and whether a
/// hunk is open.
pub type ParseState = (Seq<char>, Seq<char>, Seq<HunkView>, Seq<Seq<char>>, (int, int, int, int), bool);

/// The state before any line.
pub open spec fn parse_start() -> ParseState {
    (Seq::empty(), Seq::empty(), Seq::empty(), Seq::empty(), (0, 0, 0, 0), false)
}

/// The hunks with the open one closed.
pub open spec fn close_hunk(st: ParseState) -> Seq<HunkView> {
    let (a, b, c, d) = st.4;
    if st.5 {
        st.2.push((a, b, c, d, st.3))
    } else {
        st.2
    }
}

/// One step of the diff parse on line `line`: `Err` with nothing when the
/// line is a malformed hunk header. `--- ` and `+++ ` lines name the files
/// (the first of each), `@@` lines start hunks, and inside a hunk every
/// other line is kept, except blank lines before its first line.
pub open spec fn parse_step(st: ParseState, line: Seq<char>) -> Result<ParseState, ()> {
    if starts_with(line, "--- "@) && st.0.len() == 0 {
        Ok((trim(line.skip(4)), st.1, st.2, st.3, st.4, st.5))
    } else if starts_with(line, "+++ "@) && st.1.len() == 0 {
        Ok((st.0, trim(line.skip(4)), st.2, st.3, st.4, st.5))
    } else if starts_with(line, "@@"@) {
        match hunk_header_spec(line) {
            Some((a, b, c, d)) => Ok((st.0, st.1, close_hunk(st), Seq::empty(), (a as int, b as int, c as int, d as int), true)),
            None => Err(()),
        }
    } else if st.5 && (line.len() > 0 || st.3.len() > 0) {
        Ok((st.0, st.1, st.2, st.3.push(line), st.4, st.5))
    } else {
        Ok(st)
    }
}

/// The parse after the first `k` lines, or the 1-based number of the
/// first malformed hunk header.
pub open spec fn parse_lines(lines: Seq<Seq<char>>, k: int) -> Result<ParseState, int>
    decreases k,
{
    if k <= 0 {
        Ok(parse_start())
    } else {
        match parse_lines(lines, k - 1) {
            Ok(st) => match parse_step(st, lines[k - 1]) {
                Ok(st2) => Ok(st2),
                Err(_) => Err(k),
            },
            Err(e) => Err(e),
        }
    }
}

/// The diff read as `(old file, new file, hunks)`, or the line of the first
/// malformed hunk header.
pub open spec fn parse_diff_spec(diff: Seq<char>) -> Result<(Seq<char>, Seq<char>, Seq<HunkView>), int> {
    let lines = str_lines(diff);
    match parse_lines(lines, lines.len() as int) {
        Ok(st) => Ok((st.0, st.1, close_hunk(st))),
        Err(e) => Err(e),
    }
}

proof fn lemma_parse_err_stays(lines: Seq<Seq<char>>, k: int, m: int)
    requires
        0 <= k <= m,
        parse_lines(lines, k) is Err,
    ensures
        parse_lines(lines, m) == parse_lines(lines, k),
    decreases m - k,
{
    if k < m {
        lemma_parse_err_stays(lines, k, m - 1);
    }
}

/// A hunk's numbers and line texts.
pub open spec fn hunk_view(h: Hunk) -> HunkView {
    (h.old_start as int, h.old_count as int, h.new_start as int, h.new_count as int, strings_view(h.lines@))
}

/// The hunks' views.
pub open spec fn hunks_view(v: Seq<Hunk>) -> Seq<HunkView> {
    Seq::new(v.len(), |i: int| hunk_view(v[i]))
}

/// Parses a unified diff into `(old file, new file, hunks)`; a malformed
/// hunk header is `DiffHunkMismatch` with its 1-based line.
pub fn parse_unified_diff(diff: &str) -> (r: Result<(String, String, Vec<Hunk>), HashlineError>)
    ensures
        match parse_diff_spec(diff@) {
            Ok((o, n, hs)) => r matches Ok((ro, rn, rh)) && ro@ == o && rn@ == n && hunks_view(rh@) == hs,
            Err(k) => r == Err::<(String, String, Vec<Hunk>), HashlineError>(
                HashlineError::DiffHunkMismatch { hunk_line: k as usize },
            ),
        },
{
    let lines = str_lines_of(diff);
    let ghost ls = strings_view(lines@);
    let mut old_file: Vec<char> = Vec::new();
    let mut new_file: Vec<char> = Vec::new();
    let mut hunks: Vec<Hunk> = Vec::new();
    let mut cur: Vec<String> = Vec::new();
    let mut os: usize = 0;
    let mut oc: usize = 0;
    let mut ns: usize = 0;
    let mut nc: usize = 0;
    let mut in_hunk = false;
    let mut k: usize = 0;
    proof {
        assert(strings_view(cur@) =~= Seq::<Seq<char>>::empty());
        assert(hunks_view(hunks@) =~= Seq::<HunkView>::empty());
        assert(old_file@ =~= Seq::<char>::empty());
        assert(new_file@ =~= Seq::<char>::empty());
    }
    while k < lines.len()
        invariant
            k <= lines@.len(),
            ls == strings_view(lines@),
            ls == str_lines(diff@),
            !in_hunk ==> cur@.len() == 0,
            parse_lines(ls, k as int) == Ok::<ParseState, int>(
                (
                    old_file@,
                    new_file@,
                    hunks_view(hunks@),
                    strings_view(cur@),
                    (os as int, oc as int, ns as int, nc as int),
                    in_hunk,
                ),
            ),
        decreases lines@.len() - k,
    {
        let line = chars_of(lines[k].as_str());
        let ghost st: ParseState = (
            old_file@,
            new_file@,
            hunks_view(hunks@),
            strings_view(cur@),
            (os as int, oc as int, ns as int, nc as int),
            in_hunk,
        );
        assert(line@ == ls[k as int]);
        if starts_with_chars(line.as_slice(), "--- ") && old_file.len() == 0 {
            proof {
                reveal_strlit("--- ");
            }
            let t = sub_chars(line.as_slice(), 4, line.len());
            assert(t@ =~= line@.skip(4));
            old_file = trim_chars(t.as_slice());
        } else if starts_with_chars(line.as_slice(), "+++ ") && new_file.len() == 0 {
            proof {
                reveal_strlit("+++ ");
            }
            let t = sub_chars(line.as_slice(), 4, line.len());
            assert(t@ =~= line@.skip(4));
            new_file = trim_chars(t.as_slice());
        } else if starts_with_chars(line.as_slice(), "@@") {
            match parse_hunk_header(line.as_slice()) {
                Some((a, b, c, d)) => {
                    if in_hunk {
                        let mut done: Vec<String> = Vec::new();
                        std::mem::swap(&mut done, &mut cur);
                        let ghost before = hunks@;
                        let h = Hunk { old_start: os, old_count: oc, new_start: ns, new_count: nc, lines: done };
                        hunks.push(h);
                        assert(hunks_view(hunks@) =~= hunks_view(before).push(hunk_view(h)));
                    }
                    os = a;
                    oc = b;
                    ns = c;
                    nc = d;
                    in_hunk = true;
                    assert(strings_view(cur@) =~= Seq::<Seq<char>>::empty());
                },
                None => {
                    proof {
                        assert(parse_lines(ls, k + 1) == Err::<ParseState, int>(k + 1));
                        lemma_parse_err_stays(ls, k + 1, ls.len() as int);
                    }
                    return Err(HashlineError::DiffHunkMismatch { hunk_line: k + 1 });
                },
            }
        } else if in_hunk && (line.len() > 0 || cur.len() > 0) {
            let ghost before = cur@;
            let x = string_of(line.as_slice());
            cur.push(x);
            assert(strings_view(cur@) =~= strings_view(before).push(x@));
        }
        k = k + 1;
    }
    if in_hunk {
        let ghost before = hunks@;
        let h = Hunk { old_start: os, old_count: oc, new_start: ns, new_count: nc, lines: cur };
        hunks.push(h);
        assert(hunks_view(hunks@) =~= hunks_view(before).push(hunk_view(h)));
    }
    Ok((string_of(old_file.as_slice()), string_of(new_file.as_slice()), hunks))
}


/// The old side of a hunk: its `-` and context lines, without the prefix
/// (an empty diff line counts as an empty context line).
pub open spec fn old_side(lines: Seq<Seq<char>>) -> Seq<Seq<char>>
    decreases lines.len(),
{
    if lines.len() == 0 {
        Seq::empty()
    } else {
        let p = old_side(lines.drop_last());
        let l = lines.last();
        if l.len() == 0 {
            p.push(Seq::empty())
        } else if l[0] == '-' || l[0] == ' ' {
            p.push(l.skip(1))
        } else {
            p
        }
    }
}

/// The new side of a hunk: its `+` and context lines, without the prefix.
pub open spec fn new_side(lines: Seq<Seq<char>>) -> Seq<Seq<char>>
    decreases lines.len(),
{
    if lines.len() == 0 {
        Seq::empty()
    } else {
        let p = new_side(lines.drop_last());
        let l = lines.last();
        if l.len() == 0 {
            p.push(Seq::empty())
        } else if l[0] == '+' || l[0] == ' ' {
            p.push(l.skip(1))
        } else {
            p
        }
    }
}

/// `x` clamped to the range of `usize`.
pub open spec fn clamp_usize(x: int) -> int {
    if x < 0 {
        0
    } else if x > usize::MAX {
        usize::MAX as int
    } else {
        x
    }
}

/// Whether the old side matches the file at `adj` over its first `k`
/// lines, as the check reports it: each differing line sets the answer,
/// to true only when the old line is empty and the file's is blank.
pub open spec fn match_flag(old: Seq<Seq<char>>, res: Seq<Seq<char>>, adj: int, k: int) -> bool
    decreases k,
{
    if k <= 0 {
        true
    } else {
        let prev = match_flag(old, res, adj, k - 1);
        let e = old[k - 1];
        let a = res[adj + k - 1];
        if e != a {
            e.len() == 0 && trim(a).len() == 0
        } else {
            prev
        }
    }
}

/// Two lines are equal, or equal up to surrounding whitespace.
pub open spec fn lines_close(a: Seq<char>, b: Seq<char>) -> bool {
    a == b || trim(a) == trim(b)
}

/// `needle` matches `hay` at `pos`, line by line, exactly or up to
/// surrounding whitespace.
pub open spec fn window_matches(hay: Seq<Seq<char>>, needle: Seq<Seq<char>>, pos: int) -> bool {
    forall|i: int| 0 <= i < needle.len() ==> #[trigger] line_fits(hay, needle, pos, i)
}

/// Line `i` of `needle` is present and close to line `pos + i` of `hay`.
pub open spec fn line_fits(hay: Seq<Seq<char>>, needle: Seq<Seq<char>>, pos: int, i: int) -> bool {
    pos + i < hay.len() && lines_close(hay[pos + i], needle[i])
}

/// The first position in `pos..=max` where `needle` matches.
pub open spec fn find_window_from(hay: Seq<Seq<char>>, needle: Seq<Seq<char>>, pos: int, max: int) -> Option<int>
    decreases max + 1 - pos,
{
    if pos > max || pos < 0 {
        None
    } else if window_matches(hay, needle, pos) {
        Some(pos)
    } else {
        find_window_from(hay, needle, pos + 1, max)
    }
}

/// Where the old side is found when it does not match in place: the first
/// match at or after `start` (or after the last possible start).
pub open spec fn find_context_spec(hay: Seq<Seq<char>>, needle: Seq<Seq<char>>, start: int) -> Option<int> {
    if needle.len() == 0 || start >= hay.len() {
        None
    } else {
        let max = if hay.len() >= needle.len() { hay.len() - needle.len() } else { 0 };
        let ss = if start < max { start } else { max };
        find_window_from(hay, needle, ss, max)
    }
}

/// `cnt` lines of `res` at `at` replaced by `new`.
pub open spec fn splice_lines(res: Seq<Seq<char>>, at: int, cnt: int, new: Seq<Seq<char>>) -> Seq<Seq<char>> {
    res.take(at) + new + res.skip(at + cnt)
}

/// The anchor changes for `n` lines written at `at`.
pub open spec fn changes_at(at: int, n: int) -> Seq<(int, int)> {
    Seq::new(n as nat, |i: int| (at + 1 + i, at + 1 + i))
}

/// The state while applying hunks: the lines so far, the anchor changes
/// and the conflicts (hunk number and reason).
pub type ApplyState = (Seq<Seq<char>>, Seq<(int, int)>, Seq<(int, Seq<char>)>);

/// Applies hunk `h` (number `hl`) to the state; `orig_len` is the file's
/// line count before any hunk, so that earlier hunks shift later ones.
pub open spec fn apply_hunk(st: ApplyState, orig_len: int, h: HunkView, hl: int) -> ApplyState {
    let (res, ch, cf) = st;
    let (old_start, _oc, _ns, _nc, hl_lines) = h;
    let os0 = if old_start >= 1 { old_start - 1 } else { 0 };
    let adj = clamp_usize(os0 + res.len() - orig_len);
    if adj > res.len() {
        (res, ch, cf.push((hl, "hunk start "@ + decimal((adj + 1) as nat) + " is beyond file length "@ + decimal(res.len()))))
    } else {
        let old = old_side(hl_lines);
        let new = new_side(hl_lines);
        if old.len() == 0 {
            (splice_lines(res, adj, 0, new), ch + changes_at(adj, new.len() as int), cf)
        } else {
            let avail = res.len() - adj;
            let ml = if old.len() < avail { old.len() as int } else { avail };
            if !match_flag(old, res, adj, ml) || ml < old.len() {
                match find_context_spec(res, old, adj) {
                    Some(pos) => (splice_lines(res, pos, old.len() as int, new), ch + changes_at(pos, new.len() as int), cf),
                    None => (res, ch, cf.push((hl, "hunk context does not match file content around line "@ + decimal(old_start as nat)))),
                }
            } else {
                (splice_lines(res, adj, old.len() as int, new), ch + changes_at(adj, new.len() as int), cf)
            }
        }
    }
}

/// The state after the first `k` hunks.
pub open spec fn apply_hunks_spec(lines: Seq<Seq<char>>, hunks: Seq<HunkView>, k: int) -> ApplyState
    decreases k,
{
    if k <= 0 {
        (lines, Seq::empty(), Seq::empty())
    } else {
        apply_hunk(apply_hunks_spec(lines, hunks, k - 1), lines.len() as int, hunks[k - 1], k)
    }
}

/// The anchor changes as integers.
pub open spec fn changes_view(v: Seq<(usize, usize)>) -> Seq<(int, int)> {
    Seq::new(v.len(), |i: int| (v[i].0 as int, v[i].1 as int))
}

/// The conflicts as numbers and texts.
pub open spec fn conflicts_view(v: Seq<Conflict>) -> Seq<(int, Seq<char>)> {
    Seq::new(v.len(), |i: int| (v[i].hunk_line as int, v[i].reason@))
}

/// The old and new sides of a hunk's lines.
fn hunk_sides(lines: &Vec<String>) -> (r: (Vec<String>, Vec<String>))
    ensures
        strings_view(r.0@) == old_side(strings_view(lines@)),
        strings_view(r.1@) == new_side(strings_view(lines@)),
{
    let ghost l = strings_view(lines@);
    let mut old: Vec<String> = Vec::new();
    let mut new: Vec<String> = Vec::new();
    let mut i: usize = 0;
    proof {
        assert(strings_view(old@) =~= old_side(l.take(0)));
        assert(strings_view(new@) =~= new_side(l.take(0)));
    }
    while i < lines.len()
        invariant
            i <= lines@.len(),
            l == strings_view(lines@),
            strings_view(old@) == old_side(l.take(i as int)),
            strings_view(new@) == new_side(l.take(i as int)),
        decreases lines@.len() - i,
    {
        let cs = chars_of(lines[i].as_str());
        let ghost t = l.take(i + 1);
        proof {
            assert(t.drop_last() =~= l.take(i as int));
            assert(t.last() == cs@);
        }
        let ghost ob = old@;
        let ghost nb = new@;
        if cs.len() == 0 {
            old.push(String::new());
            new.push(String::new());
            assert(strings_view(old@) =~= strings_view(ob).push(Seq::empty()));
            assert(strings_view(new@) =~= strings_view(nb).push(Seq::empty()));
        } else {
            let rest = sub_chars(cs.as_slice(), 1, cs.len());
            assert(rest@ =~= cs@.skip(1));
            if cs[0] == '-' {
                old.push(string_of(rest.as_slice()));
                assert(strings_view(old@) =~= strings_view(ob).push(rest@));
            } else if cs[0] == '+' {
                new.push(string_of(rest.as_slice()));
                assert(strings_view(new@) =~= strings_view(nb).push(rest@));
            } else if cs[0] == ' ' {
                old.push(string_of(rest.as_slice()));
                new.push(string_of(rest.as_slice()));
                assert(strings_view(old@) =~= strings_view(ob).push(rest@));
                assert(strings_view(new@) =~= strings_view(nb).push(rest@));
            }
        }
        i = i + 1;
    }
    assert(l.take(i as int) =~= l);
    (old, new)
}

/// Whether line `a` is blank.
fn blank(a: &str) -> (r: bool)
    ensures
        r == (trim(a@).len() == 0),
{
    let cs = chars_of(a);
    trim_chars(cs.as_slice()).len() == 0
}

/// Whether two lines are equal up to surrounding whitespace.
fn trimmed_eq(a: &str, b: &str) -> (r: bool)
    ensures
        r == (trim(a@) == trim(b@)),
{
    let x = chars_of(a);
    let y = chars_of(b);
    let tx = string_of(trim_chars(x.as_slice()).as_slice());
    let ty = string_of(trim_chars(y.as_slice()).as_slice());
    str_eq(tx.as_str(), ty.as_str())
}

/// See [`match_flag`].
fn check_match(old: &Vec<String>, res: &Vec<String>, adj: usize, ml: usize) -> (r: bool)
    requires
        ml <= old@.len(),
        adj + ml <= res@.len(),
    ensures
        r == match_flag(strings_view(old@), strings_view(res@), adj as int, ml as int),
{
    let ghost o = strings_view(old@);
    let ghost rv = strings_view(res@);
    let mut ok = true;
    let mut i: usize = 0;
    let _n = res.len();
    while i < ml
        invariant
            i <= ml <= old@.len(),
            adj + ml <= res@.len() <= usize::MAX,
            o == strings_view(old@),
            rv == strings_view(res@),
            ok == match_flag(o, rv, adj as int, i as int),
        decreases ml - i,
    {
        let e = old[i].as_str();
        let a = res[adj + i].as_str();
        if !str_eq(e, a) {
            ok = e.as_bytes().len() == 0 && blank(a);
            proof {
                if e@.len() == 0 {
                    assert(vstd::utf8::encode_utf8(e@) =~= Seq::<u8>::empty());
                }
                if vstd::utf8::encode_utf8(e@).len() == 0 && e@.len() > 0 {
                    vstd::utf8::encode_utf8_first_scalar(e@);
                }
            }
        }
        i = i + 1;
    }
    ok
}

proof fn lemma_window_at(h: Seq<Seq<char>>, nd: Seq<Seq<char>>, pos: int, i: int)
    requires
        window_matches(h, nd, pos),
        0 <= i < nd.len(),
    ensures
        pos + i < h.len(),
        lines_close(h[pos + i], nd[i]),
{
    assert(line_fits(h, nd, pos, i));
}

/// Whether `needle` matches `hay` at `pos` (see [`window_matches`]).
fn window_at(hay: &Vec<String>, needle: &Vec<String>, pos: usize) -> (r: bool)
    requires
        pos < hay@.len(),
    ensures
        r == window_matches(strings_view(hay@), strings_view(needle@), pos as int),
{
    let ghost h = strings_view(hay@);
    let ghost nd = strings_view(needle@);
    let n = hay.len();
    let mut i: usize = 0;
    while i < needle.len()
        invariant
            i <= needle@.len(),
            pos < n,
            n == hay@.len(),
            h == strings_view(hay@),
            nd == strings_view(needle@),
            forall|j: int| 0 <= j < i ==> #[trigger] line_fits(h, nd, pos as int, j),
        decreases needle@.len() - i,
    {
        if i >= n - pos {
            proof {
                if window_matches(h, nd, pos as int) {
                    lemma_window_at(h, nd, pos as int, i as int);
                }
            }
            return false;
        }
        let a = hay[pos + i].as_str();
        let b = needle[i].as_str();
        if !str_eq(a, b) && !trimmed_eq(a, b) {
            proof {
                assert(!line_fits(h, nd, pos as int, i as int));
                assert(!lines_close(h[pos + i], nd[i as int]));
                if window_matches(h, nd, pos as int) {
                    lemma_window_at(h, nd, pos as int, i as int);
                }
            }
            return false;
        }
        assert(line_fits(h, nd, pos as int, i as int));
        i = i + 1;
    }
    true
}

/// See [`find_context_spec`].
fn find_context(hay: &Vec<String>, needle: &Vec<String>, start: usize) -> (r: Option<usize>)
    ensures
        match r {
            Some(p) => find_context_spec(strings_view(hay@), strings_view(needle@), start as int) == Some(p as int)
                && p + needle@.len() <= hay@.len(),
            None => find_context_spec(strings_view(hay@), strings_view(needle@), start as int) is None,
        },
{
    let ghost h = strings_view(hay@);
    let ghost nd = strings_view(needle@);
    if needle.len() == 0 || start >= hay.len() {
        return None;
    }
    let max = if hay.len() >= needle.len() { hay.len() - needle.len() } else { 0 };
    let ss = if start < max { start } else { max };
    let mut pos: usize = ss;
    while pos <= max
        invariant
            ss <= pos <= max + 1,
            start < hay@.len(),
            ss == (if start < max { start } else { max }),
            max < hay@.len() <= usize::MAX,
            needle@.len() <= usize::MAX,
            max == (if hay@.len() >= needle@.len() { hay@.len() - needle@.len() } else { 0int }),
            needle@.len() > 0,
            h == strings_view(hay@),
            nd == strings_view(needle@),
            find_window_from(h, nd, ss as int, max as int) == find_window_from(h, nd, pos as int, max as int),
        decreases max + 1 - pos,
    {
        if window_at(hay, needle, pos) {
            proof {
                let j = needle@.len() - 1;
                lemma_window_at(h, nd, pos as int, j);
                assert(find_window_from(h, nd, pos as int, max as int) == Some(pos as int));
                assert(find_context_spec(h, nd, start as int) == find_window_from(h, nd, ss as int, max as int));
            }
            return Some(pos);
        }
        pos = pos + 1;
    }
    None
}


/// `cnt` lines of `res` at `at` replaced by `new`.
fn splice_strings(res: &mut Vec<String>, at: usize, cnt: usize, new: Vec<String>)
    requires
        at + cnt <= old(res)@.len(),
    ensures
        strings_view(final(res)@) == splice_lines(strings_view(old(res)@), at as int, cnt as int, strings_view(new@)),
        final(res)@.len() == old(res)@.len() - cnt + new@.len(),
{
    let ghost o = strings_view(res@);
    let _l = res.len();
    let mut new = new;
    let ghost nv = strings_view(new@);
    let mut tail = res.split_off(at + cnt);
    res.truncate(at);
    res.append(&mut new);
    res.append(&mut tail);
    assert(strings_view(res@) =~= splice_lines(o, at as int, cnt as int, nv));
}

/// Records the anchor changes for `n` lines written at `at`.
fn push_changes(changes: &mut Vec<(usize, usize)>, at: usize, n: usize)
    requires
        at + n <= usize::MAX,
    ensures
        changes_view(final(changes)@) == changes_view(old(changes)@) + changes_at(at as int, n as int),
{
    let ghost c0 = changes_view(changes@);
    let mut i: usize = 0;
    while i < n
        invariant
            i <= n,
            at + n <= usize::MAX,
            changes_view(changes@) == c0 + changes_at(at as int, i as int),
        decreases n - i,
    {
        let ghost before = changes@;
        changes.push((at + 1 + i, at + 1 + i));
        proof {
            assert(changes_view(changes@) =~= changes_view(before).push(((at + 1 + i) as int, (at + 1 + i) as int)));
            assert(changes_at(at as int, i + 1) =~= changes_at(at as int, i as int).push(((at + 1 + i) as int, (at + 1 + i) as int)));
        }
        i = i + 1;
    }
}

/// Applies one hunk (number `hl`) to the state (see [`apply_hunk`]).
fn apply_one(
    res: &mut Vec<String>,
    changes: &mut Vec<(usize, usize)>,
    conflicts: &mut Vec<Conflict>,
    h: &Hunk,
    hl: usize,
    orig_len: usize,
)
    ensures
        (strings_view(final(res)@), changes_view(final(changes)@), conflicts_view(final(conflicts)@)) == apply_hunk(
            (strings_view(old(res)@), changes_view(old(changes)@), conflicts_view(old(conflicts)@)),
            orig_len as int,
            hunk_view(*h),
            hl as int,
        ),
{
    let ghost st = (strings_view(res@), changes_view(changes@), conflicts_view(conflicts@));
    let old_start = h.old_start;
    let os0: usize = if old_start >= 1 { old_start - 1 } else { 0 };
    let len0 = res.len();
    let x: i128 = os0 as i128 + len0 as i128 - orig_len as i128;
    let adj: usize = if x < 0 {
        0
    } else if x > usize::MAX as i128 {
        usize::MAX
    } else {
        x as usize
    };
    assert(adj == clamp_usize(os0 + len0 - orig_len));
    if adj > len0 {
        let mut m = String::new();
        push_str(&mut m, "hunk start ");
        push_decimal_wide(&mut m, adj as u128 + 1);
        push_str(&mut m, " is beyond file length ");
        push_decimal(&mut m, len0);
        let ghost cb = conflicts@;
        let ghost mv = m@;
        conflicts.push(Conflict { hunk_line: hl, reason: m });
        assert(conflicts_view(conflicts@) =~= conflicts_view(cb).push((hl as int, mv)));
        return;
    }
    let (old, new) = hunk_sides(&h.lines);
    let nn = new.len();
    if old.len() == 0 {
        splice_strings(res, adj, 0, new);
        let _l = res.len();
        assert(adj + nn <= res@.len());
        push_changes(changes, adj, nn);
        return;
    }
    let avail = len0 - adj;
    let ml = if old.len() < avail { old.len() } else { avail };
    let ok = check_match(&old, res, adj, ml);
    if !ok || ml < old.len() {
        match find_context(res, &old, adj) {
            Some(pos) => {
                splice_strings(res, pos, old.len(), new);
                let _l = res.len();
                assert(pos + nn <= res@.len());
                push_changes(changes, pos, nn);
            },
            None => {
                let mut m = String::new();
                push_str(&mut m, "hunk context does not match file content around line ");
                push_decimal(&mut m, old_start);
                let ghost cb = conflicts@;
                let ghost mv = m@;
                conflicts.push(Conflict { hunk_line: hl, reason: m });
                assert(conflicts_view(conflicts@) =~= conflicts_view(cb).push((hl as int, mv)));
            },
        }
    } else {
        splice_strings(res, adj, old.len(), new);
        let _l = res.len();
        assert(adj + nn <= res@.len());
        push_changes(changes, adj, nn);
    }
}

/// The result text: lines joined with the document's separator, plus a
/// final separator when the document had one.
pub open spec fn diff_output(lines: Seq<Seq<char>>, newline: NewlineStyle, trailing: bool) -> Seq<char> {
    join_seq(lines, sep_chars(newline)) + if trailing { sep_chars(newline) } else { Seq::empty() }
}

/// Applies `hunks` in order to the document's lines (see
/// [`apply_hunks_spec`]). The receipt lists the anchor changes and the
/// conflicts; when there are no conflicts the diff counts as applied and
/// the new text comes with it.
pub fn apply_hunks(doc: &Document, hunks: &[Hunk]) -> (r: (DiffReceipt, Option<String>))
    ensures
        ({
            let st = apply_hunks_spec(doc.contents(), hunks_view(hunks@), hunks@.len() as int);
            &&& changes_view(r.0.anchor_changes@) == st.1
            &&& conflicts_view(r.0.conflicts@) == st.2
            &&& r.0.applied == (st.2.len() == 0)
            &&& st.2.len() == 0 ==> (r.1 matches Some(t) && t@ == diff_output(st.0, doc.newline, doc.trailing_newline))
            &&& st.2.len() > 0 ==> r.1 is None
        }),
        hunks_in_place(doc.contents(), hunks_view(hunks@)) && doc.contents().len() + new_total(
            hunks_view(hunks@),
            hunks@.len() as int,
        ) <= usize::MAX ==> (r.0.applied && r.0.conflicts@.len() == 0 && (r.1 matches Some(t) && t@ == diff_output(
            patched(doc.contents(), hunks_view(hunks@), 0, 0),
            doc.newline,
            doc.trailing_newline,
        ))),
{
    let ghost c = doc.contents();
    let ghost hv = hunks_view(hunks@);
    let mut res: Vec<String> = Vec::new();
    let mut i: usize = 0;
    while i < doc.lines.len()
        invariant
            i <= doc.lines@.len(),
            strings_view(res@) == doc.contents().take(i as int),
        decreases doc.lines@.len() - i,
    {
        let ghost before = res@;
        let x = owned(&*doc.lines[i].content);
        res.push(x);
        proof {
            assert(strings_view(res@) =~= strings_view(before).push(x@));
            assert(doc.contents().take(i + 1) =~= doc.contents().take(i as int).push(doc.lines@[i as int].content@));
        }
        i = i + 1;
    }
    assert(doc.contents().take(i as int) =~= doc.contents());
    let orig_len = res.len();
    let mut changes: Vec<(usize, usize)> = Vec::new();
    let mut conflicts: Vec<Conflict> = Vec::new();
    proof {
        assert(changes_view(changes@) =~= Seq::<(int, int)>::empty());
        assert(conflicts_view(conflicts@) =~= Seq::<(int, Seq<char>)>::empty());
    }
    let mut k: usize = 0;
    while k < hunks.len()
        invariant
            k <= hunks@.len(),
            c == doc.contents(),
            hv == hunks_view(hunks@),
            orig_len == c.len(),
            (strings_view(res@), changes_view(changes@), conflicts_view(conflicts@)) == apply_hunks_spec(
                c,
                hv,
                k as int,
            ),
        decreases hunks@.len() - k,
    {
        apply_one(&mut res, &mut changes, &mut conflicts, &hunks[k], k + 1, orig_len);
        assert(hunk_view(hunks@[k as int]) == hv[k as int]);
        k = k + 1;
    }
    proof {
        if hunks_in_place(c, hv) && c.len() + new_total(hv, hv.len() as int) <= usize::MAX {
            law_in_place_hunks_patch(c, hv);
        }
    }
    if conflicts.len() > 0 {
        return (DiffReceipt { applied: false, anchor_changes: changes, conflicts }, None);
    }
    let mut v: Vec<Vec<char>> = Vec::new();
    let mut j: usize = 0;
    while j < res.len()
        invariant
            j <= res@.len(),
            lines_view(v@) == strings_view(res@).take(j as int),
        decreases res@.len() - j,
    {
        let ghost before = v@;
        let x = chars_of(res[j].as_str());
        v.push(x);
        proof {
            assert(lines_view(v@) =~= lines_view(before).push(x@));
            assert(strings_view(res@).take(j + 1) =~= strings_view(res@).take(j as int).push(res@[j as int]@));
        }
        j = j + 1;
    }
    assert(strings_view(res@).take(j as int) =~= strings_view(res@));
    let sep = chars_of(doc.newline.separator());
    let mut out = join_lines(v.as_slice(), sep.as_slice());
    if doc.trailing_newline {
        push_chars(&mut out, sep.as_slice());
    }
    assert(out@ =~= diff_output(strings_view(res@), doc.newline, doc.trailing_newline));
    (DiffReceipt { applied: true, anchor_changes: changes, conflicts }, Some(out))
}

/// What a diff asks for once read: nothing to do (with the receipt that
/// says so), or hunks to apply to the file.
pub enum DiffPlan {
    NoHunks(DiffReceipt),
    Hunks(Vec<Hunk>),
}

/// The receipt for a diff without hunks: not applied, with one conflict
/// at position 0.
pub open spec fn no_hunks_receipt(r: DiffReceipt) -> bool {
    &&& !r.applied
    &&& r.anchor_changes@.len() == 0
    &&& conflicts_view(r.conflicts@) == seq![(0int, "diff contains no hunks"@)]
}

/// Reads a diff and decides what to do with it: a malformed hunk header is
/// an error, a diff without hunks is answered at once, and otherwise its
/// hunks are to be applied.
pub fn plan_diff(diff: &str) -> (r: Result<DiffPlan, HashlineError>)
    ensures
        match parse_diff_spec(diff@) {
            Ok((_, _, hs)) => if hs.len() == 0 {
                r matches Ok(DiffPlan::NoHunks(rc)) && no_hunks_receipt(rc)
            } else {
                r matches Ok(DiffPlan::Hunks(v)) && hunks_view(v@) == hs
            },
            Err(k) => r == Err::<DiffPlan, HashlineError>(HashlineError::DiffHunkMismatch { hunk_line: k as usize }),
        },
{
    match parse_unified_diff(diff) {
        Ok((_old, _new, hunks)) => {
            if hunks.len() == 0 {
                let mut conflicts: Vec<Conflict> = Vec::new();
                let reason = owned("diff contains no hunks");
                let ghost rv = reason@;
                conflicts.push(Conflict { hunk_line: 0, reason });
                assert(conflicts_view(conflicts@) =~= seq![(0int, rv)]);
                Ok(DiffPlan::NoHunks(DiffReceipt { applied: false, anchor_changes: Vec::new(), conflicts }))
            } else {
                Ok(DiffPlan::Hunks(hunks))
            }
        },
        Err(e) => Err(e),
    }
}

/// Where hunk `h` starts in the file, 0-based (a start of 0 means before
/// the first line).
pub open spec fn hunk_at(h: HunkView) -> int {
    if h.0 >= 1 { h.0 - 1 } else { 0 }
}

/// Where hunk `k` of `hs` ends in the file; 0 before the first hunk.
pub open spec fn hunk_end(hs: Seq<HunkView>, k: int) -> int {
    if k <= 0 { 0 } else { hunk_at(hs[k - 1]) + old_side(hs[k - 1].4).len() }
}

/// The hunks of `hs` each match `lines` exactly where they say they start,
/// in order and without overlapping.
pub open spec fn hunks_in_place(lines: Seq<Seq<char>>, hs: Seq<HunkView>) -> bool {
    forall|k: int|
        0 <= k < hs.len() ==> {
            &&& hunk_end(hs, k) <= hunk_at(#[trigger] hs[k])
            &&& hunk_at(hs[k]) + old_side(hs[k].4).len() <= lines.len()
            &&& lines.subrange(hunk_at(hs[k]), hunk_at(hs[k]) + old_side(hs[k].4).len()) == old_side(hs[k].4)
        }
}

/// The lines the hunks `hs[k..]` write, from file position `pos` on: the
/// untouched lines up to each hunk, then its new side, and after the last
/// hunk the rest of the file.
pub open spec fn patched(lines: Seq<Seq<char>>, hs: Seq<HunkView>, k: int, pos: int) -> Seq<Seq<char>>
    decreases hs.len() - k,
{
    if k < 0 || k >= hs.len() {
        lines.skip(pos)
    } else {
        lines.subrange(pos, hunk_at(hs[k])) + new_side(hs[k].4) + patched(
            lines,
            hs,
            k + 1,
            hunk_at(hs[k]) + old_side(hs[k].4).len(),
        )
    }
}

/// The lines the first `k` hunks write up to the end of hunk `k - 1`.
pub open spec fn patched_prefix(lines: Seq<Seq<char>>, hs: Seq<HunkView>, k: int) -> Seq<Seq<char>>
    decreases k,
{
    if k <= 0 {
        Seq::empty()
    } else {
        patched_prefix(lines, hs, k - 1) + lines.subrange(hunk_end(hs, k - 1), hunk_at(hs[k - 1])) + new_side(
            hs[k - 1].4,
        )
    }
}

/// The new-side lines of the first `k` hunks.
pub open spec fn new_total(hs: Seq<HunkView>, k: int) -> int
    decreases k,
{
    if k <= 0 { 0 } else { new_total(hs, k - 1) + new_side(hs[k - 1].4).len() }
}

/// The old-side lines of the first `k` hunks.
pub open spec fn old_total(hs: Seq<HunkView>, k: int) -> int
    decreases k,
{
    if k <= 0 { 0 } else { old_total(hs, k - 1) + old_side(hs[k - 1].4).len() }
}

proof fn lemma_new_total_mono(hs: Seq<HunkView>, k: int, m: int)
    requires
        0 <= k <= m,
    ensures
        new_total(hs, k) <= new_total(hs, m),
    decreases m - k,
{
    if k < m {
        lemma_new_total_mono(hs, k, m - 1);
    }
}

proof fn lemma_old_total_nonneg(hs: Seq<HunkView>, k: int)
    ensures
        0 <= old_total(hs, k),
    decreases k,
{
    if k > 0 {
        lemma_old_total_nonneg(hs, k - 1);
    }
}

proof fn lemma_match_flag_exact(old: Seq<Seq<char>>, res: Seq<Seq<char>>, adj: int, k: int)
    requires
        0 <= k <= old.len(),
        forall|i: int| 0 <= i < k ==> res[adj + i] == old[i],
    ensures
        match_flag(old, res, adj, k),
    decreases k,
{
    if k > 0 {
        lemma_match_flag_exact(old, res, adj, k - 1);
        assert(res[adj + k - 1] == old[k - 1]);
    }
}

proof fn lemma_patched_split(lines: Seq<Seq<char>>, hs: Seq<HunkView>, k: int)
    requires
        0 <= k <= hs.len(),
    ensures
        patched(lines, hs, 0, 0) == patched_prefix(lines, hs, k) + patched(lines, hs, k, hunk_end(hs, k)),
    decreases k,
{
    if k == 0 {
        assert(patched_prefix(lines, hs, 0) + patched(lines, hs, 0, 0) =~= patched(lines, hs, 0, 0));
    } else {
        lemma_patched_split(lines, hs, k - 1);
        assert(patched_prefix(lines, hs, k - 1) + patched(lines, hs, k - 1, hunk_end(hs, k - 1)) =~= patched_prefix(
            lines,
            hs,
            k,
        ) + patched(lines, hs, k, hunk_end(hs, k)));
    }
}

/// What holds after the first `k` in-place hunks: the patched prefix, then
/// the file from the end of hunk `k - 1`, and no conflict.
spec fn in_place_after(lines: Seq<Seq<char>>, hs: Seq<HunkView>, k: int) -> bool {
    &&& apply_hunks_spec(lines, hs, k).0 == patched_prefix(lines, hs, k) + lines.skip(hunk_end(hs, k))
    &&& apply_hunks_spec(lines, hs, k).2.len() == 0
    &&& patched_prefix(lines, hs, k).len() == hunk_end(hs, k) - old_total(hs, k) + new_total(hs, k)
    &&& hunk_end(hs, k) <= lines.len()
}

/// Lines `old` that stand at `at` in `lines` stand, in `pre` followed by
/// `lines` from `e` on, at `at` shifted by the length difference.
proof fn lemma_shifted_window(lines: Seq<Seq<char>>, res: Seq<Seq<char>>, pre: Seq<Seq<char>>, e: int, at: int, old: Seq<Seq<char>>)
    requires
        res == pre + lines.skip(e),
        0 <= e <= at,
        at + old.len() <= lines.len(),
        lines.subrange(at, at + old.len()) == old,
        res.len() <= usize::MAX,
    ensures
        ({
            let adj = pre.len() + at - e;
            &&& clamp_usize(at + res.len() - lines.len()) == adj
            &&& 0 <= adj
            &&& adj + old.len() <= res.len()
            &&& match_flag(old, res, adj, old.len() as int)
            &&& res.take(adj) == pre + lines.subrange(e, at)
            &&& res.skip(adj + old.len()) == lines.skip(at + old.len())
        }),
{
    let adj = pre.len() + at - e;
    assert(res.len() == pre.len() + lines.len() - e);
    assert forall|i: int| 0 <= i < old.len() implies res[adj + i] == old[i] by {
        assert(res[adj + i] == lines.skip(e)[at - e + i]);
        assert(lines.subrange(at, at + old.len())[i] == lines[at + i]);
    }
    lemma_match_flag_exact(old, res, adj, old.len() as int);
    assert(res.take(adj) =~= pre + lines.subrange(e, at));
    assert(res.skip(adj + old.len()) =~= lines.skip(at + old.len()));
}

/// One more in-place hunk keeps what holds after the earlier ones.
#[verifier::spinoff_prover]
proof fn lemma_in_place_step(lines: Seq<Seq<char>>, hs: Seq<HunkView>, j: int)
    requires
        0 <= j < hs.len(),
        hunks_in_place(lines, hs),
        lines.len() + new_total(hs, hs.len() as int) <= usize::MAX,
        in_place_after(lines, hs, j),
    ensures
        in_place_after(lines, hs, j + 1),
{
    let k = j + 1;
    let h = hs[j];
    let st = apply_hunks_spec(lines, hs, j);
    let res = st.0;
    let pre = patched_prefix(lines, hs, j);
    let e = hunk_end(hs, j);
    let at = hunk_at(h);
    let old = old_side(h.4);
    let new = new_side(h.4);
    assert(e <= at && at + old.len() <= lines.len() && lines.subrange(at, at + old.len()) == old);
    lemma_new_total_mono(hs, j, hs.len() as int);
    lemma_old_total_nonneg(hs, j);
    lemma_shifted_window(lines, res, pre, e, at, old);
    let adj = pre.len() + at - e;
    assert(apply_hunks_spec(lines, hs, k) == apply_hunk(st, lines.len() as int, h, k));
    let res2 = splice_lines(res, adj, old.len() as int, new);
    assert(apply_hunks_spec(lines, hs, k).0 == res2 && apply_hunks_spec(lines, hs, k).2 == st.2) by {
        let avail = res.len() - adj;
        let ml = if old.len() < avail { old.len() as int } else { avail };
        assert(ml == old.len());
        if old.len() == 0 {
            assert(res.skip(adj + 0) == res.skip(adj));
        }
    }
    assert(res2 =~= patched_prefix(lines, hs, k) + lines.skip(hunk_end(hs, k)));
}

/// The state after the first `k` in-place hunks.
proof fn lemma_apply_in_place(lines: Seq<Seq<char>>, hs: Seq<HunkView>, k: int)
    requires
        0 <= k <= hs.len(),
        hunks_in_place(lines, hs),
        lines.len() + new_total(hs, hs.len() as int) <= usize::MAX,
    ensures
        in_place_after(lines, hs, k),
    decreases k,
{
    if k == 0 {
        assert(patched_prefix(lines, hs, 0) + lines.skip(0) =~= lines);
    } else {
        lemma_apply_in_place(lines, hs, k - 1);
        lemma_in_place_step(lines, hs, k - 1);
    }
}

/// Hunks that each match the file exactly where they say they start, in
/// order and without overlapping, all apply, giving the standard patch:
/// the file's lines with each hunk's old side replaced by its new side. A
/// later hunk is found at its start shifted by the lines the earlier hunks
/// added or removed.
pub proof fn law_in_place_hunks_patch(lines: Seq<Seq<char>>, hs: Seq<HunkView>)
    requires
        hunks_in_place(lines, hs),
        lines.len() + new_total(hs, hs.len() as int) <= usize::MAX,
    ensures
        apply_hunks_spec(lines, hs, hs.len() as int).2.len() == 0,
        apply_hunks_spec(lines, hs, hs.len() as int).0 == patched(lines, hs, 0, 0),
{
    lemma_apply_in_place(lines, hs, hs.len() as int);
    lemma_patched_split(lines, hs, hs.len() as int);
}

proof fn lemma_find_window_some(hay: Seq<Seq<char>>, needle: Seq<Seq<char>>, pos: int, max: int)
    requires
        find_window_from(hay, needle, pos, max) is Some,
    ensures
        0 <= pos <= (find_window_from(hay, needle, pos, max)->0),
        window_matches(hay, needle, find_window_from(hay, needle, pos, max)->0),
    decreases max + 1 - pos,
{
    if !(pos > max || pos < 0) && !window_matches(hay, needle, pos) {
        lemma_find_window_some(hay, needle, pos + 1, max);
    }
}

/// Each hunk either is refused, with one conflict more and the lines and
/// anchor changes as they were, or replaces a run of as many lines as its
/// old side holds, lying wholly in the file, by its new side, with one
/// anchor change for each new line.
pub proof fn law_hunk_replaces_a_window(st: ApplyState, orig_len: int, h: HunkView, hl: int)
    ensures
        ({
            let st2 = apply_hunk(st, orig_len, h, hl);
            let old = old_side(h.4);
            let new = new_side(h.4);
            ||| (st2.0 == st.0 && st2.1 == st.1 && st2.2.len() == st.2.len() + 1 && st2.2.take(st.2.len() as int) == st.2
                && st2.2.last().0 == hl)
            ||| exists|pos: int|
                {
                    &&& 0 <= pos
                    &&& pos + old.len() <= st.0.len()
                    &&& #[trigger] st2.0 == st.0.take(pos) + new + st.0.skip(pos + old.len())
                    &&& st2.1 == st.1 + Seq::new(new.len(), |i: int| (pos + 1 + i, pos + 1 + i))
                    &&& st2.2 == st.2
                }
        }),
{
    let (res, ch, cf) = st;
    let old = old_side(h.4);
    let new = new_side(h.4);
    let os0 = if h.0 >= 1 { h.0 - 1 } else { 0 };
    let adj = clamp_usize(os0 + res.len() - orig_len);
    let st2 = apply_hunk(st, orig_len, h, hl);
    if adj > res.len() {
        assert(st2.2.take(st.2.len() as int) =~= st.2);
    } else if old.len() == 0 {
        assert(st2.0 == st.0.take(adj) + new + st.0.skip(adj + old.len()));
    } else {
        let avail = res.len() - adj;
        let ml = if old.len() < avail { old.len() as int } else { avail };
        if !match_flag(old, res, adj, ml) || ml < old.len() {
            match find_context_spec(res, old, adj) {
                Some(pos) => {
                    let max = if res.len() >= old.len() { res.len() - old.len() } else { 0 };
                    let ss = if adj < max { adj } else { max };
                    lemma_find_window_some(res, old, ss, max);
                    assert(line_fits(res, old, pos, old.len() - 1));
                    assert(st2.0 == st.0.take(pos) + new + st.0.skip(pos + old.len()));
                },
                None => {
                    assert(st2.2.take(st.2.len() as int) =~= st.2);
                },
            }
        } else {
            assert(st2.0 == st.0.take(adj) + new + st.0.skip(adj + old.len()));
        }
    }
}

} // verus!
