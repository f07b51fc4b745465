//! Heuristic block finding over a file's lines: matching `{`/`}` pairs
//! (outside strings and comments), indentation blocks, and Ruby
//! `def`/`class`/`if` ... `end` blocks.

use vstd::prelude::*;
use vstd::utf8::encode_utf8;
use crate::text::{chars_of, string_of, trim, trim_start, trim_start_len, str_eq};
use crate::ascii::{trim_chars, sub_chars};
use crate::anchor::idx_view;
use crate::apply::strings_view;

verus! {

/// The state carried across lines by the brace scan: inside a block
/// comment, the lines of the open braces, and the closed pairs so far.
pub type ScanState = (bool, Seq<int>, Seq<(int, int)>);

/// `lc` starts at byte `i` of `b`.
pub open spec fn starts_at(b: Seq<u8>, i: int, lc: Seq<u8>) -> bool {
    0 <= i && i + lc.len() <= b.len() && b.subrange(i, i + lc.len()) == lc
}

/// Scans bytes `i..` of line `line` (`b`): `lc` starts a line comment,
/// `bc` enables `/* */` block comments; `sq`, `dq` and `esc` say whether
/// the scan is in a single- or double-quoted string and just after a
/// backslash in one. A `{` outside strings and comments opens a brace on
/// this line; a `}` closes the last open one into a pair.
pub open spec fn scan_line(
    b: Seq<u8>,
    i: int,
    line: int,
    lc: Seq<u8>,
    bc: bool,
    sq: bool,
    dq: bool,
    esc: bool,
    st: ScanState,
) -> ScanState
    decreases b.len() - i,
{
    if i < 0 || i >= b.len() {
        st
    } else if esc {
        scan_line(b, i + 1, line, lc, bc, sq, dq, false, st)
    } else if (sq || dq) && b[i] == 92 {
        scan_line(b, i + 1, line, lc, bc, sq, dq, true, st)
    } else if st.0 {
        if i + 1 < b.len() && b[i] == 42 && b[i + 1] == 47 {
            scan_line(b, i + 2, line, lc, bc, sq, dq, false, (false, st.1, st.2))
        } else {
            scan_line(b, i + 1, line, lc, bc, sq, dq, false, st)
        }
    } else if !sq && !dq && starts_at(b, i, lc) {
        st
    } else if bc && !sq && !dq && i + 1 < b.len() && b[i] == 47 && b[i + 1] == 42 {
        scan_line(b, i + 2, line, lc, bc, sq, dq, false, (true, st.1, st.2))
    } else if sq && b[i] == 39 {
        scan_line(b, i + 1, line, lc, bc, false, dq, false, st)
    } else if dq && b[i] == 34 {
        scan_line(b, i + 1, line, lc, bc, sq, false, false, st)
    } else if !sq && !dq && b[i] == 39 {
        scan_line(b, i + 1, line, lc, bc, true, dq, false, st)
    } else if !sq && !dq && b[i] == 34 {
        scan_line(b, i + 1, line, lc, bc, sq, true, false, st)
    } else if !sq && !dq && b[i] == 123 {
        scan_line(b, i + 1, line, lc, bc, sq, dq, false, (st.0, st.1.push(line), st.2))
    } else if !sq && !dq && b[i] == 125 && st.1.len() > 0 {
        scan_line(
            b,
            i + 1,
            line,
            lc,
            bc,
            sq,
            dq,
            false,
            (st.0, st.1.drop_last(), st.2.push((st.1.last(), line))),
        )
    } else {
        scan_line(b, i + 1, line, lc, bc, sq, dq, false, st)
    }
}

/// The scan state after the first `n` lines; strings end with their line,
/// block comments do not.
pub open spec fn scan_lines(lines: Seq<Seq<u8>>, n: int, lc: Seq<u8>, bc: bool) -> ScanState
    decreases n,
{
    if n <= 0 {
        (false, Seq::empty(), Seq::empty())
    } else {
        scan_line(lines[n - 1], 0, n - 1, lc, bc, false, false, false, scan_lines(lines, n - 1, lc, bc))
    }
}

/// The UTF-8 bytes of each line.
pub open spec fn line_bytes(c: Seq<Seq<char>>) -> Seq<Seq<u8>> {
    Seq::new(c.len(), |i: int| encode_utf8(c[i]))
}

/// The line-comment marker for an extension: `#` for Python and Ruby,
/// else `//`.
pub open spec fn line_comment_for(ext: Seq<char>) -> Seq<u8> {
    if ext == "py"@ || ext == "rb"@ {
        seq![35u8]
    } else {
        seq![47u8, 47u8]
    }
}

/// Whether `/* */` comments count for an extension (not Python or Ruby).
pub open spec fn block_comments_for(ext: Seq<char>) -> bool {
    !(ext == "py"@ || ext == "rb"@)
}

/// The matched `{`/`}` line pairs of `c`, in the order they close.
pub open spec fn brace_pairs_spec(c: Seq<Seq<char>>, ext: Seq<char>) -> Seq<(int, int)> {
    scan_lines(line_bytes(c), c.len() as int, line_comment_for(ext), block_comments_for(ext)).2
}

/// The pairs as integers.
pub open spec fn pairs_view(v: Seq<(usize, usize)>) -> Seq<(int, int)> {
    Seq::new(v.len(), |i: int| (v[i].0 as int, v[i].1 as int))
}

/// Scans one line, updating the carried state.
fn scan_line_exec(
    b: &[u8],
    line: usize,
    lc: &[u8],
    bc: bool,
    blk: &mut bool,
    stack: &mut Vec<usize>,
    pairs: &mut Vec<(usize, usize)>,
)
    requires
        lc@.len() > 0,
    ensures
        (*final(blk), idx_view(final(stack)@), pairs_view(final(pairs)@)) == scan_line(
            b@,
            0,
            line as int,
            lc@,
            bc,
            false,
            false,
            false,
            (*old(blk), idx_view(old(stack)@), pairs_view(old(pairs)@)),
        ),
{
    let ghost target = scan_line(
        b@,
        0,
        line as int,
        lc@,
        bc,
        false,
        false,
        false,
        (*blk, idx_view(stack@), pairs_view(pairs@)),
    );
    let n = b.len();
    let mut i: usize = 0;
    let mut sq = false;
    let mut dq = false;
    let mut esc = false;
    while i < n
        invariant
            n == b@.len(),
            lc@.len() > 0,
            i <= n,
            target == scan_line(
                b@,
                i as int,
                line as int,
                lc@,
                bc,
                sq,
                dq,
                esc,
                (*blk, idx_view(stack@), pairs_view(pairs@)),
            ),
        decreases n - i,
    {
        let c = b[i];
        if esc {
            esc = false;
            i = i + 1;
        } else if (sq || dq) && c == 92 {
            esc = true;
            i = i + 1;
        } else if *blk {
            if i + 1 < n && c == 42 && b[i + 1] == 47 {
                *blk = false;
                i = i + 2;
            } else {
                i = i + 1;
            }
        } else if !sq && !dq && starts_with_at(b, i, lc) {
            i = n;
        } else if bc && !sq && !dq && i + 1 < n && c == 47 && b[i + 1] == 42 {
            *blk = true;
            i = i + 2;
        } else if sq && c == 39 {
            sq = false;
            i = i + 1;
        } else if dq && c == 34 {
            dq = false;
            i = i + 1;
        } else if !sq && !dq && c == 39 {
            sq = true;
            i = i + 1;
        } else if !sq && !dq && c == 34 {
            dq = true;
            i = i + 1;
        } else if !sq && !dq && c == 123 {
            let ghost before = stack@;
            stack.push(line);
            assert(idx_view(stack@) =~= idx_view(before).push(line as int));
            i = i + 1;
        } else if !sq && !dq && c == 125 && stack.len() > 0 {
            let ghost before = stack@;
            let ghost pbefore = pairs@;
            let top = stack.pop().unwrap();
            assert(idx_view(stack@) =~= idx_view(before).drop_last());
            pairs.push((top, line));
            assert(pairs_view(pairs@) =~= pairs_view(pbefore).push((top as int, line as int)));
            i = i + 1;
        } else {
            i = i + 1;
        }
    }
}

/// Whether `lc` starts at byte `i` of `b`.
fn starts_with_at(b: &[u8], i: usize, lc: &[u8]) -> (r: bool)
    requires
        i <= b@.len(),
    ensures
        r == starts_at(b@, i as int, lc@),
{
    if lc.len() > b.len() - i {
        return false;
    }
    let mut k: usize = 0;
    while k < lc.len()
        invariant
            k <= lc@.len(),
            i + lc@.len() <= b@.len() <= usize::MAX,
            forall|j: int| 0 <= j < k ==> b@[i + j] == lc@[j],
        decreases lc@.len() - k,
    {
        if b[i + k] != lc[k] {
            assert(b@.subrange(i as int, i + lc@.len())[k as int] != lc@[k as int]);
            return false;
        }
        k = k + 1;
    }
    assert(b@.subrange(i as int, i + lc@.len()) =~= lc@);
    true
}

/// The byte form of an extension's comment style.
fn comment_style(ext: &str) -> (r: (Vec<u8>, bool))
    ensures
        r.0@ == line_comment_for(ext@),
        r.1 == block_comments_for(ext@),
{
    let hashy = str_eq(ext, "py") || str_eq(ext, "rb");
    let mut lc: Vec<u8> = Vec::new();
    if hashy {
        lc.push(35);
    } else {
        lc.push(47);
        lc.push(47);
    }
    assert(lc@ =~= line_comment_for(ext@));
    (lc, !hashy)
}

/// The matched `{`/`}` line pairs of `lines`, in the order they close,
/// for a file with extension `ext` (see [`brace_pairs_spec`]).
pub fn brace_pairs(lines: &[String], ext: &str) -> (r: Vec<(usize, usize)>)
    ensures
        pairs_view(r@) == brace_pairs_spec(strings_view(lines@), ext@),
{
    let (lc, bc) = comment_style(ext);
    let ghost c = strings_view(lines@);
    let mut blk = false;
    let mut stack: Vec<usize> = Vec::new();
    let mut pairs: Vec<(usize, usize)> = Vec::new();
    let mut k: usize = 0;
    proof {
        assert(idx_view(stack@) =~= Seq::<int>::empty());
        assert(pairs_view(pairs@) =~= Seq::<(int, int)>::empty());
    }
    while k < lines.len()
        invariant
            k <= lines@.len(),
            c == strings_view(lines@),
            lc@ == line_comment_for(ext@),
            lc@.len() > 0,
            bc == block_comments_for(ext@),
            (blk, idx_view(stack@), pairs_view(pairs@)) == scan_lines(line_bytes(c), k as int, lc@, bc),
        decreases lines@.len() - k,
    {
        let b = lines[k].as_str().as_bytes();
        assert(b@ == line_bytes(c)[k as int]);
        scan_line_exec(b, k, lc.as_slice(), bc, &mut blk, &mut stack, &mut pairs);
        k = k + 1;
    }
    pairs
}

/// The first line of a pair.
pub open spec fn pair_start(p: (int, int)) -> int {
    p.0
}

/// Among `pairs`, the one enclosing `a` that starts last (the last such
/// pair on a tie), if any.
pub open spec fn enclosing_pair(pairs: Seq<(int, int)>, a: int) -> Option<(int, int)>
    decreases pairs.len(),
{
    if pairs.len() == 0 {
        None
    } else {
        let prev = enclosing_pair(pairs.drop_last(), a);
        let p = pairs.last();
        if p.0 <= a && a <= p.1 && (prev is None || pair_start(prev->0) <= p.0) {
            Some(p)
        } else {
            prev
        }
    }
}

/// The innermost brace pair of `pairs` around line index `a`.
pub fn innermost_pair(pairs: &Vec<(usize, usize)>, a: usize) -> (r: Option<(usize, usize)>)
    ensures
        match r {
            Some(p) => enclosing_pair(pairs_view(pairs@), a as int) == Some((p.0 as int, p.1 as int)),
            None => enclosing_pair(pairs_view(pairs@), a as int) is None,
        },
{
    let ghost v = pairs_view(pairs@);
    let mut best: Option<(usize, usize)> = None;
    let mut i: usize = 0;
    while i < pairs.len()
        invariant
            i <= pairs@.len(),
            v == pairs_view(pairs@),
            match best {
                Some(p) => enclosing_pair(v.take(i as int), a as int) == Some((p.0 as int, p.1 as int)),
                None => enclosing_pair(v.take(i as int), a as int) is None,
            },
        decreases pairs@.len() - i,
    {
        proof {
            assert(v.take(i + 1).drop_last() =~= v.take(i as int));
        }
        let (s, e) = pairs[i];
        if s <= a && a <= e {
            match best {
                None => {
                    best = Some((s, e));
                },
                Some((bs, _)) => {
                    if bs <= s {
                        best = Some((s, e));
                    }
                },
            }
        }
        i = i + 1;
    }
    assert(v.take(i as int) =~= v);
    best
}

/// The enclosing pair really encloses `a`, and no pair around `a` starts
/// later.
pub proof fn law_enclosing_pair_innermost(pairs: Seq<(int, int)>, a: int)
    ensures
        enclosing_pair(pairs, a) matches Some(p) ==> {
            &&& pairs.contains(p)
            &&& p.0 <= a <= p.1
            &&& forall|j: int| 0 <= j < pairs.len() && #[trigger] pairs[j].0 <= a <= pairs[j].1 ==> pairs[j].0 <= p.0
        },
        enclosing_pair(pairs, a) is None ==> forall|j: int|
            0 <= j < pairs.len() ==> !(#[trigger] pairs[j].0 <= a <= pairs[j].1),
    decreases pairs.len(),
{
    if pairs.len() > 0 {
        let q = pairs.drop_last();
        law_enclosing_pair_innermost(q, a);
        if let Some(p) = enclosing_pair(pairs, a) {
            if enclosing_pair(q, a) == Some(p) {
                let k = choose|k: int| 0 <= k < q.len() && q[k] == p;
                assert(pairs[k] == p);
            } else {
                assert(pairs[pairs.len() - 1] == p);
            }
            assert forall|j: int| 0 <= j < pairs.len() && #[trigger] pairs[j].0 <= a <= pairs[j].1 implies pairs[j].0 <= p.0 by {
                if j < q.len() {
                    assert(q[j] == pairs[j]);
                }
            }
        } else {
            assert forall|j: int| 0 <= j < pairs.len() implies !(#[trigger] pairs[j].0 <= a <= pairs[j].1) by {
                if j < q.len() {
                    assert(q[j] == pairs[j]);
                }
            }
        }
    }
}


/// Open braces and closed pairs of a scan state lie on lines `0..=line`,
/// each pair opening no later than it closes.
pub open spec fn scan_state_ok(st: ScanState, line: int) -> bool {
    &&& forall|k: int| 0 <= k < st.1.len() ==> 0 <= #[trigger] st.1[k] <= line
    &&& forall|k: int| 0 <= k < st.2.len() ==> 0 <= (#[trigger] st.2[k]).0 <= st.2[k].1 <= line
}

proof fn lemma_scan_line_ok(
    b: Seq<u8>,
    i: int,
    line: int,
    lc: Seq<u8>,
    bc: bool,
    sq: bool,
    dq: bool,
    esc: bool,
    st: ScanState,
)
    requires
        scan_state_ok(st, line),
        line >= 0,
    ensures
        scan_state_ok(scan_line(b, i, line, lc, bc, sq, dq, esc, st), line),
    decreases b.len() - i,
{
    if i < 0 || i >= b.len() {
    } else if esc {
        lemma_scan_line_ok(b, i + 1, line, lc, bc, sq, dq, false, st);
    } else if (sq || dq) && b[i] == 92 {
        lemma_scan_line_ok(b, i + 1, line, lc, bc, sq, dq, true, st);
    } else if st.0 {
        if i + 1 < b.len() && b[i] == 42 && b[i + 1] == 47 {
            lemma_scan_line_ok(b, i + 2, line, lc, bc, sq, dq, false, (false, st.1, st.2));
        } else {
            lemma_scan_line_ok(b, i + 1, line, lc, bc, sq, dq, false, st);
        }
    } else if !sq && !dq && starts_at(b, i, lc) {
    } else if bc && !sq && !dq && i + 1 < b.len() && b[i] == 47 && b[i + 1] == 42 {
        lemma_scan_line_ok(b, i + 2, line, lc, bc, sq, dq, false, (true, st.1, st.2));
    } else if sq && b[i] == 39 {
        lemma_scan_line_ok(b, i + 1, line, lc, bc, false, dq, false, st);
    } else if dq && b[i] == 34 {
        lemma_scan_line_ok(b, i + 1, line, lc, bc, sq, false, false, st);
    } else if !sq && !dq && b[i] == 39 {
        lemma_scan_line_ok(b, i + 1, line, lc, bc, true, dq, false, st);
    } else if !sq && !dq && b[i] == 34 {
        lemma_scan_line_ok(b, i + 1, line, lc, bc, sq, true, false, st);
    } else if !sq && !dq && b[i] == 123 {
        let st2 = (st.0, st.1.push(line), st.2);
        assert(scan_state_ok(st2, line));
        lemma_scan_line_ok(b, i + 1, line, lc, bc, sq, dq, false, st2);
    } else if !sq && !dq && b[i] == 125 && st.1.len() > 0 {
        let st2 = (st.0, st.1.drop_last(), st.2.push((st.1.last(), line)));
        assert(st.1.last() == st.1[st.1.len() - 1]);
        assert(scan_state_ok(st2, line)) by {
            assert forall|k: int| 0 <= k < st2.2.len() implies 0 <= (#[trigger] st2.2[k]).0 <= st2.2[k].1 <= line by {
                if k < st.2.len() {
                    assert(st2.2[k] == st.2[k]);
                }
            }
        }
        lemma_scan_line_ok(b, i + 1, line, lc, bc, sq, dq, false, st2);
    } else {
        lemma_scan_line_ok(b, i + 1, line, lc, bc, sq, dq, false, st);
    }
}

proof fn lemma_scan_lines_ok(lines: Seq<Seq<u8>>, n: int, lc: Seq<u8>, bc: bool)
    requires
        0 <= n,
    ensures
        scan_state_ok(scan_lines(lines, n, lc, bc), n - 1),
    decreases n,
{
    if n > 0 {
        lemma_scan_lines_ok(lines, n - 1, lc, bc);
        let st = scan_lines(lines, n - 1, lc, bc);
        assert(scan_state_ok(st, n - 1));
        lemma_scan_line_ok(lines[n - 1], 0, n - 1, lc, bc, false, false, false, st);
    }
}

/// Every brace pair opens on or before the line it closes on, and both
/// lines are lines of the file.
pub proof fn law_brace_pairs_ordered(c: Seq<Seq<char>>, ext: Seq<char>)
    ensures
        forall|k: int|
            0 <= k < brace_pairs_spec(c, ext).len() ==> 0 <= (#[trigger] brace_pairs_spec(c, ext)[k]).0
                <= brace_pairs_spec(c, ext)[k].1 < c.len(),
{
    lemma_scan_lines_ok(line_bytes(c), c.len() as int, line_comment_for(ext), block_comments_for(ext));
}


/// The UTF-8 length of the leading whitespace of `c`.
pub open spec fn lead_ws(c: Seq<char>) -> int {
    encode_utf8(c.take(c.len() - trim_start(c).len())).len() as int
}

/// The UTF-8 length of the leading whitespace of `s`.
pub fn leading_ws(s: &str) -> (n: usize)
    ensures
        n == lead_ws(s@),
{
    let cs = chars_of(s);
    let k = trim_start_len(cs.as_slice());
    let head = sub_chars(cs.as_slice(), 0, k);
    let hs = string_of(head.as_slice());
    assert(head@ =~= s@.take(s@.len() - trim_start(s@).len()));
    hs.as_str().as_bytes().len()
}

/// `t` starts with `p`.
pub open spec fn starts_with(t: Seq<char>, p: Seq<char>) -> bool {
    p.len() <= t.len() && t.take(p.len() as int) == p
}

/// Whether `t` starts with `p`.
pub fn starts_with_chars(t: &[char], p: &str) -> (r: bool)
    ensures
        r == starts_with(t@, p@),
{
    let pc = chars_of(p);
    if pc.len() > t.len() {
        return false;
    }
    let mut k: usize = 0;
    while k < pc.len()
        invariant
            k <= pc@.len() <= t@.len(),
            pc@ == p@,
            forall|j: int| 0 <= j < k ==> t@[j] == pc@[j],
        decreases pc@.len() - k,
    {
        if t[k] != pc[k] {
            assert(t@.take(pc@.len() as int)[k as int] != pc@[k as int]);
            return false;
        }
        k = k + 1;
    }
    assert(t@.take(pc@.len() as int) =~= pc@);
    true
}

/// A line that does not end an indentation block: blank, or a `#`
/// comment, or (with `slashes`) a `//` comment.
pub open spec fn skippable(c: Seq<char>, slashes: bool) -> bool {
    let t = trim(c);
    ||| t.len() == 0
    ||| starts_with(t, "#"@)
    ||| slashes && starts_with(t, "//"@)
}

/// The last line of the block that continues from line `from`: the line
/// before the first line at or after `from` that is not skippable and is
/// indented no deeper than `indent`; else the last line.
pub open spec fn dedent_end(c: Seq<Seq<char>>, from: int, indent: int, slashes: bool) -> int
    decreases c.len() - from,
{
    if from < 0 || from >= c.len() {
        c.len() - 1
    } else if !skippable(c[from], slashes) && lead_ws(c[from]) <= indent {
        from - 1
    } else {
        dedent_end(c, from + 1, indent, slashes)
    }
}

/// The last non-blank line at or before `i` indented less than `indent`,
/// or -1.
pub open spec fn header_at_or_before(c: Seq<Seq<char>>, i: int, indent: int) -> int
    decreases i + 1,
{
    if i < 0 || i >= c.len() {
        -1
    } else if trim(c[i]).len() > 0 && lead_ws(c[i]) < indent {
        i
    } else {
        header_at_or_before(c, i - 1, indent)
    }
}

/// Whether line `s` is skippable.
fn is_skippable(s: &str, slashes: bool) -> (r: bool)
    ensures
        r == skippable(s@, slashes),
{
    let cs = chars_of(s);
    let t = trim_chars(cs.as_slice());
    t.len() == 0 || starts_with_chars(t.as_slice(), "#") || (slashes && starts_with_chars(t.as_slice(), "//"))
}

/// Whether line `s` is blank.
fn is_blank(s: &str) -> (r: bool)
    ensures
        r == (trim(s@).len() == 0),
{
    let cs = chars_of(s);
    let t = trim_chars(cs.as_slice());
    t.len() == 0
}

/// See [`dedent_end`].
pub fn find_dedent_end(lines: &[String], from: usize, indent: usize, slashes: bool) -> (r: usize)
    requires
        lines@.len() > 0,
        from >= 1,
    ensures
        r == dedent_end(strings_view(lines@), from as int, indent as int, slashes),
{
    let ghost c = strings_view(lines@);
    let mut i: usize = from;
    while i < lines.len()
        invariant
            from <= i,
            from >= 1,
            lines@.len() > 0,
            c == strings_view(lines@),
            dedent_end(c, from as int, indent as int, slashes) == dedent_end(c, i as int, indent as int, slashes),
        decreases lines@.len() - i,
    {
        if !is_skippable(lines[i].as_str(), slashes) && leading_ws(lines[i].as_str()) <= indent {
            return i - 1;
        }
        i = i + 1;
    }
    lines.len() - 1
}

/// See [`header_at_or_before`]: the header line strictly before `a`.
pub fn find_header_before(lines: &[String], a: usize, indent: usize) -> (r: Option<usize>)
    requires
        a <= lines@.len(),
    ensures
        match r {
            Some(i) => i as int == header_at_or_before(strings_view(lines@), a - 1, indent as int) && i < a,
            None => header_at_or_before(strings_view(lines@), a - 1, indent as int) == -1,
        },
{
    let ghost c = strings_view(lines@);
    let mut i: usize = a;
    while i > 0
        invariant
            i <= a <= lines@.len(),
            c == strings_view(lines@),
            header_at_or_before(c, a - 1, indent as int) == header_at_or_before(c, i - 1, indent as int),
        decreases i,
    {
        let j = i - 1;
        if !is_blank(lines[j].as_str()) && leading_ws(lines[j].as_str()) < indent {
            return Some(j);
        }
        i = j;
    }
    None
}

/// The Ruby keywords that open a block (with the space or bar after them);
/// `with_case_newline` adds `case` followed by a line break.
pub open spec fn ruby_opener(t: Seq<char>, with_case_newline: bool) -> bool {
    ||| starts_with(t, "def "@)
    ||| starts_with(t, "class "@)
    ||| starts_with(t, "module "@)
    ||| starts_with(t, "do "@)
    ||| starts_with(t, "do|"@)
    ||| starts_with(t, "if "@)
    ||| starts_with(t, "unless "@)
    ||| starts_with(t, "while "@)
    ||| starts_with(t, "until "@)
    ||| starts_with(t, "for "@)
    ||| starts_with(t, "begin "@)
    ||| starts_with(t, "case "@)
    ||| with_case_newline && starts_with(t, "case\n"@)
}

/// Whether trimmed line `t` opens a Ruby block.
fn is_ruby_opener(t: &[char], with_case_newline: bool) -> (r: bool)
    ensures
        r == ruby_opener(t@, with_case_newline),
{
    starts_with_chars(t, "def ") || starts_with_chars(t, "class ") || starts_with_chars(t, "module ")
        || starts_with_chars(t, "do ") || starts_with_chars(t, "do|") || starts_with_chars(t, "if ")
        || starts_with_chars(t, "unless ") || starts_with_chars(t, "while ") || starts_with_chars(t, "until ")
        || starts_with_chars(t, "for ") || starts_with_chars(t, "begin ") || starts_with_chars(t, "case ")
        || (with_case_newline && starts_with_chars(t, "case\n"))
}

/// 1 when the condition holds, else 0.
pub open spec fn count_if(b: bool) -> int {
    if b {
        1
    } else {
        0
    }
}

/// Scanning back from line `i`, with `ends` `end` lines and `opens`
/// openers seen so far: the first opener at which the openers catch up
/// with the `end`s, or -1.
pub open spec fn ruby_start_from(c: Seq<Seq<char>>, i: int, ends: int, opens: int, w: bool) -> int
    decreases i + 1,
{
    if i < 0 || i >= c.len() {
        -1
    } else {
        let t = trim(c[i]);
        let e = ends + count_if(t == "end"@);
        let o = opens + count_if(ruby_opener(t, w));
        if ruby_opener(t, w) && e <= o {
            i
        } else {
            ruby_start_from(c, i - 1, e, o, w)
        }
    }
}

/// Scanning forward from line `i` of a block starting at `start`, with
/// `opens` and `ends` counted so far: the line that closes it, or -1.
pub open spec fn ruby_end_from(c: Seq<Seq<char>>, start: int, i: int, opens: int, ends: int, w: bool) -> int
    decreases c.len() - i,
{
    if i < 0 || i >= c.len() {
        -1
    } else {
        let t = trim(c[i]);
        let o = opens + count_if(ruby_opener(t, w));
        let e = ends + count_if(t == "end"@);
        if (i > start && o <= e && t == "end"@) || (i == start && o <= e) {
            i
        } else {
            ruby_end_from(c, start, i + 1, o, e, w)
        }
    }
}

/// The Ruby block around line `a`: its opener scanning back, then its
/// matching `end` scanning forward.
pub open spec fn ruby_block_spec(c: Seq<Seq<char>>, a: int, w: bool) -> Option<(int, int)> {
    let s = ruby_start_from(c, a, 0, 0, w);
    if s < 0 {
        None
    } else {
        let e = ruby_end_from(c, s, s, 0, 0, w);
        if e < 0 {
            None
        } else {
            Some((s, e))
        }
    }
}

/// Trimmed line and whether it is `end`.
fn trimmed_line(s: &str) -> (r: (Vec<char>, bool))
    ensures
        r.0@ == trim(s@),
        r.1 == (trim(s@) == "end"@),
{
    let cs = chars_of(s);
    let t = trim_chars(cs.as_slice());
    let ts = string_of(t.as_slice());
    let is_end = str_eq(ts.as_str(), "end");
    (t, is_end)
}

/// The opener of the Ruby block around line `a` (see [`ruby_start_from`]).
fn ruby_find_start(lines: &[String], a: usize, with_case_newline: bool) -> (r: Option<usize>)
    requires
        a < lines@.len(),
    ensures
        match r {
            Some(s) => s as int == ruby_start_from(strings_view(lines@), a as int, 0, 0, with_case_newline)
                && s <= a,
            None => ruby_start_from(strings_view(lines@), a as int, 0, 0, with_case_newline) == -1,
        },
{
    let ghost c = strings_view(lines@);
    let _n = lines.len();
    let mut ends: usize = 0;
    let mut opens: usize = 0;
    let mut i: usize = a + 1;
    while i > 0
        invariant
            i <= a + 1,
            a < lines@.len(),
            c == strings_view(lines@),
            ends <= a + 1 - i,
            opens <= a + 1 - i,
            ruby_start_from(c, a as int, 0, 0, with_case_newline) == ruby_start_from(
                c,
                i - 1,
                ends as int,
                opens as int,
                with_case_newline,
            ),
        decreases i,
    {
        let j = i - 1;
        let (t, is_end) = trimmed_line(lines[j].as_str());
        let op = is_ruby_opener(t.as_slice(), with_case_newline);
        if is_end {
            ends = ends + 1;
        }
        if op {
            opens = opens + 1;
        }
        if op && ends <= opens {
            return Some(j);
        }
        i = j;
    }
    None
}

/// The line closing the Ruby block that opens at `s` (see [`ruby_end_from`]).
fn ruby_find_end(lines: &[String], s: usize, with_case_newline: bool) -> (r: Option<usize>)
    requires
        s < lines@.len(),
    ensures
        match r {
            Some(e) => e as int == ruby_end_from(strings_view(lines@), s as int, s as int, 0, 0, with_case_newline)
                && s <= e < lines@.len(),
            None => ruby_end_from(strings_view(lines@), s as int, s as int, 0, 0, with_case_newline) == -1,
        },
{
    let ghost c = strings_view(lines@);
    let mut ends: usize = 0;
    let mut opens: usize = 0;
    let mut i: usize = s;
    while i < lines.len()
        invariant
            s <= i <= lines@.len(),
            c == strings_view(lines@),
            ends <= i - s,
            opens <= i - s,
            ruby_end_from(c, s as int, s as int, 0, 0, with_case_newline) == ruby_end_from(
                c,
                s as int,
                i as int,
                opens as int,
                ends as int,
                with_case_newline,
            ),
        decreases lines@.len() - i,
    {
        let (t, is_end) = trimmed_line(lines[i].as_str());
        let op = is_ruby_opener(t.as_slice(), with_case_newline);
        if op {
            opens = opens + 1;
        }
        if is_end {
            ends = ends + 1;
        }
        if (i > s && opens <= ends && is_end) || (i == s && opens <= ends) {
            return Some(i);
        }
        i = i + 1;
    }
    None
}

/// See [`ruby_block_spec`].
pub fn ruby_block(lines: &[String], a: usize, with_case_newline: bool) -> (r: Option<(usize, usize)>)
    requires
        a < lines@.len(),
    ensures
        match r {
            Some(p) => ruby_block_spec(strings_view(lines@), a as int, with_case_newline) == Some(
                (p.0 as int, p.1 as int),
            ),
            None => ruby_block_spec(strings_view(lines@), a as int, with_case_newline) is None,
        },
{
    match ruby_find_start(lines, a, with_case_newline) {
        None => None,
        Some(s) => match ruby_find_end(lines, s, with_case_newline) {
            None => None,
            Some(e) => Some((s, e)),
        },
    }
}

} // verus!
