//! Line edits computed straight on a file's text, without building a
//! document: the text is cut into its newline-separated pieces, the target
//! line is checked against its short hash, and the result is the text with
//! that line replaced, removed, moved or re-indented.

use vstd::prelude::*;
use vstd::utf8::encode_utf8;
use crate::text::{split_seq, join_seq, lines_view, chars_of, string_of, split_chars, join_lines, push_chars, push_char,
    push_str, copy_chars, push_lines, owned, boxed_str, lemma_join_split, lemma_split_nonempty, lemma_encode_append, lemma_join_append, lemma_split_join,
    lemma_split_pieces_clean};
use crate::anchor::hash_matches;
use crate::ascii::{has_pair, find_pair, sub_chars, decimal, push_decimal, sub_at, matches_at};
use crate::document::lf_count;
use crate::hash::{short_hash_spec, hex2, short_hash_value, format_short_hash, ShortHash};
use crate::mutation::{strip_cr, str_lines, move_spec, move_target};
use crate::error::HashlineError;

verus! {

/// The newline-separated pieces of `c` (a final newline leaves an empty
/// last piece; a CR before a newline stays in its piece).
pub open spec fn pieces(c: Seq<char>) -> Seq<Seq<char>> {
    split_seq(c, '\n')
}

/// The final CR of `l`, if it has one.
pub open spec fn cr_of(l: Seq<char>) -> Seq<char> {
    if l.len() > 0 && l.last() == '\r' {
        seq!['\r']
    } else {
        Seq::empty()
    }
}

/// The short hash of piece `k`, without its CR.
pub open spec fn piece_hash(c: Seq<char>, k: int) -> u8 {
    short_hash_spec(strip_cr(pieces(c)[k]))
}

/// The separator used when lines are joined again: CRLF when the text holds
/// one anywhere, else LF.
pub open spec fn text_sep(c: Seq<char>) -> Seq<char> {
    if has_pair(c, '\r', '\n') {
        seq!['\r', '\n']
    } else {
        seq!['\n']
    }
}

/// A newline when `c` ends with one.
pub open spec fn final_nl(c: Seq<char>) -> Seq<char> {
    if c.len() > 0 && c.last() == '\n' {
        seq!['\n']
    } else {
        Seq::empty()
    }
}

/// The `len` an out-of-range line number reports: one more than the byte
/// offset at which the last piece starts.
pub open spec fn oob_len(c: Seq<char>) -> int {
    encode_utf8(c.take(c.len() - pieces(c).last().len())).len() + 1int
}

/// `e` is the out-of-range error for line index `k` of `c`.
pub open spec fn out_of_bounds(c: Seq<char>, k: int, e: HashlineError) -> bool {
    e matches HashlineError::MutationIndexOutOfBounds { index, len } && index == k && len == oob_len(c)
}

/// `e` is a stale-anchor error for line `line` (1-based) with the given
/// anchor text and hashes, and with an empty path and context.
pub open spec fn stale(e: HashlineError, anchor: Seq<char>, line: int, expected: u8, actual: u8) -> bool {
    e matches HashlineError::StaleAnchor { anchor: a, line: l, expected: x, actual: y, path, relocated_suffix }
        && a@ == anchor && l == line && x@ == hex2(expected) && y@ == hex2(actual) && path@ == Seq::<char>::empty()
        && relocated_suffix@ == Seq::<char>::empty()
}

/// The anchor text `line:hash`.
pub open spec fn line_hash_text(line: int, h: u8) -> Seq<char> {
    decimal(line as nat) + seq![':'] + hex2(h)
}

/// `e` reports a refused request with the given reason.
pub open spec fn patch_failed(e: HashlineError, reason: Seq<char>) -> bool {
    e matches HashlineError::PatchFailed { op_index, reason: r } && op_index == 0 && r@ == reason
}

proof fn lemma_encode_prefix(c: Seq<char>, i: int)
    requires
        0 <= i <= c.len(),
    ensures
        encode_utf8(c.take(i)).len() <= encode_utf8(c).len(),
{
    lemma_encode_append(c.take(i), c.skip(i));
    assert(c.take(i) + c.skip(i) =~= c);
}

proof fn lemma_last_piece_fits(c: Seq<char>)
    ensures
        pieces(c).len() >= 1,
        pieces(c).last().len() <= c.len(),
{
    lemma_split_nonempty(c, '\n');
    lemma_join_split(c, '\n');
    let p = pieces(c);
    if p.len() > 1 {
        assert(join_seq(p, seq!['\n']) == join_seq(p.drop_last(), seq!['\n']) + seq!['\n'] + p.last());
    }
}

/// A newline, as a separator.
fn nl_sep() -> (v: Vec<char>)
    ensures
        v@ == seq!['\n'],
{
    let mut v: Vec<char> = Vec::new();
    v.push('\n');
    assert(v@ =~= seq!['\n']);
    v
}

/// The characters of `content` and its pieces.
fn pieces_of(content: &str) -> (r: (Vec<char>, Vec<Vec<char>>))
    ensures
        r.0@ == content@,
        lines_view(r.1@) == pieces(content@),
        r.1@.len() >= 1,
{
    let cs = chars_of(content);
    let parts = split_chars(cs.as_slice(), '\n');
    proof {
        lemma_split_nonempty(content@, '\n');
    }
    (cs, parts)
}

/// The out-of-range error for line index `k`.
fn oob_error(cs: &Vec<char>, parts: &Vec<Vec<char>>, k: usize) -> (e: HashlineError)
    requires
        lines_view(parts@) == pieces(cs@),
        encode_utf8(cs@).len() <= isize::MAX,
    ensures
        out_of_bounds(cs@, k as int, e),
{
    proof {
        lemma_last_piece_fits(cs@);
    }
    let n = parts.len();
    let last_len = parts[n - 1].len();
    assert(last_len == pieces(cs@).last().len());
    let start = cs.len() - last_len;
    let head = sub_chars(cs.as_slice(), 0, start);
    let hs = string_of(head.as_slice());
    proof {
        assert(head@ =~= cs@.take(start as int));
        lemma_encode_prefix(cs@, start as int);
    }
    let b = hs.as_str().as_bytes().len();
    HashlineError::MutationIndexOutOfBounds { index: k, len: b + 1 }
}

/// A stale-anchor error with an empty path and context.
fn stale_error(anchor: &str, line: usize, expected: ShortHash, actual: ShortHash) -> (e: HashlineError)
    ensures
        stale(e, anchor@, line as int, expected, actual),
{
    let x = format_short_hash(expected);
    let y = format_short_hash(actual);
    let empty = String::new();
    HashlineError::StaleAnchor {
        anchor: boxed_str(anchor),
        line,
        expected: boxed_str(x.as_str()),
        actual: boxed_str(y.as_str()),
        path: boxed_str(empty.as_str()),
        relocated_suffix: boxed_str(empty.as_str()),
    }
}

/// The anchor text `line:hash`.
fn line_hash_string(line: usize, h: ShortHash) -> (s: String)
    ensures
        s@ == line_hash_text(line as int, h),
{
    let mut s = String::new();
    push_decimal(&mut s, line);
    push_str(&mut s, ":");
    let x = format_short_hash(h);
    push_str(&mut s, x.as_str());
    proof {
        reveal_strlit(":");
    }
    assert(s@ =~= line_hash_text(line as int, h));
    s
}

/// The short hash of a piece without its CR.
fn piece_hash_of(piece: &Vec<char>) -> (h: ShortHash)
    ensures
        h == short_hash_spec(strip_cr(piece@)),
{
    let n = piece.len();
    if n > 0 && piece[n - 1] == '\r' {
        let head = sub_chars(piece.as_slice(), 0, n - 1);
        assert(head@ =~= strip_cr(piece@));
        let s = string_of(head.as_slice());
        short_hash_value(s.as_str())
    } else {
        let s = string_of(piece.as_slice());
        short_hash_value(s.as_str())
    }
}

/// A piece without its CR.
fn strip_cr_of(piece: &Vec<char>) -> (r: Vec<char>)
    ensures
        r@ == strip_cr(piece@),
{
    let n = piece.len();
    if n > 0 && piece[n - 1] == '\r' {
        let r = sub_chars(piece.as_slice(), 0, n - 1);
        assert(r@ =~= strip_cr(piece@));
        r
    } else {
        copy_chars(piece)
    }
}

/// The lines `str::lines` yields, from the text and its pieces.
fn std_lines(cs: &Vec<char>, parts: &Vec<Vec<char>>) -> (r: Vec<Vec<char>>)
    requires
        lines_view(parts@) == pieces(cs@),
    ensures
        lines_view(r@) == str_lines(cs@),
{
    proof {
        lemma_split_nonempty(cs@, '\n');
    }
    let mut r: Vec<Vec<char>> = Vec::new();
    if cs.len() == 0 {
        assert(lines_view(r@) =~= str_lines(cs@));
        return r;
    }
    let ends_lf = cs[cs.len() - 1] == '\n';
    let n = if ends_lf { parts.len() - 1 } else { parts.len() };
    let ghost p = pieces(cs@);
    let mut i: usize = 0;
    while i < n
        invariant
            i <= n,
            n <= parts@.len(),
            cs@.len() > 0,
            ends_lf == (cs@.last() == '\n'),
            n == if ends_lf { parts@.len() - 1 } else { parts@.len() as int },
            lines_view(parts@) == p,
            p == pieces(cs@),
            lines_view(r@) == str_lines(cs@).take(i as int),
        decreases n - i,
    {
        let ghost before = r@;
        let x = if i + 1 < parts.len() {
            strip_cr_of(&parts[i])
        } else {
            copy_chars(&parts[i])
        };
        assert(x@ == str_lines(cs@)[i as int]) by {
            assert(parts@[i as int]@ == p[i as int]);
        }
        r.push(x);
        proof {
            crate::text::lemma_lines_view_push(before, x);
            assert(str_lines(cs@).take(i + 1) =~= str_lines(cs@).take(i as int).push(x@));
        }
        i = i + 1;
    }
    assert(str_lines(cs@).take(n as int) =~= str_lines(cs@));
    r
}

/// The line at 0-based index `line` as `str::lines` yields it.
pub fn get_line_content(content: &str, line: usize) -> (r: Option<String>)
    ensures
        match r {
            Some(s) => line < str_lines(content@).len() && s@ == str_lines(content@)[line as int],
            None => line >= str_lines(content@).len(),
        },
{
    let (cs, parts) = pieces_of(content);
    let v = std_lines(&cs, &parts);
    if line < v.len() {
        assert(v@[line as int]@ == lines_view(v@)[line as int]);
        Some(string_of(v[line].as_slice()))
    } else {
        None
    }
}

/// The lines `start..=end` of `c`, cut off at its last line.
pub open spec fn range_lines(c: Seq<char>, start: int, end: int) -> Seq<Seq<char>> {
    let v = str_lines(c);
    let lo = if start < v.len() { start } else { v.len() as int };
    let hi = if end + 1 < v.len() { end + 1 } else { v.len() as int };
    v.subrange(lo, hi)
}

/// The lines `start..=end` (0-based) as `str::lines` yields them, cut off
/// at the last line.
pub fn get_line_range(content: &str, start: usize, end: usize) -> (r: Vec<String>)
    requires
        start <= end < usize::MAX,
    ensures
        r@.len() == range_lines(content@, start as int, end as int).len(),
        forall|i: int|
            0 <= i < r@.len() ==> (#[trigger] r@[i])@ == range_lines(content@, start as int, end as int)[i],
{
    let (cs, parts) = pieces_of(content);
    let v = std_lines(&cs, &parts);
    let ghost want = range_lines(content@, start as int, end as int);
    let from = if start < v.len() { start } else { v.len() };
    let stop = if end + 1 < v.len() { end + 1 } else { v.len() };
    let mut r: Vec<String> = Vec::new();
    let mut i: usize = from;
    while i < stop
        invariant
            from <= i <= stop <= v@.len(),
            want.len() == stop - from,
            lines_view(v@) == str_lines(content@),
            want == lines_view(v@).subrange(from as int, stop as int),
            r@.len() == i - from,
            forall|k: int| 0 <= k < r@.len() ==> (#[trigger] r@[k])@ == want[k],
        decreases stop - i,
    {
        assert(v@[i as int]@ == want[i - from]);
        r.push(string_of(v[i].as_slice()));
        i = i + 1;
    }
    r
}

/// Replaces line `target_line` (0-based) after checking its short hash.
/// A CR that ended the old line ends the new one too; the old line comes
/// back without it.
pub fn fast_replace_line(content: &str, target_line: usize, expected_hash: ShortHash, new_content: &str) -> (r:
    Result<(String, String), HashlineError>)
    requires
        encode_utf8(content@).len() <= isize::MAX,
    ensures
        ({
            let p = pieces(content@);
            let k = target_line as int;
            match r {
                Ok((text, old)) => k < p.len() && piece_hash(content@, k) == expected_hash && old@ == strip_cr(p[k])
                    && text@ == join_seq(p.update(k, new_content@ + cr_of(p[k])), seq!['\n']),
                Err(e) => if k >= p.len() {
                    out_of_bounds(content@, k, e)
                } else {
                    piece_hash(content@, k) != expected_hash && stale(
                        e,
                        line_hash_text(k + 1, expected_hash),
                        k + 1,
                        expected_hash,
                        piece_hash(content@, k),
                    )
                },
            }
        }),
{
    let (cs, mut parts) = pieces_of(content);
    if target_line >= parts.len() {
        return Err(oob_error(&cs, &parts, target_line));
    }
    let ghost p = pieces(content@);
    let piece = &parts[target_line];
    assert(piece@ == p[target_line as int]);
    let ah = piece_hash_of(piece);
    if ah != expected_hash {
        let a = line_hash_string(target_line + 1, expected_hash);
        return Err(stale_error(a.as_str(), target_line + 1, expected_hash, ah));
    }
    let old = strip_cr_of(piece);
    let n = piece.len();
    let mut line = chars_of(new_content);
    if n > 0 && piece[n - 1] == '\r' {
        line.push('\r');
    }
    assert(line@ =~= new_content@ + cr_of(p[target_line as int]));
    let ghost before = parts@;
    parts.set(target_line, line);
    assert(lines_view(parts@) =~= p.update(target_line as int, line@));
    let text = join_lines(parts.as_slice(), nl_sep().as_slice());
    Ok((text, string_of(old.as_slice())))
}

/// Replaces the line holding the first occurrence of `query` with
/// `new_content`, checking it against its own short hash (so only the
/// range checks can refuse it). Returns the line's index, the new text and
/// the old line.
pub fn fast_query_edit(content: &str, query: &str, new_content: &str) -> (r: Result<
    (usize, String, String),
    HashlineError,
>)
    requires
        encode_utf8(content@).len() <= isize::MAX,
    ensures
        ({
            let at = find_sub_from(content@, query@, 0);
            let n = lf_count(content@.take(at)) as int;
            let p = pieces(content@);
            if at == -1 {
                r matches Err(HashlineError::QueryNotFound { query: q, path }) && q@ == query@ && path@
                    == Seq::<char>::empty()
            } else if n < p.len() {
                r matches Ok((k, text, old)) && k == n && old@ == strip_cr(p[n]) && text@ == join_seq(
                    p.update(n, new_content@ + cr_of(p[n])),
                    seq!['\n'],
                )
            } else {
                r matches Err(e) && out_of_bounds(content@, n, e)
            }
        }),
{
    let n = fast_find_query(content, query)?;
    let (_cs, parts) = pieces_of(content);
    let h: ShortHash = if n < parts.len() { piece_hash_of(&parts[n]) } else { 0 };
    let (text, old) = fast_replace_line(content, n, h, new_content)?;
    Ok((n, text, old))
}

/// Swaps lines `l1` and `l2` (0-based), whole with their CRs, after
/// checking both short hashes.
pub fn fast_swap_lines(content: &str, l1: usize, l2: usize, h1: ShortHash, h2: ShortHash) -> (r: Result<
    String,
    HashlineError,
>)
    requires
        encode_utf8(content@).len() <= isize::MAX,
    ensures
        ({
            let p = pieces(content@);
            match r {
                Ok(text) => l1 != l2 && l1 < p.len() && l2 < p.len() && piece_hash(content@, l1 as int) == h1
                    && piece_hash(content@, l2 as int) == h2 && text@ == join_seq(
                    p.update(l1 as int, p[l2 as int]).update(l2 as int, p[l1 as int]),
                    seq!['\n'],
                ),
                Err(e) => if l1 == l2 {
                    patch_failed(e, "source and target must resolve to different lines"@)
                } else if l1 >= p.len() {
                    out_of_bounds(content@, l1 as int, e)
                } else if l2 >= p.len() {
                    out_of_bounds(content@, l2 as int, e)
                } else if piece_hash(content@, l1 as int) != h1 {
                    stale(e, decimal((l1 + 1) as nat), l1 + 1, h1, h1)
                } else {
                    piece_hash(content@, l2 as int) != h2 && stale(e, decimal((l2 + 1) as nat), l2 + 1, h2, h2)
                },
            }
        }),
{
    if l1 == l2 {
        let reason = owned("source and target must resolve to different lines");
        return Err(HashlineError::PatchFailed { op_index: 0, reason });
    }
    let (cs, mut parts) = pieces_of(content);
    let ghost p = pieces(content@);
    if l1 >= parts.len() {
        return Err(oob_error(&cs, &parts, l1));
    }
    if l2 >= parts.len() {
        return Err(oob_error(&cs, &parts, l2));
    }
    if piece_hash_of(&parts[l1]) != h1 {
        let mut a = String::new();
        push_decimal(&mut a, l1 + 1);
        return Err(stale_error(a.as_str(), l1 + 1, h1, h1));
    }
    if piece_hash_of(&parts[l2]) != h2 {
        let mut a = String::new();
        push_decimal(&mut a, l2 + 1);
        return Err(stale_error(a.as_str(), l2 + 1, h2, h2));
    }
    let x = copy_chars(&parts[l1]);
    let y = copy_chars(&parts[l2]);
    parts.set(l1, y);
    parts.set(l2, x);
    assert(lines_view(parts@) =~= p.update(l1 as int, p[l2 as int]).update(l2 as int, p[l1 as int]));
    Ok(join_lines(parts.as_slice(), nl_sep().as_slice()))
}

/// The text before piece `j`: the pieces before it, each followed by a
/// newline.
pub open spec fn head_text(p: Seq<Seq<char>>, j: int) -> Seq<char> {
    if j <= 0 {
        Seq::empty()
    } else {
        join_seq(p.take(j), seq!['\n']) + seq!['\n']
    }
}

/// `c` with `new` and the text's separator put in at the start of piece
/// `j`, or at the very end when there is no such piece.
pub open spec fn insert_text(c: Seq<char>, j: int, new: Seq<char>) -> Seq<char> {
    let p = pieces(c);
    if j >= p.len() {
        c + new + text_sep(c)
    } else {
        head_text(p, j) + new + text_sep(c) + join_seq(p.skip(j), seq!['\n'])
    }
}

/// The separator of `content`: CRLF when it holds one, else LF.
fn sep_of(cs: &Vec<char>) -> (v: Vec<char>)
    ensures
        v@ == text_sep(cs@),
{
    let mut v: Vec<char> = Vec::new();
    if find_pair(cs.as_slice(), '\r', '\n').is_some() {
        v.push('\r');
    }
    v.push('\n');
    assert(v@ =~= text_sep(cs@));
    v
}

/// The text before piece `j`, then `new`, the separator and the pieces
/// from `j` on.
fn insert_at(cs: &Vec<char>, parts: &Vec<Vec<char>>, j: usize, new_content: &str) -> (r: String)
    requires
        lines_view(parts@) == pieces(cs@),
    ensures
        r@ == insert_text(cs@, j as int, new_content@),
{
    let sep = sep_of(cs);
    let mut r = String::new();
    if j >= parts.len() {
        push_chars(&mut r, cs.as_slice());
        push_str(&mut r, new_content);
        push_chars(&mut r, sep.as_slice());
        return r;
    }
    let ghost p = pieces(cs@);
    if j > 0 {
        let mut head: Vec<Vec<char>> = Vec::new();
        push_lines(&mut head, parts.as_slice(), 0, j);
        assert(lines_view(head@) =~= p.take(j as int));
        let h = join_lines(head.as_slice(), nl_sep().as_slice());
        push_str(&mut r, h.as_str());
        push_char(&mut r, '\n');
    }
    assert(r@ =~= head_text(p, j as int));
    push_str(&mut r, new_content);
    push_chars(&mut r, sep.as_slice());
    let mut tail: Vec<Vec<char>> = Vec::new();
    push_lines(&mut tail, parts.as_slice(), j, parts.len());
    assert(lines_view(tail@) =~= p.skip(j as int));
    let t = join_lines(tail.as_slice(), nl_sep().as_slice());
    push_str(&mut r, t.as_str());
    r
}

/// Inserts `new_content` as a line after line `target_line` (0-based),
/// ending it with the text's separator. Past the last line the content is
/// appended to the very end of the text.
pub fn fast_insert_line(content: &str, target_line: usize, new_content: &str) -> (r: Result<String, HashlineError>)
    ensures
        r matches Ok(text) && text@ == insert_text(content@, target_line + 1, new_content@),
{
    let (cs, parts) = pieces_of(content);
    let j = if target_line < parts.len() { target_line + 1 } else { parts.len() };
    Ok(insert_at(&cs, &parts, j, new_content))
}

/// Inserts `new_content` as a line before line `target_line` (0-based),
/// ending it with the text's separator. Past the last line the content is
/// appended to the very end of the text.
pub fn fast_insert_line_before(content: &str, target_line: usize, new_content: &str) -> (r: Result<
    String,
    HashlineError,
>)
    ensures
        r matches Ok(text) && text@ == insert_text(content@, target_line as int, new_content@),
{
    let (cs, parts) = pieces_of(content);
    let j = if target_line < parts.len() { target_line } else { parts.len() };
    Ok(insert_at(&cs, &parts, j, new_content))
}

/// `c` without lines `start..=end`: the text before `start`, then the
/// pieces after `end`; an empty range leaves `c` as it is.
pub open spec fn delete_text(c: Seq<char>, start: int, end: int) -> Seq<char> {
    let p = pieces(c);
    if end < start {
        c
    } else if end + 1 < p.len() {
        head_text(p, start) + join_seq(p.skip(end + 1), seq!['\n'])
    } else {
        head_text(p, start)
    }
}

/// Deletes lines `start_line..=end_line` (0-based) after checking the short
/// hash of the first.
pub fn fast_delete_lines(content: &str, start_line: usize, end_line: usize, expected_start_hash: ShortHash) -> (r:
    Result<String, HashlineError>)
    requires
        encode_utf8(content@).len() <= isize::MAX,
    ensures
        ({
            let p = pieces(content@);
            let k = start_line as int;
            match r {
                Ok(text) => k < p.len() && piece_hash(content@, k) == expected_start_hash && text@ == delete_text(
                    content@,
                    k,
                    end_line as int,
                ),
                Err(e) => if k >= p.len() {
                    out_of_bounds(content@, k, e)
                } else {
                    piece_hash(content@, k) != expected_start_hash && stale(
                        e,
                        line_hash_text(k + 1, expected_start_hash),
                        k + 1,
                        expected_start_hash,
                        piece_hash(content@, k),
                    )
                },
            }
        }),
{
    let (cs, parts) = pieces_of(content);
    if start_line >= parts.len() {
        return Err(oob_error(&cs, &parts, start_line));
    }
    let ghost p = pieces(content@);
    let ah = piece_hash_of(&parts[start_line]);
    if ah != expected_start_hash {
        let a = line_hash_string(start_line + 1, expected_start_hash);
        return Err(stale_error(a.as_str(), start_line + 1, expected_start_hash, ah));
    }
    if end_line < start_line {
        return Ok(owned(content));
    }
    let mut r = String::new();
    if start_line > 0 {
        let mut head: Vec<Vec<char>> = Vec::new();
        push_lines(&mut head, parts.as_slice(), 0, start_line);
        assert(lines_view(head@) =~= p.take(start_line as int));
        let h = join_lines(head.as_slice(), nl_sep().as_slice());
        push_str(&mut r, h.as_str());
        push_char(&mut r, '\n');
    }
    assert(r@ =~= head_text(p, start_line as int));
    if end_line < parts.len() - 1 {
        let mut tail: Vec<Vec<char>> = Vec::new();
        push_lines(&mut tail, parts.as_slice(), end_line + 1, parts.len());
        assert(lines_view(tail@) =~= p.skip(end_line + 1));
        let t = join_lines(tail.as_slice(), nl_sep().as_slice());
        push_str(&mut r, t.as_str());
    }
    Ok(r)
}

/// The inputs [`fast_replace_range`] handles: once the first line passes
/// its checks, the range may not run backwards, and a range ending at the
/// largest line number must pass its end check too.
pub open spec fn range_accepted(c: Seq<char>, sl: int, el: int, esh: u8, eeh: u8) -> bool {
    let p = pieces(c);
    let last = if el < p.len() { el } else { p.len() - 1 };
    let first_ok = sl < p.len() && piece_hash(c, sl) == esh;
    &&& first_ok ==> sl <= el
    &&& first_ok && el == usize::MAX ==> piece_hash(c, last) == eeh
}

/// What replacing lines `sl..=el` of `c` with `nc` after checking the short
/// hashes of the first and last gives.
pub open spec fn range_outcome(c: Seq<char>, sl: int, el: int, esh: u8, eeh: u8, nc: Seq<char>, r: Result<
    (String, String, String),
    HashlineError,
>) -> bool {
    let p = pieces(c);
    let s = sl;
    let last = if el < p.len() { el } else { p.len() - 1 };
    match r {
        Ok((text, first, end)) => s < p.len() && piece_hash(c, s) == esh && piece_hash(c, last)
            == eeh && first@ == strip_cr(p[s]) && end@ == strip_cr(p[last]) && text@ == join_seq(
            p.take(s) + seq![nc] + p.skip(last + 1),
            seq!['\n'],
        ),
        Err(e) => if s >= p.len() {
            out_of_bounds(c, s, e)
        } else if piece_hash(c, s) != esh {
            stale(e, line_hash_text(s + 1, esh), s + 1, esh, piece_hash(c, s))
        } else {
            piece_hash(c, last) != eeh && stale(
                e,
                line_hash_text(el + 1, eeh),
                el + 1,
                eeh,
                piece_hash(c, last),
            )
        },
    }
}

/// Replaces a range as [`fast_replace_range`] does where it accepts the
/// input (see [`range_accepted`]); `None` where it does not.
pub fn fast_replace_range_checked(content: &str, sl: usize, el: usize, esh: ShortHash, eeh: ShortHash, nc: &str) -> (r:
    Option<Result<(String, String, String), HashlineError>>)
    requires
        encode_utf8(content@).len() <= isize::MAX,
    ensures
        r is Some <==> range_accepted(content@, sl as int, el as int, esh, eeh),
        r matches Some(x) ==> range_outcome(content@, sl as int, el as int, esh, eeh, nc@, x),
{
    let (_cs, parts) = pieces_of(content);
    if sl < parts.len() && piece_hash_of(&parts[sl]) == esh {
        if sl > el {
            return None;
        }
        let last = if el < parts.len() { el } else { parts.len() - 1 };
        if el == usize::MAX && piece_hash_of(&parts[last]) != eeh {
            return None;
        }
    }
    Some(fast_replace_range(content, sl, el, esh, eeh, nc))
}

/// Replaces lines `sl..=el` (0-based; the end is cut off at the last line)
/// with `nc` after checking the short hashes of the first and the last
/// line. The replaced first and last lines come back without their CRs.
pub fn fast_replace_range(content: &str, sl: usize, el: usize, esh: ShortHash, eeh: ShortHash, nc: &str) -> (r:
    Result<(String, String, String), HashlineError>)
    requires
        range_accepted(content@, sl as int, el as int, esh, eeh),
        encode_utf8(content@).len() <= isize::MAX,
    ensures
        range_outcome(content@, sl as int, el as int, esh, eeh, nc@, r),
{
    let (cs, parts) = pieces_of(content);
    if sl >= parts.len() {
        return Err(oob_error(&cs, &parts, sl));
    }
    let ghost p = pieces(content@);
    let last = if el < parts.len() { el } else { parts.len() - 1 };
    let ah1 = piece_hash_of(&parts[sl]);
    if ah1 != esh {
        let a = line_hash_string(sl + 1, esh);
        return Err(stale_error(a.as_str(), sl + 1, esh, ah1));
    }
    let ah2 = piece_hash_of(&parts[last]);
    if ah2 != eeh {
        let a = line_hash_string(el + 1, eeh);
        return Err(stale_error(a.as_str(), el + 1, eeh, ah2));
    }
    let first = strip_cr_of(&parts[sl]);
    let end = strip_cr_of(&parts[last]);
    let mut out: Vec<Vec<char>> = Vec::new();
    push_lines(&mut out, parts.as_slice(), 0, sl);
    let line = chars_of(nc);
    let ghost before = out@;
    out.push(line);
    proof {
        crate::text::lemma_lines_view_push(before, line);
    }
    push_lines(&mut out, parts.as_slice(), last + 1, parts.len());
    assert(lines_view(out@) =~= p.take(sl as int) + seq![nc@] + p.skip(last + 1));
    let text = join_lines(out.as_slice(), nl_sep().as_slice());
    Ok((text, string_of(first.as_slice()), string_of(end.as_slice())))
}

/// The first index at or after `i` where `q` occurs in `s`, or -1.
pub open spec fn find_sub_from(s: Seq<char>, q: Seq<char>, i: int) -> int
    decreases s.len() + 1 - i,
{
    if i < 0 || i + q.len() > s.len() {
        -1
    } else if sub_at(s, i, q) {
        i
    } else {
        find_sub_from(s, q, i + 1)
    }
}

/// The first index where `q` occurs in `s`.
pub(crate) fn find_sub(s: &[char], q: &[char]) -> (r: Option<usize>)
    ensures
        match r {
            Some(i) => i == find_sub_from(s@, q@, 0) && i + q@.len() <= s@.len(),
            None => find_sub_from(s@, q@, 0) == -1,
        },
{
    let n = s.len();
    if q.len() > n {
        return None;
    }
    if q.len() == 0 {
        assert(s@.subrange(0, 0) =~= q@);
        return Some(0);
    }
    let last = n - q.len();
    let mut i: usize = 0;
    while i <= last
        invariant
            last == n - q@.len(),
            q@.len() >= 1,
            n == s@.len(),
            i <= last + 1,
            find_sub_from(s@, q@, 0) == find_sub_from(s@, q@, i as int),
        decreases last + 1 - i,
    {
        if matches_at(s, i, q) {
            return Some(i);
        }
        i = i + 1;
    }
    None
}

/// The 0-based line on which `query` first occurs in `content`.
pub fn fast_find_query(content: &str, query: &str) -> (r: Result<usize, HashlineError>)
    ensures
        ({
            let at = find_sub_from(content@, query@, 0);
            match r {
                Ok(n) => at >= 0 && n == lf_count(content@.take(at)),
                Err(e) => at == -1 && (e matches HashlineError::QueryNotFound { query: q, path } && q@ == query@
                    && path@ == Seq::<char>::empty()),
            }
        }),
{
    let cs = chars_of(content);
    let qs = chars_of(query);
    let i = match find_sub(cs.as_slice(), qs.as_slice()) {
        Some(i) => i,
        None => {
            return Err(HashlineError::QueryNotFound { query: owned(query), path: String::new() });
        },
    };
    let mut count: usize = 0;
    let mut j: usize = 0;
    while j < i
        invariant
            j <= i <= cs@.len(),
            count <= j,
            count == lf_count(cs@.take(j as int)),
        decreases i - j,
    {
        assert(cs@.take(j + 1).drop_last() =~= cs@.take(j as int));
        if cs[j] == '\n' {
            count = count + 1;
        }
        j = j + 1;
    }
    Ok(count)
}

/// Where a moved line lands once taken out of `n` lines: before `target`,
/// or after it, counted as if the line were already gone.
pub open spec fn move_at(source: int, target: int, place_before: bool, n: int) -> int {
    let adj = if source < target { target - 1 } else { target };
    if place_before {
        adj
    } else if adj + 1 < n - 1 {
        adj + 1
    } else {
        n - 1
    }
}

/// The lines of `v` joined with `sep`, then a newline when `content` ends
/// with one.
fn join_with_final(v: &Vec<Vec<char>>, sep: &Vec<char>, cs: &Vec<char>) -> (r: String)
    ensures
        r@ == join_seq(lines_view(v@), sep@) + final_nl(cs@),
{
    let mut r = join_lines(v.as_slice(), sep.as_slice());
    if cs.len() > 0 && cs[cs.len() - 1] == '\n' {
        push_char(&mut r, '\n');
    }
    assert(r@ =~= join_seq(lines_view(v@), sep@) + final_nl(cs@));
    r
}

/// Moving a line of text by [`fast_move_line`] puts it where
/// `mutation::move_line` puts it among the same lines: for a source and a
/// target that differ and are both lines of the text, the landing index is
/// [`move_target`], so the text returned is the moved lines joined with the
/// text's separator, then the final newline the text had.
pub proof fn law_fast_move_line_matches_move_line(content: Seq<char>, source: int, target: int, place_before: bool)
    requires
        0 <= source < str_lines(content).len(),
        0 <= target < str_lines(content).len(),
        source != target,
    ensures
        move_at(source, target, place_before, str_lines(content).len() as int) == move_target(
            source,
            target,
            place_before,
        ),
        join_seq(
            move_spec(
                str_lines(content),
                source,
                move_at(source, target, place_before, str_lines(content).len() as int),
            ),
            text_sep(content),
        ) + final_nl(content) == join_seq(
            move_spec(str_lines(content), source, move_target(source, target, place_before)),
            text_sep(content),
        ) + final_nl(content),
{
}

/// Reading back the lines of what [`fast_move_line`] returns for LF text
/// gives the lines `mutation::move_line` leaves: the moved lines, unless
/// they end with an empty line and the text had no final newline (then
/// that empty line is not read back).
pub proof fn law_fast_move_line_reads_back_as_move_line(content: Seq<char>, source: int, target: int, place_before: bool)
    requires
        !content.contains('\r'),
        0 <= source < str_lines(content).len(),
        0 <= target < str_lines(content).len(),
        source != target,
        final_nl(content).len() > 0 || move_spec(str_lines(content), source, move_target(source, target, place_before)).last().len()
            > 0,
    ensures
        str_lines(
            join_seq(move_spec(str_lines(content), source, move_target(source, target, place_before)), text_sep(content))
                + final_nl(content),
        ) == move_spec(str_lines(content), source, move_target(source, target, place_before)),
{
    let v = str_lines(content);
    let at = move_target(source, target, place_before);
    let m = move_spec(v, source, at);
    let p = split_seq(content, '\n');
    crate::ascii::lemma_no_pair(content, '\r', '\n', 0);
    assert(text_sep(content) == seq!['\n']);
    crate::text::lemma_split_pieces_clean(content, '\n');
    crate::text::lemma_split_pieces_avoid(content, '\n', '\r');
    assert(content.len() > 0);
    assert forall|i: int| 0 <= i < v.len() implies !(#[trigger] v[i]).contains('\n') && !v[i].contains('\r') by {
        assert(!p[i].contains('\n') && !p[i].contains('\r'));
        if p[i].len() > 0 {
            assert(p[i].last() != '\r') by {
                assert(p[i][p[i].len() - 1] == p[i].last());
            }
        }
        assert(strip_cr(p[i]) == p[i]);
    }
    assert(0 <= at <= v.len() - 1);
    assert(m.len() == v.len());
    assert forall|i: int| 0 <= i < m.len() implies !(#[trigger] m[i]).contains('\n') && !m[i].contains('\r') by {
        let r = v.remove(source);
        if i < at {
            assert(m[i] == r[i]);
        } else if i == at {
            assert(m[i] == v[source]);
        } else {
            assert(m[i] == r[i - 1]);
        }
        if i < at {
            if i < source {
                assert(r[i] == v[i]);
            } else {
                assert(r[i] == v[i + 1]);
            }
        } else if i > at {
            if i - 1 < source {
                assert(r[i - 1] == v[i - 1]);
            } else {
                assert(r[i - 1] == v[i]);
            }
        }
    }
    let j = join_seq(m, seq!['\n']);
    crate::text::lemma_split_join(m, '\n');
    let out = j + final_nl(content);
    if final_nl(content).len() > 0 {
        assert(out =~= j + seq!['\n'] + Seq::<char>::empty());
        assert(!Seq::<char>::empty().contains('\n'));
        crate::text::lemma_split_after_sep(j, Seq::<char>::empty(), '\n');
        let q = split_seq(out, '\n');
        assert(q == m.push(Seq::<char>::empty()));
        assert(out.len() > 0 && out.last() == '\n');
        assert forall|i: int| 0 <= i < m.len() implies strip_cr(q[i]) == m[i] by {
            assert(q[i] == m[i]);
            if m[i].len() > 0 {
                assert(m[i].last() != '\r') by {
                    assert(m[i][m[i].len() - 1] == m[i].last());
                }
            }
        }
        assert(str_lines(out) =~= m);
    } else {
        assert(out =~= j);
        lemma_join_last(m);
        let q = split_seq(out, '\n');
        assert(q == m);
        assert(out.len() > 0 && out.last() != '\n');
        assert forall|i: int| 0 <= i < m.len() - 1 implies strip_cr(q[i]) == m[i] by {
            if m[i].len() > 0 {
                assert(m[i].last() != '\r') by {
                    assert(m[i][m[i].len() - 1] == m[i].last());
                }
            }
        }
        assert(str_lines(out) =~= m);
    }
}

/// A join ending with a nonempty line ends with that line's last character.
proof fn lemma_join_last(m: Seq<Seq<char>>)
    requires
        m.len() > 0,
        m.last().len() > 0,
    ensures
        join_seq(m, seq!['\n']).len() > 0,
        join_seq(m, seq!['\n']).last() == m.last().last(),
{
    if m.len() > 1 {
        let j = join_seq(m, seq!['\n']);
        assert(j == join_seq(m.drop_last(), seq!['\n']) + seq!['\n'] + m.last());
    }
}

/// The inputs [`fast_move_line`] handles: a move whose line passes the
/// checks must be a line of `str::lines` (not the empty piece after a final
/// newline), and a line placed before its target must land inside the
/// lines.
pub open spec fn move_accepted(c: Seq<char>, source: int, target: int, hash: u8, place_before: bool) -> bool {
    let checked = source != target && source < pieces(c).len() && piece_hash(c, source) == hash;
    &&& checked ==> source < str_lines(c).len()
    &&& checked && place_before ==> (if source < target { target - 1 } else { target }) < str_lines(c).len()
}

/// What moving line `source` of `c` next to `target` after checking its
/// short hash gives.
pub open spec fn move_outcome(c: Seq<char>, source: int, target: int, hash: u8, place_before: bool, r: Result<
    String,
    HashlineError,
>) -> bool {
    let p = pieces(c);
    let v = str_lines(c);
    match r {
        Ok(text) => source != target && source < v.len() && piece_hash(c, source) == hash && text@ == join_seq(
            move_spec(v, source, move_at(source, target, place_before, v.len() as int)),
            text_sep(c),
        ) + final_nl(c),
        Err(e) => if source == target {
            patch_failed(e, "source and target must be different"@)
        } else if source >= p.len() {
            out_of_bounds(c, source, e)
        } else {
            piece_hash(c, source) != hash && stale(e, decimal((source + 1) as nat), source + 1, hash, hash)
        },
    }
}

/// Moves a line as [`fast_move_line`] does where it accepts the input (see
/// [`move_accepted`]); `None` where it does not.
pub fn fast_move_line_checked(content: &str, source: usize, target: usize, hash: ShortHash, place_before: bool) -> (r:
    Option<Result<String, HashlineError>>)
    requires
        encode_utf8(content@).len() <= isize::MAX,
    ensures
        r is Some <==> move_accepted(content@, source as int, target as int, hash, place_before),
        r matches Some(x) ==> move_outcome(content@, source as int, target as int, hash, place_before, x),
{
    let (cs, parts) = pieces_of(content);
    let v = std_lines(&cs, &parts);
    let checked = source != target && source < parts.len() && piece_hash_of(&parts[source]) == hash;
    let adj_ok = if source < target { target - 1 < v.len() } else { target < v.len() };
    if checked && (source >= v.len() || (place_before && !adj_ok)) {
        return None;
    }
    assert(lines_view(v@).len() == v@.len());
    Some(fast_move_line(content, source, target, hash, place_before))
}

/// Moves line `source` (0-based) to just before or just after `target`
/// after checking its short hash. The lines are those of `str::lines`,
/// joined again with the text's separator.
pub fn fast_move_line(content: &str, source: usize, target: usize, hash: ShortHash, place_before: bool) -> (r:
    Result<String, HashlineError>)
    requires
        encode_utf8(content@).len() <= isize::MAX,
        move_accepted(content@, source as int, target as int, hash, place_before),
    ensures
        move_outcome(content@, source as int, target as int, hash, place_before, r),
{
    if source == target {
        let reason = owned("source and target must be different");
        return Err(HashlineError::PatchFailed { op_index: 0, reason });
    }
    let (cs, parts) = pieces_of(content);
    if source >= parts.len() {
        return Err(oob_error(&cs, &parts, source));
    }
    if piece_hash_of(&parts[source]) != hash {
        let mut a = String::new();
        push_decimal(&mut a, source + 1);
        return Err(stale_error(a.as_str(), source + 1, hash, hash));
    }
    let mut v = std_lines(&cs, &parts);
    let ghost lv = str_lines(content@);
    let ghost n = lv.len() as int;
    let x = v.remove(source);
    assert(lines_view(v@) =~= lv.remove(source as int));
    let adj = if source < target { target - 1 } else { target };
    let at = if place_before {
        adj
    } else if adj < v.len() {
        adj + 1
    } else {
        v.len()
    };
    assert(at == move_at(source as int, target as int, place_before, n));
    let ghost before = v@;
    v.insert(at, x);
    assert(lines_view(v@) =~= move_spec(lv, source as int, at as int));
    let sep = sep_of(&cs);
    Ok(join_with_final(&v, &sep, &cs))
}

/// `l` with up to `n` leading spaces removed.
pub open spec fn drop_spaces(l: Seq<char>, n: int) -> Seq<char>
    decreases l.len(),
{
    if n <= 0 || l.len() == 0 || l[0] != ' ' {
        l
    } else {
        drop_spaces(l.drop_first(), n - 1)
    }
}

/// `n` spaces.
pub open spec fn spaces(n: int) -> Seq<char> {
    Seq::new(n as nat, |i: int| ' ')
}

/// `l` shifted by `delta` columns: spaces put in front, or up to `-delta`
/// leading spaces taken off.
pub open spec fn indent_line(l: Seq<char>, delta: int) -> Seq<char> {
    if delta < 0 {
        drop_spaces(l, -delta)
    } else {
        spaces(delta) + l
    }
}

/// The lines `v` with those in `start..=end` shifted by `delta`.
pub open spec fn indent_lines(v: Seq<Seq<char>>, start: int, end: int, delta: int) -> Seq<Seq<char>> {
    Seq::new(v.len(), |i: int| if start <= i <= end { indent_line(v[i], delta) } else { v[i] })
}

/// One line shifted by `delta` columns.
fn indent_one(l: &Vec<char>, delta: isize) -> (r: Vec<char>)
    requires
        delta > isize::MIN,
    ensures
        r@ == indent_line(l@, delta as int),
{
    if delta < 0 {
        let n = (-delta) as usize;
        let mut k: usize = 0;
        assert(l@.skip(0) =~= l@);
        while k < n && k < l.len() && l[k] == ' '
            invariant
                k <= n,
                k <= l@.len(),
                n == -delta,
                drop_spaces(l@, n as int) == drop_spaces(l@.skip(k as int), n - k),
            decreases n - k,
        {
            assert(l@.skip(k as int).drop_first() =~= l@.skip(k + 1));
            k = k + 1;
        }
        let r = sub_chars(l.as_slice(), k, l.len());
        assert(r@ =~= l@.skip(k as int));
        proof {
            if k < n && k < l@.len() {
                assert(l@.skip(k as int)[0] == l@[k as int]);
            }
        }
        r
    } else {
        let n = delta as usize;
        let mut r: Vec<char> = Vec::new();
        let mut k: usize = 0;
        while k < n
            invariant
                k <= n,
                n == delta,
                r@ == spaces(k as int),
            decreases n - k,
        {
            r.push(' ');
            k = k + 1;
            assert(r@ =~= spaces(k as int));
        }
        let mut j: usize = 0;
        while j < l.len()
            invariant
                j <= l@.len(),
                r@ == spaces(n as int) + l@.take(j as int),
            decreases l@.len() - j,
        {
            r.push(l[j]);
            j = j + 1;
            assert(r@ =~= spaces(n as int) + l@.take(j as int));
        }
        assert(l@.take(j as int) =~= l@);
        r
    }
}

/// What shifting lines `start..=end` of `c` by `delta` after checking the
/// short hash `hash` of the first gives.
pub open spec fn indent_outcome(c: Seq<char>, start: int, end: int, hash: u8, delta: int, r: Result<
    String,
    HashlineError,
>) -> bool {
    let p = pieces(c);
    match r {
        Ok(text) => start < p.len() && piece_hash(c, start) == hash && text@ == join_seq(
            indent_lines(str_lines(c), start, end, delta),
            text_sep(c),
        ) + final_nl(c),
        Err(e) => if start >= p.len() {
            out_of_bounds(c, start, e)
        } else {
            piece_hash(c, start) != hash && stale(e, decimal((start + 1) as nat), start + 1, hash, hash)
        },
    }
}

/// Shifts lines `start_line..=end_line` (0-based, cut off at the last line)
/// by `delta` columns after checking the short hash of the first. The lines
/// are those of `str::lines`, joined again with the text's separator.
pub fn fast_indent_lines(content: &str, start_line: usize, end_line: usize, hash: ShortHash, delta: isize) -> (r:
    Result<String, HashlineError>)
    requires
        encode_utf8(content@).len() <= isize::MAX,
        delta > isize::MIN,
        indent_accepted(content@, start_line as int, hash),
    ensures
        indent_outcome(content@, start_line as int, end_line as int, hash, delta as int, r),
{
    let (cs, parts) = pieces_of(content);
    if start_line >= parts.len() {
        return Err(oob_error(&cs, &parts, start_line));
    }
    if piece_hash_of(&parts[start_line]) != hash {
        let mut a = String::new();
        push_decimal(&mut a, start_line + 1);
        return Err(stale_error(a.as_str(), start_line + 1, hash, hash));
    }
    let mut v = std_lines(&cs, &parts);
    let ghost lv = str_lines(content@);
    proof {
        if cs@.len() > 0 && cs@.last() == '\n' {
            lemma_split_nonempty(cs@.drop_last(), '\n');
        }
    }
    assert(lines_view(parts@).len() == parts@.len());
    assert(lv.len() >= 1) by {
        if content@.len() == 0 {
            assert(pieces(content@) =~= seq![Seq::<char>::empty()]);
            assert(parts@.len() == 1);
            assert(false);
        } else {
            lemma_split_nonempty(content@.drop_last(), '\n');
            lemma_split_nonempty(content@, '\n');
            if content@.last() == '\n' {
                assert(split_seq(content@, '\n').len() == split_seq(content@.drop_last(), '\n').len() + 1);
            }
        }
    }
    assert(lines_view(v@).len() == v@.len());
    let hi = if end_line < v.len() - 1 { end_line } else { v.len() - 1 };
    let mut i = start_line;
    while i <= hi
        invariant
            start_line <= i,
            i <= hi + 1 || i == start_line,
            hi < usize::MAX,
            hi < v@.len(),
            delta > isize::MIN,
            lv == str_lines(content@),
            hi == if end_line < lv.len() - 1 { end_line as int } else { lv.len() - 1 },
            lines_view(v@) == Seq::new(
                lv.len(),
                |t: int| if start_line <= t < i { indent_line(lv[t], delta as int) } else { lv[t] },
            ),
        decreases hi + 1 - i,
    {
        let ghost before = v@;
        assert(lines_view(v@)[i as int] == lv[i as int]);
        assert(v@[i as int]@ == lv[i as int]);
        let line = indent_one(&v[i], delta);
        let ghost lvb = lines_view(v@);
        v.set(i, line);
        assert(lines_view(v@) =~= lvb.update(i as int, line@));
        assert(lines_view(v@) =~= Seq::new(
            lv.len(),
            |t: int| if start_line <= t < i + 1 { indent_line(lv[t], delta as int) } else { lv[t] },
        ));
        i = i + 1;
    }
    assert(lines_view(v@) =~= indent_lines(lv, start_line as int, end_line as int, delta as int));
    let sep = sep_of(&cs);
    Ok(join_with_final(&v, &sep, &cs))
}

/// Some line of `v` starts with `c`.
pub open spec fn any_starts(v: Seq<Seq<char>>, c: char) -> bool {
    exists|i: int| 0 <= i < v.len() && v[i].len() > 0 && #[trigger] v[i][0] == c
}

/// The number of spaces `l` starts with.
pub open spec fn lead_spaces(l: Seq<char>) -> nat
    decreases l.len(),
{
    if l.len() > 0 && l[0] == ' ' {
        1 + lead_spaces(l.drop_first())
    } else {
        0
    }
}

/// The first line in `a..=b` with fewer than `need` leading spaces.
pub open spec fn first_short(v: Seq<Seq<char>>, a: int, b: int, need: int) -> Option<int>
    decreases b + 1 - a,
{
    if a > b || a >= v.len() {
        None
    } else if lead_spaces(v[a]) < need {
        Some(a)
    } else {
        first_short(v, a + 1, b, need)
    }
}

/// The number of leading spaces of `l`.
fn count_lead_spaces(l: &Vec<char>) -> (n: usize)
    ensures
        n == lead_spaces(l@),
{
    let mut n: usize = 0;
    assert(l@.skip(0) =~= l@);
    while n < l.len() && l[n] == ' '
        invariant
            n <= l@.len(),
            lead_spaces(l@) == n + lead_spaces(l@.skip(n as int)),
        decreases l@.len() - n,
    {
        assert(l@.skip(n as int).drop_first() =~= l@.skip(n + 1));
        n = n + 1;
    }
    proof {
        if n < l@.len() {
            assert(l@.skip(n as int)[0] == l@[n as int]);
        }
    }
    n
}

/// The inputs [`fast_indent_lines`] handles: an empty text's only line
/// passes the hash check but is no line of `str::lines`.
pub open spec fn indent_accepted(c: Seq<char>, start: int, hash: u8) -> bool {
    !(c.len() == 0 && start == 0 && piece_hash(c, 0) == hash)
}

/// What [`fast_indent_guarded`] gives: mixed tab and space indentation or a
/// dedent past a line's leading spaces is refused, else the shift of
/// [`indent_outcome`].
pub open spec fn indent_guarded_outcome(c: Seq<char>, start: int, end: int, hash: u8, amount: int, r: Result<
    String,
    HashlineError,
>) -> bool {
    let v = str_lines(c);
    let hi = if end < v.len() { end } else if v.len() > 0 { v.len() - 1 } else { 0 };
    if any_starts(v, '\t') && any_starts(v, ' ') {
        r matches Err(HashlineError::MixedIndentation { line_no }) && line_no == start + 1
    } else if amount < 0 && first_short(v, start, hi, -amount) is Some {
        let li = first_short(v, start, hi, -amount)->0;
        r matches Err(HashlineError::IndentUnderflow { line_no, amount: n, available, kind }) && line_no == li + 1
            && n == -amount && available == lead_spaces(v[li]) && kind@ == "spaces"@
    } else {
        indent_outcome(c, start, end, hash, amount, r)
    }
}

/// Shifts lines as [`fast_indent_guarded`] does where it accepts the input
/// (see [`indent_accepted`]); `None` where it does not.
pub fn fast_indent_checked(content: &str, start_line: usize, end_line: usize, hash: ShortHash, amount: isize) -> (r:
    Option<Result<String, HashlineError>>)
    requires
        encode_utf8(content@).len() <= isize::MAX,
        amount > isize::MIN,
        start_line < usize::MAX,
    ensures
        r is Some <==> indent_accepted(content@, start_line as int, hash),
        r matches Some(x) ==> indent_guarded_outcome(content@, start_line as int, end_line as int, hash, amount as int, x),
{
    if content.len() == 0 && start_line == 0 {
        let (cs, parts) = pieces_of(content);
        if piece_hash_of(&parts[0]) == hash {
            return None;
        }
    }
    Some(fast_indent_guarded(content, start_line, end_line, hash, amount))
}

/// Shifts lines as [`fast_indent_lines`] does after two checks on the
/// whole text: a text whose lines start with tabs as well as spaces is
/// refused, and a dedent may not take more spaces than a line in the range
/// starts with.
pub fn fast_indent_guarded(content: &str, start_line: usize, end_line: usize, hash: ShortHash, amount: isize) -> (r:
    Result<String, HashlineError>)
    requires
        encode_utf8(content@).len() <= isize::MAX,
        amount > isize::MIN,
        start_line < usize::MAX,
        indent_accepted(content@, start_line as int, hash),
    ensures
        indent_guarded_outcome(content@, start_line as int, end_line as int, hash, amount as int, r),
{
    let (cs, parts) = pieces_of(content);
    let v = std_lines(&cs, &parts);
    let ghost lv = str_lines(content@);
    assert(lines_view(v@).len() == v@.len());
    let mut tabs = false;
    let mut spaces = false;
    let mut i: usize = 0;
    while i < v.len()
        invariant
            i <= v@.len(),
            lines_view(v@) == lv,
            tabs == exists|j: int| 0 <= j < i && lv[j].len() > 0 && #[trigger] lv[j][0] == '\t',
            spaces == exists|j: int| 0 <= j < i && lv[j].len() > 0 && #[trigger] lv[j][0] == ' ',
        decreases v@.len() - i,
    {
        assert(v@[i as int]@ == lv[i as int]);
        if v[i].len() > 0 && v[i][0] == '\t' {
            tabs = true;
        }
        if v[i].len() > 0 && v[i][0] == ' ' {
            spaces = true;
        }
        i = i + 1;
    }
    assert(tabs == any_starts(lv, '\t'));
    assert(spaces == any_starts(lv, ' '));
    if tabs && spaces {
        return Err(HashlineError::MixedIndentation { line_no: start_line + 1 });
    }
    if amount < 0 {
        let need = (-amount) as usize;
        let hi = if end_line < v.len() {
            end_line
        } else if v.len() > 0 {
            v.len() - 1
        } else {
            0
        };
        let mut li = start_line;
        while li <= hi && li < v.len()
            invariant
                start_line <= li,
                hi < usize::MAX || v@.len() == 0,
                lines_view(v@) == lv,
                lv == str_lines(content@),
                need == -amount,
                amount < 0,
                !(any_starts(lv, '\t') && any_starts(lv, ' ')),
                hi == (if end_line < lv.len() {
                    end_line as int
                } else if lv.len() > 0 {
                    lv.len() - 1
                } else {
                    0
                }),
                first_short(lv, start_line as int, hi as int, need as int) == first_short(
                    lv,
                    li as int,
                    hi as int,
                    need as int,
                ),
            decreases v@.len() - li,
        {
            assert(v@[li as int]@ == lv[li as int]);
            let lead = count_lead_spaces(&v[li]);
            if lead < need {
                return Err(
                    HashlineError::IndentUnderflow { line_no: li + 1, amount: need, available: lead, kind: "spaces" },
                );
            }
            li = li + 1;
        }
    }
    fast_indent_lines(content, start_line, end_line, hash, amount)
}

/// The short hashes of the pieces of `c`, each without its CR.
pub open spec fn piece_hashes(c: Seq<char>) -> Seq<u8> {
    Seq::new(pieces(c).len(), |i: int| piece_hash(c, i))
}

proof fn lemma_matches_prefix(h: Seq<u8>, short: u8, j: int)
    requires
        0 <= j <= h.len(),
    ensures
        hash_matches(h.take(j), short).len() <= hash_matches(h, short).len(),
        forall|t: int|
            0 <= t < hash_matches(h.take(j), short).len() ==> hash_matches(h, short)[t] == hash_matches(
                h.take(j),
                short,
            )[t],
    decreases h.len(),
{
    if j < h.len() {
        assert(h.drop_last().take(j) =~= h.take(j));
        lemma_matches_prefix(h.drop_last(), short, j);
    } else {
        assert(h.take(j) =~= h);
    }
}

/// The 0-based line whose content (without its CR) has the short hash
/// `hash`, when exactly one has it.
pub fn fast_from_hash(content: &str, hash: ShortHash) -> (r: Result<usize, HashlineError>)
    ensures
        ({
            let m = hash_matches(piece_hashes(content@), hash);
            match r {
                Ok(i) => m.len() == 1 && i == m[0],
                Err(e) => if m.len() == 0 {
                    e matches HashlineError::HashNotFound { hash: h, path } && h@ == hex2(hash) && path@
                        == Seq::<char>::empty()
                } else {
                    m.len() >= 2 && (e matches HashlineError::AmbiguousHash { hash: h, count, lines, path }
                        && h@ == hex2(hash) && count == 2 && lines@ == decimal((m[0] + 1) as nat) + seq![',', ' ']
                        + decimal((m[1] + 1) as nat) && path@ == Seq::<char>::empty())
                },
            }
        }),
{
    let (cs, parts) = pieces_of(content);
    let ghost hs = piece_hashes(content@);
    let mut found: Option<usize> = None;
    let mut i: usize = 0;
    while i < parts.len()
        invariant
            i <= parts@.len(),
            lines_view(parts@) == pieces(content@),
            hs == piece_hashes(content@),
            hash_matches(hs.take(i as int), hash).len() <= 1,
            match found {
                Some(f) => hash_matches(hs.take(i as int), hash).len() == 1 && f == hash_matches(
                    hs.take(i as int),
                    hash,
                )[0] && f < i,
                None => hash_matches(hs.take(i as int), hash).len() == 0,
            },
        decreases parts@.len() - i,
    {
        let h = piece_hash_of(&parts[i]);
        assert(h == hs[i as int]);
        assert(hs.take(i + 1).drop_last() =~= hs.take(i as int));
        if h == hash {
            match found {
                Some(f) => {
                    proof {
                        lemma_matches_prefix(hs, hash, i + 1);
                    }
                    let mut lines = String::new();
                    push_decimal(&mut lines, f + 1);
                    push_str(&mut lines, ", ");
                    push_decimal(&mut lines, i + 1);
                    proof {
                        reveal_strlit(", ");
                    }
                    assert(lines@ =~= decimal((f + 1) as nat) + seq![',', ' '] + decimal((i + 1) as nat));
                    return Err(
                        HashlineError::AmbiguousHash {
                            hash: format_short_hash(hash),
                            count: 2,
                            lines,
                            path: String::new(),
                        },
                    );
                },
                None => {
                    found = Some(i);
                },
            }
        }
        i = i + 1;
    }
    assert(hs.take(i as int) =~= hs);
    match found {
        Some(f) => Ok(f),
        None => Err(HashlineError::HashNotFound { hash: format_short_hash(hash), path: String::new() }),
    }
}

/// Piece `k` of `c` exists and has the short hash `h`.
pub open spec fn hash_fits(c: Seq<char>, k: int, h: u8) -> bool {
    0 <= k < pieces(c).len() && piece_hash(c, k) == h
}

/// The first `k` in `a..=b`, other than `skip`, whose piece has hash `h`.
pub open spec fn first_fit(c: Seq<char>, h: u8, skip: int, a: int, b: int) -> Option<int>
    decreases b + 1 - a,
{
    if a > b {
        None
    } else if a != skip && hash_fits(c, a, h) {
        Some(a)
    } else {
        first_fit(c, h, skip, a + 1, b)
    }
}

/// The line a hash settles on near `line_no`: the line itself when its hash
/// fits, else the first fitting line within three lines of it.
pub open spec fn fuzzy_spec(c: Seq<char>, line_no: int, h: u8) -> Option<int> {
    if hash_fits(c, line_no, h) {
        Some(line_no)
    } else {
        let n = str_lines(c).len();
        let max = if n > 0 { n - 1 } else { 0 };
        let start = if line_no >= 3 { line_no - 3 } else { 0 };
        let end = if line_no + 3 < max { line_no + 3 } else { max };
        first_fit(c, h, line_no, start, end)
    }
}

/// Whether piece `k` exists and has the short hash `h`.
fn fits(parts: &Vec<Vec<char>>, k: usize, h: ShortHash, c: Ghost<Seq<char>>) -> (r: bool)
    requires
        lines_view(parts@) == pieces(c@),
    ensures
        r == hash_fits(c@, k as int, h),
{
    if k >= parts.len() {
        return false;
    }
    piece_hash_of(&parts[k]) == h
}

/// The line whose hash is `hash`: `line_no` itself, else the first line
/// within three lines of it that has it.
pub fn fast_fuzzy_resolve(content: &str, line_no: usize, hash: ShortHash) -> (r: Option<usize>)
    requires
        line_no <= usize::MAX - 3,
    ensures
        match r {
            Some(k) => fuzzy_spec(content@, line_no as int, hash) == Some(k as int),
            None => fuzzy_spec(content@, line_no as int, hash) is None,
        },
{
    let (cs, parts) = pieces_of(content);
    let c = Ghost(content@);
    if fits(&parts, line_no, hash, c) {
        return Some(line_no);
    }
    let v = std_lines(&cs, &parts);
    let max = if v.len() > 0 { v.len() - 1 } else { 0 };
    let start = if line_no >= 3 { line_no - 3 } else { 0 };
    let end = if line_no + 3 < max { line_no + 3 } else { max };
    assert(lines_view(v@).len() == v@.len());
    assert(fuzzy_spec(content@, line_no as int, hash) == first_fit(
        content@,
        hash,
        line_no as int,
        start as int,
        end as int,
    ));
    let mut a = start;
    while a <= end
        invariant
            start <= a,
            a <= end + 1 || a == start,
            fuzzy_spec(content@, line_no as int, hash) == first_fit(
                content@,
                hash,
                line_no as int,
                start as int,
                end as int,
            ),
            end <= max < usize::MAX,
            lines_view(parts@) == pieces(content@),
            c@ == content@,
            first_fit(content@, hash, line_no as int, start as int, end as int) == first_fit(
                content@,
                hash,
                line_no as int,
                a as int,
                end as int,
            ),
        decreases end + 1 - a,
    {
        if a != line_no && fits(&parts, a, hash, c) {
            return Some(a);
        }
        a = a + 1;
    }
    None
}

/// Replacing a line and cutting the result into lines again gives the new
/// line in that place (without the CR it keeps) and every other line as it
/// was.
pub proof fn law_replace_line_reads_back(c: Seq<char>, k: int, new: Seq<char>)
    requires
        0 <= k < pieces(c).len(),
        !new.contains('\n'),
        !new.contains('\r'),
    ensures
        ({
            let p2 = pieces(c).update(k, new + cr_of(pieces(c)[k]));
            pieces(join_seq(p2, seq!['\n'])) == p2 && strip_cr(p2[k]) == new
        }),
{
    let p = pieces(c);
    let x = new + cr_of(p[k]);
    let p2 = p.update(k, x);
    lemma_split_pieces_clean(c, '\n');
    assert(!x.contains('\n')) by {
        if x.contains('\n') {
            let i = choose|i: int| 0 <= i < x.len() && x[i] == '\n';
            if i < new.len() {
                assert(new[i] == '\n');
            }
        }
    }
    assert forall|i: int| 0 <= i < p2.len() implies !(#[trigger] p2[i]).contains('\n') by {
        if i != k {
            assert(p2[i] == p[i]);
        }
    }
    lemma_split_join(p2, '\n');
    if cr_of(p[k]).len() > 0 {
        assert(x.drop_last() =~= new);
    } else {
        assert(x =~= new);
        if new.len() > 0 {
            assert(new.last() != '\r') by {
                assert(new[new.len() - 1] == new.last());
            }
        }
    }
}

/// Swapping two lines and then swapping them back gives the text back.
pub proof fn law_swap_twice_restores(c: Seq<char>, a: int, b: int)
    requires
        a != b,
        0 <= a < pieces(c).len(),
        0 <= b < pieces(c).len(),
    ensures
        ({
            let p = pieces(c);
            let t = join_seq(p.update(a, p[b]).update(b, p[a]), seq!['\n']);
            let q = pieces(t);
            q == p.update(a, p[b]).update(b, p[a]) && join_seq(q.update(a, q[b]).update(b, q[a]), seq!['\n']) == c
        }),
{
    let p = pieces(c);
    let s1 = p.update(a, p[b]).update(b, p[a]);
    lemma_split_pieces_clean(c, '\n');
    assert forall|i: int| 0 <= i < s1.len() implies !(#[trigger] s1[i]).contains('\n') by {
        if i == a {
            assert(s1[i] == p[b]);
        } else if i == b {
            assert(s1[i] == p[a]);
        } else {
            assert(s1[i] == p[i]);
        }
    }
    lemma_split_join(s1, '\n');
    assert(s1.update(a, s1[b]).update(b, s1[a]) =~= p);
    lemma_join_split(c, '\n');
}

/// Inserting a line before piece `j` (not the first or past the last)
/// gives the pieces with the new line, ending in the text's separator, in
/// that place.
pub proof fn law_insert_adds_piece(c: Seq<char>, j: int, new: Seq<char>)
    requires
        1 <= j < pieces(c).len(),
        !new.contains('\n'),
    ensures
        pieces(insert_text(c, j, new)) == pieces(c).take(j) + seq![new + text_sep(c).drop_last()] + pieces(
            c,
        ).skip(j),
{
    let p = pieces(c);
    let sep = text_sep(c);
    let x = new + sep.drop_last();
    let a = p.take(j);
    let b = p.skip(j);
    let q = a + seq![x] + b;
    assert(join_seq(q, seq!['\n']) == insert_text(c, j, new)) by {
        assert(new + sep =~= x + seq!['\n']);
        lemma_join_append(a, seq![x], seq!['\n']);
        lemma_join_append(a + seq![x], b, seq!['\n']);
        assert(join_seq(seq![x], seq!['\n']) == x);
        assert(insert_text(c, j, new) =~= join_seq(a, seq!['\n']) + seq!['\n'] + x + seq!['\n'] + join_seq(
            b,
            seq!['\n'],
        ));
    }
    assert forall|i: int| 0 <= i < q.len() implies !(#[trigger] q[i]).contains('\n') by {
        lemma_split_pieces_clean(c, '\n');
        if i < j {
            assert(q[i] == p[i]);
        } else if i > j {
            assert(q[i] == p[i - 1]);
        } else {
            assert(q[i] == x);
            if x.contains('\n') {
                let t = choose|t: int| 0 <= t < x.len() && x[t] == '\n';
                if t < new.len() {
                    assert(new[t] == '\n');
                }
            }
        }
    }
    lemma_split_join(q, '\n');
}

/// Inserting a line after line `k` and then deleting the inserted line
/// gives the text back.
pub proof fn law_insert_then_delete_restores(c: Seq<char>, k: int, new: Seq<char>)
    requires
        0 <= k,
        k + 1 < pieces(c).len(),
        !new.contains('\n'),
    ensures
        delete_text(insert_text(c, k + 1, new), k + 1, k + 1) == c,
{
    let p = pieces(c);
    let j = k + 1;
    let x = new + text_sep(c).drop_last();
    let a = p.take(j);
    let b = p.skip(j);
    law_insert_adds_piece(c, j, new);
    let q = pieces(insert_text(c, j, new));
    assert(q == a + seq![x] + b);
    assert(q.take(j) =~= a);
    assert(q.skip(j + 1) =~= b);
    assert(delete_text(insert_text(c, j, new), j, j) == join_seq(a, seq!['\n']) + seq!['\n'] + join_seq(
        b,
        seq!['\n'],
    ));
    lemma_join_append(a, b, seq!['\n']);
    assert(a + b =~= p);
    lemma_join_split(c, '\n');
}

} // verus!
