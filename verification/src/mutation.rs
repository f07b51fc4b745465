//! Line-level mutations of a [`Document`]: replace, insert, delete, swap and
//! move. Every mutation keeps each line's short hash equal to the hash of its
//! content, and never touches the document's line-ending shape.

use vstd::prelude::*;
use crate::text::{chars_of, split_chars, string_of, split_seq, lines_view, lemma_split_nonempty, boxed_str, contains_char, owned, str_eq};
use crate::document::{Document, LineRecord, new_line_record, record_ok};
use crate::error::HashlineError;

verus! {

/// `x` without one trailing CR.
pub open spec fn strip_cr(x: Seq<char>) -> Seq<char> {
    if x.len() > 0 && x.last() == '\r' {
        x.drop_last()
    } else {
        x
    }
}

/// The lines of `s` as `str::lines` yields them (LF or CRLF ends a line, a
/// final line ending is optional), or a single empty line for empty text.
pub open spec fn content_lines_spec(s: Seq<char>) -> Seq<Seq<char>> {
    let p = split_seq(s, '\n');
    if s.len() == 0 {
        seq![Seq::<char>::empty()]
    } else if s.last() == '\n' {
        Seq::new((p.len() - 1) as nat, |i: int| strip_cr(p[i]))
    } else {
        Seq::new(p.len(), |i: int| if i < p.len() - 1 { strip_cr(p[i]) } else { p[i] })
    }
}

/// The lines of `s` as `str::lines` yields them (none for empty text).
pub open spec fn str_lines(s: Seq<char>) -> Seq<Seq<char>> {
    if s.len() == 0 {
        Seq::empty()
    } else {
        content_lines_spec(s)
    }
}

/// Lines `start..=end` of `c` replaced by `new`.
pub open spec fn splice_spec(c: Seq<Seq<char>>, start: int, end: int, new: Seq<Seq<char>>) -> Seq<Seq<char>> {
    c.take(start) + new + c.skip(end + 1)
}

/// `new` inserted into `c` before index `at`.
pub open spec fn insert_spec(c: Seq<Seq<char>>, at: int, new: Seq<Seq<char>>) -> Seq<Seq<char>> {
    c.take(at) + new + c.skip(at)
}

/// `c` with the lines at `a` and `b` exchanged.
pub open spec fn swap_spec(c: Seq<Seq<char>>, a: int, b: int) -> Seq<Seq<char>> {
    c.update(a, c[b]).update(b, c[a])
}

/// Where `move_line` puts the moved line.
pub open spec fn move_target(source: int, target: int, place_before: bool) -> int {
    let adjusted = if source < target { target - 1 } else { target };
    if place_before { adjusted } else { adjusted + 1 }
}

/// `c` with the line at `source` taken out and put back at `at`.
pub open spec fn move_spec(c: Seq<Seq<char>>, source: int, at: int) -> Seq<Seq<char>> {
    c.remove(source).insert(at, c[source])
}

/// Accepts content that is a single line (no LF and no CR).
pub fn validate_single_line_content(content: &str) -> (r: Result<(), HashlineError>)
    ensures
        r is Ok <==> !content@.contains('\n') && !content@.contains('\r'),
        r matches Err(e) ==> e is MultiLineContentUnsupported,
{
    let cs = chars_of(content);
    if contains_char(cs.as_slice(), '\n') || contains_char(cs.as_slice(), '\r') {
        Err(HashlineError::MultiLineContentUnsupported)
    } else {
        Ok(())
    }
}

/// The lines of `content` (see [`content_lines_spec`]); empty content is one empty line.
pub fn split_content_lines(content: &str) -> (r: Vec<Box<str>>)
    ensures
        r@.len() == content_lines_spec(content@).len(),
        forall|i: int| 0 <= i < r@.len() ==> (#[trigger] r@[i])@ == content_lines_spec(content@)[i],
{
    let cs = chars_of(content);
    if cs.len() == 0 {
        let mut r: Vec<Box<str>> = Vec::new();
        r.push(boxed_str(""));
        proof { reveal_strlit(""); }
        return r;
    }
    let parts = split_chars(cs.as_slice(), '\n');
    let ghost p = split_seq(content@, '\n');
    proof { lemma_split_nonempty(content@, '\n'); }
    let ends_lf = cs[cs.len() - 1] == '\n';
    let n = if ends_lf { parts.len() - 1 } else { parts.len() };
    let mut r: Vec<Box<str>> = Vec::new();
    let mut i: usize = 0;
    while i < n
        invariant
            i <= n,
            n <= parts@.len(),
            lines_view(parts@) == p,
            p == split_seq(content@, '\n'),
            content@.len() > 0,
            ends_lf == (content@.last() == '\n'),
            n == if ends_lf { parts@.len() - 1 } else { parts@.len() as int },
            r@.len() == i,
            forall|k: int| 0 <= k < i ==> (#[trigger] r@[k])@ == content_lines_spec(content@)[k],
        decreases n - i,
    {
        let piece = &parts[i];
        let ghost pv = parts@[i as int]@;
        assert(pv == p[i as int]);
        let len = piece.len();
        let strip = i + 1 < parts.len() && len > 0 && piece[len - 1] == '\r';
        let s = if strip {
            let mut head: Vec<char> = Vec::new();
            let mut k: usize = 0;
            while k < len - 1
                invariant
                    k <= len - 1,
                    len == piece@.len(),
                    head@ == piece@.take(k as int),
                decreases len - 1 - k,
            {
                head.push(piece[k]);
                k = k + 1;
                assert(head@ =~= piece@.take(k as int));
            }
            assert(head@ =~= pv.drop_last());
            string_of(head.as_slice())
        } else {
            string_of(piece.as_slice())
        };
        r.push(boxed_str(s.as_str()));
        i = i + 1;
    }
    r
}

/// The document's line count as an index check: `index` names a line.
fn ensure_index(doc: &Document, index: usize) -> (r: Result<(), HashlineError>)
    ensures
        r is Ok <==> index < doc.lines@.len(),
        r matches Err(e) ==> e == (HashlineError::MutationIndexOutOfBounds { index, len: doc.lines@.len() as usize }),
{
    if index < doc.lines.len() {
        Ok(())
    } else {
        Err(HashlineError::MutationIndexOutOfBounds { index, len: doc.lines.len() })
    }
}

/// `index` is a place to insert at (up to one past the last line).
fn ensure_insert_index(doc: &Document, index: usize) -> (r: Result<(), HashlineError>)
    ensures
        r is Ok <==> index <= doc.lines@.len(),
        r matches Err(e) ==> e == (HashlineError::MutationIndexOutOfBounds { index, len: doc.lines@.len() as usize }),
{
    if index <= doc.lines.len() {
        Ok(())
    } else {
        Err(HashlineError::MutationIndexOutOfBounds { index, len: doc.lines.len() })
    }
}

/// `start..=end` is a range of lines.
fn ensure_range(doc: &Document, start: usize, end: usize) -> (r: Result<(), HashlineError>)
    ensures
        r is Ok <==> start <= end && end < doc.lines@.len(),
        r matches Err(e) ==> e == (HashlineError::InvalidMutationRange { start, end, len: doc.lines@.len() as usize }),
{
    if start <= end && end < doc.lines.len() {
        Ok(())
    } else {
        Err(HashlineError::InvalidMutationRange { start, end, len: doc.lines.len() })
    }
}


/// Text with neither LF nor CR.
pub open spec fn single_line(s: Seq<char>) -> bool {
    !s.contains('\n') && !s.contains('\r')
}

/// `a` and `b` have the same path and line-ending shape.
pub open spec fn same_frame(a: Document, b: Document) -> bool {
    &&& a.path == b.path
    &&& a.newline == b.newline
    &&& a.trailing_newline == b.trailing_newline
}

/// The contents of a run of records.
pub open spec fn record_contents(v: Seq<LineRecord>) -> Seq<Seq<char>> {
    Seq::new(v.len(), |i: int| v[i].content@)
}

/// Every record of `v` carries the hash of its content.
pub open spec fn records_ok(v: Seq<LineRecord>) -> bool {
    forall|i: int| 0 <= i < v.len() ==> record_ok(#[trigger] v[i])
}

proof fn lemma_record_contents_concat(a: Seq<LineRecord>, b: Seq<LineRecord>)
    ensures
        record_contents(a + b) == record_contents(a) + record_contents(b),
{
    assert(record_contents(a + b) =~= record_contents(a) + record_contents(b));
}

proof fn lemma_record_contents_sub(a: Seq<LineRecord>, i: int, j: int)
    requires
        0 <= i <= j <= a.len(),
    ensures
        record_contents(a.subrange(i, j)) == record_contents(a).subrange(i, j),
{
    assert(record_contents(a.subrange(i, j)) =~= record_contents(a).subrange(i, j));
}

/// Records for each of `lines`, in order.
fn records_for(lines: &Vec<Box<str>>) -> (r: Vec<LineRecord>)
    ensures
        r@.len() == lines@.len(),
        forall|i: int| 0 <= i < r@.len() ==> (#[trigger] r@[i]).content@ == lines@[i]@,
        records_ok(r@),
{
    let mut r: Vec<LineRecord> = Vec::new();
    let mut i: usize = 0;
    while i < lines.len()
        invariant
            i <= lines@.len(),
            r@.len() == i,
            forall|k: int| 0 <= k < i ==> (#[trigger] r@[k]).content@ == lines@[k]@,
            records_ok(r@),
        decreases lines@.len() - i,
    {
        r.push(new_line_record(&*lines[i]));
        i = i + 1;
    }
    r
}

/// Puts `new` in place of the records `start..end` of `doc`.
fn splice_records(doc: &mut Document, start: usize, end: usize, new: Vec<LineRecord>)
    requires
        start <= end <= old(doc).lines@.len(),
    ensures
        final(doc).lines@ == old(doc).lines@.subrange(0, start as int) + new@
            + old(doc).lines@.subrange(end as int, old(doc).lines@.len() as int),
        same_frame(*old(doc), *final(doc)),
{
    let mut new = new;
    let mut tail = doc.lines.split_off(end);
    doc.lines.truncate(start);
    doc.lines.append(&mut new);
    doc.lines.append(&mut tail);
}

proof fn lemma_splice_contents(old_lines: Seq<LineRecord>, new: Seq<LineRecord>, start: int, end: int, result: Seq<LineRecord>)
    requires
        0 <= start <= end <= old_lines.len(),
        result == old_lines.subrange(0, start) + new + old_lines.subrange(end, old_lines.len() as int),
    ensures
        record_contents(result) == record_contents(old_lines).take(start) + record_contents(new)
            + record_contents(old_lines).skip(end),
        records_ok(old_lines) && records_ok(new) ==> records_ok(result),
{
    let c = record_contents(old_lines);
    lemma_record_contents_sub(old_lines, 0, start);
    lemma_record_contents_sub(old_lines, end, old_lines.len() as int);
    lemma_record_contents_concat(old_lines.subrange(0, start), new);
    lemma_record_contents_concat(old_lines.subrange(0, start) + new, old_lines.subrange(end, old_lines.len() as int));
    assert(c.subrange(0, start) =~= c.take(start));
    assert(c.subrange(end, c.len() as int) =~= c.skip(end));
    if records_ok(old_lines) && records_ok(new) {
        assert forall|i: int| 0 <= i < result.len() implies record_ok(#[trigger] result[i]) by {
            if i < start {
                assert(result[i] == old_lines[i]);
            } else if i < start + new.len() {
                assert(result[i] == new[i - start]);
            } else {
                assert(result[i] == old_lines[i - start - new.len() + end]);
            }
        }
    }
}

/// Replaces line `index` with single-line `content`.
pub fn replace_line(doc: &mut Document, index: usize, content: &str) -> (r: Result<(), HashlineError>)
    ensures
        r is Ok <==> single_line(content@) && index < old(doc).lines@.len(),
        !single_line(content@) ==> r == Err::<(), HashlineError>(HashlineError::MultiLineContentUnsupported),
        single_line(content@) && index >= old(doc).lines@.len() ==> r == Err::<(), HashlineError>(
            HashlineError::MutationIndexOutOfBounds { index, len: old(doc).lines@.len() as usize },
        ),
        r is Ok ==> final(doc).contents() == old(doc).contents().update(index as int, content@),
        r is Err ==> final(doc).lines@ == old(doc).lines@,
        old(doc).wf() ==> final(doc).wf(),
        same_frame(*old(doc), *final(doc)),
{
    validate_single_line_content(content)?;
    ensure_index(doc, index)?;
    if !str_eq(&*doc.lines[index].content, content) {
        let rec = new_line_record(content);
        let _ = doc.lines.remove(index);
        doc.lines.insert(index, rec);
    }
    proof {
        assert(doc.contents() =~= old(doc).contents().update(index as int, content@));
    }
    Ok(())
}


/// Replaces lines `start..=end` with the lines of `content`.
pub fn replace_range(doc: &mut Document, start: usize, end: usize, content: &str) -> (r: Result<(), HashlineError>)
    ensures
        r is Ok <==> start <= end && end < old(doc).lines@.len(),
        r is Err ==> r == Err::<(), HashlineError>(
            HashlineError::InvalidMutationRange { start, end, len: old(doc).lines@.len() as usize },
        ),
        r is Ok ==> final(doc).contents() == splice_spec(
            old(doc).contents(),
            start as int,
            end as int,
            content_lines_spec(content@),
        ),
        r is Err ==> final(doc).lines@ == old(doc).lines@,
        old(doc).wf() ==> final(doc).wf(),
        same_frame(*old(doc), *final(doc)),
{
    ensure_range(doc, start, end)?;
    let _n = doc.lines.len();
    let replacement = split_content_lines(content);
    let recs = records_for(&replacement);
    let ghost old_lines = doc.lines@;
    let ghost new = recs@;
    splice_records(doc, start, end + 1, recs);
    proof {
        lemma_splice_contents(old_lines, new, start as int, end + 1, doc.lines@);
        assert(record_contents(new) =~= content_lines_spec(content@));
        assert(record_contents(old_lines) =~= old(doc).contents());
        assert(record_contents(doc.lines@) =~= doc.contents());
    }
    Ok(())
}

/// Replaces lines `start..=end` with one line, `content`.
pub fn replace_range_with_line(doc: &mut Document, start: usize, end: usize, content: &str) -> (r: Result<(), HashlineError>)
    ensures
        r is Ok <==> single_line(content@) && start <= end && end < old(doc).lines@.len(),
        !single_line(content@) ==> r == Err::<(), HashlineError>(HashlineError::MultiLineContentUnsupported),
        single_line(content@) && !(start <= end && end < old(doc).lines@.len()) ==> r == Err::<(), HashlineError>(
            HashlineError::InvalidMutationRange { start, end, len: old(doc).lines@.len() as usize },
        ),
        r is Ok ==> final(doc).contents() == splice_spec(old(doc).contents(), start as int, end as int, seq![content@]),
        r is Err ==> final(doc).lines@ == old(doc).lines@,
        old(doc).wf() ==> final(doc).wf(),
        same_frame(*old(doc), *final(doc)),
{
    validate_single_line_content(content)?;
    proof { lemma_single_line_content(content@); }
    replace_range(doc, start, end, content)
}

/// Single-line text is its own only line.
proof fn lemma_single_line_content(s: Seq<char>)
    requires
        single_line(s),
    ensures
        content_lines_spec(s) == seq![s],
{
    if s.len() > 0 {
        crate::text::lemma_split_no_sep(s, '\n');
        assert(s[s.len() - 1] != '\n');
        assert(content_lines_spec(s) =~= seq![s]);
    } else {
        assert(s =~= Seq::<char>::empty());
        assert(content_lines_spec(s) =~= seq![s]);
    }
}


/// Inserts the lines of `content` before line `index` (`index` may be one past
/// the last line, which appends).
pub fn insert_line(doc: &mut Document, index: usize, content: &str) -> (r: Result<(), HashlineError>)
    ensures
        r is Ok <==> index <= old(doc).lines@.len(),
        r is Err ==> r == Err::<(), HashlineError>(
            HashlineError::MutationIndexOutOfBounds { index, len: old(doc).lines@.len() as usize },
        ),
        r is Ok ==> final(doc).contents() == insert_spec(old(doc).contents(), index as int, content_lines_spec(content@)),
        r is Ok ==> final(doc).lines@.take(index as int) == old(doc).lines@.take(index as int),
        r is Ok ==> final(doc).lines@.skip(index + content_lines_spec(content@).len()) == old(doc).lines@.skip(
            index as int,
        ),
        r is Ok ==> forall|i: int|
            index <= i < index + content_lines_spec(content@).len() ==> record_ok(#[trigger] final(doc).lines@[i]),
        r is Err ==> final(doc).lines@ == old(doc).lines@,
        old(doc).wf() ==> final(doc).wf(),
        same_frame(*old(doc), *final(doc)),
{
    ensure_insert_index(doc, index)?;
    let lines = split_content_lines(content);
    let recs = records_for(&lines);
    let ghost old_lines = doc.lines@;
    let ghost new = recs@;
    splice_records(doc, index, index, recs);
    proof {
        lemma_splice_contents(old_lines, new, index as int, index as int, doc.lines@);
        assert(record_contents(new) =~= content_lines_spec(content@));
        assert(record_contents(old_lines) =~= old(doc).contents());
        assert(record_contents(doc.lines@) =~= doc.contents());
        assert(new.len() == record_contents(new).len());
        let n = new.len() as int;
        assert(doc.lines@.take(index as int) =~= old_lines.take(index as int));
        assert(doc.lines@.skip(index + n) =~= old_lines.skip(index as int));
        assert forall|i: int| index <= i < index + n implies record_ok(#[trigger] doc.lines@[i]) by {
            assert(doc.lines@[i] == new[i - index]);
        }
    }
    Ok(())
}

/// Removes line `index`.
pub fn delete_line(doc: &mut Document, index: usize) -> (r: Result<(), HashlineError>)
    ensures
        r is Ok <==> index < old(doc).lines@.len(),
        r is Err ==> r == Err::<(), HashlineError>(
            HashlineError::MutationIndexOutOfBounds { index, len: old(doc).lines@.len() as usize },
        ),
        r is Ok ==> final(doc).contents() == old(doc).contents().remove(index as int),
        r is Err ==> final(doc).lines@ == old(doc).lines@,
        old(doc).wf() ==> final(doc).wf(),
        same_frame(*old(doc), *final(doc)),
{
    ensure_index(doc, index)?;
    let _ = doc.lines.remove(index);
    proof {
        assert(doc.contents() =~= old(doc).contents().remove(index as int));
        if old(doc).wf() {
            assert forall|i: int| 0 <= i < doc.lines@.len() implies record_ok(#[trigger] doc.lines@[i]) by {
                if i < index {
                    assert(doc.lines@[i] == old(doc).lines@[i]);
                } else {
                    assert(doc.lines@[i] == old(doc).lines@[i + 1]);
                }
            }
        }
    }
    Ok(())
}

/// Removes lines `start..=end`.
pub fn delete_range(doc: &mut Document, start: usize, end: usize) -> (r: Result<(), HashlineError>)
    ensures
        r is Ok <==> start <= end && end < old(doc).lines@.len(),
        r is Err ==> r == Err::<(), HashlineError>(
            HashlineError::InvalidMutationRange { start, end, len: old(doc).lines@.len() as usize },
        ),
        r is Ok ==> final(doc).contents() == splice_spec(old(doc).contents(), start as int, end as int, Seq::empty()),
        r is Err ==> final(doc).lines@ == old(doc).lines@,
        old(doc).wf() ==> final(doc).wf(),
        same_frame(*old(doc), *final(doc)),
{
    ensure_range(doc, start, end)?;
    let _n = doc.lines.len();
    let recs: Vec<LineRecord> = Vec::new();
    let ghost old_lines = doc.lines@;
    splice_records(doc, start, end + 1, recs);
    proof {
        lemma_splice_contents(old_lines, Seq::empty(), start as int, end + 1, doc.lines@);
        assert(record_contents(Seq::<LineRecord>::empty()) =~= Seq::<Seq<char>>::empty());
        assert(record_contents(old_lines) =~= old(doc).contents());
        assert(record_contents(doc.lines@) =~= doc.contents());
    }
    Ok(())
}

/// The error for a swap or move whose two lines are one line.
fn same_line_error() -> (e: HashlineError)
    ensures
        same_line_error_spec(e),
{
    HashlineError::PatchFailed {
        op_index: 0,
        reason: owned("source and target must resolve to different lines"),
    }
}

/// The error for a swap or move whose two lines are one line.
pub open spec fn same_line_error_spec(e: HashlineError) -> bool {
    e matches HashlineError::PatchFailed { op_index, reason } && op_index == 0
        && reason@ == "source and target must resolve to different lines"@
}

/// Exchanges lines `left` and `right`.
pub fn swap_lines(doc: &mut Document, left: usize, right: usize) -> (r: Result<(), HashlineError>)
    ensures
        r is Ok <==> left < old(doc).lines@.len() && right < old(doc).lines@.len() && left != right,
        left >= old(doc).lines@.len() ==> r == Err::<(), HashlineError>(
            HashlineError::MutationIndexOutOfBounds { index: left, len: old(doc).lines@.len() as usize },
        ),
        left < old(doc).lines@.len() && right >= old(doc).lines@.len() ==> r == Err::<(), HashlineError>(
            HashlineError::MutationIndexOutOfBounds { index: right, len: old(doc).lines@.len() as usize },
        ),
        left < old(doc).lines@.len() && left == right ==> (r matches Err(e) && same_line_error_spec(e)),
        r is Ok ==> final(doc).contents() == swap_spec(old(doc).contents(), left as int, right as int),
        r is Err ==> final(doc).lines@ == old(doc).lines@,
        old(doc).wf() ==> final(doc).wf(),
        same_frame(*old(doc), *final(doc)),
{
    ensure_index(doc, left)?;
    ensure_index(doc, right)?;
    if left == right {
        return Err(same_line_error());
    }
    let (lo, hi) = if left < right { (left, right) } else { (right, left) };
    let high = doc.lines.remove(hi);
    let low = doc.lines.remove(lo);
    doc.lines.insert(lo, high);
    doc.lines.insert(hi, low);
    proof {
        let o = old(doc).lines@;
        assert(doc.lines@ =~= o.update(lo as int, o[hi as int]).update(hi as int, o[lo as int]));
        assert(doc.contents() =~= swap_spec(old(doc).contents(), left as int, right as int));
        if old(doc).wf() {
            assert forall|i: int| 0 <= i < doc.lines@.len() implies record_ok(#[trigger] doc.lines@[i]) by {
                if i == lo {
                    assert(record_ok(o[hi as int]));
                } else if i == hi {
                    assert(record_ok(o[lo as int]));
                } else {
                    assert(record_ok(o[i]));
                }
            }
        }
    }
    Ok(())
}

/// Moves line `source` next to line `target` (before it or after it) and
/// returns the moved line's new index.
pub fn move_line(doc: &mut Document, source: usize, target: usize, place_before: bool) -> (r: Result<usize, HashlineError>)
    ensures
        r is Ok <==> source < old(doc).lines@.len() && target < old(doc).lines@.len() && source != target,
        source >= old(doc).lines@.len() ==> r == Err::<usize, HashlineError>(
            HashlineError::MutationIndexOutOfBounds { index: source, len: old(doc).lines@.len() as usize },
        ),
        source < old(doc).lines@.len() && target >= old(doc).lines@.len() ==> r == Err::<usize, HashlineError>(
            HashlineError::MutationIndexOutOfBounds { index: target, len: old(doc).lines@.len() as usize },
        ),
        source < old(doc).lines@.len() && source == target ==> (r matches Err(e) && same_line_error_spec(e)),
        r matches Ok(at) ==> at == move_target(source as int, target as int, place_before)
            && final(doc).contents() == move_spec(old(doc).contents(), source as int, at as int),
        r is Err ==> final(doc).lines@ == old(doc).lines@,
        old(doc).wf() ==> final(doc).wf(),
        same_frame(*old(doc), *final(doc)),
{
    ensure_index(doc, source)?;
    ensure_index(doc, target)?;
    if source == target {
        return Err(same_line_error());
    }
    let line = doc.lines.remove(source);
    let adjusted = if source < target { target - 1 } else { target };
    let insert_at = if place_before { adjusted } else { adjusted + 1 };
    doc.lines.insert(insert_at, line);
    proof {
        let o = old(doc).lines@;
        assert(doc.lines@ == o.remove(source as int).insert(insert_at as int, o[source as int]));
        assert(doc.contents() =~= move_spec(old(doc).contents(), source as int, insert_at as int));
        if old(doc).wf() {
            let m = o.remove(source as int);
            assert forall|i: int| 0 <= i < m.len() implies record_ok(#[trigger] m[i]) by {
                if i < source {
                    assert(m[i] == o[i]);
                } else {
                    assert(m[i] == o[i + 1]);
                }
            }
            assert forall|i: int| 0 <= i < doc.lines@.len() implies record_ok(#[trigger] doc.lines@[i]) by {
                if i < insert_at {
                    assert(doc.lines@[i] == m[i]);
                } else if i == insert_at {
                    assert(record_ok(o[source as int]));
                } else {
                    assert(doc.lines@[i] == m[i - 1]);
                }
            }
        }
    }
    Ok(insert_at)
}


/// Inserting a single line at `index` and then deleting line `index` gives
/// the original lines back.
pub proof fn law_insert_then_delete(c: Seq<Seq<char>>, index: int, line: Seq<char>)
    requires
        0 <= index <= c.len(),
        single_line(line),
    ensures
        insert_spec(c, index, content_lines_spec(line)).remove(index) == c,
{
    lemma_single_line_content(line);
    assert(insert_spec(c, index, seq![line]).remove(index) =~= c);
}

/// Swapping the same two lines twice gives the original lines back.
pub proof fn law_swap_involution(c: Seq<Seq<char>>, a: int, b: int)
    requires
        0 <= a < c.len(),
        0 <= b < c.len(),
    ensures
        swap_spec(swap_spec(c, a, b), a, b) == c,
{
    assert(swap_spec(swap_spec(c, a, b), a, b) =~= c);
}

/// Deleting the one-line range `index..=index` is deleting line `index`.
pub proof fn law_delete_range_single(c: Seq<Seq<char>>, index: int)
    requires
        0 <= index < c.len(),
    ensures
        splice_spec(c, index, index, Seq::empty()) == c.remove(index),
{
    assert(splice_spec(c, index, index, Seq::empty()) =~= c.remove(index));
}

/// Replacing the one-line range `index..=index` with one line is replacing
/// line `index`.
pub proof fn law_replace_range_single(c: Seq<Seq<char>>, index: int, line: Seq<char>)
    requires
        0 <= index < c.len(),
    ensures
        splice_spec(c, index, index, seq![line]) == c.update(index, line),
{
    assert(splice_spec(c, index, index, seq![line]) =~= c.update(index, line));
}

/// A move keeps the number of lines, puts the moved line at the index it
/// reports, and keeps every other line in its order.
pub proof fn law_move_keeps_lines(c: Seq<Seq<char>>, source: int, target: int, place_before: bool)
    requires
        0 <= source < c.len(),
        0 <= target < c.len(),
        source != target,
    ensures
        0 <= move_target(source, target, place_before) < c.len(),
        move_spec(c, source, move_target(source, target, place_before)).len() == c.len(),
        move_spec(c, source, move_target(source, target, place_before))[move_target(source, target, place_before)] == c[source],
        move_spec(c, source, move_target(source, target, place_before)).remove(move_target(source, target, place_before)) == c.remove(source),
{
    let at = move_target(source, target, place_before);
    let m = move_spec(c, source, at);
    assert(m.remove(at) =~= c.remove(source));
}

} // verus!
