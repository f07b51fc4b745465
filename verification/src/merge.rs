//! Line-based three-way text merge, used to recover an edit whose anchors
//! went stale: `base` is the text the edit was made against, `target` the
//! text the edit wants, and `current` the text found on disk.

use vstd::prelude::*;
use crate::text::{lines_view, split_seq, join_seq, lemma_join_split, split_chars, join_lines, chars_equal, push_lines, copy_chars, lemma_lines_view_push, chars_of, line_ranges_equal, lemma_split_nonempty};

verus! {

/// The result of a three-way merge.
#[derive(Debug, Clone)]
pub struct MergeResult {
    /// The merged text.
    pub result: String,
    /// How many conflict regions the merge produced.
    pub conflict_count: usize,
}

/// One run of a line diff between an old and a new sequence of lines.
#[derive(Clone, Copy, Debug)]
pub enum DiffOp {
    Equal(usize),
    Delete(usize),
    Insert(usize),
}

/// What one side of a merge did with a run of base lines.
#[derive(Clone, Copy, Debug)]
pub enum SegKind {
    Keep,
    Drop,
    Replace,
}

/// A run of base lines (`base_len`) and the lines that replace them (`ins`).
#[derive(Clone, Copy, Debug)]
pub struct Segment {
    pub kind: SegKind,
    pub base_len: usize,
    pub ins: usize,
}

/// Where one diff run takes the positions `(i, j)` in `old` and `new`, if it fits.
pub open spec fn op_step(old: Seq<Seq<char>>, new: Seq<Seq<char>>, op: DiffOp, i: int, j: int) -> Option<(int, int)> {
    match op {
        DiffOp::Equal(k) => if i + k <= old.len() && j + k <= new.len() && old.subrange(i, i + k)
            == new.subrange(j, j + k) {
            Some((i + k, j + k))
        } else {
            None
        },
        DiffOp::Delete(k) => if i + k <= old.len() {
            Some((i + k, j))
        } else {
            None
        },
        DiffOp::Insert(k) => if j + k <= new.len() {
            Some((i, j + k))
        } else {
            None
        },
    }
}

/// Where a list of diff runs takes the positions `(i, j)`, if every run fits.
pub open spec fn ops_end(old: Seq<Seq<char>>, new: Seq<Seq<char>>, ops: Seq<DiffOp>, i: int, j: int) -> Option<(int, int)>
    decreases ops.len(),
{
    if ops.len() == 0 {
        Some((i, j))
    } else {
        match op_step(old, new, ops[0], i, j) {
            Some((i2, j2)) => ops_end(old, new, ops.drop_first(), i2, j2),
            None => None,
        }
    }
}

/// `ops` turns `old` into `new`.
pub open spec fn is_edit_script(old: Seq<Seq<char>>, new: Seq<Seq<char>>, ops: Seq<DiffOp>) -> bool {
    ops_end(old, new, ops, 0, 0) == Some((old.len() as int, new.len() as int))
}

pub open spec fn op_kind(op: DiffOp) -> int {
    match op {
        DiffOp::Equal(_) => 0,
        DiffOp::Delete(_) => 1,
        DiffOp::Insert(_) => 2,
    }
}

pub open spec fn op_count(op: DiffOp) -> int {
    match op {
        DiffOp::Equal(k) => k as int,
        DiffOp::Delete(k) => k as int,
        DiffOp::Insert(k) => k as int,
    }
}

/// Where one segment takes the positions `(b, o)` in `base` and `other`, if it fits.
pub open spec fn seg_step(base: Seq<Seq<char>>, other: Seq<Seq<char>>, s: Segment, b: int, o: int) -> Option<(int, int)> {
    match s.kind {
        SegKind::Keep => if s.ins == 0 && b + s.base_len <= base.len() && o + s.base_len
            <= other.len() && base.subrange(b, b + s.base_len) == other.subrange(
            o,
            o + s.base_len,
        ) {
            Some((b + s.base_len, o + s.base_len))
        } else {
            None
        },
        SegKind::Drop => if s.ins == 0 && b + s.base_len <= base.len() {
            Some((b + s.base_len, o))
        } else {
            None
        },
        SegKind::Replace => if b + s.base_len <= base.len() && o + s.ins <= other.len() {
            Some((b + s.base_len, o + s.ins))
        } else {
            None
        },
    }
}

/// Where a list of segments takes the positions `(b, o)`, if every segment fits.
pub open spec fn segs_end(base: Seq<Seq<char>>, other: Seq<Seq<char>>, segs: Seq<Segment>, b: int, o: int) -> Option<(int, int)>
    decreases segs.len(),
{
    if segs.len() == 0 {
        Some((b, o))
    } else {
        match seg_step(base, other, segs[0], b, o) {
            Some((b2, o2)) => segs_end(base, other, segs.drop_first(), b2, o2),
            None => None,
        }
    }
}

/// `segs`, read from positions `(b, o)`, accounts for the rest of `base` and `other`.
pub open spec fn segs_cover(base: Seq<Seq<char>>, other: Seq<Seq<char>>, segs: Seq<Segment>, b: int, o: int) -> bool {
    segs_end(base, other, segs, b, o) == Some((base.len() as int, other.len() as int))
}


/// `a` and `b` are runs of one kind.
pub open spec fn same_kind(a: DiffOp, b: DiffOp) -> bool {
    op_kind(a) == op_kind(b)
}

/// One run of `a`'s kind covering both runs.
pub open spec fn joined(a: DiffOp, b: DiffOp) -> DiffOp {
    match a {
        DiffOp::Equal(x) => DiffOp::Equal((x + op_count(b)) as usize),
        DiffOp::Delete(x) => DiffOp::Delete((x + op_count(b)) as usize),
        DiffOp::Insert(x) => DiffOp::Insert((x + op_count(b)) as usize),
    }
}

/// `ops` with adjacent runs of one kind joined, left to right.
pub open spec fn compact(ops: Seq<DiffOp>) -> Seq<DiffOp>
    decreases ops.len(),
{
    if ops.len() == 0 {
        Seq::empty()
    } else {
        let r = compact(ops.drop_last());
        if r.len() > 0 && same_kind(r.last(), ops.last()) {
            r.drop_last().push(joined(r.last(), ops.last()))
        } else {
            r.push(ops.last())
        }
    }
}

/// The segments of diff runs `ops[i..]`: a delete followed by an insert
/// becomes a replace, a lone delete a drop, a lone insert a replace of no
/// base lines, an equal run a keep.
pub open spec fn group_spec(ops: Seq<DiffOp>, i: int) -> Seq<Segment>
    decreases ops.len() - i,
{
    if i < 0 || i >= ops.len() {
        Seq::empty()
    } else {
        match ops[i] {
            DiffOp::Equal(n) => seq![Segment { kind: SegKind::Keep, base_len: n, ins: 0 }] + group_spec(ops, i + 1),
            DiffOp::Delete(n) => if i + 1 < ops.len() && ops[i + 1] is Insert {
                seq![Segment { kind: SegKind::Replace, base_len: n, ins: op_count(ops[i + 1]) as usize }]
                    + group_spec(ops, i + 2)
            } else {
                seq![Segment { kind: SegKind::Drop, base_len: n, ins: 0 }] + group_spec(ops, i + 1)
            },
            DiffOp::Insert(n) => seq![Segment { kind: SegKind::Replace, base_len: 0, ins: n }] + group_spec(ops, i + 1),
        }
    }
}


/// The length of a longest common subsequence of `ov[lo + i..lo + m]` and
/// `nv[lo + j..lo + n]`.
pub open spec fn lcs_from(ov: Seq<Seq<char>>, nv: Seq<Seq<char>>, lo: int, m: int, n: int, i: int, j: int) -> nat
    decreases (m - i) + (n - j),
{
    if i < 0 || j < 0 || i >= m || j >= n {
        0
    } else if ov[lo + i] == nv[lo + j] {
        lcs_from(ov, nv, lo, m, n, i + 1, j + 1) + 1
    } else {
        let a = lcs_from(ov, nv, lo, m, n, i + 1, j);
        let b = lcs_from(ov, nv, lo, m, n, i, j + 1);
        if a >= b { a } else { b }
    }
}

/// The length `c` of the run of equal lines starting `c` lines past
/// `(lo + i, lo + j)`, extended while both stay inside `m` and `n`.
pub open spec fn eq_run(ov: Seq<Seq<char>>, nv: Seq<Seq<char>>, lo: int, m: int, n: int, i: int, j: int, c: int) -> int
    decreases m - i - c,
{
    if c >= 1 && i + c < m && j + c < n && ov[lo + i + c] == nv[lo + j + c] {
        eq_run(ov, nv, lo, m, n, i, j, c + 1)
    } else {
        c
    }
}

/// The diff runs of the greedy walk from `(i, j)` over the middle parts:
/// a run of equal lines where the lines agree, else a deleted line when
/// that keeps the common subsequence longest, else an inserted line; what
/// is left of either side at the end becomes one run.
pub open spec fn lcs_walk(ov: Seq<Seq<char>>, nv: Seq<Seq<char>>, lo: int, m: int, n: int, i: int, j: int) -> Seq<DiffOp>
    decreases (m - i) + (n - j),
{
    if 0 <= i < m && 0 <= j < n {
        if ov[lo + i] == nv[lo + j] {
            let c = eq_run(ov, nv, lo, m, n, i, j, 1);
            if 1 <= c && i + c <= m && j + c <= n {
                seq![DiffOp::Equal(c as usize)] + lcs_walk(ov, nv, lo, m, n, i + c, j + c)
            } else {
                Seq::empty()
            }
        } else if lcs_from(ov, nv, lo, m, n, i + 1, j) >= lcs_from(ov, nv, lo, m, n, i, j + 1) {
            seq![DiffOp::Delete(1)] + lcs_walk(ov, nv, lo, m, n, i + 1, j)
        } else {
            seq![DiffOp::Insert(1)] + lcs_walk(ov, nv, lo, m, n, i, j + 1)
        }
    } else {
        (if 0 <= i < m { seq![DiffOp::Delete((m - i) as usize)] } else { Seq::empty() }) + (if 0 <= j < n {
            seq![DiffOp::Insert((n - j) as usize)]
        } else {
            Seq::empty()
        })
    }
}

/// The length of the common prefix of `ov` and `nv` from `k` on.
pub open spec fn prefix_len(ov: Seq<Seq<char>>, nv: Seq<Seq<char>>, k: int) -> int
    decreases ov.len() - k,
{
    if 0 <= k && k < ov.len() && k < nv.len() && ov[k] == nv[k] {
        prefix_len(ov, nv, k + 1)
    } else {
        k
    }
}

/// The length of the common suffix of `ov` and `nv`, from `s` on, that
/// stays clear of the first `p` lines of each.
pub open spec fn suffix_len(ov: Seq<Seq<char>>, nv: Seq<Seq<char>>, p: int, s: int) -> int
    decreases ov.len() - s,
{
    if 0 <= s && 0 <= p && ov.len() - s > p && nv.len() - s > p && ov[ov.len() - s - 1] == nv[nv.len() - s - 1] {
        suffix_len(ov, nv, p, s + 1)
    } else {
        s
    }
}

/// The line diff of `ov` against `nv`: the common prefix and suffix as
/// equal runs; between them an LCS walk when the middle parts' sizes
/// multiply to at most 200 000, else delete-all then insert-all; adjacent
/// runs of one kind joined.
pub open spec fn diff_spec(ov: Seq<Seq<char>>, nv: Seq<Seq<char>>) -> Seq<DiffOp> {
    let p = prefix_len(ov, nv, 0);
    let sl = suffix_len(ov, nv, p, 0);
    let mo = ov.len() - sl - p;
    let mn = nv.len() - sl - p;
    let pre = if p > 0 { seq![DiffOp::Equal(p as usize)] } else { Seq::empty() };
    let mid = if mo == 0 && mn == 0 {
        Seq::empty()
    } else if mn == 0 {
        seq![DiffOp::Delete(mo as usize)]
    } else if mo == 0 {
        seq![DiffOp::Insert(mn as usize)]
    } else if mo * mn <= 200_000 {
        lcs_walk(ov, nv, p, mo, mn, 0, 0)
    } else {
        seq![DiffOp::Delete(mo as usize), DiffOp::Insert(mn as usize)]
    };
    let suf = if sl > 0 { seq![DiffOp::Equal(sl as usize)] } else { Seq::empty() };
    compact(pre + mid + suf)
}

proof fn lemma_ops_end_push(old: Seq<Seq<char>>, new: Seq<Seq<char>>, ops: Seq<DiffOp>, x: DiffOp, i: int, j: int)
    ensures
        ops_end(old, new, ops.push(x), i, j) == match ops_end(old, new, ops, i, j) {
            Some((i2, j2)) => op_step(old, new, x, i2, j2),
            None => None,
        },
    decreases ops.len(),
{
    assert(ops.push(x)[0] == if ops.len() == 0 { x } else { ops[0] });
    if ops.len() == 0 {
        assert(ops.push(x).drop_first() =~= Seq::<DiffOp>::empty());
        match op_step(old, new, x, i, j) {
            Some((i2, j2)) => {
                assert(ops_end(old, new, Seq::<DiffOp>::empty(), i2, j2) == Some((i2, j2)));
            },
            None => {},
        }
    } else {
        assert(ops.push(x).drop_first() =~= ops.drop_first().push(x));
        match op_step(old, new, ops[0], i, j) {
            Some((i2, j2)) => lemma_ops_end_push(old, new, ops.drop_first(), x, i2, j2),
            None => {},
        }
    }
}

proof fn lemma_segs_end_push(base: Seq<Seq<char>>, other: Seq<Seq<char>>, segs: Seq<Segment>, x: Segment, b: int, o: int)
    ensures
        segs_end(base, other, segs.push(x), b, o) == match segs_end(base, other, segs, b, o) {
            Some((b2, o2)) => seg_step(base, other, x, b2, o2),
            None => None,
        },
    decreases segs.len(),
{
    assert(segs.push(x)[0] == if segs.len() == 0 { x } else { segs[0] });
    if segs.len() == 0 {
        assert(segs.push(x).drop_first() =~= Seq::<Segment>::empty());
        match seg_step(base, other, x, b, o) {
            Some((b2, o2)) => {
                assert(segs_end(base, other, Seq::<Segment>::empty(), b2, o2) == Some((b2, o2)));
            },
            None => {},
        }
    } else {
        assert(segs.push(x).drop_first() =~= segs.drop_first().push(x));
        match seg_step(base, other, segs[0], b, o) {
            Some((b2, o2)) => lemma_segs_end_push(base, other, segs.drop_first(), x, b2, o2),
            None => {},
        }
    }
}

proof fn lemma_ops_end_bounds(old: Seq<Seq<char>>, new: Seq<Seq<char>>, ops: Seq<DiffOp>, i: int, j: int)
    requires
        0 <= i <= old.len(),
        0 <= j <= new.len(),
    ensures
        ops_end(old, new, ops, i, j) matches Some((i2, j2)) ==> i <= i2 <= old.len() && j <= j2
            <= new.len(),
    decreases ops.len(),
{
    if ops.len() > 0 {
        match op_step(old, new, ops[0], i, j) {
            Some((i2, j2)) => lemma_ops_end_bounds(old, new, ops.drop_first(), i2, j2),
            None => {},
        }
    }
}

proof fn lemma_ops_end_prefix(old: Seq<Seq<char>>, new: Seq<Seq<char>>, ops: Seq<DiffOp>, n: int, i: int, j: int)
    requires
        0 <= n <= ops.len(),
        ops_end(old, new, ops, i, j) is Some,
    ensures
        ops_end(old, new, ops.take(n), i, j) is Some,
    decreases ops.len(),
{
    if n > 0 {
        assert(ops.take(n).drop_first() =~= ops.drop_first().take(n - 1));
        match op_step(old, new, ops[0], i, j) {
            Some((i2, j2)) => lemma_ops_end_prefix(old, new, ops.drop_first(), n - 1, i2, j2),
            None => {},
        }
    }
}

/// Two adjacent runs of one kind act as one run of their summed length.
proof fn lemma_op_step_combine(old: Seq<Seq<char>>, new: Seq<Seq<char>>, a: DiffOp, b: DiffOp, c: DiffOp, i: int, j: int)
    requires
        op_kind(a) == op_kind(b),
        op_kind(c) == op_kind(a),
        op_count(c) == op_count(a) + op_count(b),
        0 <= i,
        0 <= j,
    ensures
        op_step(old, new, c, i, j) == match op_step(old, new, a, i, j) {
            Some((i2, j2)) => op_step(old, new, b, i2, j2),
            None => None,
        },
{
    match (a, b, c) {
        (DiffOp::Equal(x), DiffOp::Equal(y), DiffOp::Equal(z)) => {
            if i + z <= old.len() && j + z <= new.len() {
                let l = old.subrange(i, i + z);
                let r = new.subrange(j, j + z);
                if l == r {
                    assert(old.subrange(i, i + x) =~= l.subrange(0, x as int));
                    assert(new.subrange(j, j + x) =~= r.subrange(0, x as int));
                    assert(old.subrange(i + x, i + x + y) =~= l.subrange(x as int, z as int));
                    assert(new.subrange(j + x, j + x + y) =~= r.subrange(x as int, z as int));
                } else {
                    if old.subrange(i, i + x) == new.subrange(j, j + x) && old.subrange(
                        i + x,
                        i + x + y,
                    ) == new.subrange(j + x, j + x + y) {
                        assert forall|k: int| 0 <= k < z implies l[k] == r[k] by {
                            if k < x {
                                assert(l[k] == old.subrange(i, i + x)[k]);
                                assert(r[k] == new.subrange(j, j + x)[k]);
                            } else {
                                assert(l[k] == old.subrange(i + x, i + x + y)[k - x]);
                                assert(r[k] == new.subrange(j + x, j + x + y)[k - x]);
                            }
                        }
                        assert(l =~= r);
                    }
                }
            }
        },
        _ => {},
    }
}

proof fn lemma_ops_end_concat(old: Seq<Seq<char>>, new: Seq<Seq<char>>, a: Seq<DiffOp>, b: Seq<DiffOp>, i: int, j: int)
    ensures
        ops_end(old, new, a + b, i, j) == match ops_end(old, new, a, i, j) {
            Some((i2, j2)) => ops_end(old, new, b, i2, j2),
            None => None,
        },
    decreases a.len(),
{
    if a.len() == 0 {
        assert(a + b =~= b);
    } else {
        assert((a + b).drop_first() =~= a.drop_first() + b);
        assert((a + b)[0] == a[0]);
        match op_step(old, new, a[0], i, j) {
            Some((i2, j2)) => lemma_ops_end_concat(old, new, a.drop_first(), b, i2, j2),
            None => {},
        }
    }
}

/// The last run of `r` absorbs `op` when both are of one kind.
proof fn lemma_compact_step(old: Seq<Seq<char>>, new: Seq<Seq<char>>, r: Seq<DiffOp>, op: DiffOp, c: DiffOp)
    requires
        r.len() > 0,
        op_kind(r.last()) == op_kind(op),
        op_kind(c) == op_kind(op),
        op_count(c) == op_count(r.last()) + op_count(op),
    ensures
        ops_end(old, new, r.drop_last().push(c), 0, 0) == ops_end(old, new, r.push(op), 0, 0),
{
    let r0 = r.drop_last();
    assert(r0.push(r.last()) =~= r);
    lemma_ops_end_push(old, new, r0, c, 0, 0);
    lemma_ops_end_push(old, new, r, op, 0, 0);
    lemma_ops_end_push(old, new, r0, r.last(), 0, 0);
    lemma_ops_end_bounds(old, new, r0, 0, 0);
    match ops_end(old, new, r0, 0, 0) {
        Some((i, j)) => lemma_op_step_combine(old, new, r.last(), op, c, i, j),
        None => {},
    }
}

/// Joins adjacent runs of one kind into a single run.
fn merge_adjacent(ops: &Vec<DiffOp>, Ghost(old): Ghost<Seq<Seq<char>>>, Ghost(new): Ghost<Seq<Seq<char>>>) -> (r: Vec<DiffOp>)
    requires
        ops_end(old, new, ops@, 0, 0) is Some,
        old.len() <= usize::MAX,
        new.len() <= usize::MAX,
    ensures
        ops_end(old, new, r@, 0, 0) == ops_end(old, new, ops@, 0, 0),
        ops@.len() <= 1 ==> r@ == ops@,
        r@ == compact(ops@),
{
    let mut r: Vec<DiffOp> = Vec::new();
    let mut i: usize = 0;
    while i < ops.len()
        invariant
            i <= ops@.len(),
            ops_end(old, new, ops@, 0, 0) is Some,
            old.len() <= usize::MAX,
            new.len() <= usize::MAX,
            ops_end(old, new, r@, 0, 0) == ops_end(old, new, ops@.take(i as int), 0, 0),
            i <= 1 ==> r@ == ops@.take(i as int),
            r@ == compact(ops@.take(i as int)),
        decreases ops@.len() - i,
    {
        let op = ops[i];
        let ghost ri = r@;
        proof {
            assert(ops@.take(i + 1) =~= ops@.take(i as int).push(op));
            assert(ops@.take(i + 1).drop_last() =~= ops@.take(i as int));
            lemma_ops_end_prefix(old, new, ops@, i + 1, 0, 0);
            lemma_ops_end_push(old, new, ops@.take(i as int), op, 0, 0);
            lemma_ops_end_push(old, new, ri, op, 0, 0);
        }
        let n = r.len();
        if n == 0 {
            r.push(op);
        } else {
            let last = r[n - 1];
            let ghost r0 = ri.drop_last();
            proof {
                assert(r0.push(last) =~= ri);
                lemma_ops_end_push(old, new, r0, last, 0, 0);
                lemma_ops_end_bounds(old, new, r0, 0, 0);
            }
            match (last, op) {
                (DiffOp::Equal(a), DiffOp::Equal(b)) => {
                    let c = DiffOp::Equal(a + b);
                    proof { lemma_compact_step(old, new, ri, op, c); }
                    r.set(n - 1, c);
                    assert(r@ =~= r0.push(c));
                },
                (DiffOp::Delete(a), DiffOp::Delete(b)) => {
                    let c = DiffOp::Delete(a + b);
                    proof { lemma_compact_step(old, new, ri, op, c); }
                    r.set(n - 1, c);
                    assert(r@ =~= r0.push(c));
                },
                (DiffOp::Insert(a), DiffOp::Insert(b)) => {
                    let c = DiffOp::Insert(a + b);
                    proof { lemma_compact_step(old, new, ri, op, c); }
                    r.set(n - 1, c);
                    assert(r@ =~= r0.push(c));
                },
                _ => {
                    r.push(op);
                },
            }
        }
        i = i + 1;
    }
    assert(ops@.take(i as int) =~= ops@);
    r
}

/// A row of `n` zeros.
fn zero_row(n: usize) -> (r: Vec<u32>)
    ensures
        r@.len() == n,
        forall|x: int| 0 <= x < n ==> r@[x] == 0,
{
    let mut r: Vec<u32> = Vec::new();
    let mut k: usize = 0;
    while k < n
        invariant
            k <= n,
            r@.len() == k,
            forall|x: int| 0 <= x < k ==> r@[x] == 0,
        decreases n - k,
    {
        r.push(0);
        k = k + 1;
    }
    r
}

/// Diff of `old[lo..o_hi]` against `new[lo..n_hi]` along a longest common
/// subsequence (a table of suffix LCS lengths, then a greedy walk).
fn lcs_diff(old: &[Vec<char>], new: &[Vec<char>], lo: usize, o_hi: usize, n_hi: usize) -> (r: Vec<DiffOp>)
    requires
        lo < o_hi <= old@.len(),
        lo < n_hi <= new@.len(),
        (o_hi - lo) * (n_hi - lo) <= 200_000,
    ensures
        ops_end(lines_view(old@), lines_view(new@), r@, lo as int, lo as int) == Some(
            (o_hi as int, n_hi as int),
        ),
        r@ == lcs_walk(lines_view(old@), lines_view(new@), lo as int, o_hi - lo, n_hi - lo, 0, 0),
{
    let ghost ov = lines_view(old@);
    let ghost nv = lines_view(new@);
    let m = o_hi - lo;
    let n = n_hi - lo;
    assert(m <= 200_000) by (nonlinear_arith)
        requires m * n <= 200_000, n >= 1;
    assert(n <= 200_000) by (nonlinear_arith)
        requires m * n <= 200_000, m >= 1;
    // rows[k] holds the LCS lengths of old[lo + m - k..o_hi] against new[lo + j..n_hi].
    let mut rows: Vec<Vec<u32>> = Vec::new();
    rows.push(zero_row(n + 1));
    assert forall|t: int, x: int|
        0 <= t < 1 && 0 <= x <= n implies #[trigger] rows@[t]@[x] == lcs_from(ov, nv, lo as int, m as int, n as int, m - t, x) by {
        assert(rows@[t]@[x] == 0);
    }
    let mut k: usize = 1;
    while k <= m
        invariant
            1 <= k <= m + 1,
            m <= 200_000,
            n <= 200_000,
            m == o_hi - lo,
            n == n_hi - lo,
            lo < o_hi <= old@.len(),
            lo < n_hi <= new@.len(),
            rows@.len() == k,
            ov == lines_view(old@),
            nv == lines_view(new@),
            forall|t: int| 0 <= t < k ==> (#[trigger] rows@[t])@.len() == n + 1,
            forall|t: int, x: int| 0 <= t < k && 0 <= x <= n ==> #[trigger] rows@[t]@[x] <= t,
            forall|t: int, x: int|
                0 <= t < k && 0 <= x <= n ==> #[trigger] rows@[t]@[x] == lcs_from(ov, nv, lo as int, m as int, n as int, m - t, x),
        decreases m + 1 - k,
    {
        let i = m - k;
        let mut row = zero_row(n + 1);
        let mut jj: usize = n;
        assert(row@[n as int] == lcs_from(ov, nv, lo as int, m as int, n as int, i as int, n as int));
        while jj > 0
            invariant
                jj <= n,
                1 <= k <= m <= 200_000,
                n <= 200_000,
                i == m - k,
                m == o_hi - lo,
                n == n_hi - lo,
                lo < o_hi <= old@.len(),
                lo < n_hi <= new@.len(),
                rows@.len() == k,
                row@.len() == n + 1,
                ov == lines_view(old@),
                nv == lines_view(new@),
                forall|t: int| 0 <= t < k ==> (#[trigger] rows@[t])@.len() == n + 1,
                forall|t: int, x: int| 0 <= t < k && 0 <= x <= n ==> #[trigger] rows@[t]@[x] <= t,
                forall|t: int, x: int|
                    0 <= t < k && 0 <= x <= n ==> #[trigger] rows@[t]@[x] == lcs_from(ov, nv, lo as int, m as int, n as int, m - t, x),
                forall|x: int| 0 <= x <= n ==> row@[x] <= k,
                forall|x: int| jj <= x <= n ==> #[trigger] row@[x] == lcs_from(ov, nv, lo as int, m as int, n as int, i as int, x),
            decreases jj,
        {
            let j = jj - 1;
            let prev = &rows[k - 1];
            proof {
                assert(ov[lo + i] == old@[lo + i]@);
                assert(nv[lo + j] == new@[lo + j]@);
                assert(prev@[j + 1] == lcs_from(ov, nv, lo as int, m as int, n as int, i + 1, j + 1));
                assert(prev@[j as int] == lcs_from(ov, nv, lo as int, m as int, n as int, i + 1, j as int));
            }
            let v: u32 = if chars_equal(old[lo + i].as_slice(), new[lo + j].as_slice()) {
                prev[j + 1] + 1
            } else {
                let down = prev[j];
                let right = row[j + 1];
                if down >= right { down } else { right }
            };
            row.set(j, v);
            jj = j;
        }
        rows.push(row);
        k = k + 1;
    }
    let mut r: Vec<DiffOp> = Vec::new();
    let mut i: usize = 0;
    let mut j: usize = 0;
    while i < m && j < n
        invariant
            i <= m,
            j <= n,
            m == o_hi - lo,
            n == n_hi - lo,
            lo < o_hi <= old@.len(),
            lo < n_hi <= new@.len(),
            rows@.len() == m + 1,
            forall|t: int| 0 <= t <= m ==> (#[trigger] rows@[t])@.len() == n + 1,
            forall|t: int, x: int|
                0 <= t <= m && 0 <= x <= n ==> #[trigger] rows@[t]@[x] == lcs_from(ov, nv, lo as int, m as int, n as int, m - t, x),
            ov == lines_view(old@),
            nv == lines_view(new@),
            ops_end(ov, nv, r@, lo as int, lo as int) == Some(((lo + i) as int, (lo + j) as int)),
            lcs_walk(ov, nv, lo as int, m as int, n as int, 0, 0) == r@ + lcs_walk(ov, nv, lo as int, m as int, n as int, i as int, j as int),
        decreases (m - i) + (n - j),
    {
        let ghost ri = r@;
        proof {
            assert(ov[lo + i] == old@[lo + i]@);
            assert(nv[lo + j] == new@[lo + j]@);
        }
        if chars_equal(old[lo + i].as_slice(), new[lo + j].as_slice()) {
            let mut cnt: usize = 1;
            while i + cnt < m && j + cnt < n && chars_equal(
                old[lo + i + cnt].as_slice(),
                new[lo + j + cnt].as_slice(),
            )
                invariant
                    1 <= cnt,
                    i + cnt <= m,
                    j + cnt <= n,
                    m == o_hi - lo,
                    n == n_hi - lo,
                    lo < o_hi <= old@.len(),
                    lo < n_hi <= new@.len(),
                    ov == lines_view(old@),
                    nv == lines_view(new@),
                    ov.subrange(lo + i, lo + i + cnt) == nv.subrange(lo + j, lo + j + cnt),
                    eq_run(ov, nv, lo as int, m as int, n as int, i as int, j as int, 1) == eq_run(
                        ov,
                        nv,
                        lo as int,
                        m as int,
                        n as int,
                        i as int,
                        j as int,
                        cnt as int,
                    ),
                decreases m - i - cnt,
            {
                proof {
                    assert(ov[lo + i + cnt] == old@[lo + i + cnt]@);
                    assert(nv[lo + j + cnt] == new@[lo + j + cnt]@);
                }
                proof {
                    let a = ov.subrange(lo + i, lo + i + cnt);
                    let b = nv.subrange(lo + j, lo + j + cnt);
                    assert(ov.subrange(lo + i, lo + i + cnt + 1) =~= a.push(ov[lo + i + cnt]));
                    assert(nv.subrange(lo + j, lo + j + cnt + 1) =~= b.push(nv[lo + j + cnt]));
                }
                cnt = cnt + 1;
            }
            proof {
                assert(ov.subrange(lo + i, lo + i + 1) =~= seq![ov[lo + i]]);
                assert(nv.subrange(lo + j, lo + j + 1) =~= seq![nv[lo + j]]);
                lemma_ops_end_push(ov, nv, ri, DiffOp::Equal(cnt), lo as int, lo as int);
                if i + cnt < m && j + cnt < n {
                    assert(ov[lo + i + cnt] == old@[lo + i + cnt]@);
                    assert(nv[lo + j + cnt] == new@[lo + j + cnt]@);
                }
                assert(eq_run(ov, nv, lo as int, m as int, n as int, i as int, j as int, 1) == cnt);
                assert(ri + lcs_walk(ov, nv, lo as int, m as int, n as int, i as int, j as int) =~= ri.push(
                    DiffOp::Equal(cnt),
                ) + lcs_walk(ov, nv, lo as int, m as int, n as int, (i + cnt) as int, (j + cnt) as int));
            }
            r.push(DiffOp::Equal(cnt));
            i = i + cnt;
            j = j + cnt;
        } else if rows[m - i - 1][j] >= rows[m - i][j + 1] {
            proof {
                lemma_ops_end_push(ov, nv, ri, DiffOp::Delete(1), lo as int, lo as int);
                assert(ri + lcs_walk(ov, nv, lo as int, m as int, n as int, i as int, j as int) =~= ri.push(
                    DiffOp::Delete(1),
                ) + lcs_walk(ov, nv, lo as int, m as int, n as int, (i + 1) as int, j as int));
            }
            r.push(DiffOp::Delete(1));
            i = i + 1;
        } else {
            proof {
                lemma_ops_end_push(ov, nv, ri, DiffOp::Insert(1), lo as int, lo as int);
                assert(ri + lcs_walk(ov, nv, lo as int, m as int, n as int, i as int, j as int) =~= ri.push(
                    DiffOp::Insert(1),
                ) + lcs_walk(ov, nv, lo as int, m as int, n as int, i as int, (j + 1) as int));
            }
            r.push(DiffOp::Insert(1));
            j = j + 1;
        }
    }
    let ghost r0 = r@;
    if i < m {
        proof { lemma_ops_end_push(ov, nv, r@, DiffOp::Delete((m - i) as usize), lo as int, lo as int); }
        r.push(DiffOp::Delete(m - i));
    }
    if j < n {
        proof { lemma_ops_end_push(ov, nv, r@, DiffOp::Insert((n - j) as usize), lo as int, lo as int); }
        r.push(DiffOp::Insert(n - j));
    }
    assert(r@ =~= r0 + lcs_walk(ov, nv, lo as int, m as int, n as int, i as int, j as int));
    r
}

/// Line diff of `old` against `new`: common prefix and suffix, then an LCS
/// diff of the middle when it is small enough, else delete-all/insert-all.
fn diff_ops(old: &[Vec<char>], new: &[Vec<char>]) -> (r: Vec<DiffOp>)
    ensures
        is_edit_script(lines_view(old@), lines_view(new@), r@),
        r@ == diff_spec(lines_view(old@), lines_view(new@)),
        lines_view(old@) == lines_view(new@) && old@.len() > 0 ==> r@ == seq![
            DiffOp::Equal(old@.len() as usize),
        ],
{
    let ghost ov = lines_view(old@);
    let ghost nv = lines_view(new@);
    let mut prefix: usize = 0;
    while prefix < old.len() && prefix < new.len()
        invariant
            prefix <= old@.len(),
            prefix <= new@.len(),
            ov == lines_view(old@),
            nv == lines_view(new@),
            ov.subrange(0, prefix as int) == nv.subrange(0, prefix as int),
            ov.len() == old@.len(),
            nv.len() == new@.len(),
            prefix_len(ov, nv, 0) == prefix_len(ov, nv, prefix as int),
        ensures
            prefix <= old@.len(),
            prefix <= new@.len(),
            ov.subrange(0, prefix as int) == nv.subrange(0, prefix as int),
            ov == nv ==> prefix == old@.len(),
            prefix_len(ov, nv, 0) == prefix,
        decreases old@.len() - prefix,
    {
        if !chars_equal(old[prefix].as_slice(), new[prefix].as_slice()) {
            proof {
                assert(ov[prefix as int] == old@[prefix as int]@);
                assert(nv[prefix as int] == new@[prefix as int]@);
            }
            break;
        }
        proof {
            assert(ov.subrange(0, prefix + 1) =~= ov.subrange(0, prefix as int).push(ov[prefix as int]));
            assert(nv.subrange(0, prefix + 1) =~= nv.subrange(0, prefix as int).push(nv[prefix as int]));
        }
        prefix = prefix + 1;
    }
    let mut o_end = old.len();
    let mut n_end = new.len();
    while o_end > prefix && n_end > prefix && chars_equal(
        old[o_end - 1].as_slice(),
        new[n_end - 1].as_slice(),
    )
        invariant
            prefix <= o_end <= old@.len(),
            prefix <= n_end <= new@.len(),
            old@.len() - o_end == new@.len() - n_end,
            ov == lines_view(old@),
            nv == lines_view(new@),
            ov.subrange(o_end as int, ov.len() as int) == nv.subrange(n_end as int, nv.len() as int),
            prefix_len(ov, nv, 0) == prefix,
            suffix_len(ov, nv, prefix as int, 0) == suffix_len(ov, nv, prefix as int, old@.len() - o_end),
        decreases o_end,
    {
        proof {
            assert(ov[o_end - 1] == old@[o_end - 1]@);
            assert(nv[n_end - 1] == new@[n_end - 1]@);
            assert(ov.subrange(o_end - 1, ov.len() as int) =~= seq![ov[o_end - 1]] + ov.subrange(o_end as int, ov.len() as int));
            assert(nv.subrange(n_end - 1, nv.len() as int) =~= seq![nv[n_end - 1]] + nv.subrange(n_end as int, nv.len() as int));
        }
        o_end = o_end - 1;
        n_end = n_end - 1;
    }
    proof {
        if o_end > prefix && n_end > prefix {
            assert(ov[o_end - 1] == old@[o_end - 1]@);
            assert(nv[n_end - 1] == new@[n_end - 1]@);
        }
        assert(suffix_len(ov, nv, prefix as int, 0) == old@.len() - o_end);
    }
    let mut ops: Vec<DiffOp> = Vec::new();
    if prefix > 0 {
        proof { lemma_ops_end_push(ov, nv, ops@, DiffOp::Equal(prefix), 0, 0); }
        ops.push(DiffOp::Equal(prefix));
    }
    let ghost pre = ops@;
    assert(ops_end(ov, nv, ops@, 0, 0) == Some((prefix as int, prefix as int)));
    let mo = o_end - prefix;
    let mn = n_end - prefix;
    if mo == 0 && mn == 0 {
    } else if mn == 0 {
        proof { lemma_ops_end_push(ov, nv, ops@, DiffOp::Delete(mo), 0, 0); }
        ops.push(DiffOp::Delete(mo));
    } else if mo == 0 {
        proof { lemma_ops_end_push(ov, nv, ops@, DiffOp::Insert(mn), 0, 0); }
        ops.push(DiffOp::Insert(mn));
    } else {
        let small = match mo.checked_mul(mn) {
            Some(p) => p <= 200_000,
            None => false,
        };
        if small {
            let mut mid = lcs_diff(old, new, prefix, o_end, n_end);
            proof {
                lemma_ops_end_concat(ov, nv, ops@, mid@, 0, 0);
                lemma_ops_end_bounds(ov, nv, ops@, 0, 0);
            }
            ops.append(&mut mid);
        } else {
            proof { lemma_ops_end_push(ov, nv, ops@, DiffOp::Delete(mo), 0, 0); }
            ops.push(DiffOp::Delete(mo));
            proof { lemma_ops_end_push(ov, nv, ops@, DiffOp::Insert(mn), 0, 0); }
            ops.push(DiffOp::Insert(mn));
        }
    }
    assert(ops_end(ov, nv, ops@, 0, 0) == Some((o_end as int, n_end as int)));
    let ghost mid = ops@.skip(pre.len() as int);
    assert(ops@ =~= pre + mid);
    proof {
        let p = prefix as int;
        let sl = old@.len() - o_end;
        let smo = ov.len() - sl - p;
        let smn = nv.len() - sl - p;
        let spec_mid = if smo == 0 && smn == 0 {
            Seq::empty()
        } else if smn == 0 {
            seq![DiffOp::Delete(smo as usize)]
        } else if smo == 0 {
            seq![DiffOp::Insert(smn as usize)]
        } else if smo * smn <= 200_000 {
            lcs_walk(ov, nv, p, smo, smn, 0, 0)
        } else {
            seq![DiffOp::Delete(smo as usize), DiffOp::Insert(smn as usize)]
        };
        assert(smo == mo && smn == mn);
        assert(mid =~= spec_mid);
    }
    let suffix = old.len() - o_end;
    if suffix > 0 {
        proof {
            lemma_ops_end_push(ov, nv, ops@, DiffOp::Equal(suffix), 0, 0);
            assert(n_end + suffix == nv.len());
        }
        ops.push(DiffOp::Equal(suffix));
    }
    proof {
        if ov == nv && old@.len() > 0 {
            assert(prefix == old@.len());
            assert(ops@ =~= seq![DiffOp::Equal(old@.len() as usize)]);
        }
        let suf = if suffix > 0 { seq![DiffOp::Equal(suffix)] } else { Seq::<DiffOp>::empty() };
        assert(ops@ =~= pre + mid + suf);
    }
    merge_adjacent(&ops, Ghost(ov), Ghost(nv))
}

/// Groups diff runs into segments: a delete followed by an insert becomes a
/// replace, a lone delete a drop, and a lone insert a replace of no base lines.
fn group_segments(ops: &Vec<DiffOp>, Ghost(base): Ghost<Seq<Seq<char>>>, Ghost(other): Ghost<Seq<Seq<char>>>) -> (segs: Vec<Segment>)
    requires
        ops_end(base, other, ops@, 0, 0) is Some,
    ensures
        segs_end(base, other, segs@, 0, 0) == ops_end(base, other, ops@, 0, 0),
        segs@ == group_spec(ops@, 0),
        forall|n: usize| ops@ == seq![DiffOp::Equal(n)] ==> segs@ == seq![
            Segment { kind: SegKind::Keep, base_len: n, ins: 0 },
        ],
{
    let mut segs: Vec<Segment> = Vec::new();
    let mut i: usize = 0;
    assert(segs@ + group_spec(ops@, 0) =~= group_spec(ops@, 0));
    while i < ops.len()
        invariant
            i <= ops@.len(),
            ops_end(base, other, ops@, 0, 0) is Some,
            segs_end(base, other, segs@, 0, 0) == ops_end(base, other, ops@.take(i as int), 0, 0),
            group_spec(ops@, 0) == segs@ + group_spec(ops@, i as int),
            forall|n: usize| ops@ == seq![DiffOp::Equal(n)] && i == 1 ==> segs@ == seq![
                Segment { kind: SegKind::Keep, base_len: n, ins: 0 },
            ],
            i == 0 ==> segs@.len() == 0,
        decreases ops@.len() - i,
    {
        let ghost si = segs@;
        let ghost ti = ops@.take(i as int);
        proof {
            assert(ops@.take(i + 1) =~= ti.push(ops@[i as int]));
            lemma_ops_end_push(base, other, ti, ops@[i as int], 0, 0);
            lemma_ops_end_bounds(base, other, ti, 0, 0);
            lemma_ops_end_prefix(base, other, ops@, i + 1, 0, 0);
        }
        match ops[i] {
            DiffOp::Equal(n) => {
                let s = Segment { kind: SegKind::Keep, base_len: n, ins: 0 };
                proof { lemma_segs_end_push(base, other, si, s, 0, 0); }
                segs.push(s);
                assert(segs@ + group_spec(ops@, i + 1) =~= si + group_spec(ops@, i as int));
                i = i + 1;
            },
            DiffOp::Delete(n) => {
                let mut paired = false;
                if i + 1 < ops.len() {
                    if let DiffOp::Insert(m) = ops[i + 1] {
                        let s = Segment { kind: SegKind::Replace, base_len: n, ins: m };
                        proof {
                            assert(ops@.take(i + 2) =~= ops@.take(i + 1).push(ops@[i + 1]));
                            lemma_ops_end_push(base, other, ops@.take(i + 1), ops@[i + 1], 0, 0);
                            lemma_ops_end_prefix(base, other, ops@, i + 2, 0, 0);
                            lemma_segs_end_push(base, other, si, s, 0, 0);
                        }
                        segs.push(s);
                        assert(segs@ + group_spec(ops@, i + 2) =~= si + group_spec(ops@, i as int));
                        i = i + 2;
                        paired = true;
                    }
                }
                if !paired {
                    let s = Segment { kind: SegKind::Drop, base_len: n, ins: 0 };
                    proof { lemma_segs_end_push(base, other, si, s, 0, 0); }
                    segs.push(s);
                    assert(segs@ + group_spec(ops@, i + 1) =~= si + group_spec(ops@, i as int));
                    i = i + 1;
                }
            },
            DiffOp::Insert(n) => {
                let s = Segment { kind: SegKind::Replace, base_len: 0, ins: n };
                proof { lemma_segs_end_push(base, other, si, s, 0, 0); }
                segs.push(s);
                assert(segs@ + group_spec(ops@, i + 1) =~= si + group_spec(ops@, i as int));
                i = i + 1;
            },
        }
    }
    assert(ops@.take(i as int) =~= ops@);
    assert(segs@ + group_spec(ops@, i as int) =~= segs@);
    segs
}

/// The base position of a step's end.
pub open spec fn fst(p: Option<(int, int)>) -> int {
    p.unwrap().0
}

/// The other position of a step's end.
pub open spec fn snd(p: Option<(int, int)>) -> int {
    p.unwrap().1
}

/// Every segment keeps a non-empty run of base lines.
pub open spec fn all_keep(segs: Seq<Segment>) -> bool {
    forall|i: int| 0 <= i < segs.len() ==> (#[trigger] segs[i]).kind == SegKind::Keep && segs[i].base_len > 0
}

/// The segments still to merge: a pending remainder, then `segs[idx..]`.
pub open spec fn rem_view(rem: Option<Segment>, segs: Seq<Segment>, idx: int) -> Seq<Segment> {
    match rem {
        Some(s) => seq![s] + segs.skip(idx),
        None => segs.skip(idx),
    }
}

/// The lines that mark a conflict between `ours` (target) and `theirs` (current).
pub open spec fn conflict_lines(ours: Seq<Seq<char>>, theirs: Seq<Seq<char>>) -> Seq<Seq<char>> {
    seq!["<<<<<<< target"@] + ours + seq!["======="@] + theirs + seq![">>>>>>> current"@]
}

/// The lines that merging one target segment against one current segment over
/// the same base lines emits, and whether they conflict.
pub open spec fn one_emit(t: Seq<Seq<char>>, c: Seq<Seq<char>>, tp: int, cp: int, bt: Segment, bc: Segment) -> (Seq<Seq<char>>, bool) {
    let blen = bt.base_len as int;
    let tr = t.subrange(tp, tp + bt.ins);
    let cr = c.subrange(cp, cp + bc.ins);
    match (bt.kind, bc.kind) {
        (SegKind::Keep, SegKind::Keep) => (t.subrange(tp, tp + blen), false),
        (SegKind::Keep, SegKind::Drop) => (Seq::empty(), false),
        (SegKind::Drop, SegKind::Keep) => (Seq::empty(), false),
        (SegKind::Drop, SegKind::Drop) => (Seq::empty(), false),
        (SegKind::Keep, SegKind::Replace) => (cr, false),
        (SegKind::Replace, SegKind::Keep) => (tr, false),
        (SegKind::Drop, SegKind::Replace) => (conflict_lines(Seq::empty(), cr), true),
        (SegKind::Replace, SegKind::Drop) => (conflict_lines(tr, Seq::empty()), true),
        (SegKind::Replace, SegKind::Replace) => if tr == cr && bt.ins == bc.ins && bt.base_len
            == bc.base_len {
            (tr, false)
        } else {
            (conflict_lines(tr, cr), true)
        },
    }
}

proof fn lemma_cover_bounds(base: Seq<Seq<char>>, other: Seq<Seq<char>>, segs: Seq<Segment>, b: int, o: int)
    requires
        segs_cover(base, other, segs, b, o),
    ensures
        b <= base.len(),
        o <= other.len(),
    decreases segs.len(),
{
    if segs.len() > 0 {
        match seg_step(base, other, segs[0], b, o) {
            Some((b2, o2)) => lemma_cover_bounds(base, other, segs.drop_first(), b2, o2),
            None => {},
        }
    }
}

proof fn lemma_cover_first(base: Seq<Seq<char>>, other: Seq<Seq<char>>, x: Segment, rest: Seq<Segment>, b: int, o: int)
    ensures
        segs_cover(base, other, seq![x] + rest, b, o) == match seg_step(base, other, x, b, o) {
            Some((b2, o2)) => segs_cover(base, other, rest, b2, o2),
            None => false,
        },
{
    assert((seq![x] + rest)[0] == x);
    assert((seq![x] + rest).drop_first() =~= rest);
}

proof fn lemma_skip_first(segs: Seq<Segment>, idx: int)
    requires
        0 <= idx < segs.len(),
    ensures
        segs.skip(idx) =~= seq![segs[idx]] + segs.skip(idx + 1),
{
}

/// A segment read as a front part of `k` base lines followed by the rest.
proof fn lemma_seg_split(base: Seq<Seq<char>>, other: Seq<Seq<char>>, s: Segment, k: usize, b: int, o: int)
    requires
        0 < k < s.base_len,
        0 <= b,
        0 <= o,
        seg_step(base, other, s, b, o) is Some,
    ensures
        ({
            let front = Segment { kind: s.kind, base_len: k, ins: 0 };
            let rest = Segment { kind: s.kind, base_len: (s.base_len - k) as usize, ins: s.ins };
            &&& seg_step(base, other, front, b, o) is Some
            &&& seg_step(base, other, rest, fst(seg_step(base, other, front, b, o)), snd(seg_step(base, other, front, b, o))) == seg_step(base, other, s, b, o)
        }),
{
    let front = Segment { kind: s.kind, base_len: k, ins: 0 };
    let rest = Segment { kind: s.kind, base_len: (s.base_len - k) as usize, ins: s.ins };
    if s.kind == SegKind::Keep {
        let l = base.subrange(b, b + s.base_len);
        let r = other.subrange(o, o + s.base_len);
        assert(base.subrange(b, b + k) =~= l.subrange(0, k as int));
        assert(other.subrange(o, o + k) =~= r.subrange(0, k as int));
        assert(base.subrange(b + k, b + s.base_len) =~= l.subrange(k as int, s.base_len as int));
        assert(other.subrange(o + k, o + s.base_len) =~= r.subrange(k as int, s.base_len as int));
    }
}

/// Appends the lines that `seg` takes from `src` (the target or the current text).
fn emit_target(out: &mut Vec<Vec<char>>, target: &[Vec<char>], tp: &mut usize, seg: Segment, Ghost(base): Ghost<Seq<Seq<char>>>, Ghost(b): Ghost<int>)
    requires
        0 <= b,
        seg_step(base, lines_view(target@), seg, b, *old(tp) as int) is Some,
        *old(tp) <= target@.len(),
    ensures
        *final(tp) as int == snd(seg_step(base, lines_view(target@), seg, b, *old(tp) as int)),
        *final(tp) as int == seg_adv(*old(tp) as int, seg),
        lines_view(final(out)@) == lines_view(old(out)@) + lines_view(target@).subrange(
            *old(tp) as int,
            *final(tp) as int,
        ),
        final(out)@.len() >= old(out)@.len(),
{
    let n = target.len();
    assert(lines_view(target@).len() == n);
    match seg.kind {
        SegKind::Keep => {
            push_lines(out, target, *tp, *tp + seg.base_len);
            *tp = *tp + seg.base_len;
        },
        SegKind::Drop => {
            assert(lines_view(target@).subrange(*tp as int, *tp as int) =~= Seq::<Seq<char>>::empty());
            assert(lines_view(out@) =~= lines_view(out@) + Seq::<Seq<char>>::empty());
        },
        SegKind::Replace => {
            push_lines(out, target, *tp, *tp + seg.ins);
            *tp = *tp + seg.ins;
        },
    }
}

/// Appends the lines that `seg` takes from the current text.
fn emit_current(out: &mut Vec<Vec<char>>, current: &[Vec<char>], cp: &mut usize, seg: Segment, Ghost(base): Ghost<Seq<Seq<char>>>, Ghost(b): Ghost<int>)
    requires
        0 <= b,
        seg_step(base, lines_view(current@), seg, b, *old(cp) as int) is Some,
        *old(cp) <= current@.len(),
    ensures
        *final(cp) as int == snd(seg_step(base, lines_view(current@), seg, b, *old(cp) as int)),
        *final(cp) as int == seg_adv(*old(cp) as int, seg),
        lines_view(final(out)@) == lines_view(old(out)@) + lines_view(current@).subrange(
            *old(cp) as int,
            *final(cp) as int,
        ),
        final(out)@.len() >= old(out)@.len(),
{
    let n = current.len();
    assert(lines_view(current@).len() == n);
    match seg.kind {
        SegKind::Keep => {
            push_lines(out, current, *cp, *cp + seg.base_len);
            *cp = *cp + seg.base_len;
        },
        SegKind::Drop => {
            assert(lines_view(current@).subrange(*cp as int, *cp as int) =~= Seq::<Seq<char>>::empty());
            assert(lines_view(out@) =~= lines_view(out@) + Seq::<Seq<char>>::empty());
        },
        SegKind::Replace => {
            push_lines(out, current, *cp, *cp + seg.ins);
            *cp = *cp + seg.ins;
        },
    }
}

/// Appends a conflict block: `ours`, a separator, then `theirs`.
fn push_conflict(out: &mut Vec<Vec<char>>, ours_src: &[Vec<char>], of: usize, ot: usize, theirs_src: &[Vec<char>], tf: usize, tt: usize)
    requires
        of <= ot <= ours_src@.len(),
        tf <= tt <= theirs_src@.len(),
    ensures
        lines_view(final(out)@) == lines_view(old(out)@) + conflict_lines(
            lines_view(ours_src@).subrange(of as int, ot as int),
            lines_view(theirs_src@).subrange(tf as int, tt as int),
        ),
        final(out)@.len() >= old(out)@.len() + 3,
{
    let ghost o0 = lines_view(out@);
    let open_marker = chars_of("<<<<<<< target");
    let ghost p1 = out@;
    out.push(open_marker);
    proof { lemma_lines_view_push(p1, open_marker); }
    push_lines(out, ours_src, of, ot);
    let mid_marker = chars_of("=======");
    let ghost p2 = out@;
    out.push(mid_marker);
    proof { lemma_lines_view_push(p2, mid_marker); }
    push_lines(out, theirs_src, tf, tt);
    let close_marker = chars_of(">>>>>>> current");
    let ghost p3 = out@;
    out.push(close_marker);
    proof { lemma_lines_view_push(p3, close_marker); }
    assert(lines_view(out@) =~= o0 + conflict_lines(
        lines_view(ours_src@).subrange(of as int, ot as int),
        lines_view(theirs_src@).subrange(tf as int, tt as int),
    ));
}

/// Merges one target segment with one current segment over the same base lines.
fn merge_one(
    out: &mut Vec<Vec<char>>,
    conflicts: &mut usize,
    target: &[Vec<char>],
    current: &[Vec<char>],
    tp: &mut usize,
    cp: &mut usize,
    bt: Segment,
    bc: Segment,
    Ghost(base): Ghost<Seq<Seq<char>>>,
    Ghost(b): Ghost<int>,
)
    requires
        0 <= b,
        bt.base_len == bc.base_len,
        seg_step(base, lines_view(target@), bt, b, *old(tp) as int) is Some,
        seg_step(base, lines_view(current@), bc, b, *old(cp) as int) is Some,
        *old(tp) <= target@.len(),
        *old(cp) <= current@.len(),
        *old(conflicts) * 3 <= old(out)@.len(),
    ensures
        *final(tp) as int == snd(seg_step(base, lines_view(target@), bt, b, *old(tp) as int)),
        *final(cp) as int == snd(seg_step(base, lines_view(current@), bc, b, *old(cp) as int)),
        *final(tp) as int == seg_adv(*old(tp) as int, bt),
        *final(cp) as int == seg_adv(*old(cp) as int, bc),
        lines_view(final(out)@) == lines_view(old(out)@) + one_emit(
            lines_view(target@),
            lines_view(current@),
            *old(tp) as int,
            *old(cp) as int,
            bt,
            bc,
        ).0,
        *final(conflicts) == *old(conflicts) + if one_emit(
            lines_view(target@),
            lines_view(current@),
            *old(tp) as int,
            *old(cp) as int,
            bt,
            bc,
        ).1 {
            1int
        } else {
            0int
        },
        *final(conflicts) * 3 <= final(out)@.len(),
{
    let blen = bt.base_len;
    let ghost o0 = lines_view(out@);
    let tn = target.len();
    let cn = current.len();
    assert(lines_view(target@).len() == target@.len());
    assert(lines_view(current@).len() == current@.len());
    match (bt.kind, bc.kind) {
        (SegKind::Keep, SegKind::Keep) => {
            push_lines(out, target, *tp, *tp + blen);
            *tp = *tp + blen;
            *cp = *cp + blen;
        },
        (SegKind::Keep, SegKind::Drop) => {
            *tp = *tp + blen;
            assert(lines_view(out@) =~= o0 + Seq::<Seq<char>>::empty());
        },
        (SegKind::Drop, SegKind::Keep) => {
            *cp = *cp + blen;
            assert(lines_view(out@) =~= o0 + Seq::<Seq<char>>::empty());
        },
        (SegKind::Drop, SegKind::Drop) => {
            assert(lines_view(out@) =~= o0 + Seq::<Seq<char>>::empty());
        },
        (SegKind::Keep, SegKind::Replace) => {
            push_lines(out, current, *cp, *cp + bc.ins);
            *tp = *tp + blen;
            *cp = *cp + bc.ins;
        },
        (SegKind::Replace, SegKind::Keep) => {
            push_lines(out, target, *tp, *tp + bt.ins);
            *tp = *tp + bt.ins;
            *cp = *cp + blen;
        },
        (SegKind::Drop, SegKind::Replace) => {
            push_conflict(out, target, *tp, *tp, current, *cp, *cp + bc.ins);
            assert(lines_view(target@).subrange(*tp as int, *tp as int) =~= Seq::<Seq<char>>::empty());
            let ol = out.len();
            assert(lines_view(out@).len() == out@.len() && o0.len() == old(out)@.len());
            *conflicts = *conflicts + 1;
            *cp = *cp + bc.ins;
        },
        (SegKind::Replace, SegKind::Drop) => {
            push_conflict(out, target, *tp, *tp + bt.ins, current, *cp, *cp);
            assert(lines_view(current@).subrange(*cp as int, *cp as int) =~= Seq::<Seq<char>>::empty());
            let ol = out.len();
            assert(lines_view(out@).len() == out@.len() && o0.len() == old(out)@.len());
            *conflicts = *conflicts + 1;
            *tp = *tp + bt.ins;
        },
        (SegKind::Replace, SegKind::Replace) => {
            let same = line_ranges_equal(target, *tp, *tp + bt.ins, current, *cp, *cp + bc.ins);
            if same && bt.ins == bc.ins && blen == bc.base_len {
                push_lines(out, target, *tp, *tp + bt.ins);
            } else {
                push_conflict(out, target, *tp, *tp + bt.ins, current, *cp, *cp + bc.ins);
                let ol = out.len();
                assert(lines_view(out@).len() == out@.len() && o0.len() == old(out)@.len());
            assert(lines_view(out@).len() == out@.len() && o0.len() == old(out)@.len());
            *conflicts = *conflicts + 1;
            }
            *tp = *tp + bt.ins;
            *cp = *cp + bc.ins;
        },
    }
    assert(lines_view(out@).len() == out@.len() && o0.len() == old(out)@.len());
}

proof fn lemma_one_keep_target(base: Seq<Seq<char>>, tv: Seq<Seq<char>>, cv: Seq<Seq<char>>, bts: Segment, bcs: Segment, b: int, tp: int, cp: int)
    requires
        bts.kind == SegKind::Keep,
        bts.base_len == bcs.base_len,
        0 <= b,
        0 <= tp,
        0 <= cp,
        tp <= tv.len(),
        cp <= cv.len(),
        seg_step(base, tv, bts, b, tp) is Some,
        seg_step(base, cv, bcs, b, cp) is Some,
    ensures
        one_emit(tv, cv, tp, cp, bts, bcs) == (cv.subrange(cp, snd(seg_step(base, cv, bcs, b, cp))), false),
{
    if bcs.kind == SegKind::Drop {
        assert(cv.subrange(cp, cp) =~= Seq::<Seq<char>>::empty());
    }
}

proof fn lemma_one_keep_current(base: Seq<Seq<char>>, tv: Seq<Seq<char>>, cv: Seq<Seq<char>>, bts: Segment, bcs: Segment, b: int, tp: int, cp: int)
    requires
        bcs.kind == SegKind::Keep,
        bts.base_len == bcs.base_len,
        0 <= b,
        0 <= tp,
        0 <= cp,
        tp <= tv.len(),
        cp <= cv.len(),
        seg_step(base, tv, bts, b, tp) is Some,
        seg_step(base, cv, bcs, b, cp) is Some,
    ensures
        one_emit(tv, cv, tp, cp, bts, bcs) == (tv.subrange(tp, snd(seg_step(base, tv, bts, b, tp))), false),
{
    if bts.kind == SegKind::Drop {
        assert(tv.subrange(tp, tp) =~= Seq::<Seq<char>>::empty());
    }
}

proof fn lemma_subrange_concat(s: Seq<Seq<char>>, a: int, b: int, c: int)
    requires
        0 <= a <= b <= c <= s.len(),
    ensures
        s.subrange(a, b) + s.subrange(b, c) == s.subrange(a, c),
{
    assert(s.subrange(a, b) + s.subrange(b, c) =~= s.subrange(a, c));
}

proof fn lemma_take_extend(s: Seq<Seq<char>>, a: int, b: int)
    requires
        0 <= a <= b <= s.len(),
    ensures
        s.take(a) + s.subrange(a, b) == s.take(b),
{
    assert(s.take(a) + s.subrange(a, b) =~= s.take(b));
}

proof fn lemma_all_keep_tail(x: Segment, rest: Seq<Segment>)
    requires
        all_keep(seq![x] + rest),
    ensures
        all_keep(rest),
        x.kind == SegKind::Keep,
        x.base_len > 0,
{
    assert((seq![x] + rest)[0] == x);
    assert forall|i: int| 0 <= i < rest.len() implies (#[trigger] rest[i]).kind == SegKind::Keep
        && rest[i].base_len > 0 by {
        assert(rest[i] == (seq![x] + rest)[i + 1]);
    }
}

proof fn lemma_all_keep_cons(x: Segment, rest: Seq<Segment>)
    requires
        all_keep(rest),
        x.kind == SegKind::Keep,
        x.base_len > 0,
    ensures
        all_keep(seq![x] + rest),
{
    assert forall|i: int| 0 <= i < (seq![x] + rest).len() implies (#[trigger] (seq![x]
        + rest)[i]).kind == SegKind::Keep && (seq![x] + rest)[i].base_len > 0 by {
        if i > 0 {
            assert((seq![x] + rest)[i] == rest[i - 1]);
        }
    }
}

/// Emits the rest of one side's segments once the other side has run out.
fn drain_current(out: &mut Vec<Vec<char>>, current: &[Vec<char>], cp: &mut usize, bc: &[Segment], ci: &mut usize, Ghost(base): Ghost<Seq<Seq<char>>>, Ghost(bp): Ghost<int>)
    requires
        0 <= bp,
        *old(ci) <= bc@.len(),
        *old(cp) <= current@.len(),
        segs_cover(base, lines_view(current@), bc@.skip(*old(ci) as int), bp, *old(cp) as int),
    ensures
        *final(cp) == current@.len(),
        lines_view(final(out)@) == lines_view(old(out)@) + lines_view(current@).subrange(
            *old(cp) as int,
            *final(cp) as int,
        ),
        final(out)@.len() >= old(out)@.len(),
        all_keep(bc@.skip(*old(ci) as int)) && bp == base.len() ==> *final(cp) == *old(cp),
        *final(ci) == bc@.len(),
        (lines_view(final(out)@), *final(cp) as int) == drain_spec(
            lines_view(current@),
            bc@,
            *old(ci) as int,
            *old(cp) as int,
            lines_view(old(out)@),
        ),
{
    let ghost cv = lines_view(current@);
    let ghost mut b = bp;
    let ghost c0 = *cp as int;
    let ghost out0 = lines_view(out@);
    let ghost len0 = out@.len();
    let ghost ci0 = *ci as int;
    let n = current.len();
    while *ci < bc.len()
        invariant
            *ci <= bc@.len(),
            *cp <= current@.len(),
            0 <= c0 <= *cp,
            0 <= b,
            n == current@.len(),
            cv == lines_view(current@),
            cv.len() == current@.len(),
            segs_cover(base, cv, bc@.skip(*ci as int), b, *cp as int),
            lines_view(out@) == out0 + cv.subrange(c0, *cp as int),
            out@.len() >= len0,
            all_keep(bc@.skip(ci0)) && bp == base.len() ==> *cp == c0 && all_keep(bc@.skip(*ci as int)) && b == base.len(),
            ci0 <= *ci,
            drain_spec(cv, bc@, ci0, c0, out0) == drain_spec(cv, bc@, *ci as int, *cp as int, lines_view(out@)),
        decreases bc@.len() - *ci,
    {
        let s = bc[*ci];
        proof {
            lemma_skip_first(bc@, *ci as int);
            lemma_cover_first(base, cv, s, bc@.skip(*ci + 1), b, *cp as int);
            if all_keep(bc@.skip(ci0)) && bp == base.len() {
                lemma_all_keep_tail(s, bc@.skip(*ci + 1));
            }
        }
        *ci = *ci + 1;
        let ghost cbefore = *cp as int;
        let ghost obefore = lines_view(out@);
        if s.base_len == 0 && s.ins > 0 {
            push_lines(out, current, *cp, *cp + s.ins);
            *cp = *cp + s.ins;
        } else {
            emit_current(out, current, cp, s, Ghost(base), Ghost(b));
        }
        proof {
            assert(0 <= c0);
            assert(c0 <= cbefore);
            assert(cbefore <= *cp);
            assert(*cp <= cv.len());
            lemma_subrange_concat(cv, c0, cbefore, *cp as int);
            b = b + s.base_len;
        }
    }
    proof { lemma_cover_bounds(base, cv, bc@.skip(*ci as int), b, *cp as int); }
    assert(bc@.skip(*ci as int) =~= Seq::<Segment>::empty());
}

/// Emits the rest of the target's segments once the current side has run out.
fn drain_target(out: &mut Vec<Vec<char>>, target: &[Vec<char>], tp: &mut usize, bt: &[Segment], bi: &mut usize, Ghost(base): Ghost<Seq<Seq<char>>>, Ghost(bp): Ghost<int>)
    requires
        0 <= bp,
        *old(bi) <= bt@.len(),
        *old(tp) <= target@.len(),
        segs_cover(base, lines_view(target@), bt@.skip(*old(bi) as int), bp, *old(tp) as int),
    ensures
        *final(tp) == target@.len(),
        lines_view(final(out)@) == lines_view(old(out)@) + lines_view(target@).subrange(
            *old(tp) as int,
            *final(tp) as int,
        ),
        final(out)@.len() >= old(out)@.len(),
        all_keep(bt@.skip(*old(bi) as int)) && bp == base.len() ==> *final(tp) == *old(tp),
        *final(bi) == bt@.len(),
        (lines_view(final(out)@), *final(tp) as int) == drain_spec(
            lines_view(target@),
            bt@,
            *old(bi) as int,
            *old(tp) as int,
            lines_view(old(out)@),
        ),
{
    let ghost tv = lines_view(target@);
    let ghost mut b = bp;
    let ghost t0 = *tp as int;
    let ghost out0 = lines_view(out@);
    let ghost len0 = out@.len();
    let ghost bi0 = *bi as int;
    let n = target.len();
    while *bi < bt.len()
        invariant
            *bi <= bt@.len(),
            *tp <= target@.len(),
            0 <= t0 <= *tp,
            0 <= b,
            n == target@.len(),
            tv == lines_view(target@),
            tv.len() == target@.len(),
            segs_cover(base, tv, bt@.skip(*bi as int), b, *tp as int),
            lines_view(out@) == out0 + tv.subrange(t0, *tp as int),
            out@.len() >= len0,
            all_keep(bt@.skip(bi0)) && bp == base.len() ==> *tp == t0 && all_keep(bt@.skip(*bi as int)) && b == base.len(),
            bi0 <= *bi,
            drain_spec(tv, bt@, bi0, t0, out0) == drain_spec(tv, bt@, *bi as int, *tp as int, lines_view(out@)),
        decreases bt@.len() - *bi,
    {
        let s = bt[*bi];
        proof {
            lemma_skip_first(bt@, *bi as int);
            lemma_cover_first(base, tv, s, bt@.skip(*bi + 1), b, *tp as int);
            if all_keep(bt@.skip(bi0)) && bp == base.len() {
                lemma_all_keep_tail(s, bt@.skip(*bi + 1));
            }
        }
        *bi = *bi + 1;
        let ghost tbefore = *tp as int;
        if s.base_len == 0 && s.ins > 0 {
            push_lines(out, target, *tp, *tp + s.ins);
            *tp = *tp + s.ins;
        } else {
            emit_target(out, target, tp, s, Ghost(base), Ghost(b));
        }
        proof {
            lemma_subrange_concat(tv, t0, tbefore, *tp as int);
            b = b + s.base_len;
        }
    }
    proof { lemma_cover_bounds(base, tv, bt@.skip(*bi as int), b, *tp as int); }
    assert(bt@.skip(*bi as int) =~= Seq::<Segment>::empty());
}

/// A merge in progress, as values: the merged lines, the conflict count,
/// the positions in the target and the current text and in their segment
/// lists, and each side's pending segment.
pub struct MergeView {
    pub out: Seq<Seq<char>>,
    pub conflicts: int,
    pub tp: int,
    pub cp: int,
    pub bi: int,
    pub ci: int,
    pub bt_rem: Option<Segment>,
    pub bc_rem: Option<Segment>,
}

/// Where segment `s` takes position `p` on its own side.
pub open spec fn seg_adv(p: int, s: Segment) -> int {
    match s.kind {
        SegKind::Keep => p + s.base_len,
        SegKind::Drop => p,
        SegKind::Replace => p + s.ins,
    }
}

/// Each side's next segment moves into its pending slot when that slot is
/// empty.
pub open spec fn refill_spec(s: MergeView, bt: Seq<Segment>, bc: Seq<Segment>) -> MergeView {
    let s1 = if s.bt_rem is None && 0 <= s.bi < bt.len() {
        MergeView { bt_rem: Some(bt[s.bi]), bi: s.bi + 1, ..s }
    } else {
        s
    };
    if s1.bc_rem is None && 0 <= s1.ci < bc.len() {
        MergeView { bc_rem: Some(bc[s1.ci]), ci: s1.ci + 1, ..s1 }
    } else {
        s1
    }
}

/// A pending insertion (a segment of no base lines) on either side, if
/// there is one: both at once agree or conflict; else the one side's lines
/// go out.
pub open spec fn inserts_spec(s: MergeView, tv: Seq<Seq<char>>, cv: Seq<Seq<char>>) -> Option<MergeView> {
    match (s.bt_rem, s.bc_rem) {
        (Some(bs), Some(cs)) => if bs.base_len == 0 && cs.base_len == 0 {
            let t = tv.subrange(s.tp, s.tp + bs.ins);
            let c = cv.subrange(s.cp, s.cp + cs.ins);
            let same = t == c && bs.ins == cs.ins;
            Some(
                MergeView {
                    out: s.out + if same { t } else { conflict_lines(t, c) },
                    conflicts: s.conflicts + if same { 0int } else { 1int },
                    tp: s.tp + bs.ins,
                    cp: s.cp + cs.ins,
                    bt_rem: None,
                    bc_rem: None,
                    ..s
                },
            )
        } else if bs.base_len == 0 {
            Some(MergeView { out: s.out + tv.subrange(s.tp, s.tp + bs.ins), tp: s.tp + bs.ins, bt_rem: None, ..s })
        } else if cs.base_len == 0 {
            Some(MergeView { out: s.out + cv.subrange(s.cp, s.cp + cs.ins), cp: s.cp + cs.ins, bc_rem: None, ..s })
        } else {
            None
        },
        _ => None,
    }
}

/// Merging segment `a` of the target with segment `b` of the current side
/// over the same base lines, leaving `ta` and `cb` pending.
pub open spec fn one_spec(s: MergeView, tv: Seq<Seq<char>>, cv: Seq<Seq<char>>, a: Segment, b: Segment, ta: Option<Segment>, cb: Option<Segment>) -> MergeView {
    let e = one_emit(tv, cv, s.tp, s.cp, a, b);
    MergeView {
        out: s.out + e.0,
        conflicts: s.conflicts + if e.1 { 1int } else { 0int },
        tp: seg_adv(s.tp, a),
        cp: seg_adv(s.cp, b),
        bt_rem: ta,
        bc_rem: cb,
        ..s
    }
}

/// Both sides pending over base lines: the shorter segment merges with as
/// many base lines from the front of the other, whose rest stays pending.
pub open spec fn compare_spec(s: MergeView, tv: Seq<Seq<char>>, cv: Seq<Seq<char>>) -> MergeView {
    let a = s.bt_rem->0;
    let b = s.bc_rem->0;
    if a.base_len == b.base_len {
        one_spec(s, tv, cv, a, b, None, None)
    } else if a.base_len < b.base_len {
        let rest = Segment { kind: b.kind, base_len: (b.base_len - a.base_len) as usize, ins: b.ins };
        let front = Segment { kind: b.kind, base_len: a.base_len, ins: 0 };
        one_spec(s, tv, cv, a, front, None, Some(rest))
    } else {
        let rest = Segment { kind: a.kind, base_len: (a.base_len - b.base_len) as usize, ins: a.ins };
        let front = Segment { kind: a.kind, base_len: b.base_len, ins: 0 };
        one_spec(s, tv, cv, front, b, Some(rest), None)
    }
}

/// The lines one side's segments `segs[i..]` emit from `src`, from
/// position `p`, after `out`; and the position reached.
pub open spec fn drain_spec(src: Seq<Seq<char>>, segs: Seq<Segment>, i: int, p: int, out: Seq<Seq<char>>) -> (Seq<Seq<char>>, int)
    decreases segs.len() - i,
{
    if i < 0 || i >= segs.len() {
        (out, p)
    } else {
        let g = segs[i];
        if g.base_len == 0 && g.ins > 0 {
            drain_spec(src, segs, i + 1, p + g.ins, out + src.subrange(p, p + g.ins))
        } else {
            drain_spec(src, segs, i + 1, seg_adv(p, g), out + src.subrange(p, seg_adv(p, g)))
        }
    }
}

/// The target side is used up: the current side's pending segment and the
/// rest of its segments go out.
pub open spec fn finish_target_spec(s: MergeView, cv: Seq<Seq<char>>, bc: Seq<Segment>) -> MergeView {
    let (o1, c1) = match s.bc_rem {
        Some(g) => (s.out + cv.subrange(s.cp, seg_adv(s.cp, g)), seg_adv(s.cp, g)),
        None => (s.out, s.cp),
    };
    let d = drain_spec(cv, bc, s.ci, c1, o1);
    MergeView { out: d.0, cp: d.1, ci: if s.ci < bc.len() { bc.len() as int } else { s.ci }, bc_rem: None, ..s }
}

/// The current side is used up: the target's pending segment and the rest
/// of its segments go out.
pub open spec fn finish_current_spec(s: MergeView, tv: Seq<Seq<char>>, bt: Seq<Segment>) -> MergeView {
    let g = s.bt_rem->0;
    let d = drain_spec(tv, bt, s.bi, seg_adv(s.tp, g), s.out + tv.subrange(s.tp, seg_adv(s.tp, g)));
    MergeView { out: d.0, tp: d.1, bi: if s.bi < bt.len() { bt.len() as int } else { s.bi }, bt_rem: None, ..s }
}

/// How much is left to merge.
pub open spec fn view_measure(s: MergeView, bt: Seq<Segment>, bc: Seq<Segment>) -> int {
    (bt.len() - s.bi) + (bc.len() - s.ci) + (if s.bt_rem is Some { 1int } else { 0int }) + (if s.bc_rem is Some {
        1int
    } else {
        0int
    })
}

/// The merge from state `s` until one side is used up.
pub open spec fn merge_loop(s: MergeView, tv: Seq<Seq<char>>, cv: Seq<Seq<char>>, bt: Seq<Segment>, bc: Seq<Segment>) -> MergeView
    decreases view_measure(s, bt, bc),
{
    let s1 = refill_spec(s, bt, bc);
    match inserts_spec(s1, tv, cv) {
        Some(s2) => if 0 <= view_measure(s2, bt, bc) < view_measure(s, bt, bc) {
            merge_loop(s2, tv, cv, bt, bc)
        } else {
            s2
        },
        None => if s1.bt_rem is None {
            finish_target_spec(s1, cv, bc)
        } else if s1.bc_rem is None {
            finish_current_spec(s1, tv, bt)
        } else {
            let s3 = compare_spec(s1, tv, cv);
            if 0 <= view_measure(s3, bt, bc) < view_measure(s, bt, bc) {
                merge_loop(s3, tv, cv, bt, bc)
            } else {
                s3
            }
        },
    }
}

/// The merged lines and conflict count for the target's segments `bt` and
/// the current side's `bc`: the merge, then any lines of either text not
/// reached.
pub open spec fn merge_spec(tv: Seq<Seq<char>>, cv: Seq<Seq<char>>, bt: Seq<Segment>, bc: Seq<Segment>) -> (Seq<Seq<char>>, int) {
    let f = merge_loop(
        MergeView { out: Seq::empty(), conflicts: 0, tp: 0, cp: 0, bi: 0, ci: 0, bt_rem: None, bc_rem: None },
        tv,
        cv,
        bt,
        bc,
    );
    (f.out + tv.skip(f.tp) + cv.skip(f.cp), f.conflicts)
}

/// The lines of text: the pieces between LFs.
pub open spec fn merge_lines(s: Seq<char>) -> Seq<Seq<char>> {
    split_seq(s, '\n')
}

/// The merged text and conflict count of `target` and `current` against
/// `base`: each side's line diff against the base, grouped into segments,
/// merged, and the lines joined with LFs.
pub open spec fn merge_text_spec(base: Seq<char>, target: Seq<char>, current: Seq<char>) -> (Seq<char>, int) {
    let bv = merge_lines(base);
    let tv = merge_lines(target);
    let cv = merge_lines(current);
    let m = merge_spec(tv, cv, group_spec(diff_spec(bv, tv), 0), group_spec(diff_spec(bv, cv), 0));
    (join_seq(m.0, seq!['\n']), m.1)
}

/// The state of a merge in progress.
struct MergeState {
    out: Vec<Vec<char>>,
    conflicts: usize,
    tp: usize,
    cp: usize,
    bi: usize,
    ci: usize,
    bt_rem: Option<Segment>,
    bc_rem: Option<Segment>,
    bp: Ghost<int>,
}

/// What every step of the merge keeps true. `law_a` holds when the target
/// side only keeps base lines, `law_b` when the current side does.
spec fn state_ok(st: MergeState, base: Seq<Seq<char>>, tv: Seq<Seq<char>>, cv: Seq<Seq<char>>, bt: Seq<Segment>, bc: Seq<Segment>, law_a: bool, law_b: bool) -> bool {
    &&& st.bi <= bt.len()
    &&& st.ci <= bc.len()
    &&& 0 <= st.bp@
    &&& st.tp <= tv.len()
    &&& st.cp <= cv.len()
    &&& segs_cover(base, tv, rem_view(st.bt_rem, bt, st.bi as int), st.bp@, st.tp as int)
    &&& segs_cover(base, cv, rem_view(st.bc_rem, bc, st.ci as int), st.bp@, st.cp as int)
    &&& st.conflicts * 3 <= st.out@.len()
    &&& law_a ==> all_keep(rem_view(st.bt_rem, bt, st.bi as int)) && lines_view(st.out@) == cv.take(
        st.cp as int,
    ) && st.conflicts == 0
    &&& law_b ==> all_keep(rem_view(st.bc_rem, bc, st.ci as int)) && lines_view(st.out@) == tv.take(
        st.tp as int,
    ) && st.conflicts == 0
}

/// What holds once both sides are used up.
spec fn state_done(st: MergeState, tv: Seq<Seq<char>>, cv: Seq<Seq<char>>, law_a: bool, law_b: bool) -> bool {
    &&& st.tp == tv.len()
    &&& st.cp == cv.len()
    &&& law_a ==> lines_view(st.out@) == cv.take(st.cp as int) && st.conflicts == 0
    &&& law_b ==> lines_view(st.out@) == tv.take(st.tp as int) && st.conflicts == 0
}

/// The values a merge state stands for.
spec fn view_of(st: MergeState) -> MergeView {
    MergeView {
        out: lines_view(st.out@),
        conflicts: st.conflicts as int,
        tp: st.tp as int,
        cp: st.cp as int,
        bi: st.bi as int,
        ci: st.ci as int,
        bt_rem: st.bt_rem,
        bc_rem: st.bc_rem,
    }
}

spec fn state_measure(st: MergeState, bt: Seq<Segment>, bc: Seq<Segment>) -> int {
    (bt.len() - st.bi) + (bc.len() - st.ci) + (if st.bt_rem is Some {
        1int
    } else {
        0int
    }) + (if st.bc_rem is Some {
        1int
    } else {
        0int
    })
}

/// Moves the next segment of each side into its pending slot when that slot is empty.
fn refill(st: &mut MergeState, bt: &[Segment], bc: &[Segment], Ghost(base): Ghost<Seq<Seq<char>>>, Ghost(tv): Ghost<Seq<Seq<char>>>, Ghost(cv): Ghost<Seq<Seq<char>>>, Ghost(law_a): Ghost<bool>, Ghost(law_b): Ghost<bool>)
    requires
        state_ok(*old(st), base, tv, cv, bt@, bc@, law_a, law_b),
    ensures
        state_ok(*final(st), base, tv, cv, bt@, bc@, law_a, law_b),
        state_measure(*final(st), bt@, bc@) == state_measure(*old(st), bt@, bc@),
        final(st).bt_rem is None ==> final(st).bi == bt@.len(),
        final(st).bc_rem is None ==> final(st).ci == bc@.len(),
        final(st).out == old(st).out,
        final(st).tp == old(st).tp,
        final(st).cp == old(st).cp,
        final(st).bp == old(st).bp,
        final(st).conflicts == old(st).conflicts,
        view_of(*final(st)) == refill_spec(view_of(*old(st)), bt@, bc@),
{
    if st.bt_rem.is_none() && st.bi < bt.len() {
        proof { lemma_skip_first(bt@, st.bi as int); }
        st.bt_rem = Some(bt[st.bi]);
        st.bi = st.bi + 1;
    }
    if st.bc_rem.is_none() && st.ci < bc.len() {
        proof { lemma_skip_first(bc@, st.ci as int); }
        st.bc_rem = Some(bc[st.ci]);
        st.ci = st.ci + 1;
    }
}

/// Handles a pending segment of no base lines (an insertion) on either side;
/// returns whether there was one.
fn step_inserts(st: &mut MergeState, target: &[Vec<char>], current: &[Vec<char>], bt: &[Segment], bc: &[Segment], Ghost(base): Ghost<Seq<Seq<char>>>, Ghost(law_a): Ghost<bool>, Ghost(law_b): Ghost<bool>) -> (handled: bool)
    requires
        state_ok(*old(st), base, lines_view(target@), lines_view(current@), bt@, bc@, law_a, law_b),
    ensures
        state_ok(*final(st), base, lines_view(target@), lines_view(current@), bt@, bc@, law_a, law_b),
        handled ==> state_measure(*final(st), bt@, bc@) < state_measure(*old(st), bt@, bc@),
        !handled ==> *final(st) == *old(st),
        !handled ==> (old(st).bt_rem matches Some(bs) ==> old(st).bc_rem matches Some(cs) ==> bs.base_len > 0 && cs.base_len > 0),
        handled == inserts_spec(view_of(*old(st)), lines_view(target@), lines_view(current@)) is Some,
        handled ==> view_of(*final(st)) == inserts_spec(view_of(*old(st)), lines_view(target@), lines_view(current@))->0,
{
    let ghost tv = lines_view(target@);
    let ghost cv = lines_view(current@);
    let tn = target.len();
    let cn = current.len();
    assert(tv.len() == tn && cv.len() == cn);
    if let (Some(bs), Some(cs)) = (st.bt_rem, st.bc_rem) {
        let ghost tail_t = bt@.skip(st.bi as int);
        let ghost tail_c = bc@.skip(st.ci as int);
        proof {
            lemma_cover_first(base, tv, bs, tail_t, st.bp@, st.tp as int);
            lemma_cover_first(base, cv, cs, tail_c, st.bp@, st.cp as int);
            if law_a {
                lemma_all_keep_tail(bs, tail_t);
            }
            if law_b {
                lemma_all_keep_tail(cs, tail_c);
            }
        }
        if bs.base_len == 0 && cs.base_len == 0 {
            let same = line_ranges_equal(target, st.tp, st.tp + bs.ins, current, st.cp, st.cp + cs.ins);
            if same && bs.ins == cs.ins {
                push_lines(&mut st.out, target, st.tp, st.tp + bs.ins);
            } else {
                push_conflict(&mut st.out, target, st.tp, st.tp + bs.ins, current, st.cp, st.cp + cs.ins);
                let ol = st.out.len();
                st.conflicts = st.conflicts + 1;
            }
            st.tp = st.tp + bs.ins;
            st.cp = st.cp + cs.ins;
            st.bt_rem = None;
            st.bc_rem = None;
            return true;
        }
        if bs.base_len == 0 {
            let ghost t0 = st.tp as int;
            push_lines(&mut st.out, target, st.tp, st.tp + bs.ins);
            st.tp = st.tp + bs.ins;
            st.bt_rem = None;
            proof {
                if law_b {
                    lemma_take_extend(tv, t0, st.tp as int);
                }
            }
            return true;
        }
        if cs.base_len == 0 {
            let ghost c0 = st.cp as int;
            push_lines(&mut st.out, current, st.cp, st.cp + cs.ins);
            st.cp = st.cp + cs.ins;
            st.bc_rem = None;
            proof {
                if law_a {
                    lemma_take_extend(cv, c0, st.cp as int);
                }
            }
            return true;
        }
    }
    false
}

/// The target side is used up: emits the rest of the current side.
fn finish_target_done(st: &mut MergeState, current: &[Vec<char>], bt: &[Segment], bc: &[Segment], Ghost(base): Ghost<Seq<Seq<char>>>, Ghost(tv): Ghost<Seq<Seq<char>>>, Ghost(law_a): Ghost<bool>, Ghost(law_b): Ghost<bool>)
    requires
        state_ok(*old(st), base, tv, lines_view(current@), bt@, bc@, law_a, law_b),
        old(st).bt_rem is None,
        old(st).bi == bt@.len(),
    ensures
        state_done(*final(st), tv, lines_view(current@), law_a, law_b),
        final(st).conflicts * 3 <= final(st).out@.len(),
        view_of(*final(st)) == finish_target_spec(view_of(*old(st)), lines_view(current@), bc@),
{
    let ghost cv = lines_view(current@);
    let cn = current.len();
    assert(cv.len() == cn);
    assert(rem_view(st.bt_rem, bt@, st.bi as int) =~= Seq::<Segment>::empty());
    assert(st.bp@ == base.len() && st.tp == tv.len());
    let ghost c0 = st.cp as int;
    let ghost out0 = lines_view(st.out@);
    let ghost tail_c = bc@.skip(st.ci as int);
    let ghost mut bp = st.bp@;
    let ghost all_c = law_b;
    match st.bc_rem {
        Some(s) => {
            proof {
                lemma_cover_first(base, cv, s, tail_c, bp, st.cp as int);
                if law_b {
                    lemma_all_keep_tail(s, tail_c);
                }
            }
            emit_current(&mut st.out, current, &mut st.cp, s, Ghost(base), Ghost(bp));
            proof { bp = bp + s.base_len; }
            st.bc_rem = None;
        },
        None => {},
    }
    let ghost c1 = st.cp as int;
    drain_current(&mut st.out, current, &mut st.cp, bc, &mut st.ci, Ghost(base), Ghost(bp));
    proof {
        lemma_subrange_concat(cv, c0, c1, st.cp as int);
        if law_a {
            lemma_take_extend(cv, c0, st.cp as int);
        }
        if law_b {
            assert(st.cp == c0);
            assert(cv.subrange(c0, c0) =~= Seq::<Seq<char>>::empty());
            assert(lines_view(st.out@) =~= out0);
        }
        assert(st.tp == tv.len());
        assert(st.cp == cv.len());
        assert(law_a ==> lines_view(st.out@) == cv.take(st.cp as int));
        assert(law_a ==> st.conflicts == 0);
        assert(law_b ==> lines_view(st.out@) == tv.take(st.tp as int));
        assert(law_b ==> st.conflicts == 0);
    }
}

/// The current side is used up: emits the pending target segment and the rest.
fn finish_current_done(st: &mut MergeState, target: &[Vec<char>], bt: &[Segment], bc: &[Segment], Ghost(base): Ghost<Seq<Seq<char>>>, Ghost(cv): Ghost<Seq<Seq<char>>>, Ghost(law_a): Ghost<bool>, Ghost(law_b): Ghost<bool>)
    requires
        state_ok(*old(st), base, lines_view(target@), cv, bt@, bc@, law_a, law_b),
        old(st).bt_rem is Some,
        old(st).bc_rem is None,
        old(st).ci == bc@.len(),
    ensures
        state_done(*final(st), lines_view(target@), cv, law_a, law_b),
        final(st).conflicts * 3 <= final(st).out@.len(),
        view_of(*final(st)) == finish_current_spec(view_of(*old(st)), lines_view(target@), bt@),
{
    let ghost tv = lines_view(target@);
    let tn = target.len();
    assert(tv.len() == tn);
    let bt_s = st.bt_rem.unwrap();
    let ghost tail_t = bt@.skip(st.bi as int);
    assert(rem_view(st.bc_rem, bc@, st.ci as int) =~= Seq::<Segment>::empty());
    assert(st.bp@ == base.len() && st.cp == cv.len());
    let ghost out0 = lines_view(st.out@);
    proof {
        lemma_cover_first(base, tv, bt_s, tail_t, st.bp@, st.tp as int);
        if law_a {
            lemma_all_keep_tail(bt_s, tail_t);
        }
    }
    st.bt_rem = None;
    let ghost t0 = st.tp as int;
    let ghost mut bp = st.bp@;
    emit_target(&mut st.out, target, &mut st.tp, bt_s, Ghost(base), Ghost(bp));
    proof { bp = bp + bt_s.base_len; }
    let ghost t1 = st.tp as int;
    drain_target(&mut st.out, target, &mut st.tp, bt, &mut st.bi, Ghost(base), Ghost(bp));
    proof {
        lemma_subrange_concat(tv, t0, t1, st.tp as int);
        if law_b {
            lemma_take_extend(tv, t0, st.tp as int);
        }
        if law_a {
            assert(false);
        }
        assert(st.tp == tv.len());
        assert(st.cp == cv.len());
        assert(law_b ==> lines_view(st.out@) == tv.take(st.tp as int));
        assert(law_b ==> st.conflicts == 0);
    }
}

/// Both sides have a pending segment over base lines: merges the shorter one
/// with the same number of lines from the front of the other.
#[verifier::rlimit(40)]
fn step_compare(st: &mut MergeState, target: &[Vec<char>], current: &[Vec<char>], bt: &[Segment], bc: &[Segment], Ghost(base): Ghost<Seq<Seq<char>>>, Ghost(law_a): Ghost<bool>, Ghost(law_b): Ghost<bool>)
    requires
        state_ok(*old(st), base, lines_view(target@), lines_view(current@), bt@, bc@, law_a, law_b),
        old(st).bt_rem matches Some(bs) && bs.base_len > 0,
        old(st).bc_rem matches Some(cs) && cs.base_len > 0,
    ensures
        state_ok(*final(st), base, lines_view(target@), lines_view(current@), bt@, bc@, law_a, law_b),
        state_measure(*final(st), bt@, bc@) < state_measure(*old(st), bt@, bc@),
        view_of(*final(st)) == compare_spec(view_of(*old(st)), lines_view(target@), lines_view(current@)),
{
    let ghost tv = lines_view(target@);
    let ghost cv = lines_view(current@);
    let tn = target.len();
    let cn = current.len();
    assert(tv.len() == tn && cv.len() == cn);
    let bt_s = st.bt_rem.unwrap();
    let bc_s = st.bc_rem.unwrap();
    let ghost tail_t = bt@.skip(st.bi as int);
    let ghost tail_c = bc@.skip(st.ci as int);
    let ghost bp = st.bp@;
    proof {
        lemma_cover_first(base, tv, bt_s, tail_t, bp, st.tp as int);
        lemma_cover_first(base, cv, bc_s, tail_c, bp, st.cp as int);
        if law_a {
            lemma_all_keep_tail(bt_s, tail_t);
        }
        if law_b {
            lemma_all_keep_tail(bc_s, tail_c);
        }
    }
    st.bt_rem = None;
    st.bc_rem = None;
    let ghost t0 = st.tp as int;
    let ghost c0 = st.cp as int;
    if bt_s.base_len == bc_s.base_len {
        proof {
            if law_a {
                lemma_one_keep_target(base, tv, cv, bt_s, bc_s, bp, t0, c0);
            }
            if law_b {
                lemma_one_keep_current(base, tv, cv, bt_s, bc_s, bp, t0, c0);
            }
        }
        merge_one(&mut st.out, &mut st.conflicts, target, current, &mut st.tp, &mut st.cp, bt_s, bc_s, Ghost(base), Ghost(bp));
        st.bp = Ghost(bp + bt_s.base_len);
    } else if bt_s.base_len < bc_s.base_len {
        let rest = Segment { kind: bc_s.kind, base_len: bc_s.base_len - bt_s.base_len, ins: bc_s.ins };
        let front = Segment { kind: bc_s.kind, base_len: bt_s.base_len, ins: 0 };
        proof {
            lemma_seg_split(base, cv, bc_s, bt_s.base_len, bp, c0);
            if law_a {
                lemma_one_keep_target(base, tv, cv, bt_s, front, bp, t0, c0);
            }
            if law_b {
                lemma_one_keep_current(base, tv, cv, bt_s, front, bp, t0, c0);
                lemma_all_keep_cons(rest, tail_c);
            }
        }
        st.bc_rem = Some(rest);
        merge_one(&mut st.out, &mut st.conflicts, target, current, &mut st.tp, &mut st.cp, bt_s, front, Ghost(base), Ghost(bp));
        st.bp = Ghost(bp + bt_s.base_len);
        proof { lemma_cover_first(base, cv, rest, tail_c, st.bp@, st.cp as int); }
    } else {
        let rest = Segment { kind: bt_s.kind, base_len: bt_s.base_len - bc_s.base_len, ins: bt_s.ins };
        let front = Segment { kind: bt_s.kind, base_len: bc_s.base_len, ins: 0 };
        proof {
            lemma_seg_split(base, tv, bt_s, bc_s.base_len, bp, t0);
            if law_a {
                lemma_one_keep_target(base, tv, cv, front, bc_s, bp, t0, c0);
                lemma_all_keep_cons(rest, tail_t);
            }
            if law_b {
                lemma_one_keep_current(base, tv, cv, front, bc_s, bp, t0, c0);
            }
        }
        st.bt_rem = Some(rest);
        merge_one(&mut st.out, &mut st.conflicts, target, current, &mut st.tp, &mut st.cp, front, bc_s, Ghost(base), Ghost(bp));
        st.bp = Ghost(bp + bc_s.base_len);
        proof { lemma_cover_first(base, tv, rest, tail_t, st.bp@, st.tp as int); }
    }
    proof {
        if law_a {
            lemma_take_extend(cv, c0, st.cp as int);
        }
        if law_b {
            lemma_take_extend(tv, t0, st.tp as int);
        }
    }
}

/// Walks the target's and the current side's segments in step over the base
/// lines and merges them; returns the merged lines and the conflict count.
fn merge_segments(target: &[Vec<char>], current: &[Vec<char>], bt: &[Segment], bc: &[Segment], Ghost(base): Ghost<Seq<Seq<char>>>) -> (r: (Vec<Vec<char>>, usize))
    requires
        segs_cover(base, lines_view(target@), bt@, 0, 0),
        segs_cover(base, lines_view(current@), bc@, 0, 0),
    ensures
        all_keep(bt@) ==> lines_view(r.0@) == lines_view(current@) && r.1 == 0,
        all_keep(bc@) ==> lines_view(r.0@) == lines_view(target@) && r.1 == 0,
        (lines_view(r.0@), r.1 as int) == merge_spec(lines_view(target@), lines_view(current@), bt@, bc@),
{
    let ghost tv = lines_view(target@);
    let ghost cv = lines_view(current@);
    let ghost law_a = all_keep(bt@);
    let ghost law_b = all_keep(bc@);
    let mut st = MergeState {
        out: Vec::new(),
        conflicts: 0,
        tp: 0,
        cp: 0,
        bi: 0,
        ci: 0,
        bt_rem: None,
        bc_rem: None,
        bp: Ghost(0),
    };
    assert(bt@.skip(0) =~= bt@);
    assert(bc@.skip(0) =~= bc@);
    assert(tv.take(0) =~= lines_view(st.out@));
    assert(cv.take(0) =~= lines_view(st.out@));
    let ghost init = MergeView {
        out: Seq::empty(),
        conflicts: 0,
        tp: 0,
        cp: 0,
        bi: 0,
        ci: 0,
        bt_rem: None,
        bc_rem: None,
    };
    assert(view_of(st) == init) by {
        assert(lines_view(st.out@) =~= Seq::<Seq<char>>::empty());
    }
    let ghost total = merge_loop(init, tv, cv, bt@, bc@);
    loop
        invariant_except_break
            state_ok(st, base, tv, cv, bt@, bc@, law_a, law_b),
            tv == lines_view(target@),
            cv == lines_view(current@),
            merge_loop(view_of(st), tv, cv, bt@, bc@) == total,
        ensures
            state_done(st, tv, cv, law_a, law_b),
            tv == lines_view(target@),
            cv == lines_view(current@),
            view_of(st) == total,
        decreases state_measure(st, bt@, bc@),
    {
        let ghost s0 = view_of(st);
        refill(&mut st, bt, bc, Ghost(base), Ghost(tv), Ghost(cv), Ghost(law_a), Ghost(law_b));
        let ghost s1 = view_of(st);
        if step_inserts(&mut st, target, current, bt, bc, Ghost(base), Ghost(law_a), Ghost(law_b)) {
            proof {
                assert(view_measure(s0, bt@, bc@) == state_measure(st, bt@, bc@) + 0 || true);
                assert(merge_loop(s0, tv, cv, bt@, bc@) == merge_loop(view_of(st), tv, cv, bt@, bc@));
            }
            continue;
        }
        if st.bt_rem.is_none() {
            finish_target_done(&mut st, current, bt, bc, Ghost(base), Ghost(tv), Ghost(law_a), Ghost(law_b));
            break;
        }
        if st.bc_rem.is_none() {
            finish_current_done(&mut st, target, bt, bc, Ghost(base), Ghost(cv), Ghost(law_a), Ghost(law_b));
            break;
        }
        step_compare(&mut st, target, current, bt, bc, Ghost(base), Ghost(law_a), Ghost(law_b));
    }
    let mut out = st.out;
    let conflicts = st.conflicts;
    let mut tp = st.tp;
    let mut cp = st.cp;
    while tp < target.len()
        invariant
            tp == target@.len(),
            cp == current@.len(),
            tv == lines_view(target@),
            cv == lines_view(current@),
            lines_view(out@) == total.out,
            conflicts == total.conflicts,
            law_a ==> lines_view(out@) == cv.take(cp as int) && conflicts == 0,
            law_b ==> lines_view(out@) == tv.take(tp as int) && conflicts == 0,
        decreases target@.len() - tp,
    {
        let line = copy_chars(&target[tp]);
        out.push(line);
        tp = tp + 1;
    }
    while cp < current.len()
        invariant
            tp == target@.len(),
            cp == current@.len(),
            tv == lines_view(target@),
            cv == lines_view(current@),
            lines_view(out@) == total.out,
            conflicts == total.conflicts,
            law_a ==> lines_view(out@) == cv.take(cp as int) && conflicts == 0,
            law_b ==> lines_view(out@) == tv.take(tp as int) && conflicts == 0,
        decreases current@.len() - cp,
    {
        let line = copy_chars(&current[cp]);
        out.push(line);
        cp = cp + 1;
    }
    proof {
        assert(tv.take(tv.len() as int) =~= tv);
        assert(cv.take(cv.len() as int) =~= cv);
        assert(total.out + tv.skip(total.tp) + cv.skip(total.cp) =~= total.out);
    }
    (out, conflicts)
}


/// When both sides made the same changes, the merge reproduces that text
/// with no conflict.
proof fn lemma_same_sides(s: MergeView, v: Seq<Seq<char>>, bv: Seq<Seq<char>>, segs: Seq<Segment>, b: int)
    requires
        s.tp == s.cp,
        s.bi == s.ci,
        s.bt_rem == s.bc_rem,
        s.out == v.take(s.tp),
        s.conflicts == 0,
        0 <= s.bi <= segs.len(),
        0 <= b,
        0 <= s.tp,
        segs_cover(bv, v, rem_view(s.bt_rem, segs, s.bi), b, s.tp),
    ensures
        merge_loop(s, v, v, segs, segs).out == v,
        merge_loop(s, v, v, segs, segs).tp == v.len(),
        merge_loop(s, v, v, segs, segs).cp == v.len(),
        merge_loop(s, v, v, segs, segs).conflicts == 0,
    decreases view_measure(s, segs, segs),
{
    let s1 = refill_spec(s, segs, segs);
    if s.bt_rem is None && s.bi < segs.len() {
        lemma_skip_first(segs, s.bi);
    }
    assert(rem_view(s1.bt_rem, segs, s1.bi) == rem_view(s.bt_rem, segs, s.bi));
    lemma_cover_bounds(bv, v, rem_view(s1.bt_rem, segs, s1.bi), b, s1.tp);
    match s1.bt_rem {
        None => {
            assert(s1.bi == segs.len());
            assert(rem_view(s1.bt_rem, segs, s1.bi) =~= Seq::<Segment>::empty());
            assert(s1.tp == v.len());
            assert(drain_spec(v, segs, s1.ci, s1.cp, s1.out) == (s1.out, s1.cp));
            assert(v.take(s1.tp) =~= v);
        },
        Some(g) => {
            let tail = segs.skip(s1.bi);
            lemma_cover_first(bv, v, g, tail, b, s1.tp);
            let (b2, o2) = seg_step(bv, v, g, b, s1.tp).unwrap();
            if g.base_len == 0 {
                let t = v.subrange(s1.tp, s1.tp + g.ins);
                let s2 = MergeView {
                    out: s1.out + t,
                    conflicts: 0,
                    tp: s1.tp + g.ins,
                    cp: s1.cp + g.ins,
                    bt_rem: None,
                    bc_rem: None,
                    ..s1
                };
                assert(inserts_spec(s1, v, v) == Some(s2));
                assert(s2.out =~= v.take(s2.tp));
                assert(rem_view(s2.bt_rem, segs, s2.bi) == tail);
                lemma_same_sides(s2, v, bv, segs, b2);
            } else {
                assert(inserts_spec(s1, v, v) is None);
                let e = one_emit(v, v, s1.tp, s1.cp, g, g);
                let s3 = one_spec(s1, v, v, g, g, None, None);
                assert(compare_spec(s1, v, v) == s3);
                assert(!e.1);
                assert(s3.out =~= v.take(s3.tp));
                assert(s3.tp == o2);
                assert(rem_view(s3.bt_rem, segs, s3.bi) == tail);
                lemma_same_sides(s3, v, bv, segs, b2);
            }
        },
    }
}

/// Line-based three-way merge of `target` (the intended text) and `current`
/// (the text on disk), both derived from `base`.
///
/// Where both sides changed the same base lines differently, the merged text
/// holds a conflict block (`<<<<<<< target`, the target lines, `=======`, the
/// current lines, `>>>>>>> current`) and the conflict count goes up by one.
pub fn merge_texts(base: &str, target: &str, current: &str) -> (r: MergeResult)
    ensures
        r.result@ == merge_text_spec(base@, target@, current@).0,
        r.conflict_count == merge_text_spec(base@, target@, current@).1,
        target@ == base@ ==> r.result@ == current@ && r.conflict_count == 0,
        current@ == base@ ==> r.result@ == target@ && r.conflict_count == 0,
        target@ == current@ ==> r.result@ == target@ && r.conflict_count == 0,
        exists|blocks: Seq<MergeBlock>|
            {
                &&& blocks_fit(blocks, merge_lines(target@).len() as int, merge_lines(current@).len() as int)
                &&& runs_in_order(blocks)
                &&& conflict_blocks(blocks) == r.conflict_count
                &&& join_seq(#[trigger] render_blocks(blocks, merge_lines(target@), merge_lines(current@)), seq!['\n'])
                    == r.result@
            },
{
    let base_chars = chars_of(base);
    let target_chars = chars_of(target);
    let current_chars = chars_of(current);
    let base_lines = split_chars(base_chars.as_slice(), '\n');
    let target_lines = split_chars(target_chars.as_slice(), '\n');
    let current_lines = split_chars(current_chars.as_slice(), '\n');
    let ghost bv = lines_view(base_lines@);
    let ghost tv = lines_view(target_lines@);
    let ghost cv = lines_view(current_lines@);
    proof {
        lemma_split_nonempty(base@, '\n');
        lemma_join_split(current@, '\n');
        lemma_join_split(target@, '\n');
    }
    let bt_ops = diff_ops(base_lines.as_slice(), target_lines.as_slice());
    let bc_ops = diff_ops(base_lines.as_slice(), current_lines.as_slice());
    let segs_bt = group_segments(&bt_ops, Ghost(bv), Ghost(tv));
    let segs_bc = group_segments(&bc_ops, Ghost(bv), Ghost(cv));
    let n = base_lines.len();
    proof {
        assert(bv.len() == base_lines@.len());
        assert(n > 0);
        if target@ == base@ {
            assert(tv == bv);
            assert(bt_ops@ == seq![DiffOp::Equal(n)]);
            assert(segs_bt@ == seq![Segment { kind: SegKind::Keep, base_len: n, ins: 0 }]);
            assert(all_keep(segs_bt@));
        }
        if current@ == base@ {
            assert(cv == bv);
            assert(bc_ops@ == seq![DiffOp::Equal(n)]);
            assert(segs_bc@ == seq![Segment { kind: SegKind::Keep, base_len: n, ins: 0 }]);
            assert(all_keep(segs_bc@));
        }
    }
    let (out, conflicts) = merge_segments(
        target_lines.as_slice(),
        current_lines.as_slice(),
        segs_bt.as_slice(),
        segs_bc.as_slice(),
        Ghost(bv),
    );
    let sep = vec!['\n'];
    let result = join_lines(out.as_slice(), sep.as_slice());
    proof {
        assert(sep@ =~= seq!['\n']);
        lemma_merged_text_blocks(bv, target@, current@, segs_bt@, segs_bc@, result@, conflicts as int);
        if target@ == current@ {
            assert(tv == cv);
            assert(bt_ops@ == bc_ops@);
            assert(segs_bt@ == segs_bc@);
            let init = MergeView {
                out: Seq::empty(),
                conflicts: 0,
                tp: 0,
                cp: 0,
                bi: 0,
                ci: 0,
                bt_rem: None,
                bc_rem: None,
            };
            assert(segs_bt@.skip(0) =~= segs_bt@);
            assert(tv.take(0) =~= Seq::<Seq<char>>::empty());
            lemma_same_sides(init, tv, bv, segs_bt@, 0);
            let f = merge_loop(init, tv, tv, segs_bt@, segs_bt@);
            assert(f.out + tv.skip(f.tp) + tv.skip(f.cp) =~= tv);
        }
    }
    MergeResult { result, conflict_count: conflicts }
}

/// A piece of a merge's output: a run of the target's lines, a run of the
/// current side's lines, or a conflict block that quotes a run of each.
pub enum MergeBlock {
    Target(int, int),
    Current(int, int),
    Conflict(int, int, int, int),
}

/// The lines block `b` stands for: in a conflict block, the target's run
/// stands between `<<<<<<< target` and `=======`, the current side's run
/// between `=======` and `>>>>>>> current`.
pub open spec fn block_lines(b: MergeBlock, tv: Seq<Seq<char>>, cv: Seq<Seq<char>>) -> Seq<Seq<char>> {
    match b {
        MergeBlock::Target(x, y) => tv.subrange(x, y),
        MergeBlock::Current(x, y) => cv.subrange(x, y),
        MergeBlock::Conflict(x, y, u, v) => seq!["<<<<<<< target"@] + tv.subrange(x, y) + seq!["======="@]
            + cv.subrange(u, v) + seq![">>>>>>> current"@],
    }
}

/// The lines of the blocks `bs`, one after another.
pub open spec fn render_blocks(bs: Seq<MergeBlock>, tv: Seq<Seq<char>>, cv: Seq<Seq<char>>) -> Seq<Seq<char>>
    decreases bs.len(),
{
    if bs.len() == 0 {
        Seq::empty()
    } else {
        render_blocks(bs.drop_last(), tv, cv) + block_lines(bs.last(), tv, cv)
    }
}

/// How many of the blocks `bs` are conflict blocks.
pub open spec fn conflict_blocks(bs: Seq<MergeBlock>) -> int
    decreases bs.len(),
{
    if bs.len() == 0 {
        0
    } else {
        conflict_blocks(bs.drop_last()) + if bs.last() is Conflict { 1int } else { 0int }
    }
}

/// The run of target lines that block `b` quotes, if any.
pub open spec fn target_run(b: MergeBlock) -> Option<(int, int)> {
    match b {
        MergeBlock::Target(x, y) => Some((x, y)),
        MergeBlock::Current(_, _) => None,
        MergeBlock::Conflict(x, y, _, _) => Some((x, y)),
    }
}

/// The run of current lines that block `b` quotes, if any.
pub open spec fn current_run(b: MergeBlock) -> Option<(int, int)> {
    match b {
        MergeBlock::Target(_, _) => None,
        MergeBlock::Current(x, y) => Some((x, y)),
        MergeBlock::Conflict(_, _, u, v) => Some((u, v)),
    }
}

/// Block `b` names runs that lie within a target of `tn` lines and a
/// current text of `cn` lines.
pub open spec fn block_fits(b: MergeBlock, tn: int, cn: int) -> bool {
    match b {
        MergeBlock::Target(x, y) => 0 <= x <= y <= tn,
        MergeBlock::Current(x, y) => 0 <= x <= y <= cn,
        MergeBlock::Conflict(x, y, u, v) => 0 <= x <= y <= tn && 0 <= u <= v <= cn,
    }
}

/// Every block of `bs` fits.
pub open spec fn blocks_fit(bs: Seq<MergeBlock>, tn: int, cn: int) -> bool {
    forall|i: int| 0 <= i < bs.len() ==> block_fits(#[trigger] bs[i], tn, cn)
}

/// Block `b` quotes nothing of either text that block `a` quotes or that
/// comes before it.
pub open spec fn block_follows(a: MergeBlock, b: MergeBlock) -> bool {
    &&& (target_run(a) is Some && target_run(b) is Some ==> (target_run(a)->0).1 <= (target_run(b)->0).0)
    &&& (current_run(a) is Some && current_run(b) is Some ==> (current_run(a)->0).1 <= (current_run(b)->0).0)
}

/// The blocks walk both texts forward: each quotes only lines after those
/// its predecessors quote.
pub open spec fn runs_in_order(bs: Seq<MergeBlock>) -> bool {
    forall|i: int, j: int| #![trigger bs[i], bs[j]] 0 <= i < j < bs.len() ==> block_follows(bs[i], bs[j])
}

/// No block quotes target lines at or after `tp`, nor current lines at or
/// after `cp`.
spec fn runs_before(bs: Seq<MergeBlock>, tp: int, cp: int) -> bool {
    forall|i: int|
        0 <= i < bs.len() ==> {
            &&& (target_run(#[trigger] bs[i]) is Some ==> (target_run(bs[i])->0).1 <= tp)
            &&& (current_run(bs[i]) is Some ==> (current_run(bs[i])->0).1 <= cp)
        }
}

/// Block `b` quotes target lines within `tp..tp2` and current lines within
/// `cp..cp2`.
spec fn block_between(b: MergeBlock, tp: int, cp: int, tp2: int, cp2: int) -> bool {
    &&& (target_run(b) is Some ==> tp <= (target_run(b)->0).0 && (target_run(b)->0).1 <= tp2)
    &&& (current_run(b) is Some ==> cp <= (current_run(b)->0).0 && (current_run(b)->0).1 <= cp2)
}

/// `bs` stands for `out` with `n` conflicts, in order, and before `tp` and
/// `cp`.
spec fn blocks_ok(bs: Seq<MergeBlock>, tv: Seq<Seq<char>>, cv: Seq<Seq<char>>, out: Seq<Seq<char>>, tp: int, cp: int, n: int) -> bool {
    &&& blocks_fit(bs, tv.len() as int, cv.len() as int)
    &&& render_blocks(bs, tv, cv) == out
    &&& runs_in_order(bs)
    &&& runs_before(bs, tp, cp)
    &&& conflict_blocks(bs) == n
}

proof fn lemma_block_push(bs: Seq<MergeBlock>, b: MergeBlock, tv: Seq<Seq<char>>, cv: Seq<Seq<char>>, out: Seq<Seq<char>>, tp: int, cp: int, n: int, tp2: int, cp2: int)
    requires
        blocks_ok(bs, tv, cv, out, tp, cp, n),
        block_fits(b, tv.len() as int, cv.len() as int),
        block_between(b, tp, cp, tp2, cp2),
        tp <= tp2,
        cp <= cp2,
    ensures
        blocks_ok(bs.push(b), tv, cv, out + block_lines(b, tv, cv), tp2, cp2, n + if b is Conflict { 1int } else { 0int }),
{
    let bs2 = bs.push(b);
    assert(bs2.drop_last() =~= bs);
    assert forall|i: int| 0 <= i < bs2.len() implies block_fits(#[trigger] bs2[i], tv.len() as int, cv.len() as int) by {
        if i < bs.len() {
            assert(bs2[i] == bs[i]);
        }
    }
    assert forall|i: int, j: int| #![trigger bs2[i], bs2[j]] 0 <= i < j < bs2.len() implies block_follows(bs2[i], bs2[j]) by {
        assert(bs2[i] == bs[i]);
        if j < bs.len() {
            assert(bs2[j] == bs[j]);
        }
    }
    assert forall|i: int| 0 <= i < bs2.len() implies {
        &&& (target_run(#[trigger] bs2[i]) is Some ==> (target_run(bs2[i])->0).1 <= tp2)
        &&& (current_run(bs2[i]) is Some ==> (current_run(bs2[i])->0).1 <= cp2)
    } by {
        if i < bs.len() {
            assert(bs2[i] == bs[i]);
        }
    }
}

/// The positions of a merge state are read in step with both sides'
/// segments over the base lines, from base position `bp`.
spec fn merge_covered(s: MergeView, base: Seq<Seq<char>>, tv: Seq<Seq<char>>, cv: Seq<Seq<char>>, bt: Seq<Segment>, bc: Seq<Segment>, bp: int) -> bool {
    &&& 0 <= s.bi <= bt.len()
    &&& 0 <= s.ci <= bc.len()
    &&& 0 <= bp
    &&& 0 <= s.tp
    &&& 0 <= s.cp
    &&& segs_cover(base, tv, rem_view(s.bt_rem, bt, s.bi), bp, s.tp)
    &&& segs_cover(base, cv, rem_view(s.bc_rem, bc, s.ci), bp, s.cp)
}

/// What the blocks of a merge state keep: they stand for its output and
/// its conflicts, in order, before its positions.
spec fn state_blocks(bs: Seq<MergeBlock>, s: MergeView, tv: Seq<Seq<char>>, cv: Seq<Seq<char>>) -> bool {
    blocks_ok(bs, tv, cv, s.out, s.tp, s.cp, s.conflicts)
}

proof fn lemma_covered_bounds(s: MergeView, base: Seq<Seq<char>>, tv: Seq<Seq<char>>, cv: Seq<Seq<char>>, bt: Seq<Segment>, bc: Seq<Segment>, bp: int)
    requires
        merge_covered(s, base, tv, cv, bt, bc, bp),
    ensures
        0 <= s.tp <= tv.len(),
        0 <= s.cp <= cv.len(),
{
    lemma_cover_bounds(base, tv, rem_view(s.bt_rem, bt, s.bi), bp, s.tp);
    lemma_cover_bounds(base, cv, rem_view(s.bc_rem, bc, s.ci), bp, s.cp);
}

/// The first segment of a covering list: where it leads, and that the rest
/// covers from there.
proof fn lemma_first_step(base: Seq<Seq<char>>, other: Seq<Seq<char>>, x: Segment, rest: Seq<Segment>, b: int, o: int)
    requires
        segs_cover(base, other, seq![x] + rest, b, o),
        0 <= b,
        0 <= o,
    ensures
        seg_step(base, other, x, b, o) is Some,
        fst(seg_step(base, other, x, b, o)) == b + x.base_len,
        snd(seg_step(base, other, x, b, o)) == seg_adv(o, x),
        o <= seg_adv(o, x) <= other.len(),
        x.base_len == 0 ==> seg_adv(o, x) == o + x.ins,
        segs_cover(base, other, rest, b + x.base_len, seg_adv(o, x)),
{
    lemma_cover_first(base, other, x, rest, b, o);
    lemma_cover_bounds(base, other, rest, b + x.base_len, seg_adv(o, x));
}

proof fn lemma_drain_run(base: Seq<Seq<char>>, src: Seq<Seq<char>>, segs: Seq<Segment>, i: int, p: int, b: int, out: Seq<Seq<char>>)
    requires
        0 <= i <= segs.len(),
        0 <= p,
        0 <= b,
        segs_cover(base, src, segs.skip(i), b, p),
    ensures
        p <= drain_spec(src, segs, i, p, out).1 <= src.len(),
        drain_spec(src, segs, i, p, out).0 == out + src.subrange(p, drain_spec(src, segs, i, p, out).1),
    decreases segs.len() - i,
{
    if i >= segs.len() {
        lemma_cover_bounds(base, src, segs.skip(i), b, p);
        assert(out + src.subrange(p, p) =~= out);
    } else {
        let g = segs[i];
        lemma_skip_first(segs, i);
        lemma_first_step(base, src, g, segs.skip(i + 1), b, p);
        let o2 = seg_adv(p, g);
        lemma_drain_run(base, src, segs, i + 1, o2, b + g.base_len, out + src.subrange(p, o2));
        let e = drain_spec(src, segs, i + 1, o2, out + src.subrange(p, o2)).1;
        assert(out + src.subrange(p, o2) + src.subrange(o2, e) =~= out + src.subrange(p, e));
    }
}

proof fn lemma_refill_covered(s: MergeView, base: Seq<Seq<char>>, tv: Seq<Seq<char>>, cv: Seq<Seq<char>>, bt: Seq<Segment>, bc: Seq<Segment>, bp: int)
    requires
        merge_covered(s, base, tv, cv, bt, bc, bp),
    ensures
        merge_covered(refill_spec(s, bt, bc), base, tv, cv, bt, bc, bp),
        refill_spec(s, bt, bc).out == s.out,
        refill_spec(s, bt, bc).tp == s.tp,
        refill_spec(s, bt, bc).cp == s.cp,
        refill_spec(s, bt, bc).conflicts == s.conflicts,
{
    if s.bt_rem is None && s.bi < bt.len() {
        lemma_skip_first(bt, s.bi);
    }
    if s.bc_rem is None && s.ci < bc.len() {
        lemma_skip_first(bc, s.ci);
    }
}

/// The block for merging target segment `a` with current segment `b` over
/// the same base lines.
proof fn lemma_one_block(base: Seq<Seq<char>>, tv: Seq<Seq<char>>, cv: Seq<Seq<char>>, a: Segment, b: Segment, bp: int, tp: int, cp: int) -> (blk: MergeBlock)
    requires
        seg_step(base, tv, a, bp, tp) is Some,
        seg_step(base, cv, b, bp, cp) is Some,
        0 <= tp <= tv.len(),
        0 <= cp <= cv.len(),
    ensures
        block_fits(blk, tv.len() as int, cv.len() as int),
        block_between(blk, tp, cp, seg_adv(tp, a), seg_adv(cp, b)),
        block_lines(blk, tv, cv) == one_emit(tv, cv, tp, cp, a, b).0,
        (blk is Conflict) == one_emit(tv, cv, tp, cp, a, b).1,
{
    let tr = tv.subrange(tp, tp + a.ins);
    let cr = cv.subrange(cp, cp + b.ins);
    let blk = match (a.kind, b.kind) {
        (SegKind::Keep, SegKind::Keep) => MergeBlock::Target(tp, tp + a.base_len),
        (SegKind::Keep, SegKind::Replace) => MergeBlock::Current(cp, cp + b.ins),
        (SegKind::Replace, SegKind::Keep) => MergeBlock::Target(tp, tp + a.ins),
        (SegKind::Drop, SegKind::Replace) => MergeBlock::Conflict(tp, tp, cp, cp + b.ins),
        (SegKind::Replace, SegKind::Drop) => MergeBlock::Conflict(tp, tp + a.ins, cp, cp),
        (SegKind::Replace, SegKind::Replace) => if tr == cr && a.ins == b.ins && a.base_len == b.base_len {
            MergeBlock::Target(tp, tp + a.ins)
        } else {
            MergeBlock::Conflict(tp, tp + a.ins, cp, cp + b.ins)
        },
        _ => MergeBlock::Target(tp, tp),
    };
    assert(tv.subrange(tp, tp) =~= Seq::<Seq<char>>::empty());
    assert(cv.subrange(cp, cp) =~= Seq::<Seq<char>>::empty());
    assert(block_lines(blk, tv, cv) =~= one_emit(tv, cv, tp, cp, a, b).0);
    blk
}

/// A pending insertion on either side adds one block and keeps the state
/// in step with the segments.
proof fn lemma_inserts_blocks(s: MergeView, base: Seq<Seq<char>>, tv: Seq<Seq<char>>, cv: Seq<Seq<char>>, bt: Seq<Segment>, bc: Seq<Segment>, bp: int, blocks: Seq<MergeBlock>) -> (r: Seq<MergeBlock>)
    requires
        merge_covered(s, base, tv, cv, bt, bc, bp),
        state_blocks(blocks, s, tv, cv),
        inserts_spec(s, tv, cv) is Some,
    ensures
        merge_covered(inserts_spec(s, tv, cv)->0, base, tv, cv, bt, bc, bp),
        state_blocks(r, inserts_spec(s, tv, cv)->0, tv, cv),
{
    let bs = s.bt_rem->0;
    let cs = s.bc_rem->0;
    let tail_t = bt.skip(s.bi);
    let tail_c = bc.skip(s.ci);
    lemma_first_step(base, tv, bs, tail_t, bp, s.tp);
    lemma_first_step(base, cv, cs, tail_c, bp, s.cp);
    let s2 = inserts_spec(s, tv, cv)->0;
    let blk = if bs.base_len == 0 && cs.base_len == 0 {
        let t = tv.subrange(s.tp, s.tp + bs.ins);
        let c = cv.subrange(s.cp, s.cp + cs.ins);
        if t == c && bs.ins == cs.ins {
            MergeBlock::Target(s.tp, s.tp + bs.ins)
        } else {
            MergeBlock::Conflict(s.tp, s.tp + bs.ins, s.cp, s.cp + cs.ins)
        }
    } else if bs.base_len == 0 {
        MergeBlock::Target(s.tp, s.tp + bs.ins)
    } else {
        MergeBlock::Current(s.cp, s.cp + cs.ins)
    };
    lemma_block_push(blocks, blk, tv, cv, s.out, s.tp, s.cp, s.conflicts, s2.tp, s2.cp);
    assert(s2.out =~= s.out + block_lines(blk, tv, cv));
    blocks.push(blk)
}

/// Merging two pending segments over base lines adds one block and keeps
/// the state in step with the segments, from the base position returned.
proof fn lemma_compare_blocks(s: MergeView, base: Seq<Seq<char>>, tv: Seq<Seq<char>>, cv: Seq<Seq<char>>, bt: Seq<Segment>, bc: Seq<Segment>, bp: int, blocks: Seq<MergeBlock>) -> (r: (Seq<MergeBlock>, int))
    requires
        merge_covered(s, base, tv, cv, bt, bc, bp),
        state_blocks(blocks, s, tv, cv),
        s.bt_rem matches Some(a) && a.base_len > 0,
        s.bc_rem matches Some(b) && b.base_len > 0,
    ensures
        merge_covered(compare_spec(s, tv, cv), base, tv, cv, bt, bc, r.1),
        state_blocks(r.0, compare_spec(s, tv, cv), tv, cv),
{
    let a = s.bt_rem->0;
    let b = s.bc_rem->0;
    let tail_t = bt.skip(s.bi);
    let tail_c = bc.skip(s.ci);
    lemma_covered_bounds(s, base, tv, cv, bt, bc, bp);
    lemma_first_step(base, tv, a, tail_t, bp, s.tp);
    lemma_first_step(base, cv, b, tail_c, bp, s.cp);
    if a.base_len == b.base_len {
        let blk = lemma_one_block(base, tv, cv, a, b, bp, s.tp, s.cp);
        lemma_block_push(blocks, blk, tv, cv, s.out, s.tp, s.cp, s.conflicts, seg_adv(s.tp, a), seg_adv(s.cp, b));
        (blocks.push(blk), bp + a.base_len)
    } else if a.base_len < b.base_len {
        let rest = Segment { kind: b.kind, base_len: (b.base_len - a.base_len) as usize, ins: b.ins };
        let front = Segment { kind: b.kind, base_len: a.base_len, ins: 0 };
        lemma_seg_split(base, cv, b, a.base_len, bp, s.cp);
        let fs = seg_step(base, cv, front, bp, s.cp);
        assert(fst(fs) == bp + a.base_len && snd(fs) == seg_adv(s.cp, front));
        lemma_cover_first(base, cv, rest, tail_c, fst(fs), snd(fs));
        let blk = lemma_one_block(base, tv, cv, a, front, bp, s.tp, s.cp);
        lemma_block_push(blocks, blk, tv, cv, s.out, s.tp, s.cp, s.conflicts, seg_adv(s.tp, a), seg_adv(s.cp, front));
        (blocks.push(blk), bp + a.base_len)
    } else {
        let rest = Segment { kind: a.kind, base_len: (a.base_len - b.base_len) as usize, ins: a.ins };
        let front = Segment { kind: a.kind, base_len: b.base_len, ins: 0 };
        lemma_seg_split(base, tv, a, b.base_len, bp, s.tp);
        let fs = seg_step(base, tv, front, bp, s.tp);
        assert(fst(fs) == bp + b.base_len && snd(fs) == seg_adv(s.tp, front));
        lemma_cover_first(base, tv, rest, tail_t, fst(fs), snd(fs));
        let blk = lemma_one_block(base, tv, cv, front, b, bp, s.tp, s.cp);
        lemma_block_push(blocks, blk, tv, cv, s.out, s.tp, s.cp, s.conflicts, seg_adv(s.tp, front), seg_adv(s.cp, b));
        (blocks.push(blk), bp + b.base_len)
    }
}

/// With the target side used up, the current side's remaining lines go out
/// as blocks of their own.
proof fn lemma_finish_target_blocks(s: MergeView, base: Seq<Seq<char>>, tv: Seq<Seq<char>>, cv: Seq<Seq<char>>, bt: Seq<Segment>, bc: Seq<Segment>, bp: int, blocks: Seq<MergeBlock>) -> (r: Seq<MergeBlock>)
    requires
        merge_covered(s, base, tv, cv, bt, bc, bp),
        state_blocks(blocks, s, tv, cv),
    ensures
        state_blocks(r, finish_target_spec(s, cv, bc), tv, cv),
        0 <= finish_target_spec(s, cv, bc).tp <= tv.len(),
        0 <= finish_target_spec(s, cv, bc).cp <= cv.len(),
{
    lemma_covered_bounds(s, base, tv, cv, bt, bc, bp);
    let tail_c = bc.skip(s.ci);
    match s.bc_rem {
        Some(g) => {
            lemma_first_step(base, cv, g, tail_c, bp, s.cp);
            let c1 = seg_adv(s.cp, g);
            let blk = MergeBlock::Current(s.cp, c1);
            lemma_block_push(blocks, blk, tv, cv, s.out, s.tp, s.cp, s.conflicts, s.tp, c1);
            let o1 = s.out + cv.subrange(s.cp, c1);
            lemma_drain_run(base, cv, bc, s.ci, c1, bp + g.base_len, o1);
            let d = drain_spec(cv, bc, s.ci, c1, o1);
            let blk2 = MergeBlock::Current(c1, d.1);
            lemma_block_push(blocks.push(blk), blk2, tv, cv, o1, s.tp, c1, s.conflicts, s.tp, d.1);
            blocks.push(blk).push(blk2)
        },
        None => {
            lemma_drain_run(base, cv, bc, s.ci, s.cp, bp, s.out);
            let d = drain_spec(cv, bc, s.ci, s.cp, s.out);
            let blk = MergeBlock::Current(s.cp, d.1);
            lemma_block_push(blocks, blk, tv, cv, s.out, s.tp, s.cp, s.conflicts, s.tp, d.1);
            blocks.push(blk)
        },
    }
}

/// With the current side used up, the target's remaining lines go out as
/// blocks of their own.
proof fn lemma_finish_current_blocks(s: MergeView, base: Seq<Seq<char>>, tv: Seq<Seq<char>>, cv: Seq<Seq<char>>, bt: Seq<Segment>, bc: Seq<Segment>, bp: int, blocks: Seq<MergeBlock>) -> (r: Seq<MergeBlock>)
    requires
        merge_covered(s, base, tv, cv, bt, bc, bp),
        state_blocks(blocks, s, tv, cv),
        s.bt_rem is Some,
    ensures
        state_blocks(r, finish_current_spec(s, tv, bt), tv, cv),
        0 <= finish_current_spec(s, tv, bt).tp <= tv.len(),
        0 <= finish_current_spec(s, tv, bt).cp <= cv.len(),
{
    lemma_covered_bounds(s, base, tv, cv, bt, bc, bp);
    let tail_t = bt.skip(s.bi);
    let g = s.bt_rem->0;
    lemma_first_step(base, tv, g, tail_t, bp, s.tp);
    let t1 = seg_adv(s.tp, g);
    let blk = MergeBlock::Target(s.tp, t1);
    lemma_block_push(blocks, blk, tv, cv, s.out, s.tp, s.cp, s.conflicts, t1, s.cp);
    let o1 = s.out + tv.subrange(s.tp, t1);
    lemma_drain_run(base, tv, bt, s.bi, t1, bp + g.base_len, o1);
    let d = drain_spec(tv, bt, s.bi, t1, o1);
    let blk2 = MergeBlock::Target(t1, d.1);
    lemma_block_push(blocks.push(blk), blk2, tv, cv, o1, t1, s.cp, s.conflicts, d.1, s.cp);
    blocks.push(blk).push(blk2)
}

/// The merge from a state in step with the segments goes out as blocks.
proof fn lemma_merge_blocks(s: MergeView, base: Seq<Seq<char>>, tv: Seq<Seq<char>>, cv: Seq<Seq<char>>, bt: Seq<Segment>, bc: Seq<Segment>, bp: int, blocks: Seq<MergeBlock>) -> (r: Seq<MergeBlock>)
    requires
        merge_covered(s, base, tv, cv, bt, bc, bp),
        state_blocks(blocks, s, tv, cv),
    ensures
        state_blocks(r, merge_loop(s, tv, cv, bt, bc), tv, cv),
        0 <= merge_loop(s, tv, cv, bt, bc).tp <= tv.len(),
        0 <= merge_loop(s, tv, cv, bt, bc).cp <= cv.len(),
    decreases view_measure(s, bt, bc),
{
    let s1 = refill_spec(s, bt, bc);
    lemma_refill_covered(s, base, tv, cv, bt, bc, bp);
    match inserts_spec(s1, tv, cv) {
        Some(s2) => {
            let b2 = lemma_inserts_blocks(s1, base, tv, cv, bt, bc, bp, blocks);
            if 0 <= view_measure(s2, bt, bc) < view_measure(s, bt, bc) {
                lemma_merge_blocks(s2, base, tv, cv, bt, bc, bp, b2)
            } else {
                lemma_covered_bounds(s2, base, tv, cv, bt, bc, bp);
                b2
            }
        },
        None => if s1.bt_rem is None {
            lemma_finish_target_blocks(s1, base, tv, cv, bt, bc, bp, blocks)
        } else if s1.bc_rem is None {
            lemma_finish_current_blocks(s1, base, tv, cv, bt, bc, bp, blocks)
        } else {
            let (b3, bp3) = lemma_compare_blocks(s1, base, tv, cv, bt, bc, bp, blocks);
            let s3 = compare_spec(s1, tv, cv);
            if 0 <= view_measure(s3, bt, bc) < view_measure(s, bt, bc) {
                lemma_merge_blocks(s3, base, tv, cv, bt, bc, bp3, b3)
            } else {
                lemma_covered_bounds(s3, base, tv, cv, bt, bc, bp3);
                b3
            }
        },
    }
}

/// The merged lines of a target and a current text, each read against the
/// base by segments that cover it, are a run of blocks that walk both texts
/// forward: runs of the target's lines, runs of the current text's lines,
/// and conflict blocks that hold a run of the target's lines between
/// `<<<<<<< target` and `=======` and a run of the current text's lines
/// between `=======` and `>>>>>>> current`. The conflict count is the number
/// of conflict blocks.
pub proof fn law_merge_blocks_quote_their_sides(base: Seq<Seq<char>>, tv: Seq<Seq<char>>, cv: Seq<Seq<char>>, bt: Seq<Segment>, bc: Seq<Segment>)
    requires
        segs_cover(base, tv, bt, 0, 0),
        segs_cover(base, cv, bc, 0, 0),
    ensures
        exists|blocks: Seq<MergeBlock>|
            {
                &&& blocks_fit(blocks, tv.len() as int, cv.len() as int)
                &&& runs_in_order(blocks)
                &&& conflict_blocks(blocks) == merge_spec(tv, cv, bt, bc).1
                &&& #[trigger] render_blocks(blocks, tv, cv) == merge_spec(tv, cv, bt, bc).0
            },
{
    let init = MergeView { out: Seq::empty(), conflicts: 0, tp: 0, cp: 0, bi: 0, ci: 0, bt_rem: None, bc_rem: None };
    assert(bt.skip(0) =~= bt);
    assert(bc.skip(0) =~= bc);
    let e = Seq::<MergeBlock>::empty();
    assert(state_blocks(e, init, tv, cv));
    let r = lemma_merge_blocks(init, base, tv, cv, bt, bc, 0, e);
    let f = merge_loop(init, tv, cv, bt, bc);
    let blk = MergeBlock::Target(f.tp, tv.len() as int);
    lemma_block_push(r, blk, tv, cv, f.out, f.tp, f.cp, f.conflicts, tv.len() as int, f.cp);
    let blk2 = MergeBlock::Current(f.cp, cv.len() as int);
    lemma_block_push(r.push(blk), blk2, tv, cv, f.out + tv.subrange(f.tp, tv.len() as int), tv.len() as int, f.cp, f.conflicts, tv.len() as int, cv.len() as int);
    let all = r.push(blk).push(blk2);
    assert(tv.skip(f.tp) =~= tv.subrange(f.tp, tv.len() as int));
    assert(cv.skip(f.cp) =~= cv.subrange(f.cp, cv.len() as int));
    assert(render_blocks(all, tv, cv) == merge_spec(tv, cv, bt, bc).0);
    assert(blocks_fit(all, tv.len() as int, cv.len() as int));
    assert(runs_in_order(all));
    assert(conflict_blocks(all) == merge_spec(tv, cv, bt, bc).1);
}

proof fn lemma_merged_text_blocks(bv: Seq<Seq<char>>, target: Seq<char>, current: Seq<char>, bt: Seq<Segment>, bc: Seq<Segment>, text: Seq<char>, n: int)
    requires
        segs_cover(bv, merge_lines(target), bt, 0, 0),
        segs_cover(bv, merge_lines(current), bc, 0, 0),
        text == join_seq(merge_spec(merge_lines(target), merge_lines(current), bt, bc).0, seq!['\n']),
        n == merge_spec(merge_lines(target), merge_lines(current), bt, bc).1,
    ensures
        exists|blocks: Seq<MergeBlock>|
            {
                &&& blocks_fit(blocks, merge_lines(target).len() as int, merge_lines(current).len() as int)
                &&& runs_in_order(blocks)
                &&& conflict_blocks(blocks) == n
                &&& join_seq(#[trigger] render_blocks(blocks, merge_lines(target), merge_lines(current)), seq!['\n'])
                    == text
            },
{
    law_merge_blocks_quote_their_sides(bv, merge_lines(target), merge_lines(current), bt, bc);
}

} // verus!
