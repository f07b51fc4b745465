//! Byte trigrams: three consecutive bytes, the unit of the trigram index.

use vstd::prelude::*;
use vstd::utf8::encode_utf8;
use std::collections::HashMap;
use std::sync::Arc;
use fixedbitset::FixedBitSet;
use crate::index::adaptive::{line_count, win_end};
use crate::index::bitset::{bit_ones, bit_len, below, bits_with_capacity, bits_insert, bits_fill, bits_intersect, bits_clear, bits_clone};

verus! {

/// Three consecutive bytes.
#[derive(Debug, Clone, Copy, PartialEq, Eq, Hash)]
pub struct Trigram(pub [u8; 3]);

/// The trigrams of `s`: one per window of three consecutive bytes.
pub open spec fn trigrams_of(s: Seq<u8>) -> Seq<Seq<u8>> {
    Seq::new(if s.len() >= 3 { (s.len() - 2) as nat } else { 0 }, |i: int| s.subrange(i, i + 3))
}

impl Trigram {
    /// The trigram `a b c`.
    pub fn new(a: u8, b: u8, c: u8) -> (t: Trigram)
        ensures
            t.0@ == seq![a, b, c],
    {
        let t = Trigram([a, b, c]);
        assert(t.0@ =~= seq![a, b, c]);
        t
    }

    /// Every trigram of `slice`, in order.
    pub fn from_slice(slice: &[u8]) -> (v: Vec<Trigram>)
        ensures
            v@.len() == trigrams_of(slice@).len(),
            forall|i: int| 0 <= i < v@.len() ==> (#[trigger] v@[i]).0@ == trigrams_of(slice@)[i],
    {
        let mut v: Vec<Trigram> = Vec::new();
        let n = slice.len();
        if n < 3 {
            return v;
        }
        let mut i: usize = 0;
        while i < n - 2
            invariant
                n == slice@.len(),
                n >= 3,
                i <= n - 2,
                v@.len() == i,
                forall|k: int| 0 <= k < i ==> (#[trigger] v@[k]).0@ == slice@.subrange(k, k + 3),
            decreases n - 2 - i,
        {
            let t = Trigram::new(slice[i], slice[i + 1], slice[i + 2]);
            assert(t.0@ =~= slice@.subrange(i as int, i + 3));
            v.push(t);
            i = i + 1;
        }
        v
    }

    /// The three bytes.
    pub fn as_bytes(&self) -> (b: [u8; 3])
        ensures
            b@ == self.0@,
    {
        self.0
    }
}

/// The number a trigram is keyed by: its three bytes read as a big-endian
/// number.
pub open spec fn tri_key(a: u8, b: u8, c: u8) -> u32 {
    (a as int * 65536 + b as int * 256 + c as int) as u32
}

/// The key of trigram `t`.
pub open spec fn key_of(t: Trigram) -> u32 {
    tri_key(t.0@[0], t.0@[1], t.0@[2])
}

/// Some window of `l` starting before `j` is the trigram keyed `k`.
pub open spec fn tri_before(l: Seq<u8>, k: u32, j: int) -> bool {
    exists|x: int| 0 <= x < j && x + 3 <= l.len() && #[trigger] tri_key(l[x], l[x + 1], l[x + 2]) == k
}

/// The bytes of line `i`: from its offset to the next, cut at the end.
pub open spec fn line_window(b: Seq<u8>, offs: Seq<usize>, i: int) -> Seq<u8> {
    b.subrange(offs[i] as int, win_end(offs, i, b.len() as int))
}

/// Every line's range is ordered.
pub open spec fn windows_ordered(b: Seq<u8>, offs: Seq<usize>) -> bool {
    forall|i: int| #![trigger offs[i]] 0 <= i < line_count(offs) ==> offs[i] <= win_end(offs, i, b.len() as int)
}

/// The lines of the text with bytes `b` cut at `offs` that hold the
/// trigram keyed `k`.
pub open spec fn tri_lines(b: Seq<u8>, offs: Seq<usize>, k: u32) -> Set<usize> {
    Set::new(|i: usize| i < line_count(offs) && tri_before(line_window(b, offs, i as int), k, line_window(b, offs, i as int).len() as int))
}

/// The number of lines an index over `offs` counts: at least one.
pub open spec fn indexed_count(offs: Seq<usize>) -> nat {
    if line_count(offs) >= 1 { line_count(offs) as nat } else { 1 }
}

/// The lines a query for all of `req` may match in an index `v` over `n`
/// lines: none for an empty query or when a trigram is missing, else the
/// lines every trigram's set holds.
pub open spec fn candidates_spec(v: Map<u32, Set<usize>>, n: nat, req: Seq<u32>) -> Set<usize> {
    if req.len() == 0 {
        Set::empty()
    } else if forall|j: int| 0 <= j < req.len() ==> v.contains_key(#[trigger] req[j]) {
        Set::new(|i: usize| i < n && forall|j: int| 0 <= j < req.len() ==> #[trigger] v[req[j]].contains(i))
    } else {
        Set::empty()
    }
}

/// An inverted index from trigrams to the lines that hold them.
pub struct TrigramIndex {
    trigrams: HashMap<u32, Arc<FixedBitSet>>,
    line_count: usize,
}

impl View for TrigramIndex {
    type V = Map<u32, Set<usize>>;

    /// For each trigram key present, the lines holding it.
    closed spec fn view(&self) -> Map<u32, Set<usize>> {
        Map::new(|k: u32| self.trigrams@.contains_key(k), |k: u32| bit_ones(*self.trigrams@[k]))
    }
}

/// The key of `t`.
fn key_for(t: &Trigram) -> (k: u32)
    ensures
        k == key_of(*t),
{
    (t.0[0] as u32) * 65536 + (t.0[1] as u32) * 256 + (t.0[2] as u32)
}

/// The lines of line `i` reached once windows before `j` of it are read.
pub open spec fn reached(b: Seq<u8>, offs: Seq<usize>, k: u32, i: int, j: int) -> Set<usize> {
    Set::new(
        |l: usize|
            (l < i && tri_before(line_window(b, offs, l as int), k, line_window(b, offs, l as int).len() as int)) || (
            l == i && tri_before(line_window(b, offs, i), k, j)),
    )
}

impl TrigramIndex {
    /// The number of lines indexed.
    pub closed spec fn lines(&self) -> nat {
        self.line_count as nat
    }

    /// Indexes the lines of `content` cut at byte offsets `line_offsets`
    /// (line `i` runs from offset `i` to offset `i + 1`, cut at the end of
    /// the text): each trigram present maps to the lines that hold it.
    pub fn build_from_content(content: &str, line_offsets: &[usize]) -> (r: TrigramIndex)
        requires
            windows_ordered(encode_utf8(content@), line_offsets@),
        ensures
            r.lines() == indexed_count(line_offsets@),
            forall|k: u32| #[trigger] r@.contains_key(k) ==> r@[k] == tri_lines(encode_utf8(content@), line_offsets@, k)
                && exists|l: usize| r@[k].contains(l),
            forall|k: u32| !(#[trigger] r@.contains_key(k)) ==> tri_lines(encode_utf8(content@), line_offsets@, k)
                == Set::<usize>::empty(),
    {
        let bytes = content.as_bytes();
        let ghost b = encode_utf8(content@);
        let ghost offs = line_offsets@;
        let count: usize = if line_offsets.len() >= 2 { line_offsets.len() - 1 } else { 1 };
        let n: usize = if line_offsets.len() >= 2 { line_offsets.len() - 1 } else { 0 };
        let mut trigrams: HashMap<u32, Arc<FixedBitSet>> = HashMap::new();
        let mut i: usize = 0;
        while i < n
            invariant
                i <= n,
                n == line_count(offs),
                count == indexed_count(offs),
                n <= count,
                offs == line_offsets@,
                bytes@ == b,
                windows_ordered(b, offs),
                forall|k: u32| #[trigger] trigrams@.contains_key(k) ==> bit_ones(*trigrams@[k]) == reached(b, offs, k, i as int, 0)
                    && bit_len(*trigrams@[k]) == count && exists|l: usize| bit_ones(*trigrams@[k]).contains(l),
                forall|k: u32| !(#[trigger] trigrams@.contains_key(k)) ==> reached(b, offs, k, i as int, 0) == Set::<usize>::empty(),
            decreases n - i,
        {
            let s = line_offsets[i];
            let e = if line_offsets[i + 1] < bytes.len() { line_offsets[i + 1] } else { bytes.len() };
            assert(e == win_end(offs, i as int, b.len() as int));
            assert(s <= e) by {
                assert(offs[i as int] == s);
            }
            let lb = &bytes[s..e];
            let ghost l = lb@;
            assert(l == line_window(b, offs, i as int));
            let tris = Trigram::from_slice(lb);
            let mut j: usize = 0;
            while j < tris.len()
                invariant
                    i < n,
                    n == line_count(offs),
                    count == indexed_count(offs),
                    n <= count,
                    l == line_window(b, offs, i as int),
                    tris@.len() == trigrams_of(l).len(),
                    forall|x: int| 0 <= x < tris@.len() ==> (#[trigger] tris@[x]).0@ == trigrams_of(l)[x],
                    j <= tris@.len(),
                    forall|k: u32| #[trigger] trigrams@.contains_key(k) ==> bit_ones(*trigrams@[k]) == reached(b, offs, k, i as int, j as int)
                        && bit_len(*trigrams@[k]) == count && exists|x: usize| bit_ones(*trigrams@[k]).contains(x),
                    forall|k: u32| !(#[trigger] trigrams@.contains_key(k)) ==> reached(b, offs, k, i as int, j as int) == Set::<usize>::empty(),
                decreases tris@.len() - j,
            {
                let kk = key_for(&tris[j]);
                proof {
                    assert(tris@[j as int].0@ == l.subrange(j as int, j + 3));
                    assert(kk == tri_key(l[j as int], l[j + 1], l[j + 2]));
                }
                let ghost m0 = trigrams@;
                let mut set = match trigrams.get(&kk) {
                    Some(a) => bits_clone(&**a),
                    None => bits_with_capacity(count),
                };
                bits_insert(&mut set, i);
                trigrams.insert(kk, Arc::new(set));
                proof {
                    assert forall|k: u32| #![trigger reached(b, offs, k, i as int, j + 1)]
                        reached(b, offs, k, i as int, j + 1) == (if k == kk {
                            reached(b, offs, k, i as int, j as int).insert(i)
                        } else {
                            reached(b, offs, k, i as int, j as int)
                        }) by {
                        lemma_reached_step(b, offs, k, i as int, j as int, kk);
                    }
                    assert forall|k: u32| #[trigger] trigrams@.contains_key(k) implies bit_ones(*trigrams@[k]) == reached(b, offs, k, i as int, j + 1)
                        && bit_len(*trigrams@[k]) == count && exists|x: usize| bit_ones(*trigrams@[k]).contains(x) by {
                        if k == kk {
                            assert(*trigrams@[k] == set);
                            assert(bit_ones(*trigrams@[k]).contains(i));
                            if m0.contains_key(k) {
                                assert(reached(b, offs, k, i as int, j as int) == bit_ones(*m0[k]));
                            } else {
                                assert(reached(b, offs, k, i as int, j as int) == Set::<usize>::empty());
                                assert(bit_ones(*trigrams@[k]) =~= Set::<usize>::empty().insert(i));
                            }
                        } else {
                            assert(m0.contains_key(k));
                            assert(trigrams@[k] == m0[k]);
                            assert(bit_ones(*m0[k]) == reached(b, offs, k, i as int, j as int));
                        }
                    }
                    assert forall|k: u32| !(#[trigger] trigrams@.contains_key(k)) implies reached(b, offs, k, i as int, j + 1) == Set::<usize>::empty() by {
                        assert(!m0.contains_key(k));
                    }
                }
                j = j + 1;
            }
            proof {
                assert forall|k: u32| #![trigger reached(b, offs, k, i + 1, 0)]
                    reached(b, offs, k, i + 1, 0) == reached(b, offs, k, i as int, j as int) by {
                    lemma_reached_line_done(b, offs, k, i as int, j as int);
                }
            }
            i = i + 1;
        }
        let r = TrigramIndex { trigrams, line_count: count };
        proof {
            assert forall|k: u32| #![trigger tri_lines(b, offs, k)] tri_lines(b, offs, k) == reached(b, offs, k, n as int, 0) by {
                assert(tri_lines(b, offs, k) =~= reached(b, offs, k, n as int, 0));
            }
            assert forall|k: u32| #[trigger] r@.contains_key(k) implies r@[k] == tri_lines(b, offs, k) && exists|l: usize| r@[k].contains(l) by {
                assert(r.trigrams@.contains_key(k));
                assert(r@[k] == bit_ones(*r.trigrams@[k]));
            }
            assert forall|k: u32| !(#[trigger] r@.contains_key(k)) implies tri_lines(b, offs, k) == Set::<usize>::empty() by {
                assert(!r.trigrams@.contains_key(k));
            }
        }
        r
    }
}

impl TrigramIndex {
    /// The set of lines holding `trigram`, if any line does.
    pub fn lookup(&self, trigram: Trigram) -> (r: Option<Arc<FixedBitSet>>)
        ensures
            r is Some == self@.contains_key(key_of(trigram)),
            r matches Some(a) ==> bit_ones(*a) == self@[key_of(trigram)],
    {
        let k = key_for(&trigram);
        match self.trigrams.get(&k) {
            Some(a) => Some(Arc::new(bits_clone(&**a))),
            None => None,
        }
    }

    /// The number of distinct trigrams indexed.
    pub fn trigram_count(&self) -> (n: usize)
        ensures
            n == self@.dom().len(),
    {
        proof {
            assert(self@.dom() =~= self.trigrams@.dom());
        }
        self.trigrams.len()
    }

    /// The number of lines indexed.
    pub fn line_count(&self) -> (n: usize)
        ensures
            n == self.lines(),
    {
        self.line_count
    }

    /// The lines that hold every trigram of `required_trigrams`, as a set
    /// of the index's length; empty for an empty query or when a trigram is
    /// in no line.
    pub fn candidate_lines(&self, required_trigrams: &[Trigram]) -> (r: FixedBitSet)
        ensures
            bit_len(r) == self.lines(),
            bit_ones(r) == candidates_spec(self@, self.lines(), required_trigrams@.map_values(|t: Trigram| key_of(t))),
    {
        let ghost req = required_trigrams@.map_values(|t: Trigram| key_of(t));
        let ghost n = self.lines();
        let mut result = bits_with_capacity(self.line_count);
        if required_trigrams.len() == 0 {
            return result;
        }
        bits_fill(&mut result);
        let mut j: usize = 0;
        while j < required_trigrams.len()
            invariant
                j <= required_trigrams@.len(),
                req == required_trigrams@.map_values(|t: Trigram| key_of(t)),
                bit_len(result) == n,
                n == self.lines(),
                forall|x: int| 0 <= x < j ==> self@.contains_key(#[trigger] req[x]),
                bit_ones(result) == Set::new(|i: usize| i < n && forall|x: int| 0 <= x < j ==> #[trigger] self@[req[x]].contains(i)),
            decreases required_trigrams@.len() - j,
        {
            let k = key_for(&required_trigrams[j]);
            assert(k == req[j as int]);
            match self.trigrams.get(&k) {
                Some(a) => {
                    let ghost before = bit_ones(result);
                    bits_intersect(&mut result, &**a);
                    proof {
                        assert(self@[k] == bit_ones(**a));
                        assert(bit_ones(result) =~= Set::new(
                            |i: usize| i < n && forall|x: int| 0 <= x < j + 1 ==> #[trigger] self@[req[x]].contains(i),
                        )) by {
                            assert forall|i: usize| #[trigger] bit_ones(result).contains(i) implies (i < n && forall|x: int|
                                0 <= x < j + 1 ==> #[trigger] self@[req[x]].contains(i)) by {
                                assert forall|x: int| 0 <= x < j + 1 implies #[trigger] self@[req[x]].contains(i) by {
                                    if x < j {
                                        assert(before.contains(i));
                                    }
                                }
                            }
                            assert forall|i: usize| (i < n && forall|x: int|
                                0 <= x < j + 1 ==> #[trigger] self@[req[x]].contains(i)) implies #[trigger] bit_ones(result).contains(i) by {
                                assert(self@[req[j as int]].contains(i));
                                assert(before.contains(i));
                            }
                        }
                    }
                },
                None => {
                    bits_clear(&mut result);
                    proof {
                        assert(!self@.contains_key(req[j as int]));
                        assert(!(forall|x: int| 0 <= x < req.len() ==> self@.contains_key(#[trigger] req[x])));
                    }
                    return result;
                },
            }
            j = j + 1;
        }
        proof {
            assert(bit_ones(result) =~= candidates_spec(self@, n, req));
        }
        result
    }
}

/// One more window read of line `i` adds line `i` to the set of its key.
proof fn lemma_reached_step(b: Seq<u8>, offs: Seq<usize>, k: u32, i: int, j: int, kk: u32)
    requires
        0 <= i <= usize::MAX,
        0 <= j,
        j + 3 <= line_window(b, offs, i).len(),
        kk == tri_key(line_window(b, offs, i)[j], line_window(b, offs, i)[j + 1], line_window(b, offs, i)[j + 2]),
    ensures
        reached(b, offs, k, i, j + 1) == (if k == kk {
            reached(b, offs, k, i, j).insert(i as usize)
        } else {
            reached(b, offs, k, i, j)
        }),
{
    let l = line_window(b, offs, i);
    if k == kk {
        assert(tri_before(l, k, j + 1));
        assert(reached(b, offs, k, i, j + 1) =~= reached(b, offs, k, i, j).insert(i as usize));
    } else {
        assert(tri_before(l, k, j + 1) == tri_before(l, k, j)) by {
            if tri_before(l, k, j + 1) {
                let x = choose|x: int| 0 <= x < j + 1 && x + 3 <= l.len() && #[trigger] tri_key(l[x], l[x + 1], l[x + 2]) == k;
                assert(x != j);
            }
        }
        assert(reached(b, offs, k, i, j + 1) =~= reached(b, offs, k, i, j));
    }
}

/// Once every window of line `i` is read, the line is done.
proof fn lemma_reached_line_done(b: Seq<u8>, offs: Seq<usize>, k: u32, i: int, j: int)
    requires
        0 <= i,
        j == trigrams_of(line_window(b, offs, i)).len(),
    ensures
        reached(b, offs, k, i + 1, 0) == reached(b, offs, k, i, j),
{
    let l = line_window(b, offs, i);
    assert(tri_before(l, k, l.len() as int) == tri_before(l, k, j)) by {
        if tri_before(l, k, l.len() as int) {
            let x = choose|x: int| 0 <= x < l.len() && x + 3 <= l.len() && #[trigger] tri_key(l[x], l[x + 1], l[x + 2]) == k;
            assert(x < j);
        }
    }
    assert(reached(b, offs, k, i + 1, 0) =~= reached(b, offs, k, i, j));
}

} // verus!
