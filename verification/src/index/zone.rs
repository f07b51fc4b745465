//! Zones: fixed-size byte segments of a file, each with the lines it
//! touches and a hash of its bytes.

use vstd::prelude::*;
use crate::hash::{full_hash_bytes, xxh32_spec};

verus! {

/// Bytes per zone.
pub const ZONE_SIZE_BYTES: usize = 8192;

/// One zone: bytes `byte_start..byte_end`, lines `line_start..line_end`.
#[derive(Debug, Clone, Copy, PartialEq, Eq, Structural)]
pub struct Zone {
    pub id: u32,
    pub byte_start: u64,
    pub byte_end: u64,
    pub line_start: usize,
    pub line_end: usize,
    pub content_hash: u32,
}

/// The zones covering a file, in order.
#[derive(Debug)]
pub struct ZoneMap {
    zones: Vec<Zone>,
}

/// Zones ordered by their ends: byte and line ends never decrease, and
/// line starts never decrease.
pub open spec fn zones_ordered(z: Seq<Zone>) -> bool {
    forall|i: int, j: int|
        0 <= i <= j < z.len() ==> {
            &&& (#[trigger] z[i]).byte_end <= (#[trigger] z[j]).byte_end
            &&& z[i].line_end <= z[j].line_end
            &&& z[i].line_start <= z[j].line_start
            &&& z[i].byte_start <= z[j].byte_start
        }
}

/// How many leading zones end at or before `offset`.
pub open spec fn zones_before_byte(z: Seq<Zone>, offset: int) -> int
    decreases z.len(),
{
    if z.len() == 0 {
        0
    } else if offset >= z.last().byte_end {
        z.len() as int
    } else {
        zones_before_byte(z.drop_last(), offset)
    }
}

/// How many leading zones end at or before `line`.
pub open spec fn zones_before_line(z: Seq<Zone>, line: int) -> int
    decreases z.len(),
{
    if z.len() == 0 {
        0
    } else if line >= z.last().line_end {
        z.len() as int
    } else {
        zones_before_line(z.drop_last(), line)
    }
}

/// `k` clamped to the last zone index (0 when there are none).
pub open spec fn clamp_index(k: int, n: int) -> int {
    if n == 0 {
        0
    } else if k < n - 1 {
        k
    } else {
        n - 1
    }
}

/// Whether offset `o` passes threshold `t`: `o >= t`, or `o > t` when
/// `strict`.
pub open spec fn passes(o: usize, t: int, strict: bool) -> bool {
    if strict {
        o > t
    } else {
        o >= t
    }
}

/// The first position at or after `i` in `offs` whose offset passes `t`,
/// else `none`.
pub open spec fn first_from(offs: Seq<usize>, t: int, strict: bool, i: int, none: int) -> int
    decreases offs.len() - i,
{
    if i < 0 || i >= offs.len() {
        none
    } else if passes(offs[i], t, strict) {
        i
    } else {
        first_from(offs, t, strict, i + 1, none)
    }
}

/// The number of zones for `n` bytes: one per started 8 KiB, none for no
/// bytes.
pub open spec fn zone_count_spec(n: int) -> int {
    if n == 0 {
        0
    } else {
        n / 8192 + if n % 8192 != 0 { 1int } else { 0 }
    }
}

/// Zone `id` of a file of bytes `b` with line start offsets `offs`.
pub open spec fn zone_spec(b: Seq<u8>, offs: Seq<usize>, id: int) -> Zone {
    let total = b.len() as int;
    let line_count = if offs.len() >= 1 { offs.len() - 1 } else { 0 };
    let start = id * 8192;
    let end = if total - start > 8192 { start + 8192 } else { total };
    let ls = first_from(offs, start, false, 0, line_count);
    let le0 = first_from(offs, end, true, 0, line_count);
    Zone {
        id: id as u32,
        byte_start: start as u64,
        byte_end: end as u64,
        line_start: ls as usize,
        line_end: (if le0 > ls + 1 { le0 } else { ls + 1 }) as usize,
        content_hash: xxh32_spec(b.subrange(start, end), 0),
    }
}

impl ZoneMap {
    /// The zones, in order.
    pub closed spec fn zones(&self) -> Seq<Zone> {
        self.zones@
    }

    #[verifier::type_invariant]
    spec fn ordered(self) -> bool {
        zones_ordered(self.zones@)
    }

    /// Splits `bytes` into 8 KiB zones; `newline_offsets` are the byte
    /// offsets where lines start (with the end of the file last).
    pub fn from_bytes(bytes: &[u8], newline_offsets: &[usize]) -> (m: ZoneMap)
        requires
            newline_offsets@.len() < usize::MAX,
        ensures
            m.zones().len() == zone_count_spec(bytes@.len() as int),
            forall|i: int| 0 <= i < m.zones().len() ==> #[trigger] m.zones()[i] == zone_spec(bytes@, newline_offsets@, i),
    {
        let mut zones: Vec<Zone> = Vec::new();
        let n = bytes.len();
        if n == 0 {
            return ZoneMap { zones };
        }
        let total = n as u64;
        let line_count: usize = if newline_offsets.len() >= 1 { newline_offsets.len() - 1 } else { 0 };
        let count: usize = n / 8192 + if n % 8192 != 0 { 1 } else { 0 };
        let mut id: usize = 0;
        while id < count
            invariant
                n == bytes@.len(),
                n > 0,
                total == n,
                count == zone_count_spec(n as int),
                line_count == (if newline_offsets@.len() >= 1 { newline_offsets@.len() - 1 } else { 0int }),
                newline_offsets@.len() < usize::MAX,
                id <= count,
                zones@.len() == id,
                forall|i: int| 0 <= i < id ==> #[trigger] zones@[i] == zone_spec(bytes@, newline_offsets@, i),
                zones_ordered(zones@),
            decreases count - id,
        {
            proof {
                assert(id * 8192 < n) by (nonlinear_arith)
                    requires
                        id < count,
                        count == n / 8192 + if n % 8192 != 0 { 1int } else { 0 },
                        n > 0,
                ;
            }
            let start: usize = id * 8192;
            let end: usize = if n - start > 8192 { start + 8192 } else { n };
            let ls = first_position(newline_offsets, start, false, line_count);
            let le0 = first_position(newline_offsets, end, true, line_count);
            let le = if le0 > ls + 1 { le0 } else { ls + 1 };
            let chunk = sub_bytes(bytes, start, end);
            let h = full_hash_bytes(chunk.as_slice());
            let z = Zone {
                id: id as u32,
                byte_start: start as u64,
                byte_end: end as u64,
                line_start: ls,
                line_end: le,
                content_hash: h,
            };
            proof {
                assert(z == zone_spec(bytes@, newline_offsets@, id as int));
                let w = zones@.push(z);
                if id > 0 {
                    let p = zones@[id - 1];
                    assert(p == zone_spec(bytes@, newline_offsets@, id - 1));
                    lemma_first_monotone(newline_offsets@, (id - 1) * 8192, id * 8192, false, 0, line_count as int);
                    lemma_first_monotone(newline_offsets@, p.byte_end as int, end as int, true, 0, line_count as int);
                    lemma_first_bounds(newline_offsets@, (id - 1) * 8192, false, 0, line_count as int);
                    lemma_first_bounds(newline_offsets@, p.byte_end as int, true, 0, line_count as int);
                    assert(p.byte_end <= z.byte_end);
                    assert(p.byte_start <= z.byte_start);
                    assert(p.line_start <= z.line_start);
                    assert(p.line_end <= z.line_end);
                }
                assert forall|i: int, j: int| 0 <= i <= j < w.len() implies {
                    &&& (#[trigger] w[i]).byte_end <= (#[trigger] w[j]).byte_end
                    &&& w[i].line_end <= w[j].line_end
                    &&& w[i].line_start <= w[j].line_start
                    &&& w[i].byte_start <= w[j].byte_start
                } by {
                    if j < id {
                        assert(w[i] == zones@[i] && w[j] == zones@[j]);
                    } else if i < j {
                        let p = zones@[id - 1];
                        assert(w[i] == zones@[i]);
                        assert(w[j] == z);
                        assert(zones@[i].byte_end <= p.byte_end);
                        assert(zones@[i].line_end <= p.line_end);
                        assert(zones@[i].line_start <= p.line_start);
                        assert(zones@[i].byte_start <= p.byte_start);
                    }
                }
                assert(zones_ordered(w));
            }
            zones.push(z);
            id = id + 1;
        }
        ZoneMap { zones }
    }

    /// The zone holding byte `offset`: the first zone ending after it,
    /// clamped to the last zone (0 with no zones).
    pub fn zone_for_byte_offset(&self, offset: u64) -> (r: usize)
        ensures
            r == clamp_index(zones_before_byte(self.zones(), offset as int), self.zones().len() as int),
    {
        proof {
            use_type_invariant(self);
        }
        let n = self.zones.len();
        let mut lo: usize = 0;
        let mut hi: usize = n;
        while lo < hi
            invariant
                lo <= hi <= n,
                n == self.zones@.len(),
                zones_ordered(self.zones@),
                forall|i: int| 0 <= i < lo ==> offset >= #[trigger] self.zones@[i].byte_end,
                forall|i: int| hi <= i < n ==> offset < #[trigger] self.zones@[i].byte_end,
            decreases hi - lo,
        {
            let mid = lo + (hi - lo) / 2;
            if offset >= self.zones[mid].byte_end {
                lo = mid + 1;
            } else {
                hi = mid;
            }
        }
        proof {
            lemma_before_byte_is(self.zones@, offset as int, lo as int);
        }
        if n == 0 {
            0
        } else if lo < n - 1 {
            lo
        } else {
            n - 1
        }
    }

    /// The zone holding line `line`: the first zone whose lines end after
    /// it, clamped to the last zone (0 with no zones).
    pub fn zone_for_line(&self, line: usize) -> (r: usize)
        ensures
            r == clamp_index(zones_before_line(self.zones(), line as int), self.zones().len() as int),
    {
        proof {
            use_type_invariant(self);
        }
        let n = self.zones.len();
        let mut lo: usize = 0;
        let mut hi: usize = n;
        while lo < hi
            invariant
                lo <= hi <= n,
                n == self.zones@.len(),
                zones_ordered(self.zones@),
                forall|i: int| 0 <= i < lo ==> line >= #[trigger] self.zones@[i].line_end,
                forall|i: int| hi <= i < n ==> line < #[trigger] self.zones@[i].line_end,
            decreases hi - lo,
        {
            let mid = lo + (hi - lo) / 2;
            if line >= self.zones[mid].line_end {
                lo = mid + 1;
            } else {
                hi = mid;
            }
        }
        proof {
            lemma_before_line_is(self.zones@, line as int, lo as int);
        }
        if n == 0 {
            0
        } else if lo < n - 1 {
            lo
        } else {
            n - 1
        }
    }

    /// The number of zones.
    pub fn len(&self) -> (n: usize)
        ensures
            n == self.zones().len(),
    {
        self.zones.len()
    }

    /// Whether there are no zones.
    pub fn is_empty(&self) -> (b: bool)
        ensures
            b == (self.zones().len() == 0),
    {
        self.zones.len() == 0
    }

    /// The zones, in order.
    pub fn as_slice(&self) -> (s: &[Zone])
        ensures
            s@ == self.zones(),
    {
        self.zones.as_slice()
    }
}

proof fn lemma_before_byte_is(z: Seq<Zone>, offset: int, k: int)
    requires
        0 <= k <= z.len(),
        forall|i: int| 0 <= i < k ==> offset >= #[trigger] z[i].byte_end,
        forall|i: int| k <= i < z.len() ==> offset < #[trigger] z[i].byte_end,
    ensures
        zones_before_byte(z, offset) == k,
    decreases z.len(),
{
    if z.len() > 0 {
        if k == z.len() {
            assert(offset >= z[z.len() - 1].byte_end);
        } else {
            assert(offset < z[z.len() - 1].byte_end);
            lemma_before_byte_is(z.drop_last(), offset, k);
        }
    }
}

proof fn lemma_before_line_is(z: Seq<Zone>, line: int, k: int)
    requires
        0 <= k <= z.len(),
        forall|i: int| 0 <= i < k ==> line >= #[trigger] z[i].line_end,
        forall|i: int| k <= i < z.len() ==> line < #[trigger] z[i].line_end,
    ensures
        zones_before_line(z, line) == k,
    decreases z.len(),
{
    if z.len() > 0 {
        if k == z.len() {
            assert(line >= z[z.len() - 1].line_end);
        } else {
            assert(line < z[z.len() - 1].line_end);
            lemma_before_line_is(z.drop_last(), line, k);
        }
    }
}

proof fn lemma_first_bounds(offs: Seq<usize>, t: int, strict: bool, i: int, none: int)
    requires
        0 <= i,
    ensures
        first_from(offs, t, strict, i, none) == none || i <= first_from(offs, t, strict, i, none) < offs.len(),
    decreases offs.len() - i,
{
    if i < offs.len() && !passes(offs[i], t, strict) {
        lemma_first_bounds(offs, t, strict, i + 1, none);
    }
}

proof fn lemma_first_monotone(offs: Seq<usize>, t1: int, t2: int, strict: bool, i: int, none: int)
    requires
        t1 <= t2,
        0 <= i,
        none >= offs.len() - 1,
    ensures
        first_from(offs, t1, strict, i, none) <= first_from(offs, t2, strict, i, none),
    decreases offs.len() - i,
{
    if i < offs.len() {
        if passes(offs[i], t2, strict) {
        } else if passes(offs[i], t1, strict) {
            lemma_first_bounds(offs, t2, strict, i + 1, none);
        } else {
            lemma_first_monotone(offs, t1, t2, strict, i + 1, none);
        }
    }
}

/// The first position of `offs` holding an offset `>= t` (or `> t` when
/// `strict`), else `none`.
fn first_position(offs: &[usize], t: usize, strict: bool, none: usize) -> (r: usize)
    ensures
        r as int == first_from(offs@, t as int, strict, 0, none as int),
        r == none || r < offs@.len(),
{
    let mut i: usize = 0;
    while i < offs.len()
        invariant
            i <= offs@.len(),
            first_from(offs@, t as int, strict, 0, none as int) == first_from(offs@, t as int, strict, i as int, none as int),
        decreases offs@.len() - i,
    {
        let hit = if strict { offs[i] > t } else { offs[i] >= t };
        if hit {
            return i;
        }
        i = i + 1;
    }
    none
}

/// Bytes `from..to` of `b`.
fn sub_bytes(b: &[u8], from: usize, to: usize) -> (r: Vec<u8>)
    requires
        from <= to <= b@.len(),
    ensures
        r@ == b@.subrange(from as int, to as int),
{
    let mut r: Vec<u8> = Vec::new();
    let mut i: usize = from;
    while i < to
        invariant
            from <= i <= to <= b@.len(),
            r@ == b@.subrange(from as int, i as int),
        decreases to - i,
    {
        r.push(b[i]);
        i = i + 1;
        assert(r@ =~= b@.subrange(from as int, i as int));
    }
    r
}

/// When some zone holds `line` and zones are ordered, the zone found for
/// it holds it.
pub proof fn law_zone_for_line_holds(z: Seq<Zone>, line: int, j: int)
    requires
        zones_ordered(z),
        0 <= j < z.len(),
        z[j].line_start <= line < z[j].line_end,
    ensures
        ({
            let k = clamp_index(zones_before_line(z, line), z.len() as int);
            z[k].line_start <= line < z[k].line_end
        }),
{
    let k = zones_before_line(z, line);
    lemma_before_line_range(z, line);
    assert(k <= j) by {
        if k > j {
            lemma_before_line_prefix(z, line, j);
        }
    }
    lemma_before_line_at(z, line);
    assert(z[k].line_start <= z[j].line_start);
}

proof fn lemma_before_line_range(z: Seq<Zone>, line: int)
    ensures
        0 <= zones_before_line(z, line) <= z.len(),
    decreases z.len(),
{
    if z.len() > 0 {
        lemma_before_line_range(z.drop_last(), line);
    }
}

proof fn lemma_before_line_prefix(z: Seq<Zone>, line: int, j: int)
    requires
        zones_ordered(z),
        0 <= j < zones_before_line(z, line),
    ensures
        line >= z[j].line_end,
    decreases z.len(),
{
    if z.len() > 0 {
        lemma_before_line_range(z, line);
        if line >= z[z.len() - 1].line_end {
            assert(z[j].line_end <= z[z.len() - 1].line_end);
        } else {
            let w = z.drop_last();
            assert(zones_before_line(z, line) == zones_before_line(w, line));
            assert(zones_ordered(w)) by {
                assert forall|a: int, b: int| 0 <= a <= b < w.len() implies {
                    &&& (#[trigger] w[a]).byte_end <= (#[trigger] w[b]).byte_end
                    &&& w[a].line_end <= w[b].line_end
                    &&& w[a].line_start <= w[b].line_start
                    &&& w[a].byte_start <= w[b].byte_start
                } by {
                    assert(w[a] == z[a] && w[b] == z[b]);
                }
            }
            lemma_before_line_range(w, line);
            lemma_before_line_prefix(w, line, j);
            assert(w[j] == z[j]);
        }
    }
}

proof fn lemma_before_line_at(z: Seq<Zone>, line: int)
    requires
        zones_before_line(z, line) < z.len(),
    ensures
        line < z[zones_before_line(z, line)].line_end,
    decreases z.len(),
{
    lemma_before_line_range(z, line);
    if z.len() > 0 {
        let w = z.drop_last();
        if line >= z[z.len() - 1].line_end {
        } else {
            assert(zones_before_line(z, line) == zones_before_line(w, line));
            lemma_before_line_range(w, line);
            if zones_before_line(w, line) < w.len() {
                lemma_before_line_at(w, line);
                assert(w[zones_before_line(w, line)] == z[zones_before_line(w, line)]);
            }
        }
    }
}

} // verus!
