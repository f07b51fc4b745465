//! The token index: each word of a line, lowercased and stripped of
//! surrounding punctuation, maps to the lines that hold it.

use vstd::prelude::*;
use vstd::utf8::{encode_utf8, decode_utf8, valid_utf8};
use std::sync::Arc;
use fixedbitset::FixedBitSet;
use crate::ascii::{ascii_lower, lower_chars};
use crate::text::{chars_of, string_of, str_eq, owned};
use crate::index::adaptive::{line_count, line_bytes_of, offsets_ok, on_boundary, win_end, utf8_text};
use crate::index::bitset::{bit_ones, bit_len, bits_with_capacity, bits_insert, bits_intersect, bits_clone};
use crate::index::trigram::indexed_count;

verus! {

/// Bytes that end a token: ASCII whitespace and the operator and bracket
/// characters.
pub open spec fn is_token_boundary(b: u8) -> bool {
    ||| b == 32 || b == 9 || b == 10 || b == 12 || b == 13
    ||| b == 40 || b == 41 || b == 123 || b == 125 || b == 91 || b == 93 || b == 44 || b == 59 || b == 58
    ||| b == 34 || b == 39 || b == 60 || b == 62 || b == 61 || b == 43 || b == 45 || b == 42 || b == 47
    ||| b == 92 || b == 124 || b == 38 || b == 94 || b == 37 || b == 33 || b == 64 || b == 35 || b == 96
    ||| b == 126
}

/// ASCII punctuation other than `_`, which is trimmed off a token's ends.
pub open spec fn is_strip_byte(b: u8) -> bool {
    ((33 <= b <= 47) || (58 <= b <= 64) || (91 <= b <= 96) || (123 <= b <= 126)) && b != 95
}

/// `p` without its leading trimmed bytes.
pub open spec fn trim_front(p: Seq<u8>) -> Seq<u8>
    decreases p.len(),
{
    if p.len() > 0 && is_strip_byte(p[0]) {
        trim_front(p.drop_first())
    } else {
        p
    }
}

/// `p` without its trailing trimmed bytes.
pub open spec fn trim_back(p: Seq<u8>) -> Seq<u8>
    decreases p.len(),
{
    if p.len() > 0 && is_strip_byte(p.last()) {
        trim_back(p.drop_last())
    } else {
        p
    }
}

/// The token a run of non-boundary bytes gives: trimmed, decoded and
/// lowercased, when it is valid UTF-8 and not empty.
pub open spec fn token_of(p: Seq<u8>) -> Option<Seq<char>> {
    let q = trim_back(trim_front(p));
    if valid_utf8(q) && decode_utf8(q).len() > 0 {
        Some(ascii_lower(decode_utf8(q)))
    } else {
        None
    }
}

/// Bytes `s..e` of `l` are a maximal run of non-boundary bytes.
pub open spec fn is_run(l: Seq<u8>, s: int, e: int) -> bool {
    &&& 0 <= s < e <= l.len()
    &&& s == 0 || is_token_boundary(l[s - 1])
    &&& e == l.len() || is_token_boundary(l[e])
    &&& forall|x: int| s <= x < e ==> !is_token_boundary(#[trigger] l[x])
}

/// Some run of `l` ending before byte `i` gives token `t`.
pub open spec fn token_before(l: Seq<u8>, t: Seq<char>, i: int) -> bool {
    exists|s: int, e: int| #![trigger token_of(l.subrange(s, e)), is_run(l, s, e)] is_run(l, s, e) && e < i && token_of(l.subrange(s, e)) == Some(t)
}

/// Line `l` holds token `t`.
pub open spec fn line_has_token(l: Seq<u8>, t: Seq<char>) -> bool {
    token_before(l, t, l.len() as int + 1)
}

/// The token of bytes `s..e` of `l`, as the tokenizer takes it out.
fn extract_token(l: &[u8], s: usize, e: usize) -> (r: Option<String>)
    requires
        s <= e <= l@.len(),
    ensures
        match r {
            Some(t) => token_of(l@.subrange(s as int, e as int)) == Some(t@),
            None => token_of(l@.subrange(s as int, e as int)) is None,
        },
{
    let ghost p = l@.subrange(s as int, e as int);
    let mut a = s;
    while a < e && (l[a] >= 33 && l[a] <= 47 || l[a] >= 58 && l[a] <= 64 || l[a] >= 91 && l[a] <= 96 || l[a] >= 123
        && l[a] <= 126) && l[a] != 95
        invariant
            s <= a <= e <= l@.len(),
            p == l@.subrange(s as int, e as int),
            trim_front(p) == trim_front(l@.subrange(a as int, e as int)),
        decreases e - a,
    {
        assert(l@.subrange(a as int, e as int).drop_first() =~= l@.subrange(a + 1, e as int));
        a = a + 1;
    }
    assert(trim_front(p) == l@.subrange(a as int, e as int));
    let mut z = e;
    while z > a && (l[z - 1] >= 33 && l[z - 1] <= 47 || l[z - 1] >= 58 && l[z - 1] <= 64 || l[z - 1] >= 91 && l[z
        - 1] <= 96 || l[z - 1] >= 123 && l[z - 1] <= 126) && l[z - 1] != 95
        invariant
            s <= a <= z <= e <= l@.len(),
            trim_front(p) == l@.subrange(a as int, e as int),
            trim_back(trim_front(p)) == trim_back(l@.subrange(a as int, z as int)),
        decreases z - a,
    {
        assert(l@.subrange(a as int, z as int).drop_last() =~= l@.subrange(a as int, z - 1));
        z = z - 1;
    }
    assert(trim_back(trim_front(p)) == l@.subrange(a as int, z as int));
    let q = &l[a..z];
    assert(q@ == trim_back(trim_front(p)));
    match utf8_text(q) {
        Some(txt) => {
            let cs = chars_of(txt);
            if cs.len() == 0 {
                None
            } else {
                let low = lower_chars(cs.as_slice());
                Some(string_of(low.as_slice()))
            }
        },
        None => None,
    }
}

/// The tokens of line `l`, in order (one per run that gives one).
pub fn tokenize_line(l: &[u8]) -> (r: Vec<String>)
    ensures
        forall|t: Seq<char>| #![trigger line_has_token(l@, t)]
            line_has_token(l@, t) <==> exists|y: int| 0 <= y < r@.len() && (#[trigger] r@[y])@ == t,
{
    let mut r: Vec<String> = Vec::new();
    let mut start: usize = 0;
    let mut i: usize = 0;
    while i < l.len()
        invariant
            start <= i <= l@.len(),
            start == 0 || is_token_boundary(l@[start - 1]),
            forall|x: int| start <= x < i ==> !is_token_boundary(#[trigger] l@[x]),
            forall|t: Seq<char>| #![trigger token_before(l@, t, i as int)]
                token_before(l@, t, i as int) <==> exists|y: int| 0 <= y < r@.len() && (#[trigger] r@[y])@ == t,
        decreases l@.len() - i,
    {
        let b = l[i];
        let bd = b == 32 || b == 9 || b == 10 || b == 12 || b == 13 || b == 40 || b == 41 || b == 123 || b == 125
            || b == 91 || b == 93 || b == 44 || b == 59 || b == 58 || b == 34 || b == 39 || b == 60 || b == 62
            || b == 61 || b == 43 || b == 45 || b == 42 || b == 47 || b == 92 || b == 124 || b == 38 || b == 94
            || b == 37 || b == 33 || b == 64 || b == 35 || b == 96 || b == 126;
        assert(bd == is_token_boundary(l@[i as int]));
        if bd {
            let ghost r0 = r@;
            let mut tok: Option<String> = None;
            if start < i {
                tok = extract_token(l, start, i);
                match &tok {
                    Some(t) => {
                        r.push(t.clone());
                    },
                    None => {},
                }
            }
            proof {
                lemma_runs_end_at_boundary(l@, start as int, i as int);
                assert forall|t: Seq<char>| #![trigger token_before(l@, t, i + 1)]
                    token_before(l@, t, i + 1) <==> exists|y: int| 0 <= y < r@.len() && (#[trigger] r@[y])@ == t by {
                    if token_before(l@, t, i + 1) {
                        let (s, e) = choose|s: int, e: int| #![trigger token_of(l@.subrange(s, e)), is_run(l@, s, e)]
                            is_run(l@, s, e) && e < i + 1 && token_of(l@.subrange(s, e)) == Some(t);
                        if e < i {
                            assert(token_before(l@, t, i as int));
                            let y = choose|y: int| 0 <= y < r0.len() && (#[trigger] r0[y])@ == t;
                            assert(r@[y] == r0[y]);
                        } else {
                            assert(s == start);
                            assert(r@.last()@ == t);
                            assert(r@[r@.len() - 1]@ == t);
                        }
                    }
                    if exists|y: int| 0 <= y < r@.len() && (#[trigger] r@[y])@ == t {
                        let y = choose|y: int| 0 <= y < r@.len() && (#[trigger] r@[y])@ == t;
                        if y < r0.len() {
                            assert(r0[y] == r@[y]);
                            assert(token_before(l@, t, i as int));
                            let (s, e) = choose|s: int, e: int| #![trigger token_of(l@.subrange(s, e)), is_run(l@, s, e)]
                                is_run(l@, s, e) && e < i && token_of(l@.subrange(s, e)) == Some(t);
                            assert(is_run(l@, s, e) && e < i + 1 && token_of(l@.subrange(s, e)) == Some(t));
                        } else {
                            assert(is_run(l@, start as int, i as int));
                            assert(token_of(l@.subrange(start as int, i as int)) == Some(t));
                        }
                    }
                }
            }
            start = i + 1;
        } else {
            proof {
                assert forall|t: Seq<char>| #![trigger token_before(l@, t, i + 1)]
                    token_before(l@, t, i + 1) == token_before(l@, t, i as int) by {
                    if token_before(l@, t, i + 1) {
                        let (s, e) = choose|s: int, e: int| #![trigger token_of(l@.subrange(s, e)), is_run(l@, s, e)]
                            is_run(l@, s, e) && e < i + 1 && token_of(l@.subrange(s, e)) == Some(t);
                        assert(e != i);
                    }
                }
            }
        }
        i = i + 1;
    }
    let ghost r0 = r@;
    if start < l.len() {
        let tok = extract_token(l, start, l.len());
        match tok {
            Some(t) => {
                r.push(t);
            },
            None => {},
        }
    }
    proof {
        let n = l@.len() as int;
        assert forall|t: Seq<char>| #![trigger line_has_token(l@, t)]
            line_has_token(l@, t) <==> exists|y: int| 0 <= y < r@.len() && (#[trigger] r@[y])@ == t by {
            if line_has_token(l@, t) {
                let (s, e) = choose|s: int, e: int| #![trigger token_of(l@.subrange(s, e)), is_run(l@, s, e)]
                    is_run(l@, s, e) && e < n + 1 && token_of(l@.subrange(s, e)) == Some(t);
                if e < n {
                    assert(token_before(l@, t, n));
                    let y = choose|y: int| 0 <= y < r0.len() && (#[trigger] r0[y])@ == t;
                    assert(r@[y] == r0[y]);
                } else if s < start {
                    assert(!is_token_boundary(l@[start - 1]));
                } else if s > start {
                    assert(!is_token_boundary(l@[s - 1]));
                } else {
                    assert(r@[r@.len() - 1]@ == t);
                }
            }
            if exists|y: int| 0 <= y < r@.len() && (#[trigger] r@[y])@ == t {
                let y = choose|y: int| 0 <= y < r@.len() && (#[trigger] r@[y])@ == t;
                if y < r0.len() {
                    assert(r0[y] == r@[y]);
                    assert(token_before(l@, t, n));
                    let (s, e) = choose|s: int, e: int| #![trigger token_of(l@.subrange(s, e)), is_run(l@, s, e)]
                        is_run(l@, s, e) && e < n && token_of(l@.subrange(s, e)) == Some(t);
                    assert(is_run(l@, s, e) && e < n + 1 && token_of(l@.subrange(s, e)) == Some(t));
                } else {
                    assert(is_run(l@, start as int, n));
                    assert(token_of(l@.subrange(start as int, n)) == Some(t));
                }
            }
        }
    }
    r
}

/// A run ending at a boundary byte `i` starts where the scan's current run
/// started.
proof fn lemma_runs_end_at_boundary(l: Seq<u8>, start: int, i: int)
    requires
        0 <= start <= i < l.len(),
        start == 0 || is_token_boundary(l[start - 1]),
        forall|x: int| start <= x < i ==> !is_token_boundary(#[trigger] l[x]),
        is_token_boundary(l[i]),
    ensures
        forall|s: int| #[trigger] is_run(l, s, i) ==> s == start,
        start < i ==> is_run(l, start, i),
{
    assert forall|s: int| #[trigger] is_run(l, s, i) implies s == start by {
        if s < start {
            assert(!is_token_boundary(l[start - 1]));
        } else if s > start {
            assert(!is_token_boundary(l[s - 1]));
        }
    }
}

/// The lines of the text `t` cut at `offs` that hold token `tok`.
pub open spec fn token_lines(t: Seq<char>, offs: Seq<usize>, tok: Seq<char>) -> Set<usize> {
    Set::new(|i: usize| i < line_count(offs) && line_has_token(line_bytes_of(t, offs, i as int), tok))
}

/// The tokens of an index's entries, in order.
pub open spec fn keys_of(v: Seq<(String, Arc<FixedBitSet>)>) -> Seq<Seq<char>> {
    Seq::new(v.len(), |p: int| v[p].0@)
}

/// No token has two entries.
pub open spec fn distinct_keys(v: Seq<(String, Arc<FixedBitSet>)>) -> bool {
    forall|p: int, q: int| 0 <= p < v.len() && 0 <= q < v.len() && p != q ==> #[trigger] v[p].0@ != #[trigger] v[q].0@
}

/// An inverted index from tokens to the lines that hold them. The entries
/// are kept in a vector, one per token, rather than in a `HashMap` keyed by
/// the token text: vstd specifies `HashMap` lookups only for keys that obey
/// its key model, which it grants to integers and `bool` but not to strings,
/// so no lookup in a string-keyed map could be proved here.
pub struct TokenIndex {
    tokens: Vec<(String, Arc<FixedBitSet>)>,
    line_count: usize,
}

impl TokenIndex {
    /// The tokens indexed, each once.
    pub closed spec fn keys(&self) -> Seq<Seq<char>> {
        keys_of(self.tokens@)
    }

    /// The lines holding token `t`, if it is indexed.
    pub closed spec fn token_set(&self, t: Seq<char>) -> Option<Set<usize>> {
        if exists|p: int| 0 <= p < self.tokens@.len() && #[trigger] self.tokens@[p].0@ == t {
            Some(bit_ones(*self.tokens@[choose|p: int| 0 <= p < self.tokens@.len() && #[trigger] self.tokens@[p].0@ == t].1))
        } else {
            None
        }
    }

    /// The number of lines indexed.
    pub closed spec fn lines(&self) -> nat {
        self.line_count as nat
    }

    /// Each token has one entry.
    #[verifier::type_invariant]
    spec fn inv(&self) -> bool {
        distinct_keys(self.tokens@)
    }
}

/// In an index with one entry per token, the set of a token is its entry's.
proof fn lemma_token_set(ix: &TokenIndex, p: int)
    requires
        distinct_keys(ix.tokens@),
        0 <= p < ix.tokens@.len(),
    ensures
        ix.token_set(ix.tokens@[p].0@) == Some(bit_ones(*ix.tokens@[p].1)),
{
    let t = ix.tokens@[p].0@;
    assert(ix.tokens@[p].0@ == t);
    let q = choose|q: int| 0 <= q < ix.tokens@.len() && #[trigger] ix.tokens@[q].0@ == t;
    if q != p {
        assert(ix.tokens@[q].0@ != ix.tokens@[p].0@);
    }
}

/// The entry for token `t`, if any.
fn find_token(v: &Vec<(String, Arc<FixedBitSet>)>, t: &str) -> (r: Option<usize>)
    ensures
        match r {
            Some(p) => p < v@.len() && v@[p as int].0@ == t@,
            None => forall|p: int| 0 <= p < v@.len() ==> #[trigger] v@[p].0@ != t@,
        },
{
    let mut p: usize = 0;
    while p < v.len()
        invariant
            p <= v@.len(),
            forall|q: int| 0 <= q < p ==> #[trigger] v@[q].0@ != t@,
        decreases v@.len() - p,
    {
        if str_eq(v[p].0.as_str(), t) {
            return Some(p);
        }
        p = p + 1;
    }
    None
}

/// The lines before `i` of the text `t` cut at `offs` that hold `tok`.
pub open spec fn token_reached(t: Seq<char>, offs: Seq<usize>, tok: Seq<char>, i: int) -> Set<usize> {
    Set::new(|l: usize| l < i && line_has_token(line_bytes_of(t, offs, l as int), tok))
}

/// `base` with line `i` added for the tokens among the first `j` of `toks`.
pub open spec fn with_line(base: spec_fn(Seq<char>) -> Set<usize>, toks: Seq<String>, j: int, i: usize, tok: Seq<char>) -> Set<usize> {
    if exists|y: int| 0 <= y < j && #[trigger] toks[y]@ == tok {
        base(tok).insert(i)
    } else {
        base(tok)
    }
}

/// The entries of `v` hold, for each token, the lines `f` gives it, made
/// with `count` bits, none empty; a token without an entry has no lines.
pub open spec fn entries_hold(v: Seq<(String, Arc<FixedBitSet>)>, f: spec_fn(Seq<char>) -> Set<usize>, count: nat) -> bool {
    &&& distinct_keys(v)
    &&& forall|p: int| 0 <= p < v.len() ==> bit_ones(*(#[trigger] v[p]).1) == f(v[p].0@) && bit_len(*v[p].1) == count
        && exists|l: usize| bit_ones(*v[p].1).contains(l)
    &&& forall|tok: Seq<char>| (forall|p: int| 0 <= p < v.len() ==> #[trigger] v[p].0@ != tok) ==> #[trigger] f(tok) == Set::<usize>::empty()
}

/// A token without an entry has no lines.
proof fn lemma_entries_absent(v: Seq<(String, Arc<FixedBitSet>)>, f: spec_fn(Seq<char>) -> Set<usize>, count: nat, tok: Seq<char>)
    requires
        entries_hold(v, f, count),
        forall|p: int| 0 <= p < v.len() ==> #[trigger] v[p].0@ != tok,
    ensures
        f(tok) == Set::<usize>::empty(),
{
}

/// Records line `i` for each token of `toks`.
fn add_line_tokens(
    tokens: &mut Vec<(String, Arc<FixedBitSet>)>,
    toks: &Vec<String>,
    i: usize,
    count: usize,
    Ghost(base): Ghost<spec_fn(Seq<char>) -> Set<usize>>,
)
    requires
        i < count,
        entries_hold(old(tokens)@, base, count as nat),
    ensures
        entries_hold(final(tokens)@, |tok: Seq<char>| with_line(base, toks@, toks@.len() as int, i, tok), count as nat),
{
    let mut j: usize = 0;
    assert(entries_hold(tokens@, |tok: Seq<char>| with_line(base, toks@, 0, i, tok), count as nat)) by {
        assert forall|tok: Seq<char>| #[trigger] with_line(base, toks@, 0, i, tok) == base(tok) by {}
    }
    while j < toks.len()
        invariant
            j <= toks@.len(),
            i < count,
            entries_hold(tokens@, |tok: Seq<char>| with_line(base, toks@, j as int, i, tok), count as nat),
        decreases toks@.len() - j,
    {
        let tk = toks[j].as_str();
        let ghost kk = tk@;
        let ghost f0 = |tok: Seq<char>| with_line(base, toks@, j as int, i, tok);
        let ghost f1 = |tok: Seq<char>| with_line(base, toks@, j + 1, i, tok);
        proof {
            assert forall|tok: Seq<char>| #[trigger] f1(tok) == (if tok == kk { f0(tok).insert(i) } else { f0(tok) }) by {
                assert(toks@[j as int]@ == kk);
                if tok == kk {
                    assert(f1(tok) =~= f0(tok).insert(i));
                } else if exists|y: int| 0 <= y < j + 1 && #[trigger] toks@[y]@ == tok {
                    let y = choose|y: int| 0 <= y < j + 1 && #[trigger] toks@[y]@ == tok;
                    assert(y != j);
                }
            }
        }
        let ghost t0 = tokens@;
        match find_token(tokens, tk) {
            Some(p) => {
                let mut set = bits_clone(&*tokens[p].1);
                bits_insert(&mut set, i);
                tokens.set(p, (owned(tk), Arc::new(set)));
                proof {
                    assert forall|a: int, b: int| 0 <= a < tokens@.len() && 0 <= b < tokens@.len() && a != b implies #[trigger] tokens@[a].0@ != #[trigger] tokens@[b].0@ by {
                        assert(t0[a].0@ != t0[b].0@);
                        assert(tokens@[a].0@ == t0[a].0@);
                        assert(tokens@[b].0@ == t0[b].0@);
                    }
                    assert forall|q: int| 0 <= q < tokens@.len() implies bit_ones(*(#[trigger] tokens@[q]).1) == f1(tokens@[q].0@)
                        && bit_len(*tokens@[q].1) == count && exists|l: usize| bit_ones(*tokens@[q].1).contains(l) by {
                        if q == p {
                            assert(bit_ones(*tokens@[q].1).contains(i));
                            assert(bit_ones(*t0[q].1) == f0(kk));
                        } else {
                            assert(tokens@[q] == t0[q]);
                            assert(t0[q].0@ != kk);
                        }
                    }
                    assert forall|tok: Seq<char>| (forall|q: int| 0 <= q < tokens@.len() ==> #[trigger] tokens@[q].0@ != tok) implies #[trigger] f1(tok) == Set::<usize>::empty() by {
                        assert(tokens@[p as int].0@ != tok);
                        assert forall|q: int| 0 <= q < t0.len() implies #[trigger] t0[q].0@ != tok by {
                            assert(tokens@[q].0@ == t0[q].0@);
                        }
                        assert(f0(tok) == Set::<usize>::empty());
                    }
                }
            },
            None => {
                let mut set = bits_with_capacity(count);
                bits_insert(&mut set, i);
                tokens.push((owned(tk), Arc::new(set)));
                proof {
                    let last = tokens@.len() - 1;
                    assert forall|a: int, b: int| 0 <= a < tokens@.len() && 0 <= b < tokens@.len() && a != b implies #[trigger] tokens@[a].0@ != #[trigger] tokens@[b].0@ by {
                        if a < last && b < last {
                            assert(t0[a].0@ != t0[b].0@);
                        } else if a == last {
                            assert(t0[b].0@ != kk);
                        } else {
                            assert(t0[a].0@ != kk);
                        }
                    }
                    assert forall|q: int| 0 <= q < tokens@.len() implies bit_ones(*(#[trigger] tokens@[q]).1) == f1(tokens@[q].0@)
                        && bit_len(*tokens@[q].1) == count && exists|l: usize| bit_ones(*tokens@[q].1).contains(l) by {
                        if q == last {
                            assert(f0(kk) == Set::<usize>::empty());
                            assert(bit_ones(*tokens@[q].1) =~= Set::<usize>::empty().insert(i));
                            assert(bit_ones(*tokens@[q].1).contains(i));
                        } else {
                            assert(tokens@[q] == t0[q]);
                            assert(t0[q].0@ != kk);
                        }
                    }
                    assert forall|tok: Seq<char>| (forall|q: int| 0 <= q < tokens@.len() ==> #[trigger] tokens@[q].0@ != tok) implies #[trigger] f1(tok) == Set::<usize>::empty() by {
                        assert(tokens@[last].0@ != tok);
                        assert forall|q: int| 0 <= q < t0.len() implies #[trigger] t0[q].0@ != tok by {
                            assert(tokens@[q] == t0[q]);
                        }
                        assert(f0(tok) == Set::<usize>::empty());
                    }
                }
            },
        }
        j = j + 1;
    }
}

impl TokenIndex {
    /// Indexes the lines of `content` cut at byte offsets `line_offsets`
    /// (line `i` runs from offset `i` to offset `i + 1`, cut at the end of
    /// the text): each token present maps to the lines that hold it.
    pub fn build(content: &str, line_offsets: &[usize]) -> (r: TokenIndex)
        requires
            offsets_ok(content@, line_offsets@),
        ensures
            r.lines() == indexed_count(line_offsets@),
            forall|tok: Seq<char>| #[trigger] r.token_set(tok) matches Some(lines) ==> lines == token_lines(
                content@,
                line_offsets@,
                tok,
            ) && exists|l: usize| lines.contains(l),
            forall|tok: Seq<char>| #[trigger] r.token_set(tok) is None ==> token_lines(content@, line_offsets@, tok)
                == Set::<usize>::empty(),
    {
        let bytes = content.as_bytes();
        let ghost txt = content@;
        let ghost offs = line_offsets@;
        let count: usize = if line_offsets.len() >= 2 { line_offsets.len() - 1 } else { 1 };
        let n: usize = if line_offsets.len() >= 2 { line_offsets.len() - 1 } else { 0 };
        let mut tokens: Vec<(String, Arc<FixedBitSet>)> = Vec::new();
        let mut i: usize = 0;
        assert(entries_hold(tokens@, |tok: Seq<char>| token_reached(txt, offs, tok, 0), count as nat)) by {
            assert forall|tok: Seq<char>| #[trigger] token_reached(txt, offs, tok, 0) == Set::<usize>::empty() by {
                assert(token_reached(txt, offs, tok, 0) =~= Set::<usize>::empty());
            }
        }
        while i < n
            invariant
                i <= n,
                n == line_count(offs),
                count == indexed_count(offs),
                n <= count,
                offs == line_offsets@,
                txt == content@,
                bytes@ == encode_utf8(txt),
                offsets_ok(txt, offs),
                entries_hold(tokens@, |tok: Seq<char>| token_reached(txt, offs, tok, i as int), count as nat),
            decreases n - i,
        {
            let s = line_offsets[i];
            let e = if line_offsets[i + 1] < bytes.len() { line_offsets[i + 1] } else { bytes.len() };
            assert(e == win_end(offs, i as int, bytes@.len() as int));
            assert(s <= e) by {
                assert(offs[i as int] == s);
            }
            let lb = &bytes[s..e];
            assert(lb@ == line_bytes_of(txt, offs, i as int));
            let toks = tokenize_line(lb);
            let ghost base = |tok: Seq<char>| token_reached(txt, offs, tok, i as int);
            add_line_tokens(&mut tokens, &toks, i, count, Ghost(base));
            proof {
                let f = |tok: Seq<char>| with_line(base, toks@, toks@.len() as int, i, tok);
                assert forall|tok: Seq<char>| #[trigger] f(tok) == token_reached(txt, offs, tok, i + 1) by {
                    if line_has_token(lb@, tok) {
                        let y = choose|y: int| 0 <= y < toks@.len() && (#[trigger] toks@[y])@ == tok;
                        assert(exists|y: int| 0 <= y < toks@.len() && #[trigger] toks@[y]@ == tok);
                        assert(token_reached(txt, offs, tok, i + 1) =~= base(tok).insert(i));
                    } else {
                        assert(!exists|y: int| 0 <= y < toks@.len() && #[trigger] toks@[y]@ == tok);
                        assert(token_reached(txt, offs, tok, i + 1) =~= base(tok));
                    }
                }
                let g = |tok: Seq<char>| token_reached(txt, offs, tok, i + 1);
                assert(f =~= g);
            }
            i = i + 1;
        }
        let r = TokenIndex { tokens, line_count: count };
        proof {
            assert forall|tok: Seq<char>| #![trigger token_lines(txt, offs, tok)]
                token_lines(txt, offs, tok) == token_reached(txt, offs, tok, n as int) by {
                assert(token_lines(txt, offs, tok) =~= token_reached(txt, offs, tok, n as int));
            }
            assert forall|tok: Seq<char>| #[trigger] r.token_set(tok) is Some implies r.token_set(tok)->Some_0 == token_lines(txt, offs, tok) && exists|l: usize| r.token_set(tok)->Some_0.contains(l) by {
                let p = choose|p: int| 0 <= p < r.tokens@.len() && #[trigger] r.tokens@[p].0@ == tok;
                lemma_token_set(&r, p);
            }
            assert forall|tok: Seq<char>| #[trigger] r.token_set(tok) is None implies token_lines(txt, offs, tok) == Set::<usize>::empty() by {
                assert forall|p: int| 0 <= p < r.tokens@.len() implies #[trigger] r.tokens@[p].0@ != tok by {
                    if r.tokens@[p].0@ == tok {
                        lemma_token_set(&r, p);
                    }
                }
                lemma_entries_absent(r.tokens@, |t: Seq<char>| token_reached(txt, offs, t, n as int), count as nat, tok);
            }
        }
        r
    }
}

impl TokenIndex {
    /// The lines holding `token`, if it is indexed.
    pub fn lookup(&self, token: &str) -> (r: Option<Arc<FixedBitSet>>)
        ensures
            r is Some == self.token_set(token@) is Some,
            r matches Some(a) ==> Some(bit_ones(*a)) == self.token_set(token@),
    {
        proof {
            use_type_invariant(self);
        }
        match find_token(&self.tokens, token) {
            Some(p) => {
                proof {
                    lemma_token_set(self, p as int);
                }
                Some(Arc::new(bits_clone(&*self.tokens[p].1)))
            },
            None => {
                assert(!exists|p: int| 0 <= p < self.tokens@.len() && #[trigger] self.tokens@[p].0@ == token@);
                None
            },
        }
    }

    /// The number of distinct tokens indexed.
    pub fn token_count(&self) -> (n: usize)
        ensures
            n == self.keys().len(),
    {
        self.tokens.len()
    }

    /// The number of lines indexed.
    pub fn line_count(&self) -> (n: usize)
        ensures
            n == self.lines(),
    {
        self.line_count
    }

    /// The lines in every set of `sets`, with the first set's length; for
    /// no sets, an empty set of the index's length.
    pub fn bitwise_and(&self, sets: &[Arc<FixedBitSet>]) -> (r: FixedBitSet)
        ensures
            sets@.len() == 0 ==> bit_ones(r) == Set::<usize>::empty() && bit_len(r) == self.lines(),
            sets@.len() > 0 ==> bit_len(r) == bit_len(*sets@[0]) && bit_ones(r) == Set::new(
                |i: usize| forall|x: int| 0 <= x < sets@.len() ==> #[trigger] bit_ones(*sets@[x]).contains(i),
            ),
    {
        if sets.len() == 0 {
            return bits_with_capacity(self.line_count);
        }
        let mut result = bits_clone(&*sets[0]);
        let mut j: usize = 1;
        while j < sets.len()
            invariant
                1 <= j <= sets@.len(),
                bit_len(result) == bit_len(*sets@[0]),
                bit_ones(result) == Set::new(|i: usize| forall|x: int| 0 <= x < j ==> #[trigger] bit_ones(*sets@[x]).contains(i)),
            decreases sets@.len() - j,
        {
            let ghost before = bit_ones(result);
            bits_intersect(&mut result, &*sets[j]);
            proof {
                assert(bit_ones(result) =~= Set::new(
                    |i: usize| forall|x: int| 0 <= x < j + 1 ==> #[trigger] bit_ones(*sets@[x]).contains(i),
                )) by {
                    assert forall|i: usize| #[trigger] bit_ones(result).contains(i) implies forall|x: int|
                        0 <= x < j + 1 ==> #[trigger] bit_ones(*sets@[x]).contains(i) by {
                        assert(before.contains(i));
                    }
                    assert forall|i: usize| (forall|x: int| 0 <= x < j + 1 ==> #[trigger] bit_ones(*sets@[x]).contains(i)) implies #[trigger] bit_ones(result).contains(i) by {
                        assert(bit_ones(*sets@[j as int]).contains(i));
                        assert(before.contains(i));
                    }
                }
            }
            j = j + 1;
        }
        result
    }
}

} // verus!
