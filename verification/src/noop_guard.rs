//! The no-op loop guard: after `limit` consecutive identical patches that
//! change nothing on the same path, the caller is told to stop and re-read.
//!
//! A no-op is the same path, the same patch fingerprint and no net content
//! change; changing the path, the patch text or the content resets the
//! count.

use vstd::prelude::*;
use crate::text::{owned, str_eq};
use crate::hash::{full_hash_bytes64, xxh3_64_spec};

verus! {

/// Default number of consecutive identical no-ops before the guard fires.
pub const DEFAULT_NOOP_LIMIT: usize = 3;

/// The guard's record for one path.
#[derive(Debug)]
pub struct NoopEntry {
    pub path: String,
    pub fingerprint: u64,
    pub streak: usize,
}

/// The record for path `k` among `v`: the last entry with that path.
pub open spec fn entry_for(v: Seq<NoopEntry>, k: Seq<char>) -> Option<(u64, usize)>
    decreases v.len(),
{
    if v.len() == 0 {
        None
    } else if v.last().path@ == k {
        Some((v.last().fingerprint, v.last().streak))
    } else {
        entry_for(v.drop_last(), k)
    }
}

/// Tracks consecutive identical no-op patches per path. The per-path
/// entries are kept in a vector of records, rather than in a `HashMap`
/// keyed by the path text: vstd specifies `HashMap` lookups only for keys
/// that obey its key model, which it grants to integers and `bool` but not
/// to strings, so no lookup in a string-keyed map could be proved here.
#[derive(Debug)]
pub struct NoopGuard {
    state: Vec<NoopEntry>,
    limit: usize,
}

impl View for NoopGuard {
    type V = Map<Seq<char>, (u64, usize)>;

    /// Path → (patch fingerprint, consecutive identical no-op count).
    closed spec fn view(&self) -> Map<Seq<char>, (u64, usize)> {
        Map::new(|k: Seq<char>| entry_for(self.state@, k) is Some, |k: Seq<char>| entry_for(self.state@, k)->0)
    }
}

/// The streak after recording a no-op with fingerprint `fp` on a path whose
/// record was `prev`.
pub open spec fn next_streak(prev: Option<(u64, usize)>, fp: u64) -> int {
    match prev {
        Some((f, n)) => if f == fp { n + 1 } else { 1 },
        None => 1,
    }
}

/// The record of `k` in map `m`, as an option.
pub open spec fn lookup(m: Map<Seq<char>, (u64, usize)>, k: Seq<char>) -> Option<(u64, usize)> {
    if m.dom().contains(k) {
        Some(m[k])
    } else {
        None
    }
}

proof fn lemma_entry_for_update(v: Seq<NoopEntry>, i: int, e: NoopEntry, k: Seq<char>)
    requires
        0 <= i < v.len(),
        e.path@ == v[i].path@,
        forall|j: int| i < j < v.len() ==> v[j].path@ != v[i].path@,
    ensures
        entry_for(v.update(i, e), k) == if k == e.path@ {
            Some((e.fingerprint, e.streak))
        } else {
            entry_for(v, k)
        },
    decreases v.len(),
{
    let w = v.update(i, e);
    if i == v.len() - 1 {
        assert(w.drop_last() =~= v.drop_last());
    } else {
        assert(w.drop_last() =~= v.drop_last().update(i, e));
        lemma_entry_for_update(v.drop_last(), i, e, k);
    }
}

proof fn lemma_entry_for_last(v: Seq<NoopEntry>, i: int, k: Seq<char>)
    requires
        0 <= i < v.len(),
        v[i].path@ == k,
        forall|j: int| i < j < v.len() ==> v[j].path@ != k,
    ensures
        entry_for(v, k) == Some((v[i].fingerprint, v[i].streak)),
    decreases v.len(),
{
    if i < v.len() - 1 {
        lemma_entry_for_last(v.drop_last(), i, k);
    }
}

proof fn lemma_entry_for_absent(v: Seq<NoopEntry>, k: Seq<char>)
    requires
        forall|j: int| 0 <= j < v.len() ==> v[j].path@ != k,
    ensures
        entry_for(v, k) is None,
    decreases v.len(),
{
    if v.len() > 0 {
        lemma_entry_for_absent(v.drop_last(), k);
    }
}

proof fn lemma_entry_for_push(v: Seq<NoopEntry>, e: NoopEntry, k: Seq<char>)
    ensures
        entry_for(v.push(e), k) == if k == e.path@ {
            Some((e.fingerprint, e.streak))
        } else {
            entry_for(v, k)
        },
{
    assert(v.push(e).drop_last() =~= v);
}

impl NoopGuard {
    /// A guard that fires after `limit` identical no-ops (at least one).
    pub fn new(limit: usize) -> (g: NoopGuard)
        ensures
            g@ == Map::<Seq<char>, (u64, usize)>::empty(),
            g.limit() == if limit >= 1 { limit } else { 1 },
    {
        let l = if limit >= 1 { limit } else { 1 };
        let g = NoopGuard { state: Vec::new(), limit: l };
        assert(g@ =~= Map::<Seq<char>, (u64, usize)>::empty());
        g
    }

    /// The number of identical no-ops at which the guard fires.
    pub closed spec fn limit(&self) -> usize {
        self.limit
    }

    /// The index of the last record for `path`, if any.
    fn find(&self, path: &str) -> (r: Option<usize>)
        ensures
            match r {
                Some(i) => i < self.state@.len() && self.state@[i as int].path@ == path@ && forall|j: int|
                    i < j < self.state@.len() ==> self.state@[j].path@ != path@,
                None => forall|j: int| 0 <= j < self.state@.len() ==> self.state@[j].path@ != path@,
            },
    {
        let mut i: usize = self.state.len();
        while i > 0
            invariant
                i <= self.state@.len(),
                forall|j: int| i <= j < self.state@.len() ==> self.state@[j].path@ != path@,
            decreases i,
        {
            if str_eq(self.state[i - 1].path.as_str(), path) {
                return Some(i - 1);
            }
            i = i - 1;
        }
        None
    }

    /// Forgets the record for `path`.
    fn forget(&mut self, path: &str)
        ensures
            final(self)@ == old(self)@.remove(path@),
            final(self).limit() == old(self).limit(),
    {
        let ghost old_state = self.state@;
        let mut kept: Vec<NoopEntry> = Vec::new();
        let mut rest: Vec<NoopEntry> = Vec::new();
        std::mem::swap(&mut rest, &mut self.state);
        assert(rest@ == old_state);
        let mut i: usize = 0;
        let n = rest.len();
        while i < n
            invariant
                n == rest@.len(),
                i <= n,
                rest@ == old_state,
                forall|k: Seq<char>| #[trigger] entry_for(kept@, k) == if k == path@ {
                    None
                } else {
                    entry_for(old_state.take(i as int), k)
                },
            decreases n - i,
        {
            proof {
                assert(old_state.take(i + 1).drop_last() =~= old_state.take(i as int));
            }
            if !str_eq(rest[i].path.as_str(), path) {
                let e = NoopEntry {
                    path: owned(rest[i].path.as_str()),
                    fingerprint: rest[i].fingerprint,
                    streak: rest[i].streak,
                };
                proof {
                    assert forall|k: Seq<char>| #[trigger] entry_for(kept@.push(e), k) == if k == path@ {
                        None
                    } else {
                        entry_for(old_state.take(i + 1), k)
                    } by {
                        lemma_entry_for_push(kept@, e, k);
                    }
                }
                kept.push(e);
            }
            i = i + 1;
        }
        assert(old_state.take(n as int) =~= old_state);
        self.state = kept;
        assert(self@ =~= old(self)@.remove(path@));
    }

    /// Records one apply on `path` and returns the no-op streak: a change
    /// (`was_noop` false) clears the path and gives `Ok(0)`; a no-op with
    /// the same fingerprint as last time extends the streak, another
    /// fingerprint starts it again at one. A streak of `limit` or more is
    /// returned as `Err`, telling the caller to stop.
    pub fn record(&mut self, path: &str, fingerprint: u64, was_noop: bool) -> (r: Result<usize, usize>)
        requires
            lookup(old(self)@, path@) matches Some((_, n)) ==> n < usize::MAX,
        ensures
            final(self).limit() == old(self).limit(),
            !was_noop ==> final(self)@ == old(self)@.remove(path@) && r == Ok::<usize, usize>(0),
            was_noop ==> {
                let s = next_streak(lookup(old(self)@, path@), fingerprint);
                &&& final(self)@ == old(self)@.insert(path@, (fingerprint, s as usize))
                &&& r == if s >= old(self).limit() {
                    Err::<usize, usize>(s as usize)
                } else {
                    Ok::<usize, usize>(s as usize)
                }
            },
    {
        if !was_noop {
            self.forget(path);
            return Ok(0);
        }
        let ghost prev = lookup(old(self)@, path@);
        let streak: usize;
        match self.find(path) {
            Some(i) => {
                proof {
                    lemma_entry_for_last(self.state@, i as int, path@);
                    assert(old(self)@.dom().contains(path@));
                }
                let old_fp = self.state[i].fingerprint;
                let old_streak = self.state[i].streak;
                streak = if old_fp != fingerprint { 1 } else { old_streak + 1 };
                let e = NoopEntry { path: owned(path), fingerprint, streak };
                proof {
                    assert forall|k: Seq<char>| #[trigger] entry_for(self.state@.update(i as int, e), k) == if k
                        == path@ {
                        Some((fingerprint, streak))
                    } else {
                        entry_for(self.state@, k)
                    } by {
                        lemma_entry_for_update(self.state@, i as int, e, k);
                    }
                }
                self.state.set(i, e);
            },
            None => {
                proof {
                    lemma_entry_for_absent(self.state@, path@);
                }
                streak = 1;
                let e = NoopEntry { path: owned(path), fingerprint, streak };
                proof {
                    assert forall|k: Seq<char>| #[trigger] entry_for(self.state@.push(e), k) == if k == path@ {
                        Some((fingerprint, streak))
                    } else {
                        entry_for(self.state@, k)
                    } by {
                        lemma_entry_for_push(self.state@, e, k);
                    }
                }
                self.state.push(e);
            },
        }
        assert(self@ =~= old(self)@.insert(path@, (fingerprint, streak)));
        if streak >= self.limit {
            Err(streak)
        } else {
            Ok(streak)
        }
    }

    /// Clears the record for `path` (after a real edit or a re-read).
    pub fn reset(&mut self, path: &str)
        ensures
            final(self)@ == old(self)@.remove(path@),
            final(self).limit() == old(self).limit(),
    {
        self.forget(path);
    }
}

impl Default for NoopGuard {
    /// An empty guard with a limit of zero, so that any no-op fires.
    fn default() -> (g: NoopGuard)
        ensures
            g@ == Map::<Seq<char>, (u64, usize)>::empty(),
            g.limit() == 0,
    {
        let g = NoopGuard { state: Vec::new(), limit: 0 };
        assert(g@ =~= Map::<Seq<char>, (u64, usize)>::empty());
        g
    }
}

/// A fingerprint of a patch's text: the xxh3 64-bit hash of its UTF-8 bytes.
pub fn fingerprint(patch_str: &str) -> (f: u64)
    ensures
        f == xxh3_64_spec(vstd::utf8::encode_utf8(patch_str@)),
{
    full_hash_bytes64(patch_str.as_bytes())
}

/// A no-op followed by a real change leaves no record for the path, so the
/// next no-op starts a new streak at one.
pub proof fn law_change_resets(m: Map<Seq<char>, (u64, usize)>, path: Seq<char>, fp: u64)
    ensures
        next_streak(lookup(m.remove(path), path), fp) == 1,
{
}

/// Repeating the same no-op extends the streak by one each time.
pub proof fn law_same_noop_extends(m: Map<Seq<char>, (u64, usize)>, path: Seq<char>, fp: u64)
    requires
        lookup(m, path) matches Some((_, n)) ==> n < usize::MAX,
    ensures
        ({
            let s = next_streak(lookup(m, path), fp);
            let m2 = m.insert(path, (fp, s as usize));
            next_streak(lookup(m2, path), fp) == s + 1
        }),
{
    let s = next_streak(lookup(m, path), fp);
    assert(s >= 1);
}

} // verus!
