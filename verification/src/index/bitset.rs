//! Sets of line indices kept in `fixedbitset::FixedBitSet`, seen through
//! the indices they hold and the number of bits they were made with.

use vstd::prelude::*;
use fixedbitset::FixedBitSet;

verus! {

#[verifier::external_type_specification]
#[verifier::external_body]
pub struct ExFixedBitSet(fixedbitset::FixedBitSet);

/// The indices whose bits are set.
pub uninterp spec fn bit_ones(b: FixedBitSet) -> Set<usize>;

/// The number of bits the set holds (its length, not its count of ones).
pub uninterp spec fn bit_len(b: FixedBitSet) -> nat;

/// The indices below `n`.
pub open spec fn below(n: nat) -> Set<usize> {
    Set::new(|i: usize| i < n)
}

/// Calls `FixedBitSet::with_capacity`: `bits` bits, all clear.
#[verifier::external_body]
pub(crate) fn bits_with_capacity(bits: usize) -> (r: FixedBitSet)
    ensures
        bit_ones(r) == Set::<usize>::empty(),
        bit_len(r) == bits,
{
    FixedBitSet::with_capacity(bits)
}

/// Calls `FixedBitSet::set(bit, true)`, which panics past the length.
#[verifier::external_body]
pub(crate) fn bits_insert(b: &mut FixedBitSet, bit: usize)
    requires
        bit < bit_len(*old(b)),
    ensures
        bit_ones(*final(b)) == bit_ones(*old(b)).insert(bit),
        bit_len(*final(b)) == bit_len(*old(b)),
{
    b.set(bit, true)
}

/// Calls `FixedBitSet::set_range(.., true)`: every bit set.
#[verifier::external_body]
pub(crate) fn bits_fill(b: &mut FixedBitSet)
    ensures
        bit_ones(*final(b)) == below(bit_len(*old(b))),
        bit_len(*final(b)) == bit_len(*old(b)),
{
    b.set_range(.., true)
}

/// Calls `FixedBitSet::intersect_with`: the bits set in both; the length
/// stays.
#[verifier::external_body]
pub(crate) fn bits_intersect(b: &mut FixedBitSet, other: &FixedBitSet)
    ensures
        bit_ones(*final(b)) == bit_ones(*old(b)).intersect(bit_ones(*other)),
        bit_len(*final(b)) == bit_len(*old(b)),
{
    b.intersect_with(other)
}

/// Calls `FixedBitSet::clear`: no bit set; the length stays.
#[verifier::external_body]
pub(crate) fn bits_clear(b: &mut FixedBitSet)
    ensures
        bit_ones(*final(b)) == Set::<usize>::empty(),
        bit_len(*final(b)) == bit_len(*old(b)),
{
    b.clear()
}

/// Calls `FixedBitSet::clone`: the same bits and length.
#[verifier::external_body]
pub(crate) fn bits_clone(b: &FixedBitSet) -> (r: FixedBitSet)
    ensures
        bit_ones(r) == bit_ones(*b),
        bit_len(r) == bit_len(*b),
{
    b.clone()
}

/// Calls `FixedBitSet::ones` and collects what it yields: the set bits,
/// ascending.
#[verifier::external_body]
pub(crate) fn bits_ones(b: &FixedBitSet) -> (r: Vec<usize>)
    ensures
        r@.to_set() == bit_ones(*b),
        forall|x: int, y: int| 0 <= x < y < r@.len() ==> #[trigger] r@[x] < #[trigger] r@[y],
{
    b.ones().collect()
}

} // verus!
