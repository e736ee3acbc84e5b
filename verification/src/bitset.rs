//! Trusted declarations for the bit set that the searches mark nodes in.

use vstd::prelude::*;
use fixedbitset::FixedBitSet;

verus! {

/// The bit set type of the `fixedbitset` crate, opaque to verification.
#[verifier::external_type_specification]
#[verifier::external_body]
pub struct ExFixedBitSet(FixedBitSet);

/// The enabled bits of a bit set.
pub uninterp spec fn bitset_ones(s: FixedBitSet) -> Set<usize>;

/// The number of bits of a bit set (its length, not its count of enabled bits).
pub uninterp spec fn bitset_len(s: FixedBitSet) -> nat;

/// `FixedBitSet::with_capacity(bits)`: a bit set of `bits` bits, all disabled.
#[verifier::external_body]
pub(crate) fn bitset_with_capacity(bits: usize) -> (s: FixedBitSet)
    ensures
        bitset_ones(s) == Set::<usize>::empty(),
        bitset_len(s) == bits,
{
    FixedBitSet::with_capacity(bits)
}

/// `FixedBitSet::insert(bit)`: enables `bit`; the source panics where `bit`
/// is not below the length, so that is required.
#[verifier::external_body]
pub(crate) fn bitset_insert(s: &mut FixedBitSet, bit: usize)
    requires
        bit < bitset_len(*old(s)),
    ensures
        bitset_ones(*final(s)) == bitset_ones(*old(s)).insert(bit),
        bitset_len(*final(s)) == bitset_len(*old(s)),
{
    s.insert(bit)
}

/// `FixedBitSet::contains(bit)`: whether `bit` is enabled (bits beyond the
/// length are never enabled).
#[verifier::external_body]
pub(crate) fn bitset_contains(s: &FixedBitSet, bit: usize) -> (b: bool)
    ensures
        b == bitset_ones(*s).contains(bit),
{
    s.contains(bit)
}

/// `FixedBitSet::count_ones(..)`: the number of enabled bits over the whole
/// length.
#[verifier::external_body]
pub(crate) fn bitset_count_ones(s: &FixedBitSet) -> (c: usize)
    ensures
        c == bitset_ones(*s).len(),
{
    s.count_ones(..)
}

/// `FixedBitSet::zeroes()`, collected: the disabled bits below the length, in
/// increasing order.
#[verifier::external_body]
pub(crate) fn bitset_zeroes(s: &FixedBitSet) -> (z: Vec<usize>)
    ensures
        forall|i: int, j: int| 0 <= i < j < z@.len() ==> z@[i] < z@[j],
        forall|b: usize| #[trigger] z@.contains(b) <==> (b < bitset_len(*s) && !bitset_ones(*s).contains(b)),
{
    s.zeroes().collect()
}

} // verus!
