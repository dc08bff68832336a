use vstd::prelude::*;

verus! {

#[verifier::external_type_specification]
#[verifier::external_body]
pub struct ExFixedBitSet(fixedbitset::FixedBitSet);

/// What a bit set holds: one boolean per bit position, as many as its
/// capacity.
pub uninterp spec fn bits_of(b: fixedbitset::FixedBitSet) -> Seq<bool>;

/// Relies on fixedbitset::FixedBitSet::with_capacity: a set with `bits`
/// bits, all initially clear.
#[verifier::external_body]
pub(crate) fn bits_with_capacity(bits: usize) -> (r: fixedbitset::FixedBitSet)
    ensures
        bits_of(r) == Seq::new(bits as nat, |i: int| false),
{
    fixedbitset::FixedBitSet::with_capacity(bits)
}

/// Relies on fixedbitset::FixedBitSet::len: the capacity in bits.
#[verifier::external_body]
pub(crate) fn bits_len(b: &fixedbitset::FixedBitSet) -> (r: usize)
    ensures
        r == bits_of(*b).len(),
{
    b.len()
}

/// Relies on fixedbitset::FixedBitSet::contains: the bit's value, where
/// bits outside the capacity read as clear.
#[verifier::external_body]
pub(crate) fn bits_get(b: &fixedbitset::FixedBitSet, i: usize) -> (r: bool)
    ensures
        r == (i < bits_of(*b).len() && bits_of(*b)[i as int]),
{
    b.contains(i)
}

/// Relies on fixedbitset::FixedBitSet::insert: enables one bit; it panics
/// only on a bit beyond the capacity, which the precondition rules out.
#[verifier::external_body]
pub(crate) fn bits_insert(b: &mut fixedbitset::FixedBitSet, i: usize)
    requires
        i < bits_of(*old(b)).len(),
    ensures
        bits_of(*final(b)) == bits_of(*old(b)).update(i as int, true),
{
    b.insert(i)
}

/// Relies on fixedbitset's Clone, which copies the blocks and the length.
pub assume_specification[ <fixedbitset::FixedBitSet as Clone>::clone ](
    b: &fixedbitset::FixedBitSet,
) -> (r: fixedbitset::FixedBitSet)
    ensures
        bits_of(r) == bits_of(*b),
;

} // verus!
