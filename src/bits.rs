//! The packed cell store: `fixedbitset::FixedBitSet`, seen through the
//! sequence of its bits.
use vstd::prelude::*;

use fixedbitset::FixedBitSet;

verus! {

#[verifier::external_type_specification]
#[verifier::external_body]
pub struct ExFixedBitSet(FixedBitSet);

/// The bits of a bit set, in order; its length is the set's capacity.
pub uninterp spec fn bits_of(s: FixedBitSet) -> Seq<bool>;

/// Relies on `FixedBitSet::with_capacity`: `n` bits, all clear.
#[verifier::external_body]
pub(crate) fn new_clear(n: usize) -> (r: FixedBitSet)
    ensures
        bits_of(r) == Seq::new(n as nat, |i: int| false),
{
    FixedBitSet::with_capacity(n)
}

/// Relies on `FixedBitSet::contains`: whether bit `i` is set.
#[verifier::external_body]
pub(crate) fn get_bit(s: &FixedBitSet, i: usize) -> (r: bool)
    requires
        i < bits_of(*s).len(),
    ensures
        r == bits_of(*s)[i as int],
{
    s.contains(i)
}

/// Relies on `FixedBitSet::set`: bit `i` becomes `value`, the others stay.
/// It panics past the capacity, hence the precondition.
#[verifier::external_body]
pub(crate) fn put_bit(s: &mut FixedBitSet, i: usize, value: bool)
    requires
        i < bits_of(*old(s)).len(),
    ensures
        bits_of(*final(s)) == bits_of(*old(s)).update(i as int, value),
{
    s.set(i, value)
}

/// Relies on `FixedBitSet::toggle`: bit `i` is inverted, the others stay.
/// It panics past the capacity, hence the precondition.
#[verifier::external_body]
pub(crate) fn flip_bit(s: &mut FixedBitSet, i: usize)
    requires
        i < bits_of(*old(s)).len(),
    ensures
        bits_of(*final(s)) == bits_of(*old(s)).update(i as int, !bits_of(*old(s))[i as int]),
{
    s.toggle(i)
}

/// Relies on `FixedBitSet::clone`: a copy with the same bits.
#[verifier::external_body]
pub(crate) fn copy_bits(s: &FixedBitSet) -> (r: FixedBitSet)
    ensures
        bits_of(r) == bits_of(*s),
{
    s.clone()
}

/// Relies on `FixedBitSet::as_slice`: the backing `u32` blocks, bit `i`
/// being bit `i % 32` of block `i / 32`, with just enough blocks for the
/// capacity.
#[verifier::external_body]
pub(crate) fn blocks(s: &FixedBitSet) -> (r: &[u32])
    ensures
        r@.len() == (bits_of(*s).len() + 31) / 32,
        forall|i: int|
            0 <= i < bits_of(*s).len() ==> #[trigger] bits_of(*s)[i] == ((r@[i / 32] >> ((i % 32) as u32)) & 1u32 == 1u32),
{
    s.as_slice()
}

} // verus!
