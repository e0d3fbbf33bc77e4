//! The packed bit storage of a grid, kept in a `fixedbitset::FixedBitSet`.
//!
//! Everything that Verus knows of a bitset goes through `bits_of`, the
//! sequence of its bits; the wrappers below state what each call does to it.
use fixedbitset::FixedBitSet;
use vstd::prelude::*;

verus! {

#[verifier::external_type_specification]
#[verifier::external_body]
pub struct ExFixedBitSet(FixedBitSet);

/// The bits that a bitset holds, in order; its length is the bitset's length.
pub uninterp spec fn bits_of(s: FixedBitSet) -> Seq<bool>;

/// Relies on `FixedBitSet::with_capacity`: `n` bits, all clear.
#[verifier::external_body]
pub(crate) fn zeroed(n: usize) -> (r: FixedBitSet)
    ensures
        bits_of(r) == Seq::new(n as nat, |i: int| false),
{
    FixedBitSet::with_capacity(n)
}

/// Relies on `FixedBitSet::contains`: whether bit `i` is set.
#[verifier::external_body]
pub(crate) fn bit(s: &FixedBitSet, i: usize) -> (r: bool)
    requires
        i < bits_of(*s).len(),
    ensures
        r == bits_of(*s)[i as int],
{
    s.contains(i)
}

/// Relies on `FixedBitSet::set`: bit `i` becomes `v`, the others stay;
/// it panics when `i` is not below the length, which `requires` rules out.
#[verifier::external_body]
pub(crate) fn set_bit(s: &mut FixedBitSet, i: usize, v: bool)
    requires
        i < bits_of(*old(s)).len(),
    ensures
        bits_of(*final(s)) == bits_of(*old(s)).update(i as int, v),
{
    s.set(i, v)
}

/// Relies on `FixedBitSet::clone`: a copy with the same bits.
#[verifier::external_body]
pub(crate) fn copy_bits(s: &FixedBitSet) -> (r: FixedBitSet)
    ensures
        bits_of(r) == bits_of(*s),
{
    s.clone()
}

/// Whether the 32-bit blocks `b` hold the bits `s`, bit `i` at position
/// `i % 32` (least significant first) of block `i / 32`.
pub open spec fn blocks_hold(b: Seq<u32>, s: Seq<bool>) -> bool {
    &&& b.len() == (s.len() + 31) / 32
    &&& forall|i: int|
        0 <= i < s.len() ==> (((b[i / 32] >> ((i % 32) as u32)) & 1u32) == 1u32) == s[i]
}

/// Relies on `FixedBitSet::as_slice`: the `u32` blocks of the bitset, as many
/// as its length needs, bit `i` in block `i / 32` at position `i % 32`.
#[verifier::external_body]
pub(crate) fn blocks(s: &FixedBitSet) -> (r: &[u32])
    ensures
        blocks_hold(r@, bits_of(*s)),
{
    s.as_slice()
}

} // verus!
