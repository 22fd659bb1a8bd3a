//! Vectors of bits.
use bit_vec::BitVec;
use vstd::prelude::*;

verus! {

/// `bit_vec::BitVec`, a vector of bits of the given block type.
#[verifier::external_type_specification]
#[verifier::external_body]
#[verifier::reject_recursive_types(B)]
pub struct ExBitVec<B>(bit_vec::BitVec<B>);

/// The bits that a vector holds.
pub uninterp spec fn bits_of(v: BitVec) -> Seq<bool>;

/// Makes a vector with `bit_vec::BitVec::from_elem`: it holds `n` times the bit
/// `x`.
#[verifier::external_body]
pub(crate) fn new_bits(n: usize, x: bool) -> (v: BitVec)
    ensures
        bits_of(v) == Seq::new(n as nat, |i: int| x),
{
    BitVec::from_elem(n, x)
}

/// Reads a bit with the index operator of `bit_vec::BitVec`, which panics where
/// there is no such bit. The result is the bit at `i`.
#[verifier::external_body]
pub(crate) fn bit_at(v: &BitVec, i: usize) -> (x: bool)
    requires
        i < bits_of(*v).len(),
    ensures
        x == bits_of(*v)[i as int],
{
    v[i]
}

/// Writes a bit with `bit_vec::BitVec::set`, which panics where there is no such
/// bit. The bit at `i` becomes `x`, all others stay as they are.
#[verifier::external_body]
pub(crate) fn set_bit(v: &mut BitVec, i: usize, x: bool)
    requires
        i < bits_of(*old(v)).len(),
    ensures
        bits_of(*final(v)) == bits_of(*old(v)).update(i as int, x),
{
    v.set(i, x)
}

}
