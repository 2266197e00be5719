//! The candidate bitset. The grid keeps one bit per (cell, value) pair in a
//! `bit_vec::BitVec`; this module declares that outside type for the
//! verifier, names its contents as a sequence of booleans, and wraps the few
//! methods the engine calls.

use vstd::prelude::*;

verus! {

#[verifier::external_type_specification]
#[verifier::external_body]
#[verifier::reject_recursive_types(B)]
pub struct ExBitVec<B>(bit_vec::BitVec<B>);

/// The bits held by a `bit_vec::BitVec`, in index order.
pub uninterp spec fn bits_of(b: &bit_vec::BitVec) -> Seq<bool>;

/// Relies on bit_vec::BitVec::from_elem: `nbits` bits, every one `bit`.
#[verifier::external_body]
pub fn bits_filled(nbits: usize, bit: bool) -> (b: bit_vec::BitVec)
    ensures
        bits_of(&b) == Seq::new(nbits as nat, |i: int| bit),
{
    bit_vec::BitVec::from_elem(nbits, bit)
}

/// Relies on bit_vec::BitVec::len: the number of bits held.
#[verifier::external_body]
pub fn bits_len(b: &bit_vec::BitVec) -> (n: usize)
    ensures
        n == bits_of(b).len(),
{
    b.len()
}

/// Relies on bit_vec::BitVec::get: the bit at index `i`.
#[verifier::external_body]
pub fn bits_get(b: &bit_vec::BitVec, i: usize) -> (r: bool)
    requires
        i < bits_of(b).len(),
    ensures
        r == bits_of(b)[i as int],
{
    b.get(i).unwrap()
}

/// Relies on bit_vec::BitVec::set: writes the bit at index `i` and leaves
/// every other bit as it was.
#[verifier::external_body]
pub fn bits_set(b: &mut bit_vec::BitVec, i: usize, x: bool)
    requires
        i < bits_of(old(b)).len(),
    ensures
        bits_of(final(b)) == bits_of(old(b)).update(i as int, x),
{
    b.set(i, x)
}

/// Relies on bit_vec::BitVec::clone: the copy holds the same bits.
#[verifier::external_body]
pub fn bits_clone(b: &bit_vec::BitVec) -> (r: bit_vec::BitVec)
    ensures
        bits_of(&r) == bits_of(b),
{
    b.clone()
}

} // verus!
