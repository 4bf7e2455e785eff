//! The per-block boolean indicator of period values, held in a packed bit
//! vector from the `bit_vec` crate.

use vstd::prelude::*;

verus! {

#[verifier::external_type_specification]
#[verifier::external_body]
#[verifier::reject_recursive_types(B)]
pub struct ExBitVec<B>(bit_vec::BitVec<B>);

/// The bits that a `bit_vec::BitVec` holds, lowest index first.
pub uninterp spec fn bits_of(b: bit_vec::BitVec) -> Seq<bool>;

/// Relies on `bit_vec::BitVec::from_elem`: a fresh vector of `len` copies
/// of `bit`.
#[verifier::external_body]
pub fn bits_from_elem(len: usize, bit: bool) -> (r: bit_vec::BitVec)
    ensures
        bits_of(r) == Seq::new(len as nat, |i: int| bit),
{
    bit_vec::BitVec::from_elem(len, bit)
}

/// Relies on `bit_vec::BitVec::set`: writes the bit at `i` in place, keeping
/// the others; it panics only on an index at or past the length.
#[verifier::external_body]
pub fn bits_set(b: &mut bit_vec::BitVec, i: usize, x: bool)
    requires
        i < bits_of(*old(b)).len(),
    ensures
        bits_of(*final(b)) == bits_of(*old(b)).update(i as int, x),
{
    b.set(i, x)
}

/// Relies on `bit_vec::BitVec::get`: reads the bit at `i`, `Some` exactly on
/// an index below the length.
#[verifier::external_body]
pub fn bits_get(b: &bit_vec::BitVec, i: usize) -> (r: Option<bool>)
    ensures
        i < bits_of(*b).len() ==> r == Some(bits_of(*b)[i as int]),
        i >= bits_of(*b).len() ==> r is None,
{
    b.get(i)
}

} // verus!
