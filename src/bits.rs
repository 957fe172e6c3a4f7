//! What this library relies on from the `bit_vec` crate.

use vstd::prelude::*;
use bit_vec::BitVec;

verus! {

#[verifier::external_type_specification]
#[verifier::external_body]
#[verifier::reject_recursive_types(B)]
pub struct ExBitVec<B>(BitVec<B>);

/// The bits that a `BitVec` holds, first to last.
pub uninterp spec fn bits_of(v: BitVec) -> Seq<bool>;

/// Relies on `BitVec::new`: a new vector holds no bits.
#[verifier::external_body]
pub(crate) fn bv_new() -> (r: BitVec)
    ensures
        bits_of(r) == Seq::<bool>::empty(),
{
    BitVec::new()
}

/// Relies on `BitVec::len`: the number of bits held.
#[verifier::external_body]
pub(crate) fn bv_len(v: &BitVec) -> (r: usize)
    ensures
        r as int == bits_of(*v).len(),
{
    v.len()
}

/// Relies on `BitVec::get`: the bit at `i`, or `None` past the end.
#[verifier::external_body]
pub(crate) fn bv_get(v: &BitVec, i: usize) -> (r: Option<bool>)
    ensures
        i < bits_of(*v).len() ==> r == Some(bits_of(*v)[i as int]),
        i >= bits_of(*v).len() ==> r is None,
{
    v.get(i)
}

/// Relies on `BitVec::truncate`: keeps the first `len` bits, and changes
/// nothing when `len` is not below the length.
#[verifier::external_body]
pub(crate) fn bv_truncate(v: &mut BitVec, len: usize)
    ensures
        len < bits_of(*old(v)).len() ==> bits_of(*final(v)) == bits_of(*old(v)).take(len as int),
        len >= bits_of(*old(v)).len() ==> bits_of(*final(v)) == bits_of(*old(v)),
{
    v.truncate(len)
}

/// Relies on `BitVec::grow`: appends `n` copies of `value`; it panics when
/// the new length overflows `usize`, which `requires` rules out.
#[verifier::external_body]
pub(crate) fn bv_grow(v: &mut BitVec, n: usize, value: bool)
    requires
        bits_of(*old(v)).len() + n <= usize::MAX,
    ensures
        bits_of(*final(v)) == bits_of(*old(v)) + Seq::new(n as nat, |i: int| value),
{
    v.grow(n, value)
}

} // verus!
