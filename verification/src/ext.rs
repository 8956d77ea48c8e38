//! Trusted declarations for the outside bit-vector type and for the two
//! accessors of `core::ops::RangeInclusive` that vstd leaves unspecified.

use bit_vec::BitVec;
use vstd::prelude::*;

verus! {

#[verifier::external_type_specification]
#[verifier::external_body]
#[verifier::reject_recursive_types(B)]
pub struct ExBitVec<B>(BitVec<B>);

/// The bits a `BitVec` holds, in index order.
pub uninterp spec fn bits_of(b: BitVec) -> Seq<bool>;

/// Relies on `bit_vec::BitVec::from_elem`: a vector of `len` bits, each equal
/// to `bit`.
#[verifier::external_body]
pub(crate) fn bits_new(len: usize, bit: bool) -> (r: BitVec)
    ensures
        bits_of(r).len() == len,
        forall|i: int| 0 <= i < len ==> bits_of(r)[i] == bit,
{
    BitVec::from_elem(len, bit)
}

/// Relies on `bit_vec::BitVec::get`: `Some(bit at i)` whenever `i` is within
/// bounds, which the precondition guarantees.
#[verifier::external_body]
pub(crate) fn bits_get(b: &BitVec, i: usize) -> (r: bool)
    requires
        i < bits_of(*b).len(),
    ensures
        r == bits_of(*b)[i as int],
{
    b.get(i).unwrap()
}

/// Relies on `bit_vec::BitVec::set`: stores `x` at index `i` and leaves every
/// other bit unchanged; it panics only out of bounds, which the precondition
/// rules out.
#[verifier::external_body]
pub(crate) fn bits_set(b: &mut BitVec, i: usize, x: bool)
    requires
        i < bits_of(*old(b)).len(),
    ensures
        bits_of(*final(b)) == bits_of(*old(b)).update(i as int, x),
{
    b.set(i, x)
}

/// Relies on `core::ops::RangeInclusive::start`: returns the range's lower
/// bound, the `start` the range was constructed with.
pub assume_specification<Idx>[ core::ops::RangeInclusive::<Idx>::start ](
    r: &core::ops::RangeInclusive<Idx>,
) -> (s: &Idx)
    ensures
        *s == r@.start,
;

/// Relies on `core::ops::RangeInclusive::end`: returns the range's upper
/// bound, the `end` the range was constructed with.
pub assume_specification<Idx>[ core::ops::RangeInclusive::<Idx>::end ](
    r: &core::ops::RangeInclusive<Idx>,
) -> (e: &Idx)
    ensures
        *e == r@.end,
;

} // verus!
