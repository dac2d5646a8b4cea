//! Fixed-capacity scratch vectors of linear coordinates.
//!
//! The flood fill, the capture lists and `empties` all use `arrayvec`'s
//! inline vector so that steady-state play allocates nothing. A 19x19 board
//! has at most 361 on-board points, so a capacity of 384 always suffices.
//! Verus sees the vector through `av_elems`, the sequence of its elements.

use vstd::prelude::*;

verus! {

/// `arrayvec::ArrayVec`, declared so its values can appear in signatures and
/// fields; Verus sees nothing inside and reads it through `av_elems`.
#[verifier::external_type_specification]
#[verifier::external_body]
#[verifier::reject_recursive_types(T)]
pub struct ExArrayVec<T, const CAP: usize>(arrayvec::ArrayVec<T, CAP>);

/// A fixed-capacity vector of linear point coordinates.
pub type UsizeVec = arrayvec::ArrayVec<usize, 384>;

/// The elements a `UsizeVec` holds, first to last.
pub uninterp spec fn av_elems(v: UsizeVec) -> Seq<usize>;

/// Relies on `arrayvec::ArrayVec::new`: a freshly created vector is empty.
#[verifier::external_body]
pub(crate) fn av_new() -> (v: UsizeVec)
    ensures
        av_elems(v) == Seq::<usize>::empty(),
{
    arrayvec::ArrayVec::new()
}

/// Relies on `arrayvec::ArrayVec::len`: the number of elements held.
#[verifier::external_body]
pub(crate) fn av_len(v: &UsizeVec) -> (n: usize)
    ensures
        n == av_elems(*v).len(),
{
    v.len()
}

/// Relies on `arrayvec::ArrayVec::push`: appends one element at the end.
/// `push` panics on a full vector, so a caller must keep the length under
/// the capacity.
#[verifier::external_body]
pub(crate) fn av_push(v: &mut UsizeVec, x: usize)
    requires
        av_elems(*old(v)).len() < 384,
    ensures
        av_elems(*final(v)) == av_elems(*old(v)).push(x),
{
    v.push(x)
}

/// Relies on `arrayvec::ArrayVec::as_slice` and slice indexing: the element
/// at position `i`.
#[verifier::external_body]
pub(crate) fn av_get(v: &UsizeVec, i: usize) -> (x: usize)
    requires
        i < av_elems(*v).len(),
    ensures
        x == av_elems(*v)[i as int],
{
    v.as_slice()[i]
}

} // verus!
