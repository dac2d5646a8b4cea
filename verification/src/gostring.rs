//! A connected string of stones, with its liberties and adjacent opponents.

use vstd::prelude::*;

use crate::scratch::{av_elems, av_len, av_new, UsizeVec};

verus! {

/// The result of a string flood: the stones of one connected string, the
/// distinct empty points adjacent to it, and the distinct opposing stones
/// adjacent to it.
pub struct GoString {
    pub points: UsizeVec,
    pub liberties: UsizeVec,
    pub opponents: UsizeVec,
}

impl GoString {
    /// The string's stones, in discovery order.
    pub open spec fn pts(self) -> Seq<usize> {
        av_elems(self.points)
    }

    /// The string's liberties, in discovery order.
    pub open spec fn libs(self) -> Seq<usize> {
        av_elems(self.liberties)
    }

    /// The adjacent opposing stones, in discovery order.
    pub open spec fn opps(self) -> Seq<usize> {
        av_elems(self.opponents)
    }

    /// An empty string record.
    pub fn new() -> (gs: GoString)
        ensures
            gs.pts() == Seq::<usize>::empty(),
            gs.libs() == Seq::<usize>::empty(),
            gs.opps() == Seq::<usize>::empty(),
    {
        GoString { points: av_new(), liberties: av_new(), opponents: av_new() }
    }

    /// The number of stones in the string.
    pub fn size(&self) -> (n: usize)
        ensures
            n == self.pts().len(),
    {
        av_len(&self.points)
    }

    /// The number of distinct liberties of the string.
    pub fn num_liberties(&self) -> (n: usize)
        ensures
            n == self.libs().len(),
    {
        av_len(&self.liberties)
    }
}

} // verus!
