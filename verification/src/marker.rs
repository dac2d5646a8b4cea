//! The generational visited-set borrowed by the string flood.
//!
//! Clearing bumps a generation counter instead of zeroing the array, so a
//! clear is constant-time; the array is rewritten only on the (practically
//! unreachable) counter wrap.

use vstd::prelude::*;

verus! {

/// A visited-set over the padded array with O(1) `clear`.
pub struct Marker {
    generation: u64,
    marks: Vec<u64>,
}

impl Marker {
    /// Internal consistency: one mark per cell, no mark above the current
    /// generation.
    pub closed spec fn wf(self) -> bool {
        &&& self.marks@.len() == 441
        &&& forall|i: int| 0 <= i < 441 ==> self.marks@[i] <= self.generation
    }

    /// Whether index `i` has been marked since the last `clear`.
    pub closed spec fn spec_marked(self, i: int) -> bool {
        self.marks@[i] == self.generation
    }

    /// A fresh marker over the padded array; nothing is marked.
    pub fn new() -> (m: Marker)
        ensures
            m.wf(),
            forall|i: int| 0 <= i < 441 ==> !m.spec_marked(i),
    {
        let mut marks: Vec<u64> = Vec::new();
        let mut n: usize = 0;
        while n < 441
            invariant
                n <= 441,
                marks@.len() == n,
                forall|i: int| 0 <= i < n ==> marks@[i] == 0,
            decreases 441 - n,
        {
            marks.push(0);
            n = n + 1;
        }
        Marker { generation: 1, marks }
    }

    /// Forgets every mark in constant time (amortized): bumps the
    /// generation, rewriting the array only when the counter would wrap.
    pub fn clear(&mut self)
        requires
            old(self).wf(),
        ensures
            final(self).wf(),
            forall|i: int| 0 <= i < 441 ==> !final(self).spec_marked(i),
    {
        if self.generation == u64::MAX {
            let mut n: usize = 0;
            while n < 441
                invariant
                    n <= 441,
                    self.marks@.len() == 441,
                    forall|i: int| 0 <= i < n ==> self.marks@[i] == 0,
            decreases 441 - n,
            {
                self.marks.set(n, 0);
                n = n + 1;
            }
            self.generation = 1;
        } else {
            self.generation = self.generation + 1;
        }
    }

    /// Whether `i` has been marked since the last `clear`.
    pub fn is_marked(&self, i: usize) -> (r: bool)
        requires
            self.wf(),
            i < 441,
        ensures
            r == self.spec_marked(i as int),
    {
        self.marks[i] == self.generation
    }

    /// Marks `i`; every other index keeps its status.
    pub fn mark(&mut self, i: usize)
        requires
            old(self).wf(),
            i < 441,
        ensures
            final(self).wf(),
            final(self).spec_marked(i as int),
            forall|j: int|
                0 <= j < 441 && j != i ==> final(self).spec_marked(j) == old(self).spec_marked(j),
    {
        let g = self.generation;
        self.marks.set(i, g);
    }
}

} // verus!
