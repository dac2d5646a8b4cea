//! The board substrate: a padded one-dimensional point array.
//!
//! The playing area is 19x19. One ring of out-of-bounds cells surrounds it,
//! so the padded array is 21x21 = 441 cells and the four cardinal neighbours
//! of any on-board point are always inside the array. Internal (x, y)
//! coordinates put (1, 1) at the top left of the playing area.

use vstd::prelude::*;

use crate::marker::Marker;
use crate::point::{Color, PointState};
use crate::scratch::{av_elems, av_new, av_push, UsizeVec};

verus! {

/// Length of one side of the playing area.
pub const SIDE: usize = 19;

/// Width of the out-of-bounds ring.
pub const HALO: usize = 1;

/// Side of the padded array: the playing area plus the halo on both sides.
pub const PADDED_WIDTH: usize = 21;

/// Number of cells of the padded array.
pub const PADDED_AREA: usize = 441;

/// The x (column) coordinate of a linear coordinate.
pub open spec fn xof(p: int) -> int {
    p % 21
}

/// The y (row) coordinate of a linear coordinate.
pub open spec fn yof(p: int) -> int {
    p / 21
}

/// The linear coordinate of (x, y).
pub open spec fn lin(x: int, y: int) -> int {
    x + 21 * y
}

/// Whether a linear coordinate lies in the playing area.
pub open spec fn interior(p: int) -> bool {
    &&& 0 <= p < 441
    &&& 1 <= xof(p) <= 19
    &&& 1 <= yof(p) <= 19
}

/// The four cardinal neighbours, in the engine's fixed order
/// north, east, south, west.
pub open spec fn nbr(p: int, k: int) -> int {
    if k == 0 {
        p - 21
    } else if k == 1 {
        p + 1
    } else if k == 2 {
        p + 21
    } else {
        p - 1
    }
}

/// Whether two linear coordinates are cardinally adjacent.
pub open spec fn is_adj(p: int, q: int) -> bool {
    q == p - 21 || q == p + 1 || q == p + 21 || q == p - 1
}

/// The four diagonal neighbours, in the order north-east, south-east,
/// south-west, north-west.
pub open spec fn dnbr(p: int, k: int) -> int {
    if k == 0 {
        p - 21 + 1
    } else if k == 1 {
        p + 21 + 1
    } else if k == 2 {
        p + 21 - 1
    } else {
        p - 21 - 1
    }
}

/// The halo invariant: the array has its fixed size and every cell outside
/// the playing area holds `Out`.
pub open spec fn board_ok(b: Seq<PointState>) -> bool {
    &&& b.len() == 441
    &&& forall|p: int| 0 <= p < 441 && !interior(p) ==> b[p] == PointState::Out
}

/// A ko point, when present, lies in the playing area.
pub open spec fn ko_ok(ko: Option<usize>) -> bool {
    match ko {
        Some(k) => interior(k as int),
        None => true,
    }
}

/// The board of the default opening position: empty playing area inside the
/// halo.
pub open spec fn init_board() -> Seq<PointState> {
    Seq::new(441, |p: int| if interior(p) { PointState::Empty } else { PointState::Out })
}

/// A 19x19 game position: komi, the padded state array, the side to move,
/// the optional ko point, and the flood's scratch marker.
pub struct Position19 {
    komi_half: i64,
    states: Vec<PointState>,
    turn: Color,
    ko: Option<usize>,
    marker: Marker,
}

impl Position19 {
    /// The state array, as a sequence of 441 cells.
    pub closed spec fn board(self) -> Seq<PointState> {
        self.states@
    }

    /// The side to move.
    pub closed spec fn spec_turn(self) -> Color {
        self.turn
    }

    /// The ko point forbidden to the side to move, if any.
    pub closed spec fn spec_ko(self) -> Option<usize> {
        self.ko
    }

    /// The komi, counted in half points.
    pub closed spec fn spec_komi(self) -> int {
        self.komi_half as int
    }

    /// Whether the scratch marker is internally consistent.
    pub closed spec fn marker_ok(self) -> bool {
        self.marker.wf()
    }

    /// Whether the scratch marker currently marks `i`.
    pub closed spec fn spec_marked(self, i: int) -> bool {
        self.marker.spec_marked(i)
    }

    /// Well-formedness: the halo invariant, a playing-area ko point, and a
    /// consistent marker.
    pub open spec fn wf(self) -> bool {
        &&& board_ok(self.board())
        &&& ko_ok(self.spec_ko())
        &&& self.marker_ok()
        &&& -1000000 <= self.spec_komi() <= 1000000
    }

    /// The default opening position: empty board, Black to move, no ko,
    /// komi 6.5 points (13 half points).
    pub fn new() -> (p: Position19)
        ensures
            p.wf(),
            p.board() == init_board(),
            p.spec_turn() == Color::Black,
            p.spec_ko() == None::<usize>,
            p.spec_komi() == 13,
    {
        let mut states: Vec<PointState> = Vec::new();
        let mut n: usize = 0;
        while n < 441
            invariant
                n <= 441,
                states@.len() == n,
                forall|q: int| 0 <= q < n ==> states@[q] == PointState::Out,
            decreases 441 - n,
        {
            states.push(PointState::Out);
            n = n + 1;
        }
        let mut p: usize = 0;
        while p < 441
            invariant
                p <= 441,
                states@.len() == 441,
                forall|q: int| 0 <= q < p && interior(q) ==> states@[q] == PointState::Empty,
                forall|q: int| p <= q < 441 ==> states@[q] == PointState::Out,
                forall|q: int| 0 <= q < 441 && !interior(q) ==> states@[q] == PointState::Out,
            decreases 441 - p,
        {
            let x = p % 21;
            let y = p / 21;
            proof {
                assert(x as int == xof(p as int) && y as int == yof(p as int));
                assert(interior(p as int) <==> (1 <= x <= 19 && 1 <= y <= 19));
            }
            if 1 <= x && x <= 19 && 1 <= y && y <= 19 {
                states.set(p, PointState::Empty);
            }
            p = p + 1;
        }
        let p = Position19 {
            komi_half: 13,
            states,
            turn: Color::Black,
            ko: None,
            marker: Marker::new(),
        };
        proof {
            assert(p.board() =~= init_board());
        }
        p
    }

    /// The side of the playing area.
    pub fn width(&self) -> (r: usize)
        ensures
            r == 19,
    {
        SIDE
    }

    /// The side of the playing area.
    pub fn height(&self) -> (r: usize)
        ensures
            r == 19,
    {
        SIDE
    }

    /// The width of the out-of-bounds ring.
    pub fn halo(&self) -> (r: usize)
        ensures
            r == 1,
    {
        HALO
    }

    /// The side of the padded array.
    pub fn padded_width(&self) -> (r: usize)
        ensures
            r == 21,
    {
        PADDED_WIDTH
    }

    /// The state of the cell at linear coordinate `pt`.
    pub fn state(&self, pt: usize) -> (r: PointState)
        requires
            self.wf(),
            pt < 441,
        ensures
            r == self.board()[pt as int],
    {
        self.states[pt]
    }

    /// Writes `value` at `pt`. The playing area only: the engine never
    /// overwrites the halo.
    pub fn set_state(&mut self, pt: usize, value: PointState)
        requires
            old(self).wf(),
            interior(pt as int),
        ensures
            final(self).wf(),
            final(self).board() == old(self).board().update(pt as int, value),
            final(self).spec_turn() == old(self).spec_turn(),
            final(self).spec_ko() == old(self).spec_ko(),
            final(self).spec_komi() == old(self).spec_komi(),
            forall|i: int| 0 <= i < 441 ==> final(self).spec_marked(i) == old(self).spec_marked(i),
    {
        self.states.set(pt, value);
    }

    /// The side to move.
    pub fn turn(&self) -> (r: Color)
        ensures
            r == self.spec_turn(),
    {
        self.turn
    }

    /// Sets the side to move.
    pub fn set_turn(&mut self, value: Color)
        requires
            old(self).wf(),
        ensures
            final(self).wf(),
            final(self).spec_turn() == value,
            final(self).board() == old(self).board(),
            final(self).spec_ko() == old(self).spec_ko(),
            final(self).spec_komi() == old(self).spec_komi(),
    {
        self.turn = value;
    }

    /// Hands the move to the other side; an involution.
    pub fn switch_turn(&mut self)
        requires
            old(self).wf(),
        ensures
            final(self).wf(),
            final(self).spec_turn() == old(self).spec_turn().spec_opponent(),
            final(self).board() == old(self).board(),
            final(self).spec_ko() == old(self).spec_ko(),
            final(self).spec_komi() == old(self).spec_komi(),
    {
        let opponent = self.turn.opponent();
        self.turn = opponent;
    }

    /// The ko point forbidden to the side to move, if any.
    pub fn get_ko(&self) -> (r: Option<usize>)
        ensures
            r == self.spec_ko(),
    {
        self.ko
    }

    /// Sets the ko point.
    pub fn set_ko(&mut self, pt: Option<usize>)
        requires
            old(self).wf(),
            ko_ok(pt),
        ensures
            final(self).wf(),
            final(self).spec_ko() == pt,
            final(self).board() == old(self).board(),
            final(self).spec_turn() == old(self).spec_turn(),
            final(self).spec_komi() == old(self).spec_komi(),
    {
        self.ko = pt;
    }

    /// Whether `pt` is the ko point.
    pub fn is_ko(&self, pt: usize) -> (r: bool)
        ensures
            r == (self.spec_ko() == Some(pt)),
    {
        match self.ko {
            Some(i) => pt == i,
            None => false,
        }
    }

    /// The komi in half points (13 means 6.5 points).
    pub fn get_komi(&self) -> (r: i64)
        ensures
            r as int == self.spec_komi(),
    {
        self.komi_half
    }

    /// Sets the komi, in half points. The bound keeps scoring arithmetic
    /// exact.
    pub fn set_komi(&mut self, half_points: i64)
        requires
            old(self).wf(),
            -1000000 <= half_points <= 1000000,
        ensures
            final(self).wf(),
            final(self).spec_komi() == half_points as int,
            final(self).board() == old(self).board(),
            final(self).spec_turn() == old(self).spec_turn(),
            final(self).spec_ko() == old(self).spec_ko(),
    {
        self.komi_half = half_points;
    }

    /// Whether `pt` is on the board, that is, not an out-of-bounds cell.
    pub fn is_on_board(&self, pt: usize) -> (r: bool)
        requires
            self.wf(),
            pt < 441,
        ensures
            r == (self.board()[pt as int] != PointState::Out),
    {
        let s = self.state(pt);
        !(s == PointState::Out)
    }

    /// The linear coordinate of playing-area coordinates (x, y), with (1, 1)
    /// the top-left on-board point.
    pub fn xy_to_linear(&self, x: u8, y: u8) -> (r: usize)
        requires
            1 <= x <= 19,
            1 <= y <= 19,
        ensures
            r as int == lin(x as int, y as int),
            interior(r as int),
    {
        x as usize + 21 * (y as usize)
    }

    /// The playing-area coordinates of a linear coordinate; the inverse of
    /// `xy_to_linear` on the on-board domain.
    pub fn linear_to_xy(&self, p: usize) -> (r: (u8, u8))
        requires
            p < 441,
        ensures
            r.0 as int == xof(p as int),
            r.1 as int == yof(p as int),
    {
        ((p % 21) as u8, (p / 21) as u8)
    }

    /// The four cardinal neighbours of `pt`, in the engine's fixed order
    /// north, east, south, west.
    pub fn adjacencies_at(&self, pt: usize) -> (r: [usize; 4])
        requires
            interior(pt as int),
        ensures
            forall|k: int| 0 <= k < 4 ==> r@[k] as int == nbr(pt as int, k),
    {
        [pt - 21, pt + 1, pt + 21, pt - 1]
    }

    /// The four diagonal neighbours of `pt`, in the order north-east,
    /// south-east, south-west, north-west.
    pub fn diagonal_neighbors(&self, pt: usize) -> (r: [usize; 4])
        requires
            interior(pt as int),
        ensures
            forall|k: int| 0 <= k < 4 ==> r@[k] as int == dnbr(pt as int, k),
    {
        [pt - 21 + 1, pt + 21 + 1, pt + 21 - 1, pt - 21 - 1]
    }

    /// Clears the scratch marker.
    pub(crate) fn marker_clear(&mut self)
        requires
            old(self).wf(),
        ensures
            final(self).wf(),
            forall|i: int| 0 <= i < 441 ==> !final(self).spec_marked(i),
            final(self).board() == old(self).board(),
            final(self).spec_turn() == old(self).spec_turn(),
            final(self).spec_ko() == old(self).spec_ko(),
            final(self).spec_komi() == old(self).spec_komi(),
    {
        self.marker.clear();
    }

    /// Marks one cell in the scratch marker.
    pub(crate) fn marker_mark(&mut self, i: usize)
        requires
            old(self).wf(),
            i < 441,
        ensures
            final(self).wf(),
            final(self).spec_marked(i as int),
            forall|j: int|
                0 <= j < 441 && j != i ==> final(self).spec_marked(j) == old(self).spec_marked(j),
            final(self).board() == old(self).board(),
            final(self).spec_turn() == old(self).spec_turn(),
            final(self).spec_ko() == old(self).spec_ko(),
            final(self).spec_komi() == old(self).spec_komi(),
    {
        self.marker.mark(i);
    }

    /// Whether the scratch marker marks `i`.
    pub(crate) fn marker_is_marked(&self, i: usize) -> (r: bool)
        requires
            self.wf(),
            i < 441,
        ensures
            r == self.spec_marked(i as int),
    {
        self.marker.is_marked(i)
    }

    /// Every on-board linear coordinate, in row-major order from (1, 1) to
    /// (19, 19).
    pub fn all_points(&self) -> (r: Vec<usize>)
        ensures
            r@.len() == 361,
            forall|i: int|
                0 <= i < 361 ==> r@[i] as int == lin(1 + (i % 19), 1 + (i / 19)),
            forall|i: int| 0 <= i < 361 ==> interior(r@[i] as int),
            forall|p: int| interior(p) ==> r@.contains(p as usize),
            forall|i: int, j: int| 0 <= i < j < 361 ==> r@[i] < r@[j],
    {
        let mut r: Vec<usize> = Vec::new();
        let mut y: usize = 1;
        while y <= 19
            invariant
                1 <= y <= 20,
                r@.len() == 19 * (y - 1),
                forall|i: int|
                    0 <= i < r@.len() ==> r@[i] as int == lin(1 + (i % 19), 1 + (i / 19)),
                forall|i: int, j: int| 0 <= i < j < r@.len() ==> r@[i] < r@[j],
            decreases 20 - y,
        {
            let mut x: usize = 1;
            while x <= 19
                invariant
                    1 <= y <= 19,
                    1 <= x <= 20,
                    r@.len() == 19 * (y - 1) + (x - 1),
                    forall|i: int|
                        0 <= i < r@.len() ==> r@[i] as int == lin(1 + (i % 19), 1 + (i / 19)),
                    forall|i: int, j: int| 0 <= i < j < r@.len() ==> r@[i] < r@[j],
                decreases 20 - x,
            {
                let pt = x + 21 * y;
                proof {
                    let n = r@.len() as int;
                    assert(n == 19 * (y - 1) + (x - 1));
                    assert(n % 19 == x - 1 && n / 19 == y - 1) by (nonlinear_arith)
                        requires
                            n == 19 * (y - 1) + (x - 1),
                            1 <= x <= 19,
                            1 <= y <= 19,
                    ;
                }
                r.push(pt);
                x = x + 1;
            }
            y = y + 1;
        }
        proof {
            assert forall|i: int| 0 <= i < 361 implies interior(r@[i] as int) by {
                let x = 1 + (i % 19);
                let yy = 1 + (i / 19);
                assert(1 <= x <= 19 && 1 <= yy <= 19);
                assert(lin(x, yy) % 21 == x && lin(x, yy) / 21 == yy) by (nonlinear_arith)
                    requires
                        1 <= x <= 19,
                        1 <= yy <= 19,
                ;
            }
            assert forall|p: int| interior(p) implies r@.contains(p as usize) by {
                let i = 19 * (yof(p) - 1) + (xof(p) - 1);
                assert(0 <= i < 361) by (nonlinear_arith)
                    requires
                        1 <= xof(p) <= 19,
                        1 <= yof(p) <= 19,
                        i == 19 * (yof(p) - 1) + (xof(p) - 1),
                ;
                assert(i % 19 == xof(p) - 1 && i / 19 == yof(p) - 1) by (nonlinear_arith)
                    requires
                        1 <= xof(p) <= 19,
                        1 <= yof(p) <= 19,
                        i == 19 * (yof(p) - 1) + (xof(p) - 1),
                ;
                assert(r@[i] as int == lin(xof(p), yof(p)));
                assert(lin(xof(p), yof(p)) == p) by {
                    assert(p == 21 * (p / 21) + p % 21) by (nonlinear_arith);
                };
                assert(r@[i] == p as usize);
            }
        }
        r
    }

    /// Every on-board point whose state is `Empty`, in increasing order of
    /// linear coordinate.
    pub fn empties(&self) -> (r: UsizeVec)
        requires
            self.wf(),
        ensures
            forall|i: int|
                0 <= i < av_elems(r).len() ==> interior(av_elems(r)[i] as int)
                    && self.board()[av_elems(r)[i] as int] == PointState::Empty,
            forall|p: int|
                interior(p) && self.board()[p] == PointState::Empty
                    ==> av_elems(r).contains(p as usize),
            forall|i: int, j: int|
                0 <= i < j < av_elems(r).len() ==> av_elems(r)[i] < av_elems(r)[j],
    {
        let mut r: UsizeVec = av_new();
        let mut y: usize = 1;
        while y <= 19
            invariant
                self.wf(),
                1 <= y <= 20,
                av_elems(r).len() <= 19 * (y - 1),
                forall|i: int|
                    0 <= i < av_elems(r).len() ==> interior(av_elems(r)[i] as int)
                        && self.board()[av_elems(r)[i] as int] == PointState::Empty
                        && yof(av_elems(r)[i] as int) < y,
                forall|p: int|
                    interior(p) && self.board()[p] == PointState::Empty && yof(p) < y
                        ==> av_elems(r).contains(p as usize),
                forall|i: int, j: int|
                    0 <= i < j < av_elems(r).len() ==> av_elems(r)[i] < av_elems(r)[j],
            decreases 20 - y,
        {
            let mut x: usize = 1;
            while x <= 19
                invariant
                    self.wf(),
                    1 <= y <= 19,
                    1 <= x <= 20,
                    av_elems(r).len() <= 19 * (y - 1) + (x - 1),
                    forall|i: int|
                        0 <= i < av_elems(r).len() ==> interior(av_elems(r)[i] as int)
                            && self.board()[av_elems(r)[i] as int] == PointState::Empty
                            && (yof(av_elems(r)[i] as int) < y
                                || (yof(av_elems(r)[i] as int) == y
                                    && xof(av_elems(r)[i] as int) < x)),
                    forall|p: int|
                        interior(p) && self.board()[p] == PointState::Empty
                            && (yof(p) < y || (yof(p) == y && xof(p) < x))
                            ==> av_elems(r).contains(p as usize),
                    forall|i: int, j: int|
                        0 <= i < j < av_elems(r).len() ==> av_elems(r)[i] < av_elems(r)[j],
                decreases 20 - x,
            {
                let pt = x + 21 * y;
                proof {
                    assert(lin(x as int, y as int) % 21 == x as int && lin(x as int, y as int)
                        / 21 == y as int) by (nonlinear_arith)
                        requires
                            1 <= x <= 19,
                            1 <= y <= 19,
                    ;
                    assert(xof(pt as int) == x && yof(pt as int) == y && interior(pt as int));
                }
                let ghost pre = av_elems(r);
                if self.state(pt) == PointState::Empty {
                    proof {
                        assert(av_elems(r).len() < 384);
                        assert forall|i: int| 0 <= i < av_elems(r).len() implies av_elems(r)[i]
                            < pt as usize by {
                            let q = av_elems(r)[i] as int;
                            assert(q == 21 * yof(q) + xof(q)) by (nonlinear_arith);
                            assert(yof(q) < y || (yof(q) == y && xof(q) < x));
                            assert(q < 21 * y + x) by (nonlinear_arith)
                                requires
                                    q == 21 * yof(q) + xof(q),
                                    1 <= xof(q) <= 19,
                                    yof(q) < y || (yof(q) == y && xof(q) < x),
                            ;
                        }
                    }
                    av_push(&mut r, pt);
                    proof {
                        assert(av_elems(r) == pre.push(pt));
                        assert(av_elems(r)[pre.len() as int] == pt);
                        assert forall|v: usize| pre.contains(v) implies av_elems(r).contains(
                            v,
                        ) by {
                            let i = choose|i: int| 0 <= i < pre.len() && pre[i] == v;
                            assert(av_elems(r)[i] == v);
                        }
                    }
                }
                proof {
                    assert forall|p: int|
                        interior(p) && self.board()[p] == PointState::Empty
                            && (yof(p) < y || (yof(p) == y && xof(p) <= x))
                            implies av_elems(r).contains(p as usize) by {
                        if yof(p) == y && xof(p) == x {
                            assert(p == 21 * yof(p) + xof(p)) by (nonlinear_arith);
                            assert(pt as int == lin(x as int, y as int));
                            assert(p == pt as int);
                            assert(av_elems(r)[av_elems(r).len() - 1] == pt);
                        } else {
                            assert(pre.contains(p as usize));
                        }
                    }
                }
                x = x + 1;
            }
            y = y + 1;
        }
        r
    }
}

/// The halo never erodes: in a well-formed position every cell outside the
/// playing area reads `Out`.
pub proof fn lemma_halo_integrity(p: Position19)
    requires
        p.wf(),
    ensures
        forall|q: int| 0 <= q < 441 && !interior(q) ==> p.board()[q] == PointState::Out,
{
}

/// `xy_to_linear` and `linear_to_xy` are mutual inverses on the on-board
/// domain.
pub proof fn lemma_coordinate_inverses(x: int, y: int, p: int)
    requires
        1 <= x <= 19,
        1 <= y <= 19,
        interior(p),
    ensures
        xof(lin(x, y)) == x,
        yof(lin(x, y)) == y,
        lin(xof(p), yof(p)) == p,
{
    assert(lin(x, y) % 21 == x && lin(x, y) / 21 == y) by (nonlinear_arith)
        requires
            1 <= x <= 19,
            1 <= y <= 19,
    ;
    assert(p == 21 * (p / 21) + p % 21) by (nonlinear_arith);
}

} // verus!
