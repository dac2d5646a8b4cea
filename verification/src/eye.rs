//! The simple-eye predicate and the terminal area score.

use vstd::prelude::*;

use crate::board::{dnbr, interior, nbr, Position19};
use crate::point::{Color, PointState};

verus! {

/// The cardinal scan of the eye test, mirroring the engine's walk over the
/// four neighbours in north, east, south, west order: out-of-bounds cells
/// are ignored, an empty neighbour disqualifies the point, the first stone
/// fixes the candidate eye colour, and a stone of the opposite colour
/// disqualifies the point. `None` means "not an eye".
pub open spec fn eye_scan(
    b: Seq<PointState>,
    p: int,
    k: int,
    eyecolor: PointState,
    other: PointState,
) -> Option<(PointState, PointState)>
    decreases 4 - k,
{
    if k >= 4 {
        Some((eyecolor, other))
    } else {
        let c = b[nbr(p, k)];
        if c == PointState::Out {
            eye_scan(b, p, k + 1, eyecolor, other)
        } else if c == PointState::Empty {
            None
        } else if eyecolor == PointState::Empty {
            eye_scan(b, p, k + 1, c, c.spec_opponent())
        } else if c == other {
            None
        } else {
            eye_scan(b, p, k + 1, eyecolor, other)
        }
    }
}

/// How many diagonal neighbours of `p`, from index `k` on, are out of
/// bounds.
pub open spec fn diag_out_from(b: Seq<PointState>, p: int, k: int) -> int
    decreases 4 - k,
{
    if k >= 4 {
        0
    } else {
        (if b[dnbr(p, k)] == PointState::Out {
            1int
        } else {
            0int
        }) + diag_out_from(b, p, k + 1)
    }
}

/// How many diagonal neighbours of `p`, from index `k` on, hold `other`.
pub open spec fn diag_other_from(b: Seq<PointState>, p: int, k: int, other: PointState) -> int
    decreases 4 - k,
{
    if k >= 4 {
        0
    } else {
        (if b[dnbr(p, k)] == other {
            1int
        } else {
            0int
        }) + diag_other_from(b, p, k + 1, other)
    }
}

/// What `is_eye` returns: `Occupied(c)` when `p` is a simple eye of colour
/// `c`, `Empty` otherwise. A point fails the diagonal test when it touches
/// the edge and an opposing diagonal, or sits away from the edge with two
/// opposing diagonals.
pub open spec fn spec_is_eye(b: Seq<PointState>, p: int) -> PointState {
    match eye_scan(b, p, 0, PointState::Empty, PointState::Empty) {
        None => PointState::Empty,
        Some((eyecolor, other)) => {
            let n_out = diag_out_from(b, p, 0);
            let n_opponent = diag_other_from(b, p, 0, other);
            if (n_out >= 1 && n_opponent >= 1) || (n_out == 0 && n_opponent >= 2) {
                PointState::Empty
            } else {
                eyecolor
            }
        },
    }
}

/// What one cell contributes to the area score: +1 for a black stone or a
/// black eye, -1 for a white stone or a white eye.
pub open spec fn cell_points(b: Seq<PointState>, q: int) -> int {
    if !interior(q) {
        0
    } else {
        let c = if b[q] == PointState::Empty {
            spec_is_eye(b, q)
        } else {
            b[q]
        };
        if c == PointState::Occupied(Color::Black) {
            1
        } else if c == PointState::Occupied(Color::White) {
            -1
        } else {
            0
        }
    }
}

/// The summed contributions of the cells below `n`.
pub open spec fn score_upto(b: Seq<PointState>, n: int) -> int
    decreases n,
{
    if n <= 0 {
        0
    } else {
        score_upto(b, n - 1) + cell_points(b, n - 1)
    }
}

/// Black's area minus White's area, in points.
pub open spec fn spec_points(b: Seq<PointState>) -> int {
    score_upto(b, 441)
}

impl Position19 {
    /// Whether the point at `pt` is a simple eye: returns the owning
    /// stone state, or `Empty` when it is no eye.
    pub fn is_eye(&self, pt: usize) -> (r: PointState)
        requires
            self.wf(),
            interior(pt as int),
        ensures
            r == spec_is_eye(self.board(), pt as int),
    {
        let ghost b = self.board();
        let ghost p = pt as int;
        let mut eyecolor = PointState::Empty;
        let mut other = PointState::Empty;
        let mut k: usize = 0;
        while k < 4
            invariant
                self.wf(),
                b == self.board(),
                p == pt as int,
                interior(p),
                k <= 4,
                other != PointState::Out,
                eye_scan(b, p, 0, PointState::Empty, PointState::Empty) == eye_scan(
                    b,
                    p,
                    k as int,
                    eyecolor,
                    other,
                ),
            decreases 4 - k,
        {
            let a = if k == 0 {
                pt - 21
            } else if k == 1 {
                pt + 1
            } else if k == 2 {
                pt + 21
            } else {
                pt - 1
            };
            proof {
                assert(a as int == nbr(p, k as int));
            }
            let c = self.state(a);
            if c == PointState::Out {
            } else if c == PointState::Empty {
                return PointState::Empty;
            } else if eyecolor == PointState::Empty {
                eyecolor = c;
                other = c.opponent();
            } else if c == other {
                return PointState::Empty;
            }
            k = k + 1;
        }
        let mut n_out: usize = 0;
        let mut n_opponent: usize = 0;
        let mut j: usize = 0;
        while j < 4
            invariant
                self.wf(),
                b == self.board(),
                p == pt as int,
                interior(p),
                j <= 4,
                n_out <= j,
                n_opponent <= j,
                other != PointState::Out,
                eye_scan(b, p, 0, PointState::Empty, PointState::Empty) == Some(
                    (eyecolor, other),
                ),
                n_out + diag_out_from(b, p, j as int) == diag_out_from(b, p, 0),
                n_opponent + diag_other_from(b, p, j as int, other) == diag_other_from(
                    b,
                    p,
                    0,
                    other,
                ),
            decreases 4 - j,
        {
            let a = if j == 0 {
                pt - 21 + 1
            } else if j == 1 {
                pt + 21 + 1
            } else if j == 2 {
                pt + 21 - 1
            } else {
                pt - 21 - 1
            };
            proof {
                assert(a as int == dnbr(p, j as int));
                assert(diag_out_from(b, p, j as int) == (if b[dnbr(p, j as int)]
                    == PointState::Out {
                    1int
                } else {
                    0int
                }) + diag_out_from(b, p, j as int + 1));
                assert(diag_other_from(b, p, j as int, other) == (if b[dnbr(p, j as int)]
                    == other {
                    1int
                } else {
                    0int
                }) + diag_other_from(b, p, j as int + 1, other));
            }
            let c = self.state(a);
            if c == PointState::Out {
                n_out = n_out + 1;
            } else if c == other {
                n_opponent = n_opponent + 1;
            }
            j = j + 1;
        }
        if (n_out >= 1 && n_opponent >= 1) || (n_out == 0 && n_opponent >= 2) {
            PointState::Empty
        } else {
            eyecolor
        }
    }

    /// The terminal area score in half points: twice Black's area minus
    /// White's area, minus the komi. Positive means Black wins. Assumes a
    /// terminal position with dead stones already removed.
    pub fn score(&self) -> (s: i64)
        requires
            self.wf(),
        ensures
            s as int == 2 * spec_points(self.board()) - self.spec_komi(),
    {
        let ghost b = self.board();
        let mut total: i64 = 0;
        let mut p: usize = 0;
        while p < 441
            invariant
                self.wf(),
                b == self.board(),
                p <= 441,
                total as int == score_upto(b, p as int),
                -441 <= total <= 441,
                -(p as int) <= total as int <= p as int,
            decreases 441 - p,
        {
            let mut c = self.state(p);
            if c == PointState::Empty {
                proof {
                    assert(interior(p as int));
                }
                c = self.is_eye(p);
            }
            proof {
                if !interior(p as int) {
                    assert(b[p as int] == PointState::Out);
                }
            }
            if c == PointState::Occupied(Color::Black) {
                total = total + 1;
            } else if c == PointState::Occupied(Color::White) {
                total = total - 1;
            }
            p = p + 1;
        }
        total * 2 - self.get_komi()
    }
}

} // verus!
