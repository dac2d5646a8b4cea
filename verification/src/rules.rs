//! The move transaction: legality, capture, ko tracking and undo.

use vstd::prelude::*;

use crate::board::{board_ok, interior, ko_ok, nbr, Position19};
use crate::flood::{
    classified, comp_has_lib, connected, flood_pts, gs_wf, has_lib_at, lemma_connected_self,
    lemma_connected_state, lemma_distinct_interior_len, lemma_gs_exact, lemma_push_contains,
};
use crate::gostring::GoString;
use crate::point::{BoardError, Color, Move, PointState};
use crate::scratch::{av_elems, av_get, av_len, av_new, av_push, UsizeVec};

verus! {

/// What a successful move leaves behind: everything `undo` needs to restore
/// the position exactly.
pub struct MoveLog {
    /// The side that made the move.
    pub prior_turn: Color,
    /// The ko point that was in force before the move.
    pub prior_ko: Option<usize>,
    /// The move itself.
    pub mov: Move,
    /// The removed opposing stones, in capture order.
    pub captives: UsizeVec,
}

/// One capture step: if `a` holds a stone in state `o` whose string has no
/// liberty, that whole string leaves the board.
pub open spec fn step_capture(b: Seq<PointState>, a: int, o: PointState) -> Seq<PointState> {
    if 0 <= a < 441 && b[a] == o && !comp_has_lib(b, a) {
        Seq::new(
            441,
            |q: int|
                if connected(b, a, q) {
                    PointState::Empty
                } else {
                    b[q]
                },
        )
    } else {
        b
    }
}

/// The board after the capture phase of a stone played at `pt`: the four
/// cardinal neighbours are examined in the engine's fixed order north, east,
/// south, west.
pub open spec fn after_captures(b: Seq<PointState>, pt: int, o: PointState) -> Seq<PointState> {
    step_capture(
        step_capture(step_capture(step_capture(b, pt - 21, o), pt + 1, o), pt + 21, o),
        pt - 1,
        o,
    )
}

/// The stones one capture step removes, in the order the flood discovers
/// them; empty when the step captures nothing.
pub open spec fn captured_seg(b: Seq<PointState>, a: int, o: PointState) -> Seq<usize> {
    if 0 <= a < 441 && b[a] == o && !comp_has_lib(b, a) {
        flood_pts(b, a as usize)
    } else {
        Seq::<usize>::empty()
    }
}

/// Every coordinate the capture phase removes: the captured strings'
/// stones, per neighbour in north, east, south, west order, each string in
/// the flood's discovery order.
pub open spec fn captives_seq(b: Seq<PointState>, pt: int, o: PointState) -> Seq<usize> {
    let s1 = step_capture(b, pt - 21, o);
    let s2 = step_capture(s1, pt + 1, o);
    let s3 = step_capture(s2, pt + 21, o);
    captured_seg(b, pt - 21, o) + captured_seg(s1, pt + 1, o) + captured_seg(s2, pt + 21, o)
        + captured_seg(s3, pt - 1, o)
}

/// No cardinal neighbour of `p` holds a stone in state `c`.
pub open spec fn no_own_nbr(b: Seq<PointState>, p: int, c: PointState) -> bool {
    forall|k: int| 0 <= k < 4 ==> b[#[trigger] nbr(p, k)] != c
}

/// How many cardinal neighbours of `p` are empty.
pub open spec fn empty_nbr_count(b: Seq<PointState>, p: int) -> int {
    (if b[nbr(p, 0)] == PointState::Empty {
        1int
    } else {
        0int
    }) + (if b[nbr(p, 1)] == PointState::Empty {
        1int
    } else {
        0int
    }) + (if b[nbr(p, 2)] == PointState::Empty {
        1int
    } else {
        0int
    }) + (if b[nbr(p, 3)] == PointState::Empty {
        1int
    } else {
        0int
    })
}

/// The first empty cardinal neighbour of `p`, in north, east, south, west
/// order.
pub open spec fn first_empty_nbr(b: Seq<PointState>, p: int) -> int {
    if b[nbr(p, 0)] == PointState::Empty {
        nbr(p, 0)
    } else if b[nbr(p, 1)] == PointState::Empty {
        nbr(p, 1)
    } else if b[nbr(p, 2)] == PointState::Empty {
        nbr(p, 2)
    } else {
        nbr(p, 3)
    }
}

/// The ko point a successful play leaves behind: set exactly when a single
/// stone was captured by a freshly played single-stone string with exactly
/// one liberty; that liberty is the ko point.
pub open spec fn spec_new_ko(b: Seq<PointState>, p: int, c: PointState, ncap: int) -> Option<
    usize,
> {
    if ncap == 1 && no_own_nbr(b, p, c) && empty_nbr_count(b, p) == 1 {
        Some(first_empty_nbr(b, p) as usize)
    } else {
        None
    }
}

/// The whole contract of `play`, relating the position before (`b`, `t`,
/// `ko`) and after (`b2`, `t2`, `ko2`) to the move and its result.
pub open spec fn play_rel(
    b: Seq<PointState>,
    t: Color,
    ko: Option<usize>,
    b2: Seq<PointState>,
    t2: Color,
    ko2: Option<usize>,
    mov: Move,
    r: Result<MoveLog, BoardError>,
) -> bool {
    match mov {
        Move::Pass => {
            &&& r matches Ok(log) && log.prior_turn == t && log.prior_ko == ko && log.mov
                == Move::Pass && av_elems(log.captives).len() == 0
            &&& b2 == b
            &&& t2 == t.spec_opponent()
            &&& ko2 == None::<usize>
        },
        Move::Resign => {
            &&& r == Err::<MoveLog, BoardError>(BoardError::ResignNotPlayable)
            &&& b2 == b
            &&& t2 == t
            &&& ko2 == ko
        },
        Move::Linear(pt) => {
            let c = PointState::Occupied(t);
            let o = PointState::Occupied(t.spec_opponent());
            let bmid = b.update(pt as int, c);
            let bcap = after_captures(bmid, pt as int, o);
            if ko == Some(pt) {
                &&& r == Err::<MoveLog, BoardError>(BoardError::KoForbidden)
                &&& b2 == b
                &&& t2 == t
                &&& ko2 == ko
            } else if !comp_has_lib(bcap, pt as int) {
                &&& r == Err::<MoveLog, BoardError>(BoardError::Suicide)
                &&& b2 == b
                &&& t2 == t
                &&& ko2 == ko
            } else {
                &&& r matches Ok(log) && {
                    &&& log.prior_turn == t
                    &&& log.prior_ko == ko
                    &&& log.mov == mov
                    &&& av_elems(log.captives).no_duplicates()
                    &&& av_elems(log.captives) == captives_seq(bmid, pt as int, o)
                    &&& forall|v: usize|
                        #[trigger] av_elems(log.captives).contains(v) <==> (v < 441
                            && bmid[v as int] == o && bcap[v as int] == PointState::Empty)
                    &&& ko2 == spec_new_ko(bcap, pt as int, c, av_elems(log.captives).len() as int)
                }
                &&& b2 == bcap
                &&& t2 == t.spec_opponent()
            }
        },
    }
}

/// The whole contract of `undo`, relating the position before (`b`) and
/// after (`b2`, `t2`, `ko2`) to the consumed log.
pub open spec fn undo_rel(
    b: Seq<PointState>,
    b2: Seq<PointState>,
    t2: Color,
    ko2: Option<usize>,
    log: MoveLog,
) -> bool {
    &&& t2 == log.prior_turn
    &&& ko2 == log.prior_ko
    &&& b2 == (match log.mov {
        Move::Linear(pt) => Seq::new(
            441,
            |q: int|
                if av_elems(log.captives).contains(q as usize) {
                    PointState::Occupied(log.prior_turn.spec_opponent())
                } else if q == pt {
                    PointState::Empty
                } else {
                    b[q]
                },
        ),
        _ => b,
    })
}

/// A log `undo` can consume without stepping outside the playing area.
pub open spec fn log_wf(log: MoveLog) -> bool {
    &&& ko_ok(log.prior_ko)
    &&& (log.mov matches Move::Linear(pt) ==> interior(pt as int))
    &&& forall|v: usize| #[trigger] av_elems(log.captives).contains(v) ==> interior(v as int)
    &&& (log.mov matches Move::Linear(pt) ==> !av_elems(log.captives).contains(pt))
}

/// A capture step changes a cell only by lifting a stone in state `o`.
pub proof fn lemma_step_diff(b: Seq<PointState>, a: int, o: PointState)
    requires
        b.len() == 441,
    ensures
        step_capture(b, a, o).len() == 441,
        forall|q: int|
            0 <= q < 441 && #[trigger] step_capture(b, a, o)[q] != b[q] ==> b[q] == o
                && step_capture(b, a, o)[q] == PointState::Empty,
{
    if 0 <= a < 441 && b[a] == o && !comp_has_lib(b, a) {
        assert forall|q: int|
            0 <= q < 441 && #[trigger] step_capture(b, a, o)[q] != b[q] implies b[q] == o
            && step_capture(b, a, o)[q] == PointState::Empty by {
            assert(connected(b, a, q));
            lemma_connected_state(b, a, q);
        }
    }
}

impl Position19 {
    /// Removes every stone of `gs` from the board.
    fn remove_string(&mut self, gs: &GoString)
        requires
            old(self).wf(),
            forall|v: usize| #[trigger] gs.pts().contains(v) ==> interior(v as int),
        ensures
            final(self).wf(),
            final(self).spec_turn() == old(self).spec_turn(),
            final(self).spec_ko() == old(self).spec_ko(),
            final(self).spec_komi() == old(self).spec_komi(),
            final(self).board() == Seq::new(
                441,
                |q: int|
                    if gs.pts().contains(q as usize) {
                        PointState::Empty
                    } else {
                        old(self).board()[q]
                    },
            ),
    {
        let n = gs.size();
        let mut i: usize = 0;
        while i < n
            invariant
                self.wf(),
                self.spec_turn() == old(self).spec_turn(),
                self.spec_ko() == old(self).spec_ko(),
                self.spec_komi() == old(self).spec_komi(),
                i <= n,
                n == gs.pts().len(),
                forall|v: usize| #[trigger] gs.pts().contains(v) ==> interior(v as int),
                forall|q: int|
                    0 <= q < 441 ==> self.board()[q] == (if gs.pts().take(i as int).contains(
                        q as usize,
                    ) {
                        PointState::Empty
                    } else {
                        old(self).board()[q]
                    }),
            decreases n - i,
        {
            let e = av_get(&gs.points, i);
            proof {
                assert(gs.pts().contains(gs.pts()[i as int]));
                assert(interior(e as int));
                lemma_push_contains(gs.pts().take(i as int), e);
                assert(gs.pts().take(i as int).push(e) =~= gs.pts().take(i + 1));
            }
            self.set_state(e, PointState::Empty);
            i = i + 1;
        }
        proof {
            assert(gs.pts().take(n as int) =~= gs.pts());
            assert(self.board() =~= Seq::new(
                441,
                |q: int|
                    if gs.pts().contains(q as usize) {
                        PointState::Empty
                    } else {
                        old(self).board()[q]
                    },
            ));
        }
    }

    /// Examines one cardinal neighbour `a` of a freshly played stone and
    /// captures the opposing string there if it has no liberty, appending
    /// the removed stones to `captives`. `b0` is the board as it stood when
    /// the capture phase began.
    fn capture_one(
        &mut self,
        a: usize,
        ostone: PointState,
        captives: &mut UsizeVec,
        Ghost(b0): Ghost<Seq<PointState>>,
    )
        requires
            old(self).wf(),
            a < 441,
            ostone matches PointState::Occupied(_),
            board_ok(b0),
            av_elems(*old(captives)).no_duplicates(),
            forall|v: usize|
                #[trigger] av_elems(*old(captives)).contains(v) <==> (v < 441 && b0[v as int]
                    == ostone && old(self).board()[v as int] == PointState::Empty),
            forall|q: int|
                0 <= q < 441 && old(self).board()[q] != b0[q] ==> b0[q] == ostone && old(self).board()[q] == PointState::Empty,
        ensures
            final(self).wf(),
            final(self).spec_turn() == old(self).spec_turn(),
            final(self).spec_ko() == old(self).spec_ko(),
            final(self).spec_komi() == old(self).spec_komi(),
            final(self).board() == step_capture(old(self).board(), a as int, ostone),
            av_elems(*final(captives)).no_duplicates(),
            forall|v: usize|
                #[trigger] av_elems(*final(captives)).contains(v) <==> (v < 441 && b0[v as int]
                    == ostone && final(self).board()[v as int] == PointState::Empty),
            forall|q: int|
                0 <= q < 441 && final(self).board()[q] != b0[q] ==> b0[q] == ostone && final(self).board()[q] == PointState::Empty,
            av_elems(*final(captives)).len() > av_elems(*old(captives)).len() ==> final(self).board()[a as int] == PointState::Empty,
            av_elems(*final(captives)) == av_elems(*old(captives)) + captured_seg(
                old(self).board(),
                a as int,
                ostone,
            ),
    {
        let ghost bpre = old(self).board();
        let s = self.state(a);
        if s == ostone {
            proof {
                assert(interior(a as int));
            }
            let gs = self.string_at(a);
            if gs.num_liberties() == 0 {
                proof {
                    lemma_gs_exact(bpre, a, gs);
                    assert(gs.libs().len() == 0);
                    assert(!comp_has_lib(bpre, a as int));
                }
                self.remove_string(&gs);
                proof {
                    assert forall|q: int|
                        0 <= q < 441 implies self.board()[q] == step_capture(bpre, a as int, ostone)[
                        q
                    ] by {
                        if connected(bpre, a as int, q) {
                            assert(gs.pts().contains(q as usize));
                        } else {
                            if 0 <= q < 441 && gs.pts().contains(q as usize) {
                                assert(connected(bpre, a as int, q as usize as int));
                            }
                        }
                    }
                    assert(self.board() =~= step_capture(bpre, a as int, ostone));
                }
                let m = gs.size();
                let mut j: usize = 0;
                proof {
                    assert(av_elems(*captives) =~= av_elems(*old(captives)) + gs.pts().take(0));
                }
                while j < m
                    invariant
                        self.wf(),
                        self.spec_turn() == old(self).spec_turn(),
                        self.spec_ko() == old(self).spec_ko(),
                        self.spec_komi() == old(self).spec_komi(),
                        self.board() == step_capture(bpre, a as int, ostone),
                        board_ok(b0),
                        j <= m,
                        m == gs.pts().len(),
                        gs_wf(bpre, a, gs),
                        bpre == old(self).board(),
                        a < 441,
                        bpre[a as int] == ostone,
                        ostone matches PointState::Occupied(_),
                        !comp_has_lib(bpre, a as int),
                        forall|q: int|
                            0 <= q < 441 && bpre[q] != b0[q] ==> b0[q] == ostone && bpre[q]
                                == PointState::Empty,
                        av_elems(*captives).no_duplicates(),
                        av_elems(*captives) == av_elems(*old(captives)) + gs.pts().take(j as int),
                        forall|v: usize|
                            #[trigger] av_elems(*captives).contains(v) <==> (av_elems(
                                *old(captives),
                            ).contains(v) || gs.pts().take(j as int).contains(v)),
                        forall|v: usize|
                            #[trigger] av_elems(*old(captives)).contains(v) <==> (v < 441
                                && b0[v as int] == ostone && bpre[v as int] == PointState::Empty),
                    decreases m - j,
                {
                    let e = av_get(&gs.points, j);
                    proof {
                        assert(gs.pts().contains(gs.pts()[j as int]));
                        assert(bpre[e as int] == bpre[a as int]);
                        assert(!av_elems(*old(captives)).contains(e));
                        assert(!gs.pts().take(j as int).contains(e)) by {
                            if gs.pts().take(j as int).contains(e) {
                                let jj = choose|jj: int|
                                    0 <= jj < j && gs.pts().take(j as int)[jj] == e;
                                assert(gs.pts()[jj] == e);
                            }
                        }
                        assert(!av_elems(*captives).contains(e));
                        assert forall|v: usize|
                            #[trigger] av_elems(*captives).contains(v) implies interior(
                            v as int,
                        ) by {
                            if av_elems(*old(captives)).contains(v) {
                                assert(b0[v as int] == ostone);
                            } else {
                                assert(gs.pts().contains(v));
                            }
                        }
                        lemma_distinct_interior_len(av_elems(*captives));
                        lemma_push_contains(av_elems(*captives), e);
                        lemma_push_contains(gs.pts().take(j as int), e);
                        assert(gs.pts().take(j as int).push(e) =~= gs.pts().take(j + 1));
                    }
                    av_push(captives, e);
                    proof {
                        assert(av_elems(*captives) =~= av_elems(*old(captives)) + gs.pts().take(
                            j + 1,
                        ));
                    }
                    j = j + 1;
                }
                proof {
                    assert(gs.pts().take(m as int) =~= gs.pts());
                    assert forall|v: usize| #[trigger] av_elems(*captives).contains(v) implies (v
                        < 441 && b0[v as int] == ostone && self.board()[v as int]
                        == PointState::Empty) by {
                        if av_elems(*old(captives)).contains(v) {
                            assert(bpre[v as int] == PointState::Empty);
                            assert(self.board()[v as int] == PointState::Empty);
                        } else {
                            assert(gs.pts().contains(v));
                            assert(bpre[v as int] == ostone);
                            assert(b0[v as int] == ostone);
                            assert(connected(bpre, a as int, v as int));
                            assert(self.board()[v as int] == PointState::Empty);
                        }
                    }
                    assert forall|v: usize|
                        v < 441 && b0[v as int] == ostone && self.board()[v as int]
                            == PointState::Empty implies #[trigger] av_elems(*captives).contains(
                        v,
                    ) by {
                        if bpre[v as int] == PointState::Empty {
                            assert(av_elems(*old(captives)).contains(v));
                        } else {
                            assert(self.board()[v as int] != bpre[v as int]);
                            assert(connected(bpre, a as int, v as int));
                            assert(gs.pts().contains(v));
                        }
                    }
                    lemma_connected_self(bpre, a as int);
                    assert(self.board()[a as int] == PointState::Empty);
                    lemma_step_diff(bpre, a as int, ostone);
                    assert(captured_seg(bpre, a as int, ostone) == flood_pts(bpre, a));
                    assert(gs.pts() == flood_pts(bpre, a));
                    assert(av_elems(*captives) == av_elems(*old(captives)) + gs.pts().take(
                        m as int,
                    ));
                    assert(av_elems(*captives) == av_elems(*old(captives)) + captured_seg(
                        bpre,
                        a as int,
                        ostone,
                    ));
                }
            } else {
                proof {
                    let l = gs.libs()[0];
                    assert(gs.libs().contains(l));
                    let (q, k): (usize, int) = choose|q: usize, k: int|
                        gs.pts().contains(q) && 0 <= k < 4 && nbr(q as int, k) == l as int;
                    assert(connected(bpre, a as int, q as int));
                    assert(has_lib_at(bpre, q as int));
                    assert(comp_has_lib(bpre, a as int));
                    assert(step_capture(bpre, a as int, ostone) == bpre);
                    assert(captured_seg(bpre, a as int, ostone) == Seq::<usize>::empty());
                    assert(av_elems(*captives) =~= av_elems(*old(captives))
                        + Seq::<usize>::empty());
                }
            }
        } else {
            proof {
                assert(step_capture(bpre, a as int, ostone) == bpre);
                assert(captured_seg(bpre, a as int, ostone) == Seq::<usize>::empty());
                assert(av_elems(*captives) =~= av_elems(*old(captives))
                    + Seq::<usize>::empty());
            }
        }
    }

    /// The capture phase: removes every opposing string left without a
    /// liberty by the stone just played at `pt`, examining the neighbours in
    /// north, east, south, west order, and returns the removed coordinates
    /// in that order.
    fn capture_by(&mut self, pt: usize) -> (captives: UsizeVec)
        requires
            old(self).wf(),
            interior(pt as int),
            old(self).board()[pt as int] == PointState::Occupied(old(self).spec_turn()),
        ensures
            final(self).wf(),
            final(self).spec_turn() == old(self).spec_turn(),
            final(self).spec_ko() == old(self).spec_ko(),
            final(self).spec_komi() == old(self).spec_komi(),
            final(self).board() == after_captures(
                old(self).board(),
                pt as int,
                PointState::Occupied(old(self).spec_turn().spec_opponent()),
            ),
            av_elems(captives).no_duplicates(),
            forall|v: usize|
                #[trigger] av_elems(captives).contains(v) <==> (v < 441
                    && old(self).board()[v as int] == PointState::Occupied(
                    old(self).spec_turn().spec_opponent(),
                ) && final(self).board()[v as int] == PointState::Empty),
            av_elems(captives).len() > 0 ==> exists|k: int|
                0 <= k < 4 && final(self).board()[#[trigger] nbr(pt as int, k)]
                    == PointState::Empty,
            av_elems(captives).len() == 0 ==> final(self).board() == old(self).board(),
            forall|q: int|
                0 <= q < 441 && final(self).board()[q] != old(self).board()[q] ==> old(self).board()[q] == PointState::Occupied(old(self).spec_turn().spec_opponent())
                    && final(self).board()[q] == PointState::Empty,
            av_elems(captives) == captives_seq(
                old(self).board(),
                pt as int,
                PointState::Occupied(old(self).spec_turn().spec_opponent()),
            ),
    {
        let ghost b0 = old(self).board();
        let o = self.turn().opponent();
        let ostone = PointState::Occupied(o);
        let mut captives: UsizeVec = av_new();
        let a0 = pt - 21;
        let a1 = pt + 1;
        let a2 = pt + 21;
        let a3 = pt - 1;
        proof {
            assert(a0 as int == nbr(pt as int, 0) && a1 as int == nbr(pt as int, 1) && a2 as int
                == nbr(pt as int, 2) && a3 as int == nbr(pt as int, 3));
        }
        self.capture_one(a0, ostone, &mut captives, Ghost(b0));
        let ghost n0 = av_elems(captives).len();
        let ghost bb0 = self.board();
        self.capture_one(a1, ostone, &mut captives, Ghost(b0));
        let ghost n1 = av_elems(captives).len();
        let ghost bb1 = self.board();
        proof {
            lemma_step_diff(bb0, a1 as int, ostone);
        }
        self.capture_one(a2, ostone, &mut captives, Ghost(b0));
        let ghost n2 = av_elems(captives).len();
        let ghost bb2 = self.board();
        proof {
            lemma_step_diff(bb1, a2 as int, ostone);
        }
        self.capture_one(a3, ostone, &mut captives, Ghost(b0));
        proof {
            lemma_step_diff(bb2, a3 as int, ostone);
            assert(av_elems(captives) =~= captives_seq(b0, pt as int, ostone));
            if av_elems(captives).len() > 0 {
                if n2 < av_elems(captives).len() {
                    assert(self.board()[nbr(pt as int, 3)] == PointState::Empty);
                } else if n1 < n2 {
                    assert(bb2[a2 as int] == PointState::Empty);
                    assert(self.board()[nbr(pt as int, 2)] == PointState::Empty);
                } else if n0 < n1 {
                    assert(bb1[a1 as int] == PointState::Empty);
                    assert(bb2[a1 as int] == PointState::Empty);
                    assert(self.board()[nbr(pt as int, 1)] == PointState::Empty);
                } else {
                    assert(bb0[a0 as int] == PointState::Empty);
                    assert(bb1[a0 as int] == PointState::Empty);
                    assert(bb2[a0 as int] == PointState::Empty);
                    assert(self.board()[nbr(pt as int, 0)] == PointState::Empty);
                }
            }
            if av_elems(captives).len() == 0 {
                assert forall|q: int| 0 <= q < 441 implies self.board()[q] == b0[q] by {
                    if self.board()[q] != b0[q] {
                        assert(av_elems(captives).contains(q as usize));
                    }
                }
                assert(self.board() =~= b0);
            }
        }
        captives
    }
}

/// With a one-stone string, the flood finds one liberty exactly when the
/// seed has one empty neighbour, and that liberty is the first empty
/// neighbour in north, east, south, west order.
proof fn lemma_ko_libs(b: Seq<PointState>, pt: usize, gs: GoString)
    requires
        board_ok(b),
        interior(pt as int),
        b[pt as int].spec_is_stone(),
        gs_wf(b, pt, gs),
        gs.pts().len() == 1,
    ensures
        (gs.libs().len() == 1) <==> (empty_nbr_count(b, pt as int) == 1),
        gs.libs().len() == 1 ==> gs.libs()[0] as int == first_empty_nbr(b, pt as int),
{
    crate::flood::lemma_singleton(b, pt, gs);
    let p = pt as int;
    if empty_nbr_count(b, p) == 0 {
        if gs.libs().len() >= 1 {
            let a = gs.libs()[0];
            assert(gs.libs().contains(a));
            let k = choose|k: int|
                0 <= k < 4 && #[trigger] nbr(p, k) == a as int && b[a as int]
                    == PointState::Empty;
            assert(false);
        }
    } else if empty_nbr_count(b, p) == 1 {
        let k0: int = if b[nbr(p, 0)] == PointState::Empty {
            0
        } else if b[nbr(p, 1)] == PointState::Empty {
            1
        } else if b[nbr(p, 2)] == PointState::Empty {
            2
        } else {
            3
        };
        assert(b[nbr(p, k0)] == PointState::Empty);
        assert(first_empty_nbr(b, p) == nbr(p, k0));
        assert forall|i: int| 0 <= i < gs.libs().len() implies gs.libs()[i] as int == nbr(
            p,
            k0,
        ) by {
            let a = gs.libs()[i];
            assert(gs.libs().contains(a));
            let k = choose|k: int|
                0 <= k < 4 && #[trigger] nbr(p, k) == a as int && b[a as int]
                    == PointState::Empty;
            assert(k == k0);
        }
        assert(gs.libs().contains(nbr(p, k0) as usize)) by {
            assert(0 <= nbr(p, k0) < 441);
            assert(nbr(p, k0) as usize as int == nbr(p, k0));
            assert(b[nbr(p, k0) as usize as int] == PointState::Empty);
            assert(exists|k: int|
                0 <= k < 4 && #[trigger] nbr(p, k) == nbr(p, k0) as usize as int && b[nbr(
                    p,
                    k0,
                ) as usize as int] == PointState::Empty);
        }
        let i = choose|i: int| 0 <= i < gs.libs().len() && gs.libs()[i] == nbr(p, k0) as usize;
        if gs.libs().len() >= 2 {
            assert(gs.libs()[0] as int == nbr(p, k0) && gs.libs()[1] as int == nbr(p, k0));
            assert(false);
        }
        assert(gs.libs().len() == 1);
    } else {
        if gs.libs().len() == 1 {
            let k1: int = if b[nbr(p, 0)] == PointState::Empty {
                0
            } else if b[nbr(p, 1)] == PointState::Empty {
                1
            } else {
                2
            };
            let k2: int = if b[nbr(p, 3)] == PointState::Empty {
                3
            } else if b[nbr(p, 2)] == PointState::Empty && k1 != 2 {
                2
            } else {
                1
            };
            assert(k1 != k2 && b[nbr(p, k1)] == PointState::Empty && b[nbr(p, k2)]
                == PointState::Empty);
            assert(nbr(p, k1) != nbr(p, k2));
            assert(gs.libs().contains(nbr(p, k1) as usize)) by {
                assert(nbr(p, k1) as usize as int == nbr(p, k1));
            }
            assert(gs.libs().contains(nbr(p, k2) as usize)) by {
                assert(nbr(p, k2) as usize as int == nbr(p, k2));
            }
            let i1 = choose|i: int| 0 <= i < gs.libs().len() && gs.libs()[i] == nbr(p, k1) as usize;
            let i2 = choose|i: int| 0 <= i < gs.libs().len() && gs.libs()[i] == nbr(p, k2) as usize;
            assert(i1 == 0 && i2 == 0);
            assert(false);
        }
    }
}

impl Position19 {
    /// Plays a move for the side to move. A pass always succeeds and clears
    /// any ko; resigning is never executed by the engine; a stone is placed
    /// only on an empty on-board point that is not the ko point, captures
    /// opposing strings left without liberties, is rejected as suicide when
    /// its own string would end up without a liberty, and sets the ko point
    /// after a single-stone capture by a fresh single-stone string.
    pub fn play(&mut self, mov: Move) -> (r: Result<MoveLog, BoardError>)
        requires
            old(self).wf(),
            mov matches Move::Linear(pt) ==> interior(pt as int) && old(self).board()[pt as int]
                == PointState::Empty,
        ensures
            final(self).wf(),
            final(self).spec_komi() == old(self).spec_komi(),
            play_rel(
                old(self).board(),
                old(self).spec_turn(),
                old(self).spec_ko(),
                final(self).board(),
                final(self).spec_turn(),
                final(self).spec_ko(),
                mov,
                r,
            ),
            r matches Ok(log) ==> log_wf(log),
            r.is_ok() ==> (match final(self).spec_ko() {
                Some(k) => final(self).board()[k as int] == PointState::Empty,
                None => true,
            }),
    {
        let prior_ko = self.get_ko();
        let prior_turn = self.turn();
        match mov {
            Move::Pass => {
                self.set_ko(None);
                self.switch_turn();
                Ok(MoveLog { prior_turn, prior_ko, mov: Move::Pass, captives: av_new() })
            },
            Move::Resign => Err(BoardError::ResignNotPlayable),
            Move::Linear(pt) => {
                if self.is_ko(pt) {
                    return Err(BoardError::KoForbidden);
                }
                let ghost b = old(self).board();
                let t = prior_turn;
                self.set_state(pt, PointState::Occupied(t));
                let ghost bmid = self.board();
                let ghost o = PointState::Occupied(t.spec_opponent());
                proof {
                    assert(bmid == b.update(pt as int, PointState::Occupied(t)));
                }
                let captives = self.capture_by(pt);
                let ghost bcap = self.board();
                proof {
                    assert(bcap == after_captures(bmid, pt as int, o));
                    assert(o != PointState::Occupied(t));
                    assert(bcap[pt as int] == PointState::Occupied(t)) by {
                        if bcap[pt as int] != bmid[pt as int] {
                            assert(bmid[pt as int] == o);
                        }
                    }
                }
                let gs = self.string_at(pt);
                let nlibs = gs.num_liberties();
                if nlibs == 0 {
                    proof {
                        lemma_gs_exact(bcap, pt, gs);
                        assert(!comp_has_lib(bcap, pt as int));
                        lemma_connected_self(bcap, pt as int);
                        if av_elems(captives).len() > 0 {
                            let k = choose|k: int|
                                0 <= k < 4 && bcap[#[trigger] nbr(pt as int, k)]
                                    == PointState::Empty;
                            assert(has_lib_at(bcap, pt as int));
                            assert(comp_has_lib(bcap, pt as int));
                            assert(false);
                        }
                        assert(bcap == bmid);
                    }
                    self.set_state(pt, PointState::Empty);
                    proof {
                        assert(self.board() =~= b);
                    }
                    return Err(BoardError::Suicide);
                }
                proof {
                    lemma_gs_exact(bcap, pt, gs);
                    assert(gs.libs().len() != 0);
                    assert(comp_has_lib(bcap, pt as int));
                }
                let ncap = av_len(&captives);
                let sz = gs.size();
                let ko_new: Option<usize> = if ncap == 1 && nlibs == 1 && sz == 1 {
                    Some(av_get(&gs.liberties, 0))
                } else {
                    None
                };
                proof {
                    crate::flood::lemma_singleton(bcap, pt, gs);
                    if sz == 1 {
                        lemma_ko_libs(bcap, pt, gs);
                    }
                    assert(ko_new == spec_new_ko(
                        bcap,
                        pt as int,
                        PointState::Occupied(t),
                        av_elems(captives).len() as int,
                    ));
                    match ko_new {
                        Some(l) => {
                            assert(gs.libs().contains(gs.libs()[0]));
                            assert(bcap[l as int] == PointState::Empty);
                            assert(interior(l as int));
                        },
                        None => {},
                    }
                }
                self.set_ko(ko_new);
                self.switch_turn();
                proof {
                    assert(board_ok(bmid));
                    assert forall|v: usize| #[trigger] av_elems(captives).contains(v) implies
                        interior(v as int) by {
                        assert(bmid[v as int] == o);
                    }
                    assert(!av_elems(captives).contains(pt));
                }
                Ok(MoveLog { prior_turn: t, prior_ko, mov, captives })
            },
        }
    }

    /// Undoes one move: restores the ko point and the turn, lifts the
    /// played stone and puts every captive back on the board.
    pub fn undo(&mut self, log: &MoveLog)
        requires
            old(self).wf(),
            log_wf(*log),
        ensures
            final(self).wf(),
            final(self).spec_komi() == old(self).spec_komi(),
            undo_rel(
                old(self).board(),
                final(self).board(),
                final(self).spec_turn(),
                final(self).spec_ko(),
                *log,
            ),
    {
        self.set_ko(log.prior_ko);
        self.set_turn(log.prior_turn);
        match log.mov {
            Move::Linear(pt) => {
                self.set_state(pt, PointState::Empty);
                let oc = log.prior_turn.opponent();
                let restored = PointState::Occupied(oc);
                let n = av_len(&log.captives);
                let mut i: usize = 0;
                while i < n
                    invariant
                        self.wf(),
                        self.spec_komi() == old(self).spec_komi(),
                        self.spec_turn() == log.prior_turn,
                        self.spec_ko() == log.prior_ko,
                        i <= n,
                        n == av_elems(log.captives).len(),
                        log_wf(*log),
                        log.mov == Move::Linear(pt),
                        interior(pt as int),
                        restored == PointState::Occupied(log.prior_turn.spec_opponent()),
                        forall|q: int|
                            0 <= q < 441 ==> self.board()[q] == (if av_elems(log.captives).take(
                                i as int,
                            ).contains(q as usize) {
                                restored
                            } else if q == pt {
                                PointState::Empty
                            } else {
                                old(self).board()[q]
                            }),
                    decreases n - i,
                {
                    let e = av_get(&log.captives, i);
                    proof {
                        assert(av_elems(log.captives).contains(av_elems(log.captives)[i as int]));
                        assert(interior(e as int));
                        lemma_push_contains(av_elems(log.captives).take(i as int), e);
                        assert(av_elems(log.captives).take(i as int).push(e) =~= av_elems(
                            log.captives,
                        ).take(i + 1));
                    }
                    self.set_state(e, restored);
                    i = i + 1;
                }
                proof {
                    assert(av_elems(log.captives).take(n as int) =~= av_elems(log.captives));
                    assert(self.board() =~= Seq::new(
                        441,
                        |q: int|
                            if av_elems(log.captives).contains(q as usize) {
                                PointState::Occupied(log.prior_turn.spec_opponent())
                            } else if q == pt {
                                PointState::Empty
                            } else {
                                old(self).board()[q]
                            },
                    ));
                }
            },
            _ => {},
        }
    }

    /// Whether every stone on the board has at least one liberty.
    pub fn check_legal(&mut self) -> (r: bool)
        requires
            old(self).wf(),
        ensures
            final(self).wf(),
            final(self).board() == old(self).board(),
            final(self).spec_turn() == old(self).spec_turn(),
            final(self).spec_ko() == old(self).spec_ko(),
            final(self).spec_komi() == old(self).spec_komi(),
            r == (forall|q: int|
                0 <= q < 441 && old(self).board()[q].spec_is_stone() ==> comp_has_lib(
                    old(self).board(),
                    q,
                )),
    {
        let mut p: usize = 0;
        while p < 441
            invariant
                self.wf(),
                self.board() == old(self).board(),
                self.spec_turn() == old(self).spec_turn(),
                self.spec_ko() == old(self).spec_ko(),
                self.spec_komi() == old(self).spec_komi(),
                p <= 441,
                forall|q: int|
                    0 <= q < p && old(self).board()[q].spec_is_stone() ==> comp_has_lib(
                        old(self).board(),
                        q,
                    ),
            decreases 441 - p,
        {
            let s = self.state(p);
            if s.is_stone() {
                let gs = self.string_at(p);
                if gs.num_liberties() == 0 {
                    proof {
                        assert(interior(p as int));
                        lemma_gs_exact(old(self).board(), p, gs);
                        assert(!comp_has_lib(old(self).board(), p as int));
                    }
                    return false;
                }
                proof {
                    assert(interior(p as int));
                    lemma_gs_exact(old(self).board(), p, gs);
                }
            }
            p = p + 1;
        }
        true
    }
}

} // verus!
