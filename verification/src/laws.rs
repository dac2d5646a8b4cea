//! Laws that tie several operations together, stated over the same spec
//! functions the operations' own contracts use.

use vstd::prelude::*;

use crate::board::{board_ok, init_board, interior, nbr, xof, yof};
use crate::eye::{cell_points, eye_scan, score_upto, spec_is_eye, spec_points};
use crate::flood::{
    comp_has_lib, connected, has_lib_at, lemma_connected_extend, lemma_connected_self,
    lemma_connected_state, lemma_connected_sym, lemma_connected_trans, lemma_nbr_mirror,
    lemma_reach_mono, mirror, reach,
};
use crate::point::{BoardError, Color, Move, PointState};
use crate::rules::{after_captures, lemma_step_diff, play_rel, step_capture, undo_rel, MoveLog};
use crate::scratch::av_elems;

verus! {

/// Turn alternation: every successful `play`, a pass included, hands the
/// move to the opponent.
pub proof fn lemma_turn_alternation(
    b: Seq<PointState>,
    t: Color,
    ko: Option<usize>,
    b2: Seq<PointState>,
    t2: Color,
    ko2: Option<usize>,
    mov: Move,
    r: Result<MoveLog, BoardError>,
)
    requires
        play_rel(b, t, ko, b2, t2, ko2, mov, r),
        r.is_ok(),
    ensures
        t2 == t.spec_opponent(),
{
}

/// Ko is transient: a pass always succeeds and always leaves no ko point.
pub proof fn lemma_pass_clears_ko(
    b: Seq<PointState>,
    t: Color,
    ko: Option<usize>,
    b2: Seq<PointState>,
    t2: Color,
    ko2: Option<usize>,
    r: Result<MoveLog, BoardError>,
)
    requires
        play_rel(b, t, ko, b2, t2, ko2, Move::Pass, r),
    ensures
        r.is_ok(),
        ko2 == None::<usize>,
{
}

/// No suicide survives: after a successful stone play the played stone's
/// string has at least one liberty on the resulting board.
pub proof fn lemma_played_string_alive(
    b: Seq<PointState>,
    t: Color,
    ko: Option<usize>,
    b2: Seq<PointState>,
    t2: Color,
    ko2: Option<usize>,
    pt: usize,
    log: MoveLog,
)
    requires
        play_rel(b, t, ko, b2, t2, ko2, Move::Linear(pt), Ok(log)),
    ensures
        comp_has_lib(b2, pt as int),
{
}

/// Undo reverses play: whatever a successful `play` did to the board, the
/// turn and the ko point, `undo` of its log restores the position exactly.
pub proof fn lemma_undo_reverses_play(
    b: Seq<PointState>,
    t: Color,
    ko: Option<usize>,
    b2: Seq<PointState>,
    t2: Color,
    ko2: Option<usize>,
    b3: Seq<PointState>,
    t3: Color,
    ko3: Option<usize>,
    mov: Move,
    log: MoveLog,
)
    requires
        board_ok(b),
        mov matches Move::Linear(pt) ==> interior(pt as int) && b[pt as int] == PointState::Empty,
        play_rel(b, t, ko, b2, t2, ko2, mov, Ok(log)),
        undo_rel(b2, b3, t3, ko3, log),
    ensures
        b3 == b,
        t3 == t,
        ko3 == ko,
{
    match mov {
        Move::Pass => {
            assert(av_elems(log.captives).len() == 0);
            assert forall|v: usize| !(#[trigger] av_elems(log.captives).contains(v)) by {
                if av_elems(log.captives).contains(v) {
                    let i = choose|i: int|
                        0 <= i < av_elems(log.captives).len() && av_elems(log.captives)[i] == v;
                }
            }
            assert(b3 =~= b);
        },
        Move::Resign => {
        },
        Move::Linear(pt) => {
            let c = PointState::Occupied(t);
            let o = PointState::Occupied(t.spec_opponent());
            let bmid = b.update(pt as int, c);
            let bcap = after_captures(bmid, pt as int, o);
            assert(c != o);
            let s1 = step_capture(bmid, pt as int - 21, o);
            let s2 = step_capture(s1, pt as int + 1, o);
            let s3 = step_capture(s2, pt as int + 21, o);
            lemma_step_diff(bmid, pt as int - 21, o);
            lemma_step_diff(s1, pt as int + 1, o);
            lemma_step_diff(s2, pt as int + 21, o);
            lemma_step_diff(s3, pt as int - 1, o);
            assert(bcap == step_capture(s3, pt as int - 1, o));
            assert forall|q: int| 0 <= q < 441 && #[trigger] bcap[q] != bmid[q] implies bmid[q]
                == o && bcap[q] == PointState::Empty by {}
            assert(!av_elems(log.captives).contains(pt));
            assert forall|q: int| 0 <= q < 441 implies b3[q] == b[q] by {
                if av_elems(log.captives).contains(q as usize) {
                    assert(bmid[q] == o && q != pt);
                    assert(b3[q] == o);
                } else if q == pt {
                    assert(b3[q] == PointState::Empty);
                } else {
                    assert(b3[q] == bcap[q]);
                    if bcap[q] != bmid[q] {
                        assert(av_elems(log.captives).contains(q as usize));
                        assert(false);
                    }
                }
            }
            assert(b3 =~= b);
        },
    }
}

/// Every stone on the board has at least one liberty.
pub open spec fn all_alive(b: Seq<PointState>) -> bool {
    forall|q: int| 0 <= q < 441 && (#[trigger] b[q]).spec_is_stone() ==> comp_has_lib(b, q)
}

/// No suicide, the mover's half: when every stone had a liberty before a
/// successful stone play, every stone of the mover's colour has a liberty
/// after it.
pub proof fn lemma_play_keeps_mover_alive(
    b: Seq<PointState>,
    t: Color,
    ko: Option<usize>,
    b2: Seq<PointState>,
    t2: Color,
    ko2: Option<usize>,
    pt: usize,
    log: MoveLog,
)
    requires
        board_ok(b),
        all_alive(b),
        interior(pt as int),
        b[pt as int] == PointState::Empty,
        play_rel(b, t, ko, b2, t2, ko2, Move::Linear(pt), Ok(log)),
    ensures
        forall|q: int|
            0 <= q < 441 && b2[q] == PointState::Occupied(t) ==> comp_has_lib(b2, q),
{
    let c = PointState::Occupied(t);
    let o = PointState::Occupied(t.spec_opponent());
    let bmid = b.update(pt as int, c);
    let bcap = after_captures(bmid, pt as int, o);
    assert(b2 == bcap);
    assert(c != o);
    let s1 = step_capture(bmid, pt as int - 21, o);
    let s2 = step_capture(s1, pt as int + 1, o);
    let s3 = step_capture(s2, pt as int + 21, o);
    lemma_step_diff(bmid, pt as int - 21, o);
    lemma_step_diff(s1, pt as int + 1, o);
    lemma_step_diff(s2, pt as int + 21, o);
    lemma_step_diff(s3, pt as int - 1, o);
    assert(bcap == step_capture(s3, pt as int - 1, o));
    assert forall|v: int| 0 <= v < 441 implies ((bmid[v] == c) <==> (bcap[v] == c)) by {}
    assert forall|q: int| 0 <= q < 441 && b2[q] == PointState::Occupied(t) implies comp_has_lib(
        b2,
        q,
    ) by {
        if connected(bcap, pt as int, q) {
            let w = choose|w: int| #[trigger] connected(bcap, pt as int, w) && has_lib_at(bcap, w);
            lemma_connected_sym(bcap, pt as int, q);
            lemma_connected_trans(bcap, q, pt as int, w);
            assert(connected(bcap, q, w) && has_lib_at(bcap, w));
        } else {
            lemma_connected_self(bcap, pt as int);
            assert(q != pt as int);
            assert(bmid[q] == c);
            assert(b[q] == c);
            assert(comp_has_lib(b, q));
            let w = choose|w: int| #[trigger] connected(b, q, w) && has_lib_at(b, w);
            reveal(connected);
            let n = choose|n: nat| reach(b, b[q], q, w, n);
            assert(reach(b, c, q, w, n));
            assert forall|v: int|
                0 <= v < 441 && b[v] == c && #[trigger] connected(b, q, v) implies bmid[v]
                == c by {
                assert(v != pt as int);
            }
            lemma_reach_mono(b, bmid, c, q, w, n);
            assert forall|v: int|
                0 <= v < 441 && bmid[v] == c && #[trigger] connected(bmid, q, v) implies bcap[v]
                == c by {}
            lemma_reach_mono(bmid, bcap, c, q, w, n);
            assert(reach(bcap, c, q, w, n));
            assert(connected(bcap, q, w));
            let k = choose|k: int|
                0 <= k < 4 && 0 <= #[trigger] nbr(w, k) < 441 && b[nbr(w, k)]
                    == PointState::Empty;
            let e = nbr(w, k);
            if e == pt as int {
                assert(bcap[w] == c);
                assert(bcap[pt as int] == c);
                lemma_connected_extend(bcap, q, w, k);
                assert(connected(bcap, q, pt as int));
                lemma_connected_sym(bcap, q, pt as int);
                assert(false);
            } else {
                assert(bmid[e] == PointState::Empty);
                assert(bcap[e] == PointState::Empty);
                assert(has_lib_at(bcap, w));
                assert(connected(bcap, q, w) && has_lib_at(bcap, w));
            }
        }
    }
}

/// Every cell the capture phase has emptied so far belonged to a string of
/// `o` stones on the board `bmid`, and that whole string is empty now.
pub open spec fn comps_removed(bmid: Seq<PointState>, s: Seq<PointState>, o: PointState) -> bool {
    forall|r: int|
        0 <= r < 441 && (#[trigger] s[r]) != bmid[r] ==> bmid[r] == o && s[r] == PointState::Empty
            && (forall|w: int|
            0 <= w < 441 && #[trigger] connected(bmid, r, w) ==> s[w] == PointState::Empty)
}

/// One capture step keeps the emptied cells a union of whole `bmid`
/// strings.
proof fn lemma_step_keeps_whole_comps(bmid: Seq<PointState>, s: Seq<PointState>, a: int, o: PointState)
    requires
        bmid.len() == 441,
        s.len() == 441,
        comps_removed(bmid, s, o),
    ensures
        comps_removed(bmid, step_capture(s, a, o), o),
{
    let s2 = step_capture(s, a, o);
    if 0 <= a < 441 && s[a] == o && !comp_has_lib(s, a) {
        assert forall|r: int| 0 <= r < 441 && (#[trigger] s2[r]) != bmid[r] implies bmid[r] == o
            && s2[r] == PointState::Empty && (forall|w: int|
            0 <= w < 441 && #[trigger] connected(bmid, r, w) ==> s2[w] == PointState::Empty) by {
            if s[r] != bmid[r] {
                assert forall|w: int|
                    0 <= w < 441 && #[trigger] connected(bmid, r, w) implies s2[w]
                    == PointState::Empty by {
                    assert(s[w] == PointState::Empty);
                }
            } else {
                assert(connected(s, a, r));
                lemma_connected_state(s, a, r);
                assert(s[r] == o);
                assert(bmid[r] == o);
                assert forall|w: int|
                    0 <= w < 441 && #[trigger] connected(bmid, r, w) implies s2[w]
                    == PointState::Empty by {
                    if s[w] != bmid[w] {
                        assert(s[w] == PointState::Empty);
                    } else {
                        if w == r {
                        } else {
                            lemma_connected_state(bmid, r, w);
                            assert(bmid[w] == o);
                            assert(s[w] == o);
                            if forall|v: int|
                                0 <= v < 441 && bmid[v] == o && #[trigger] connected(bmid, r, v)
                                    ==> s[v] == o {
                                reveal(connected);
                                let n = choose|n: nat| reach(bmid, bmid[r], r, w, n);
                                assert(reach(bmid, o, r, w, n));
                                lemma_reach_mono(bmid, s, o, r, w, n);
                                assert(reach(s, o, r, w, n));
                                assert(connected(s, r, w));
                                lemma_connected_trans(s, a, r, w);
                                assert(connected(s, a, w));
                            } else {
                                let v = choose|v: int|
                                    0 <= v < 441 && bmid[v] == o && #[trigger] connected(
                                        bmid,
                                        r,
                                        v,
                                    ) && s[v] != o;
                                assert(s[v] != bmid[v]);
                                lemma_connected_sym(bmid, r, v);
                                assert(connected(bmid, v, r));
                                assert(s[r] == PointState::Empty);
                                assert(false);
                            }
                        }
                    }
                }
            }
        }
    }
}

/// A neighbour whose `bmid` string has no liberty at all does not survive
/// its own capture step.
proof fn lemma_dead_neighbor_captured(bmid: Seq<PointState>, s: Seq<PointState>, a: int, o: PointState)
    requires
        bmid.len() == 441,
        s.len() == 441,
        comps_removed(bmid, s, o),
        0 <= a < 441,
        bmid[a] == o,
        !comp_has_lib(bmid, a),
    ensures
        step_capture(s, a, o)[a] == PointState::Empty,
{
    let s2 = step_capture(s, a, o);
    lemma_connected_self(s, a);
    if s[a] != bmid[a] {
        assert(s[a] == PointState::Empty);
    } else {
        assert(s[a] == o);
        if comp_has_lib(s, a) {
            let u = choose|u: int| #[trigger] connected(s, a, u) && has_lib_at(s, u);
            reveal(connected);
            let n = choose|n: nat| reach(s, s[a], a, u, n);
            assert(reach(s, o, a, u, n));
            assert forall|v: int|
                0 <= v < 441 && s[v] == o && #[trigger] connected(s, a, v) implies bmid[v]
                == o by {
                if s[v] != bmid[v] {
                    assert(s[v] == PointState::Empty);
                }
            }
            lemma_reach_mono(s, bmid, o, a, u, n);
            assert(reach(bmid, o, a, u, n));
            assert(connected(bmid, a, u));
            lemma_connected_state(s, a, u);
            lemma_connected_state(bmid, a, u);
            assert(bmid[u] == o);
            let k = choose|k: int|
                0 <= k < 4 && 0 <= #[trigger] nbr(u, k) < 441 && s[nbr(u, k)]
                    == PointState::Empty;
            let e = nbr(u, k);
            if bmid[e] == PointState::Empty {
                assert(has_lib_at(bmid, u));
                assert(connected(bmid, a, u) && has_lib_at(bmid, u));
                assert(comp_has_lib(bmid, a));
                assert(false);
            } else {
                assert(s[e] != bmid[e]);
                assert(bmid[e] == o);
                lemma_connected_self(bmid, u);
                lemma_connected_extend(bmid, u, u, k);
                assert(connected(bmid, u, e));
                lemma_connected_sym(bmid, u, e);
                assert(connected(bmid, e, u));
                assert(s[u] == PointState::Empty);
                assert(s[u] == o);
                assert(false);
            }
        }
        assert(s2[a] == PointState::Empty);
    }
}

/// No suicide, the opponent's half: when every stone had a liberty before a
/// successful stone play, every opposing stone still on the board has a
/// liberty after it.
proof fn lemma_play_keeps_opponent_alive(
    b: Seq<PointState>,
    t: Color,
    ko: Option<usize>,
    b2: Seq<PointState>,
    t2: Color,
    ko2: Option<usize>,
    pt: usize,
    log: MoveLog,
)
    requires
        board_ok(b),
        all_alive(b),
        interior(pt as int),
        b[pt as int] == PointState::Empty,
        play_rel(b, t, ko, b2, t2, ko2, Move::Linear(pt), Ok(log)),
    ensures
        forall|q: int|
            0 <= q < 441 && b2[q] == PointState::Occupied(t.spec_opponent()) ==> comp_has_lib(
                b2,
                q,
            ),
{
    let c = PointState::Occupied(t);
    let o = PointState::Occupied(t.spec_opponent());
    let bmid = b.update(pt as int, c);
    let bcap = after_captures(bmid, pt as int, o);
    assert(b2 == bcap);
    assert(c != o);
    let s1 = step_capture(bmid, pt as int - 21, o);
    let s2 = step_capture(s1, pt as int + 1, o);
    let s3 = step_capture(s2, pt as int + 21, o);
    lemma_step_diff(bmid, pt as int - 21, o);
    lemma_step_diff(s1, pt as int + 1, o);
    lemma_step_diff(s2, pt as int + 21, o);
    lemma_step_diff(s3, pt as int - 1, o);
    assert(bcap == step_capture(s3, pt as int - 1, o));
    assert(comps_removed(bmid, bmid, o));
    lemma_step_keeps_whole_comps(bmid, bmid, pt as int - 21, o);
    lemma_step_keeps_whole_comps(bmid, s1, pt as int + 1, o);
    lemma_step_keeps_whole_comps(bmid, s2, pt as int + 21, o);
    lemma_step_keeps_whole_comps(bmid, s3, pt as int - 1, o);
    assert(comps_removed(bmid, bcap, o));
    assert forall|q: int|
        0 <= q < 441 && b2[q] == PointState::Occupied(t.spec_opponent()) implies comp_has_lib(
        b2,
        q,
    ) by {
        assert(bcap[q] == o);
        assert(bmid[q] == o) by {
            if bmid[q] != bcap[q] {
                assert(bcap[q] == PointState::Empty);
            }
        }
        assert forall|r: int| 0 <= r < 441 && #[trigger] connected(bmid, q, r) implies bcap[r]
            == bmid[r] by {
            if bcap[r] != bmid[r] {
                lemma_connected_sym(bmid, q, r);
                assert(connected(bmid, r, q));
                assert(bcap[q] == PointState::Empty);
                assert(false);
            }
        }
        assert(q != pt as int);
        assert(b[q] == o);
        assert(comp_has_lib(b, q));
        let w0 = choose|w: int| #[trigger] connected(b, q, w) && has_lib_at(b, w);
        reveal(connected);
        let n0 = choose|n: nat| reach(b, b[q], q, w0, n);
        assert(reach(b, o, q, w0, n0));
        assert forall|v: int|
            0 <= v < 441 && b[v] == o && #[trigger] connected(b, q, v) implies bmid[v] == o by {
            assert(v != pt as int);
        }
        lemma_reach_mono(b, bmid, o, q, w0, n0);
        assert(reach(bmid, o, q, w0, n0));
        assert(connected(bmid, q, w0));
        lemma_connected_state(bmid, q, w0);
        assert(bmid[w0] == o);
        let k0 = choose|k: int|
            0 <= k < 4 && 0 <= #[trigger] nbr(w0, k) < 441 && b[nbr(w0, k)] == PointState::Empty;
        let e0 = nbr(w0, k0);
        if e0 == pt as int && !comp_has_lib(bmid, q) {
            assert(!comp_has_lib(bmid, w0)) by {
                if comp_has_lib(bmid, w0) {
                    let u = choose|u: int| #[trigger] connected(bmid, w0, u) && has_lib_at(
                        bmid,
                        u,
                    );
                    lemma_connected_trans(bmid, q, w0, u);
                    assert(connected(bmid, q, u) && has_lib_at(bmid, u));
                    assert(comp_has_lib(bmid, q));
                    assert(false);
                }
            }
            let j = mirror(k0);
            lemma_nbr_mirror(w0, k0);
            assert(nbr(pt as int, j) == w0);
            if j == 0 {
                assert(w0 == pt as int - 21);
                lemma_dead_neighbor_captured(bmid, bmid, pt as int - 21, o);
                assert(s1[w0] == PointState::Empty);
                assert(bcap[w0] == PointState::Empty);
            } else if j == 1 {
                assert(w0 == pt as int + 1);
                lemma_dead_neighbor_captured(bmid, s1, pt as int + 1, o);
                assert(s2[w0] == PointState::Empty);
                assert(bcap[w0] == PointState::Empty);
            } else if j == 2 {
                assert(w0 == pt as int + 21);
                lemma_dead_neighbor_captured(bmid, s2, pt as int + 21, o);
                assert(s3[w0] == PointState::Empty);
                assert(bcap[w0] == PointState::Empty);
            } else {
                assert(w0 == pt as int - 1);
                lemma_dead_neighbor_captured(bmid, s3, pt as int - 1, o);
                assert(bcap[w0] == PointState::Empty);
            }
            assert(bcap[w0] == bmid[w0]);
            assert(false);
        }
        assert(comp_has_lib(bmid, q)) by {
            if e0 != pt as int {
                assert(bmid[e0] == PointState::Empty);
                assert(has_lib_at(bmid, w0));
                assert(connected(bmid, q, w0) && has_lib_at(bmid, w0));
            }
        }
        let w1 = choose|w: int| #[trigger] connected(bmid, q, w) && has_lib_at(bmid, w);
        let n1 = choose|n: nat| reach(bmid, bmid[q], q, w1, n);
        assert(reach(bmid, o, q, w1, n1));
        assert forall|v: int|
            0 <= v < 441 && bmid[v] == o && #[trigger] connected(bmid, q, v) implies bcap[v]
            == o by {}
        lemma_reach_mono(bmid, bcap, o, q, w1, n1);
        assert(reach(bcap, o, q, w1, n1));
        assert(connected(bcap, q, w1));
        let k1 = choose|k: int|
            0 <= k < 4 && 0 <= #[trigger] nbr(w1, k) < 441 && bmid[nbr(w1, k)]
                == PointState::Empty;
        assert(bcap[nbr(w1, k1)] == PointState::Empty) by {
            if bcap[nbr(w1, k1)] != bmid[nbr(w1, k1)] {
                assert(bmid[nbr(w1, k1)] == o);
            }
        }
        assert(has_lib_at(bcap, w1));
        assert(connected(bcap, q, w1) && has_lib_at(bcap, w1));
    }
}

/// No suicide: a successful `play` on a board whose stones all have
/// liberties leaves a board whose stones all have liberties.
pub proof fn lemma_play_preserves_liveness(
    b: Seq<PointState>,
    t: Color,
    ko: Option<usize>,
    b2: Seq<PointState>,
    t2: Color,
    ko2: Option<usize>,
    mov: Move,
    log: MoveLog,
)
    requires
        board_ok(b),
        all_alive(b),
        mov matches Move::Linear(pt) ==> interior(pt as int) && b[pt as int] == PointState::Empty,
        play_rel(b, t, ko, b2, t2, ko2, mov, Ok(log)),
    ensures
        all_alive(b2),
{
    match mov {
        Move::Pass => {
            assert(b2 == b);
        },
        Move::Resign => {
        },
        Move::Linear(pt) => {
            lemma_play_keeps_mover_alive(b, t, ko, b2, t2, ko2, pt, log);
            lemma_play_keeps_opponent_alive(b, t, ko, b2, t2, ko2, pt, log);
            assert forall|q: int|
                0 <= q < 441 && (#[trigger] b2[q]).spec_is_stone() implies comp_has_lib(
                b2,
                q,
            ) by {
                match b2[q] {
                    PointState::Occupied(x) => {
                        assert(x == t || x == t.spec_opponent());
                    },
                    _ => {},
                }
            }
        },
    }
}

/// The board of nothing but black stones inside the halo.
pub open spec fn full_black_board() -> Seq<PointState> {
    Seq::new(
        441,
        |q: int|
            if interior(q) {
                PointState::Occupied(Color::Black)
            } else {
                PointState::Out
            },
    )
}

/// Every coordinate splits uniquely into its column and row.
proof fn lemma_xy(q: int)
    requires
        0 <= q,
    ensures
        q == 21 * yof(q) + xof(q),
        0 <= xof(q) < 21,
        0 <= yof(q),
{
    assert(q == 21 * (q / 21) + q % 21 && 0 <= q % 21 < 21 && q / 21 >= 0) by (nonlinear_arith)
        requires
            q >= 0,
    ;
}

/// On the empty board no point is an eye, so no cell contributes to the
/// score.
proof fn lemma_empty_cell_zero(q: int)
    requires
        0 <= q < 441,
    ensures
        cell_points(init_board(), q) == 0,
{
    let b = init_board();
    if interior(q) {
        lemma_xy(q);
        let e: int = if xof(q) < 19 {
            q + 1
        } else {
            q - 1
        };
        lemma_xy(e);
        assert(interior(e));
        assert(b[e] == PointState::Empty);
        reveal_with_fuel(eye_scan, 6);
        assert(spec_is_eye(b, q) == PointState::Empty);
    }
}

/// The summed score of the empty board's first `n` cells is zero.
proof fn lemma_empty_score_upto(n: int)
    requires
        0 <= n <= 441,
    ensures
        score_upto(init_board(), n) == 0,
    decreases n,
{
    if n > 0 {
        lemma_empty_score_upto(n - 1);
        lemma_empty_cell_zero(n - 1);
    }
}

/// Score symmetry, first half: the empty opening board scores zero points,
/// so `score` returns exactly the negated komi.
pub proof fn lemma_score_empty_board()
    ensures
        spec_points(init_board()) == 0,
{
    lemma_empty_score_upto(441);
}

/// How many of the first `n` cells lie in the playing area.
spec fn interior_upto(n: int) -> int
    decreases n,
{
    if n <= 0 {
        0
    } else {
        interior_upto(n - 1) + (if interior(n - 1) {
            1int
        } else {
            0int
        })
    }
}

proof fn lemma_full_black_upto(n: int)
    requires
        0 <= n <= 441,
    ensures
        score_upto(full_black_board(), n) == interior_upto(n),
    decreases n,
{
    if n > 0 {
        lemma_full_black_upto(n - 1);
        assert(cell_points(full_black_board(), n - 1) == (if interior(n - 1) {
            1int
        } else {
            0int
        }));
    }
}

proof fn lemma_interior_stretch(lo: int, hi: int)
    requires
        0 <= lo <= hi,
        forall|q: int| lo <= q < hi ==> !interior(q),
    ensures
        interior_upto(hi) == interior_upto(lo),
    decreases hi - lo,
{
    if lo < hi {
        lemma_interior_stretch(lo, hi - 1);
    }
}

proof fn lemma_interior_row(y: int, x: int)
    requires
        1 <= y <= 19,
        1 <= x <= 20,
    ensures
        interior_upto(21 * y + x) == 19 * (y - 1) + (if x <= 19 {
            x - 1
        } else {
            19int
        }),
    decreases y, x,
{
    if x == 1 {
        if y == 1 {
            assert forall|q: int| 0 <= q < 22 implies !interior(q) by {
                lemma_xy(q);
            }
            lemma_interior_stretch(0, 22);
        } else {
            lemma_interior_row(y - 1, 20);
            assert forall|q: int| 21 * (y - 1) + 20 <= q < 21 * y + 1 implies !interior(q) by {
                lemma_xy(q);
            }
            lemma_interior_stretch(21 * (y - 1) + 20, 21 * y + 1);
        }
    } else {
        lemma_interior_row(y, x - 1);
        lemma_xy(21 * y + x - 1);
        assert(interior(21 * y + x - 1));
    }
}

/// Score symmetry, second half: a board fully tiled by black stones scores
/// one point per playing-area cell, so `score` returns twice 361 minus the
/// komi.
pub proof fn lemma_score_full_black()
    ensures
        spec_points(full_black_board()) == 361,
{
    lemma_full_black_upto(441);
    lemma_interior_row(19, 20);
    assert(interior_upto(419) == 361);
    assert forall|q: int| 419 <= q < 441 implies !interior(q) by {
        lemma_xy(q);
    }
    lemma_interior_stretch(419, 441);
}

} // verus!
