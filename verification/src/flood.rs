//! The string flood: connectivity at the specification level, and the
//! marker-based breadth-first fill that computes one string with its
//! liberties and adjacent opponents.

use vstd::prelude::*;
use vstd::set_lib::{lemma_int_range, lemma_len_subset, set_int_range};

use crate::board::{board_ok, interior, nbr, xof, yof, Position19};
use crate::gostring::GoString;
use crate::point::PointState;
use crate::scratch::{av_elems, av_get, av_len, av_push};

verus! {

/// A chain of cells in state `c`, of length at most `n`, joins `src` to
/// `dst` through cardinal adjacencies.
pub open spec fn reach(b: Seq<PointState>, c: PointState, src: int, dst: int, n: nat) -> bool
    decreases n,
{
    if dst == src {
        true
    } else if n == 0 {
        false
    } else {
        &&& 0 <= dst < 441
        &&& b[dst] == c
        &&& (reach(b, c, src, nbr(dst, 0), (n - 1) as nat) || reach(
            b,
            c,
            src,
            nbr(dst, 1),
            (n - 1) as nat,
        ) || reach(b, c, src, nbr(dst, 2), (n - 1) as nat) || reach(
            b,
            c,
            src,
            nbr(dst, 3),
            (n - 1) as nat,
        ))
    }
}

/// `dst` belongs to the same string as `src`: a chain of cells in `src`'s
/// state joins them.
#[verifier::opaque]
pub open spec fn connected(b: Seq<PointState>, src: int, dst: int) -> bool {
    exists|n: nat| reach(b, b[src], src, dst, n)
}

/// Some cardinal neighbour of `q` is an empty cell.
pub open spec fn has_lib_at(b: Seq<PointState>, q: int) -> bool {
    exists|k: int|
        0 <= k < 4 && 0 <= #[trigger] nbr(q, k) < 441 && b[nbr(q, k)] == PointState::Empty
}

/// The string of `src` has at least one liberty.
pub open spec fn comp_has_lib(b: Seq<PointState>, src: int) -> bool {
    exists|q: int| #[trigger] connected(b, src, q) && has_lib_at(b, q)
}

/// The opposite direction of neighbour `k`.
pub open spec fn mirror(k: int) -> int {
    if k == 0 {
        2
    } else if k == 1 {
        3
    } else if k == 2 {
        0
    } else {
        1
    }
}

pub proof fn lemma_nbr_mirror(q: int, k: int)
    requires
        0 <= k < 4,
    ensures
        nbr(nbr(q, k), mirror(k)) == q,
{
}

/// Every cell is in its own string.
pub proof fn lemma_connected_self(b: Seq<PointState>, src: int)
    ensures
        connected(b, src, src),
{
    reveal(connected);
    assert(reach(b, b[src], src, src, 0));
}

/// A same-state neighbour of a string member is a string member.
pub proof fn lemma_connected_extend(b: Seq<PointState>, src: int, q: int, k: int)
    requires
        connected(b, src, q),
        0 <= k < 4,
        0 <= nbr(q, k) < 441,
        b[nbr(q, k)] == b[src],
    ensures
        connected(b, src, nbr(q, k)),
{
    reveal(connected);
    let a = nbr(q, k);
    if a == src {
        lemma_connected_self(b, src);
    } else {
        let n = choose|n: nat| reach(b, b[src], src, q, n);
        let k2 = mirror(k);
        lemma_nbr_mirror(q, k);
        assert(nbr(a, k2) == q);
        assert(((n + 1) - 1) as nat == n);
        assert(reach(b, b[src], src, nbr(a, k2), ((n + 1) - 1) as nat));
        assert(reach(b, b[src], src, a, n + 1));
    }
}

/// A string member is either the seed itself or a cell in the seed's state.
pub proof fn lemma_connected_state(b: Seq<PointState>, src: int, dst: int)
    requires
        connected(b, src, dst),
    ensures
        dst == src || (0 <= dst < 441 && b[dst] == b[src]),
{
    reveal(connected);
    let n = choose|n: nat| reach(b, b[src], src, dst, n);
    assert(reach(b, b[src], src, dst, n));
}

/// A chain stays a chain when its length bound grows.
pub proof fn lemma_reach_weaken(b: Seq<PointState>, c: PointState, src: int, dst: int, n: nat, m: nat)
    requires
        reach(b, c, src, dst, n),
        n <= m,
    ensures
        reach(b, c, src, dst, m),
    decreases n,
{
    if dst != src {
        let k: int = if reach(b, c, src, nbr(dst, 0), (n - 1) as nat) {
            0
        } else if reach(b, c, src, nbr(dst, 1), (n - 1) as nat) {
            1
        } else if reach(b, c, src, nbr(dst, 2), (n - 1) as nat) {
            2
        } else {
            3
        };
        assert(reach(b, c, src, nbr(dst, k), (n - 1) as nat));
        lemma_reach_weaken(b, c, src, nbr(dst, k), (n - 1) as nat, (m - 1) as nat);
        assert(reach(b, c, src, dst, m));
    }
}

/// A chain survives any board change that keeps the state of the cells the
/// chain's string can use.
pub proof fn lemma_reach_mono(
    b1: Seq<PointState>,
    b2: Seq<PointState>,
    c: PointState,
    src: int,
    dst: int,
    n: nat,
)
    requires
        reach(b1, c, src, dst, n),
        b1[src] == c,
        forall|v: int| 0 <= v < 441 && b1[v] == c && #[trigger] connected(b1, src, v) ==> b2[v]
            == c,
    ensures
        reach(b2, c, src, dst, n),
    decreases n,
{
    reveal(connected);
    if dst != src {
        let k: int = if reach(b1, c, src, nbr(dst, 0), (n - 1) as nat) {
            0
        } else if reach(b1, c, src, nbr(dst, 1), (n - 1) as nat) {
            1
        } else if reach(b1, c, src, nbr(dst, 2), (n - 1) as nat) {
            2
        } else {
            3
        };
        assert(reach(b1, c, src, nbr(dst, k), (n - 1) as nat));
        lemma_reach_mono(b1, b2, c, src, nbr(dst, k), (n - 1) as nat);
        assert(connected(b1, src, dst));
        assert(b2[dst] == c);
        assert(reach(b2, c, src, dst, n));
    }
}

/// A chain from `m` becomes a chain from a neighbour `x` of `m`, one step
/// longer.
pub proof fn lemma_reach_prepend(
    b: Seq<PointState>,
    c: PointState,
    x: int,
    m: int,
    dst: int,
    kx: int,
    n: nat,
)
    requires
        reach(b, c, m, dst, n),
        b[m] == c,
        0 <= m < 441,
        0 <= kx < 4,
        nbr(x, kx) == m,
    ensures
        reach(b, c, x, dst, n + 1),
    decreases n,
{
    if dst == m {
        if m != x {
            let k2 = mirror(kx);
            lemma_nbr_mirror(x, kx);
            assert(nbr(m, k2) == x);
            assert(reach(b, c, x, nbr(m, k2), ((n + 1) - 1) as nat));
            assert(reach(b, c, x, m, n + 1));
        } else {
            assert(reach(b, c, x, dst, n + 1));
        }
    } else {
        let k: int = if reach(b, c, m, nbr(dst, 0), (n - 1) as nat) {
            0
        } else if reach(b, c, m, nbr(dst, 1), (n - 1) as nat) {
            1
        } else if reach(b, c, m, nbr(dst, 2), (n - 1) as nat) {
            2
        } else {
            3
        };
        assert(reach(b, c, m, nbr(dst, k), (n - 1) as nat));
        lemma_reach_prepend(b, c, x, m, nbr(dst, k), kx, (n - 1) as nat);
        assert(reach(b, c, x, nbr(dst, k), ((n + 1) - 1) as nat));
        assert(reach(b, c, x, dst, n + 1));
    }
}

/// Chains run both ways.
pub proof fn lemma_reach_sym(b: Seq<PointState>, c: PointState, src: int, dst: int, n: nat)
    requires
        reach(b, c, src, dst, n),
        b[src] == c,
        0 <= src < 441,
    ensures
        reach(b, c, dst, src, n),
    decreases n,
{
    if dst != src {
        let k: int = if reach(b, c, src, nbr(dst, 0), (n - 1) as nat) {
            0
        } else if reach(b, c, src, nbr(dst, 1), (n - 1) as nat) {
            1
        } else if reach(b, c, src, nbr(dst, 2), (n - 1) as nat) {
            2
        } else {
            3
        };
        let m = nbr(dst, k);
        assert(reach(b, c, src, m, (n - 1) as nat));
        lemma_reach_sym(b, c, src, m, (n - 1) as nat);
        if m == src {
            lemma_reach_prepend(b, c, dst, m, src, k, (n - 1) as nat);
        } else {
            lemma_reach_prepend(b, c, dst, m, src, k, (n - 1) as nat);
        }
        assert(reach(b, c, dst, src, n));
    }
}

/// Chains concatenate.
pub proof fn lemma_reach_trans(
    b: Seq<PointState>,
    c: PointState,
    a1: int,
    a2: int,
    a3: int,
    n1: nat,
    n2: nat,
)
    requires
        reach(b, c, a1, a2, n1),
        reach(b, c, a2, a3, n2),
    ensures
        reach(b, c, a1, a3, (n1 + n2) as nat),
    decreases n2,
{
    if a3 == a2 {
        lemma_reach_weaken(b, c, a1, a2, n1, (n1 + n2) as nat);
    } else {
        let k: int = if reach(b, c, a2, nbr(a3, 0), (n2 - 1) as nat) {
            0
        } else if reach(b, c, a2, nbr(a3, 1), (n2 - 1) as nat) {
            1
        } else if reach(b, c, a2, nbr(a3, 2), (n2 - 1) as nat) {
            2
        } else {
            3
        };
        assert(reach(b, c, a2, nbr(a3, k), (n2 - 1) as nat));
        lemma_reach_trans(b, c, a1, a2, nbr(a3, k), n1, (n2 - 1) as nat);
        assert(reach(b, c, a1, nbr(a3, k), ((n1 + n2) - 1) as nat));
        assert(reach(b, c, a1, a3, (n1 + n2) as nat));
    }
}

/// String membership is symmetric.
pub proof fn lemma_connected_sym(b: Seq<PointState>, p: int, q: int)
    requires
        connected(b, p, q),
        0 <= p < 441,
    ensures
        connected(b, q, p),
{
    reveal(connected);
    if q != p {
        let n = choose|n: nat| reach(b, b[p], p, q, n);
        assert(reach(b, b[p], p, q, n));
        assert(b[q] == b[p]);
        lemma_reach_sym(b, b[p], p, q, n);
        assert(reach(b, b[q], q, p, n));
    }
}

/// String membership is transitive.
pub proof fn lemma_connected_trans(b: Seq<PointState>, p: int, q: int, r: int)
    requires
        connected(b, p, q),
        connected(b, q, r),
    ensures
        connected(b, p, r),
{
    reveal(connected);
    if q == p {
    } else {
        let n1 = choose|n: nat| reach(b, b[p], p, q, n);
        let n2 = choose|n: nat| reach(b, b[q], q, r, n);
        assert(reach(b, b[p], p, q, n1));
        assert(b[q] == b[p]);
        assert(reach(b, b[p], q, r, n2));
        lemma_reach_trans(b, b[p], p, q, r, n1, n2);
    }
}

/// Everything reachable from a seed lies inside any set that contains the
/// seed and is closed under same-state adjacency.
pub proof fn lemma_closed_covers(
    b: Seq<PointState>,
    c: PointState,
    root: usize,
    s: Seq<usize>,
    dst: int,
    n: nat,
)
    requires
        root < 441,
        s.contains(root),
        forall|q: usize, k: int|
            #![trigger s.contains(q), nbr(q as int, k)]
            s.contains(q) && 0 <= k < 4 && 0 <= nbr(q as int, k) < 441 && b[nbr(q as int, k)] == c
                ==> s.contains(nbr(q as int, k) as usize),
        reach(b, c, root as int, dst, n),
    ensures
        s.contains(dst as usize),
    decreases n,
{
    if dst == root as int {
    } else {
        let k: int = if reach(b, c, root as int, nbr(dst, 0), (n - 1) as nat) {
            0
        } else if reach(b, c, root as int, nbr(dst, 1), (n - 1) as nat) {
            1
        } else if reach(b, c, root as int, nbr(dst, 2), (n - 1) as nat) {
            2
        } else {
            3
        };
        assert(reach(b, c, root as int, nbr(dst, k), (n - 1) as nat));
        let m = nbr(dst, k);
        lemma_closed_covers(b, c, root, s, m, (n - 1) as nat);
        assert(m == root as int || (0 <= m < 441 && b[m] == c));
        let k2 = mirror(k);
        lemma_nbr_mirror(dst, k);
        assert(nbr(m, k2) == dst);
        assert((m as usize) as int == m);
        assert(s.contains(nbr((m as usize) as int, k2) as usize));
    }
}

/// Pushing onto a sequence preserves membership, adds the new element, and
/// keeps the sequence duplicate-free when the element is new.
pub(crate) proof fn lemma_push_contains(s: Seq<usize>, x: usize)
    ensures
        forall|v: usize| #[trigger] s.push(x).contains(v) <==> (s.contains(v) || v == x),
        (s.no_duplicates() && !s.contains(x)) ==> s.push(x).no_duplicates(),
        forall|j: int| 0 <= j < s.len() ==> s.push(x)[j] == s[j],
{
    assert forall|v: usize| #[trigger] s.push(x).contains(v) implies (s.contains(v) || v
        == x) by {
        let i = choose|i: int| 0 <= i < s.push(x).len() && s.push(x)[i] == v;
        if i < s.len() {
            assert(s[i] == v);
        }
    }
    assert forall|v: usize| s.contains(v) || v == x implies #[trigger] s.push(x).contains(v) by {
        if s.contains(v) {
            let i = choose|i: int| 0 <= i < s.len() && s[i] == v;
            assert(s.push(x)[i] == v);
        } else {
            assert(s.push(x)[s.len() as int] == v);
        }
    }
}

/// A duplicate-free sequence of on-board points has at most 361 entries.
pub(crate) proof fn lemma_distinct_interior_len(s: Seq<usize>)
    requires
        s.no_duplicates(),
        forall|v: usize| #[trigger] s.contains(v) ==> interior(v as int),
    ensures
        s.len() <= 361,
{
    assert forall|i: int| 0 <= i < s.len() implies interior(s[i] as int) by {
        assert(s.contains(s[i]));
    }
    let t = Seq::new(s.len(), |i: int| (xof(s[i] as int) - 1) + 19 * (yof(s[i] as int) - 1));
    assert forall|i: int, j: int|
        0 <= i < t.len() && 0 <= j < t.len() && i != j implies t[i] != t[j] by {
        let pi = s[i] as int;
        let pj = s[j] as int;
        assert(s[i] != s[j]);
        if t[i] == t[j] {
            assert(xof(pi) == xof(pj) && yof(pi) == yof(pj)) by (nonlinear_arith)
                requires
                    (xof(pi) - 1) + 19 * (yof(pi) - 1) == (xof(pj) - 1) + 19 * (yof(pj) - 1),
                    1 <= xof(pi) <= 19,
                    1 <= yof(pi) <= 19,
                    1 <= xof(pj) <= 19,
                    1 <= yof(pj) <= 19,
            ;
            assert(pi == 21 * yof(pi) + xof(pi)) by (nonlinear_arith);
            assert(pj == 21 * yof(pj) + xof(pj)) by (nonlinear_arith);
            assert(false);
        }
    }
    assert(t.no_duplicates());
    t.unique_seq_to_set();
    assert forall|e: int| t.to_set().contains(e) implies set_int_range(0, 361).contains(e) by {
        let i = choose|i: int| 0 <= i < t.len() && t[i] == e;
        assert(interior(s[i] as int));
        assert(0 <= t[i] < 361);
    }
    assert(t.to_set().subset_of(set_int_range(0, 361)));
    lemma_int_range(0, 361);
    lemma_len_subset(t.to_set(), set_int_range(0, 361));
}

/// Classification of one cell against a flood result: a same-state cell is
/// among the stones, an empty cell among the liberties, an opposing stone
/// among the opponents.
pub open spec fn classified(b: Seq<PointState>, c: PointState, gs: GoString, a: int) -> bool {
    0 <= a < 441 ==> {
        &&& (b[a] == c ==> gs.pts().contains(a as usize))
        &&& (b[a] == PointState::Empty ==> gs.libs().contains(a as usize))
        &&& (b[a] == c.spec_opponent() ==> gs.opps().contains(a as usize))
    }
}

/// Some member of `s` is cardinally adjacent to `a`.
pub open spec fn adj_to(s: Seq<usize>, a: usize) -> bool {
    exists|q: usize, k: int|
        s.contains(q) && 0 <= k < 4 && #[trigger] nbr(q as int, k) == a as int && #[trigger]
        s.contains(q)
}

/// One visit of the flood: an unvisited cell is marked, and appended to
/// the stone list when it carries the string's state.
pub open spec fn flood_visit_spec(
    b: Seq<PointState>,
    c: PointState,
    pts: Seq<usize>,
    marked: Set<int>,
    a: int,
) -> (Seq<usize>, Set<int>) {
    if !marked.contains(a) {
        if b[a] == c {
            (pts.push(a as usize), marked.insert(a))
        } else {
            (pts, marked.insert(a))
        }
    } else {
        (pts, marked)
    }
}

/// Processing one string member: its four neighbours are visited in north,
/// east, south, west order.
pub open spec fn flood_point_spec(
    b: Seq<PointState>,
    c: PointState,
    pts: Seq<usize>,
    marked: Set<int>,
    q: int,
) -> (Seq<usize>, Set<int>) {
    let r0 = flood_visit_spec(b, c, pts, marked, q - 21);
    let r1 = flood_visit_spec(b, c, r0.0, r0.1, q + 1);
    let r2 = flood_visit_spec(b, c, r1.0, r1.1, q + 21);
    flood_visit_spec(b, c, r2.0, r2.1, q - 1)
}

/// The flood's walk from position `index` on: each listed stone is
/// processed in turn until the walk reaches the end of the list. The fuel
/// only serves termination; 441 is more than the walk can ever consume.
pub open spec fn flood_run(
    b: Seq<PointState>,
    c: PointState,
    pts: Seq<usize>,
    marked: Set<int>,
    index: nat,
    fuel: nat,
) -> Seq<usize>
    decreases fuel,
{
    if fuel == 0 || index >= pts.len() {
        pts
    } else {
        let r = flood_point_spec(b, c, pts, marked, pts[index as int] as int);
        flood_run(b, c, r.0, r.1, (index + 1) as nat, (fuel - 1) as nat)
    }
}

/// The exact stone sequence the flood discovers for the seed `pt`: the
/// seed first, then breadth first, each member's neighbours examined in
/// north, east, south, west order.
pub open spec fn flood_pts(b: Seq<PointState>, pt: usize) -> Seq<usize> {
    flood_run(b, b[pt as int], seq![pt], Set::empty().insert(pt as int), 0, 441)
}

/// A faithful flood result for the seed `pt` on board `b`: duplicate-free
/// sequences, every listed stone a member of `pt`'s string, every liberty an
/// adjacent empty cell, every opponent an adjacent opposing stone, the
/// stone list closed over the four neighbours of each of its members, and
/// the stones listed exactly in the flood's discovery order.
pub open spec fn gs_wf(b: Seq<PointState>, pt: usize, gs: GoString) -> bool {
    let c = b[pt as int];
    &&& gs.pts() == flood_pts(b, pt)
    &&& gs.pts().no_duplicates()
    &&& gs.libs().no_duplicates()
    &&& gs.opps().no_duplicates()
    &&& gs.pts().contains(pt)
    &&& forall|q: usize| #[trigger]
        gs.pts().contains(q) ==> interior(q as int) && b[q as int] == c && connected(
            b,
            pt as int,
            q as int,
        )
    &&& forall|a: usize| #[trigger]
        gs.libs().contains(a) ==> a < 441 && b[a as int] == PointState::Empty && adj_to(
            gs.pts(),
            a,
        )
    &&& forall|a: usize| #[trigger]
        gs.opps().contains(a) ==> a < 441 && b[a as int] == c.spec_opponent() && adj_to(
            gs.pts(),
            a,
        )
    &&& forall|q: usize, k: int|
        #![trigger gs.pts().contains(q), nbr(q as int, k)]
        gs.pts().contains(q) && 0 <= k < 4 ==> classified(b, c, gs, nbr(q as int, k))
}

/// What the flood keeps true while it runs.
spec fn flood_inv(pos: Position19, gs: GoString, pt: usize, c: PointState) -> bool {
    let b = pos.board();
    &&& gs.pts().no_duplicates()
    &&& gs.libs().no_duplicates()
    &&& gs.opps().no_duplicates()
    &&& gs.pts().contains(pt)
    &&& forall|q: usize| #[trigger]
        gs.pts().contains(q) ==> interior(q as int) && b[q as int] == c && connected(
            b,
            pt as int,
            q as int,
        ) && pos.spec_marked(q as int)
    &&& forall|a: usize| #[trigger]
        gs.libs().contains(a) ==> a < 441 && b[a as int] == PointState::Empty && pos.spec_marked(
            a as int,
        ) && adj_to(gs.pts(), a)
    &&& forall|a: usize| #[trigger]
        gs.opps().contains(a) ==> a < 441 && b[a as int] == c.spec_opponent() && pos.spec_marked(
            a as int,
        ) && adj_to(gs.pts(), a)
    &&& forall|a: int|
        0 <= a < 441 && #[trigger] pos.spec_marked(a) ==> classified(b, c, gs, a)
}

/// The flood's stone list is exactly the string of its seed, and its
/// liberty list is empty exactly when that string has no liberty.
pub proof fn lemma_gs_exact(b: Seq<PointState>, pt: usize, gs: GoString)
    requires
        board_ok(b),
        interior(pt as int),
        b[pt as int].spec_is_stone(),
        gs_wf(b, pt, gs),
    ensures
        forall|q: int|
            #[trigger] connected(b, pt as int, q) ==> 0 <= q < 441 && gs.pts().contains(q as usize),
        (gs.libs().len() == 0) <==> !comp_has_lib(b, pt as int),
{
    let c = b[pt as int];
    assert forall|q: int| #[trigger] connected(b, pt as int, q) implies 0 <= q < 441
        && gs.pts().contains(q as usize) by {
        lemma_connected_state(b, pt as int, q);
        reveal(connected);
        let n = choose|n: nat| reach(b, c, pt as int, q, n);
        assert forall|qq: usize, kk: int|
            #![trigger gs.pts().contains(qq), nbr(qq as int, kk)]
            gs.pts().contains(qq) && 0 <= kk < 4 && 0 <= nbr(qq as int, kk) < 441 && b[nbr(
                qq as int,
                kk,
            )] == c implies gs.pts().contains(nbr(qq as int, kk) as usize) by {
            assert(classified(b, c, gs, nbr(qq as int, kk)));
        }
        lemma_closed_covers(b, c, pt, gs.pts(), q, n);
    }
    if gs.libs().len() == 0 {
        if comp_has_lib(b, pt as int) {
            let q = choose|q: int| #[trigger] connected(b, pt as int, q) && has_lib_at(b, q);
            assert(gs.pts().contains(q as usize));
            let k = choose|k: int|
                0 <= k < 4 && 0 <= #[trigger] nbr(q, k) < 441 && b[nbr(q, k)]
                    == PointState::Empty;
            assert(classified(b, c, gs, nbr(q as usize as int, k)));
            assert(gs.libs().contains(nbr(q, k) as usize));
            let i = choose|i: int| 0 <= i < gs.libs().len() && gs.libs()[i] == nbr(q, k) as usize;
            assert(false);
        }
    } else {
        let a = gs.libs()[0];
        assert(gs.libs().contains(a));
        let (q, k): (usize, int) = choose|q: usize, k: int|
            gs.pts().contains(q) && 0 <= k < 4 && #[trigger] nbr(q as int, k) == a as int;
        assert(connected(b, pt as int, q as int));
        assert(has_lib_at(b, q as int));
        assert(comp_has_lib(b, pt as int));
    }
}

/// The three sequences of a flood result are pairwise disjoint: a cell is
/// a stone of the string, a liberty, or an adjacent opponent, never two of
/// those at once.
pub proof fn lemma_gs_disjoint(b: Seq<PointState>, pt: usize, gs: GoString)
    requires
        b[pt as int].spec_is_stone(),
        gs_wf(b, pt, gs),
    ensures
        forall|v: usize|
            #[trigger] gs.pts().contains(v) ==> !gs.libs().contains(v) && !gs.opps().contains(v),
        forall|v: usize| #[trigger] gs.libs().contains(v) ==> !gs.opps().contains(v),
{
    let c = b[pt as int];
    assert(c != PointState::Empty);
    assert(c != c.spec_opponent());
    assert(PointState::Empty != c.spec_opponent());
}

/// Inside an isolated cell's string there is nothing but the cell itself.
proof fn lemma_isolated(b: Seq<PointState>, c: PointState, src: int, dst: int, n: nat)
    requires
        forall|k: int| 0 <= k < 4 ==> b[#[trigger] nbr(src, k)] != c,
        reach(b, c, src, dst, n),
    ensures
        dst == src,
    decreases n,
{
    if dst != src {
        let k: int = if reach(b, c, src, nbr(dst, 0), (n - 1) as nat) {
            0
        } else if reach(b, c, src, nbr(dst, 1), (n - 1) as nat) {
            1
        } else if reach(b, c, src, nbr(dst, 2), (n - 1) as nat) {
            2
        } else {
            3
        };
        assert(reach(b, c, src, nbr(dst, k), (n - 1) as nat));
        lemma_isolated(b, c, src, nbr(dst, k), (n - 1) as nat);
        lemma_nbr_mirror(dst, k);
        assert(b[nbr(src, mirror(k))] != c);
        assert(false);
    }
}

/// A flood result has exactly one stone precisely when no neighbour of the
/// seed carries its colour; the liberties are then exactly the seed's empty
/// neighbours.
pub proof fn lemma_singleton(b: Seq<PointState>, pt: usize, gs: GoString)
    requires
        board_ok(b),
        interior(pt as int),
        b[pt as int].spec_is_stone(),
        gs_wf(b, pt, gs),
    ensures
        (gs.pts().len() == 1) <==> (forall|k: int|
            0 <= k < 4 ==> b[#[trigger] nbr(pt as int, k)] != b[pt as int]),
        gs.pts().len() == 1 ==> forall|a: usize|
            #[trigger] gs.libs().contains(a) <==> exists|k: int|
                0 <= k < 4 && #[trigger] nbr(pt as int, k) == a as int && b[a as int]
                    == PointState::Empty,
{
    let c = b[pt as int];
    let i0 = choose|i: int| 0 <= i < gs.pts().len() && gs.pts()[i] == pt;
    if gs.pts().len() == 1 {
        assert forall|k: int| 0 <= k < 4 implies b[#[trigger] nbr(pt as int, k)] != c by {
            if b[nbr(pt as int, k)] == c {
                assert(classified(b, c, gs, nbr(pt as int, k)));
                assert(gs.pts().contains(nbr(pt as int, k) as usize));
                let j = choose|j: int|
                    0 <= j < gs.pts().len() && gs.pts()[j] == nbr(pt as int, k) as usize;
                assert(j == i0);
                assert(nbr(pt as int, k) == pt as int);
                assert(false);
            }
        }
        assert forall|a: usize| #[trigger] gs.libs().contains(a) implies exists|k: int|
            0 <= k < 4 && #[trigger] nbr(pt as int, k) == a as int && b[a as int]
                == PointState::Empty by {
            let (q, k): (usize, int) = choose|q: usize, k: int|
                gs.pts().contains(q) && 0 <= k < 4 && #[trigger] nbr(q as int, k) == a as int;
            let j = choose|j: int| 0 <= j < gs.pts().len() && gs.pts()[j] == q;
            assert(j == i0);
            assert(q == pt);
        }
        assert forall|a: usize|
            (exists|k: int|
                0 <= k < 4 && #[trigger] nbr(pt as int, k) == a as int && b[a as int]
                    == PointState::Empty) implies #[trigger] gs.libs().contains(a) by {
            let k = choose|k: int| 0 <= k < 4 && nbr(pt as int, k) == a as int;
            assert(classified(b, c, gs, nbr(pt as int, k)));
        }
    }
    if forall|k: int| 0 <= k < 4 ==> b[#[trigger] nbr(pt as int, k)] != c {
        assert forall|j: int| 0 <= j < gs.pts().len() implies gs.pts()[j] == pt by {
            let q = gs.pts()[j];
            assert(gs.pts().contains(q));
            assert(connected(b, pt as int, q as int));
            reveal(connected);
            let n = choose|n: nat| reach(b, c, pt as int, q as int, n);
            lemma_isolated(b, c, pt as int, q as int, n);
        }
        if gs.pts().len() != 1 {
            assert(gs.pts().len() >= 1);
            assert(gs.pts()[0] == pt && gs.pts()[1] == pt);
            assert(false);
        }
    }
}

impl Position19 {
    /// Handles one neighbour (direction `k`) of the string member `q`
    /// during a flood for the seed `pt`.
    fn flood_step(&mut self, gs: &mut GoString, pt: usize, q: usize, k: usize, stone: PointState)
        requires
            old(self).wf(),
            interior(pt as int),
            stone == old(self).board()[pt as int],
            stone.spec_is_stone(),
            interior(q as int),
            old(gs).pts().contains(q),
            k < 4,
            flood_inv(*old(self), *old(gs), pt, stone),
        ensures
            final(self).wf(),
            final(self).board() == old(self).board(),
            final(self).spec_turn() == old(self).spec_turn(),
            final(self).spec_ko() == old(self).spec_ko(),
            final(self).spec_komi() == old(self).spec_komi(),
            flood_inv(*final(self), *final(gs), pt, stone),
            forall|i: int|
                0 <= i < 441 ==> (final(self).spec_marked(i) <==> (old(self).spec_marked(i) || i
                    == nbr(q as int, k as int))),
            final(gs).pts() == (if !old(self).spec_marked(nbr(q as int, k as int)) && old(self).board()[nbr(q as int, k as int)] == stone {
                old(gs).pts().push(nbr(q as int, k as int) as usize)
            } else {
                old(gs).pts()
            }),
            forall|j: int| 0 <= j < old(gs).pts().len() ==> final(gs).pts()[j] == old(gs).pts()[j],
            old(gs).pts().len() <= final(gs).pts().len(),
            classified(old(self).board(), stone, *final(gs), nbr(q as int, k as int)),
            forall|a: int|
                classified(old(self).board(), stone, *old(gs), a) ==> classified(
                    old(self).board(),
                    stone,
                    *final(gs),
                    a,
                ),
    {
        let ghost b = old(self).board();
        let a: usize = if k == 0 {
            q - 21
        } else if k == 1 {
            q + 1
        } else if k == 2 {
            q + 21
        } else {
            q - 1
        };
        proof {
            assert(a as int == nbr(q as int, k as int));
            assert(0 <= a < 441);
        }
        if !self.marker_is_marked(a) {
            let s = self.state(a);
            self.marker_mark(a);
            if s == stone {
                proof {
                    assert(a < 441 && b[a as int] != PointState::Out);
                    assert(interior(a as int));
                    assert(!gs.pts().contains(a));
                    assert forall|v: usize| #[trigger] gs.pts().contains(v) implies interior(
                        v as int,
                    ) by {}
                    lemma_distinct_interior_len(gs.pts());
                    lemma_push_contains(gs.pts(), a);
                    lemma_connected_extend(b, pt as int, q as int, k as int);
                }
                av_push(&mut gs.points, a);
                proof {
                    assert forall|v: usize| #[trigger] gs.libs().contains(v) implies adj_to(
                        gs.pts(),
                        v,
                    ) by {
                        assert(adj_to(old(gs).pts(), v));
                        let (qq, kk): (usize, int) = choose|qq: usize, kk: int|
                            old(gs).pts().contains(qq) && 0 <= kk < 4 && nbr(qq as int, kk)
                                == v as int;
                        assert(gs.pts().contains(qq));
                    }
                    assert forall|v: usize| #[trigger] gs.opps().contains(v) implies adj_to(
                        gs.pts(),
                        v,
                    ) by {
                        assert(adj_to(old(gs).pts(), v));
                        let (qq, kk): (usize, int) = choose|qq: usize, kk: int|
                            old(gs).pts().contains(qq) && 0 <= kk < 4 && nbr(qq as int, kk)
                                == v as int;
                        assert(gs.pts().contains(qq));
                    }
                }
            } else if s == PointState::Empty {
                proof {
                    assert(!gs.libs().contains(a));
                    assert forall|v: usize| #[trigger] gs.libs().contains(v) implies interior(
                        v as int,
                    ) by {
                        assert(b[v as int] == PointState::Empty);
                    }
                    lemma_distinct_interior_len(gs.libs());
                    lemma_push_contains(gs.libs(), a);
                    assert(adj_to(gs.pts(), a));
                }
                av_push(&mut gs.liberties, a);
            } else {
                let o = stone.opponent();
                if s == o {
                    proof {
                        assert(!gs.opps().contains(a));
                        assert forall|v: usize| #[trigger] gs.opps().contains(v) implies interior(
                            v as int,
                        ) by {
                            assert(b[v as int] == stone.spec_opponent());
                            assert(b[v as int] != PointState::Out);
                        }
                        lemma_distinct_interior_len(gs.opps());
                        lemma_push_contains(gs.opps(), a);
                        assert(adj_to(gs.pts(), a));
                    }
                    av_push(&mut gs.opponents, a);
                }
            }
        }
    }

    /// The string of the stone at `pt`: its maximal 4-connected set of
    /// same-coloured stones, listed in discovery order (the seed first,
    /// then breadth first, neighbours in north, east, south, west order),
    /// the distinct empty cells adjacent to that set, and the distinct
    /// opposing stones adjacent to it. Only the scratch marker changes; the
    /// board, turn, ko and komi stay as they were.
    #[verifier::rlimit(100)]
    pub fn string_at(&mut self, pt: usize) -> (gs: GoString)
        requires
            old(self).wf(),
            pt < 441,
            old(self).board()[pt as int].spec_is_stone(),
        ensures
            final(self).wf(),
            final(self).board() == old(self).board(),
            final(self).spec_turn() == old(self).spec_turn(),
            final(self).spec_ko() == old(self).spec_ko(),
            final(self).spec_komi() == old(self).spec_komi(),
            gs_wf(old(self).board(), pt, gs),
    {
        let ghost b = old(self).board();
        proof {
            assert(interior(pt as int));
        }
        let stone = self.state(pt);
        self.marker_clear();
        let mut gs = GoString::new();
        proof {
            lemma_push_contains(gs.pts(), pt);
            lemma_connected_self(b, pt as int);
        }
        av_push(&mut gs.points, pt);
        self.marker_mark(pt);
        let ghost mut mset: Set<int> = Set::empty().insert(pt as int);
        proof {
            assert(gs.pts() =~= seq![pt]);
        }
        let mut index: usize = 0;
        while index < av_len(&gs.points)
            invariant
                self.wf(),
                self.board() == old(self).board(),
                self.spec_turn() == old(self).spec_turn(),
                self.spec_ko() == old(self).spec_ko(),
                self.spec_komi() == old(self).spec_komi(),
                interior(pt as int),
                b == old(self).board(),
                stone == old(self).board()[pt as int],
                stone.spec_is_stone(),
                flood_inv(*self, gs, pt, stone),
                index <= gs.pts().len(),
                gs.pts().len() <= 361,
                forall|i: int| 0 <= i < 441 ==> (self.spec_marked(i) <==> mset.contains(i)),
                flood_run(
                    old(self).board(),
                    stone,
                    gs.pts(),
                    mset,
                    index as nat,
                    (441 - index) as nat,
                ) == flood_pts(old(self).board(), pt),
                forall|j: int, k: int|
                    #![trigger nbr(gs.pts()[j] as int, k)]
                    0 <= j < index && 0 <= k < 4 ==> classified(
                        old(self).board(),
                        stone,
                        gs,
                        nbr(gs.pts()[j] as int, k),
                    ),
            decreases 362 - index,
        {
            let q = av_get(&gs.points, index);
            let ghost pts0 = gs.pts();
            let ghost m0 = mset;
            proof {
                assert(gs.pts().contains(q));
            }
            self.flood_step(&mut gs, pt, q, 0, stone);
            proof {
                assert(gs.pts()[index as int] == q);
                assert(gs.pts().contains(q));
                let st = flood_visit_spec(b, stone, pts0, m0, nbr(q as int, 0));
                assert(gs.pts() == st.0);
                mset = st.1;
                assert forall|i: int| 0 <= i < 441 implies (self.spec_marked(i)
                    <==> mset.contains(i)) by {}
            }
            self.flood_step(&mut gs, pt, q, 1, stone);
            proof {
                assert(gs.pts()[index as int] == q);
                assert(gs.pts().contains(q));
                let prev = flood_visit_spec(b, stone, pts0, m0, nbr(q as int, 0));
                let st = flood_visit_spec(b, stone, prev.0, prev.1, nbr(q as int, 1));
                assert(gs.pts() == st.0);
                mset = st.1;
                assert forall|i: int| 0 <= i < 441 implies (self.spec_marked(i)
                    <==> mset.contains(i)) by {}
            }
            self.flood_step(&mut gs, pt, q, 2, stone);
            proof {
                assert(gs.pts()[index as int] == q);
                assert(gs.pts().contains(q));
                let p0 = flood_visit_spec(b, stone, pts0, m0, nbr(q as int, 0));
                let p1 = flood_visit_spec(b, stone, p0.0, p0.1, nbr(q as int, 1));
                let st = flood_visit_spec(b, stone, p1.0, p1.1, nbr(q as int, 2));
                assert(gs.pts() == st.0);
                mset = st.1;
                assert forall|i: int| 0 <= i < 441 implies (self.spec_marked(i)
                    <==> mset.contains(i)) by {}
            }
            self.flood_step(&mut gs, pt, q, 3, stone);
            proof {
                assert(gs.pts()[index as int] == q);
                let p0 = flood_visit_spec(b, stone, pts0, m0, nbr(q as int, 0));
                let p1 = flood_visit_spec(b, stone, p0.0, p0.1, nbr(q as int, 1));
                let p2 = flood_visit_spec(b, stone, p1.0, p1.1, nbr(q as int, 2));
                let st = flood_visit_spec(b, stone, p2.0, p2.1, nbr(q as int, 3));
                assert(gs.pts() == st.0);
                mset = st.1;
                assert forall|i: int| 0 <= i < 441 implies (self.spec_marked(i)
                    <==> mset.contains(i)) by {}
                assert(flood_point_spec(b, stone, pts0, m0, q as int) == (gs.pts(), mset));
                assert(pts0[index as int] == q);
                assert((441 - index) as nat != 0);
                assert(flood_run(b, stone, pts0, m0, index as nat, (441 - index) as nat)
                    == flood_run(
                    b,
                    stone,
                    gs.pts(),
                    mset,
                    (index + 1) as nat,
                    (441 - (index + 1)) as nat,
                ));
                lemma_distinct_interior_len(gs.pts());
            }
            index = index + 1;
        }
        proof {
            assert(flood_run(b, stone, gs.pts(), mset, index as nat, (441 - index) as nat)
                == gs.pts());
            assert(gs.pts() == flood_pts(b, pt));
        }
        proof {
            assert forall|q: usize, k: int|
                #![trigger gs.pts().contains(q), nbr(q as int, k)]
                gs.pts().contains(q) && 0 <= k < 4 implies classified(
                b,
                b[pt as int],
                gs,
                nbr(q as int, k),
            ) by {
                let j = choose|j: int| 0 <= j < gs.pts().len() && gs.pts()[j] == q;
                assert(classified(b, stone, gs, nbr(gs.pts()[j] as int, k)));
            }
        }
        gs
    }
}

} // verus!
