//! Breadth-first distances on a grid of bytes.

use vstd::prelude::*;
use crate::grid::{spec_step, unit_step, Grid, Point};

verus! {

/// The marker of a cell that the search did not reach.
pub const NOT_REACHED: u16 = 0xffffu16;

/// Cell `q` can be walked on: it lies in the grid and holds `b` (where `eq`) or anything
/// but `b` (where not).
pub open spec fn passable(m: Seq<u8>, w: int, h: int, b: u8, eq: bool, q: Point) -> bool {
    0 <= q.x < w && 0 <= q.y < h && (if eq { m[q.x + q.y * w] == b } else { m[q.x + q.y * w] != b })
}

/// `q` is `p` moved by the `k`th unit step.
pub open spec fn hits(p: Point, k: int, q: Point) -> bool {
    q.x == p.x + spec_step(k).x && q.y == p.y + spec_step(k).y
}

/// `q` is one unit step from `p`.
pub open spec fn adjacent(p: Point, q: Point) -> bool {
    exists|k: int| 0 <= k < 4 && #[trigger] hits(p, k, q)
}

/// The cells within `k` steps of `src`, every step onto a passable cell.
pub open spec fn reach(m: Seq<u8>, w: int, h: int, b: u8, eq: bool, src: Point, k: nat) -> Set<Point>
    decreases k,
{
    if k == 0 {
        set![src]
    } else {
        let r = reach(m, w, h, b, eq, src, (k - 1) as nat);
        r.union(Set::new(|q: Point| passable(m, w, h, b, eq, q) && exists|p: Point| #[trigger] r.contains(p) && adjacent(p, q)))
    }
}

/// `k` is the number of steps from `src` to `q`.
pub open spec fn is_dist(m: Seq<u8>, w: int, h: int, b: u8, eq: bool, src: Point, q: Point, k: nat) -> bool {
    reach(m, w, h, b, eq, src, k).contains(q) && (k == 0 || !reach(m, w, h, b, eq, src, (k - 1) as nat).contains(q))
}

/// The number of steps from `src` to `q`, or `NOT_REACHED` where `q` cannot be reached.
pub open spec fn distance(m: Seq<u8>, w: int, h: int, b: u8, eq: bool, src: Point, q: Point) -> int {
    if exists|k: nat| #[trigger] reach(m, w, h, b, eq, src, k).contains(q) {
        (choose|k: nat| is_dist(m, w, h, b, eq, src, q, k)) as int
    } else {
        NOT_REACHED as int
    }
}

pub proof fn lemma_reach_mono(m: Seq<u8>, w: int, h: int, b: u8, eq: bool, src: Point, j: nat, k: nat)
    requires
        j <= k,
    ensures
        reach(m, w, h, b, eq, src, j).subset_of(reach(m, w, h, b, eq, src, k)),
    decreases k,
{
    if j < k {
        lemma_reach_mono(m, w, h, b, eq, src, j, (k - 1) as nat);
    }
}

/// The least number of steps to a reachable cell exists, and is the only one.
pub proof fn lemma_dist_exists(m: Seq<u8>, w: int, h: int, b: u8, eq: bool, src: Point, q: Point, k: nat)
    requires
        reach(m, w, h, b, eq, src, k).contains(q),
    ensures
        exists|j: nat| is_dist(m, w, h, b, eq, src, q, j),
    decreases k,
{
    if k > 0 && reach(m, w, h, b, eq, src, (k - 1) as nat).contains(q) {
        lemma_dist_exists(m, w, h, b, eq, src, q, (k - 1) as nat);
    } else {
        assert(is_dist(m, w, h, b, eq, src, q, k));
    }
}

pub proof fn lemma_dist_unique(m: Seq<u8>, w: int, h: int, b: u8, eq: bool, src: Point, q: Point, j: nat, k: nat)
    requires
        is_dist(m, w, h, b, eq, src, q, j),
        is_dist(m, w, h, b, eq, src, q, k),
    ensures
        j == k,
{
    if j < k {
        lemma_reach_mono(m, w, h, b, eq, src, j, (k - 1) as nat);
    }
    if k < j {
        lemma_reach_mono(m, w, h, b, eq, src, k, (j - 1) as nat);
    }
}

/// Where `q` is `k` steps from `src`, `distance` says so.
pub proof fn lemma_distance_is(m: Seq<u8>, w: int, h: int, b: u8, eq: bool, src: Point, q: Point, k: nat)
    requires
        is_dist(m, w, h, b, eq, src, q, k),
    ensures
        distance(m, w, h, b, eq, src, q) == k,
{
    let j = choose|j: nat| is_dist(m, w, h, b, eq, src, q, j);
    lemma_dist_unique(m, w, h, b, eq, src, q, j, k);
}

/// A cell reached within `d` steps is at most `d` steps away.
pub proof fn lemma_distance_le(m: Seq<u8>, w: int, h: int, b: u8, eq: bool, src: Point, q: Point, d: nat)
    requires
        reach(m, w, h, b, eq, src, d).contains(q),
    ensures
        distance(m, w, h, b, eq, src, q) <= d,
{
    lemma_dist_exists(m, w, h, b, eq, src, q, d);
    let j = choose|j: nat| is_dist(m, w, h, b, eq, src, q, j);
    if j > d {
        lemma_reach_mono(m, w, h, b, eq, src, d, (j - 1) as nat);
    }
    lemma_distance_is(m, w, h, b, eq, src, q, j);
}

/// Once a round of steps reaches no new cell, no later round does.
pub proof fn lemma_reach_stable(m: Seq<u8>, w: int, h: int, b: u8, eq: bool, src: Point, d: nat, k: nat)
    requires
        reach(m, w, h, b, eq, src, d + 1) == reach(m, w, h, b, eq, src, d),
        d <= k,
    ensures
        reach(m, w, h, b, eq, src, k) == reach(m, w, h, b, eq, src, d),
    decreases k,
{
    if k > d + 1 {
        lemma_reach_stable(m, w, h, b, eq, src, d, (k - 1) as nat);
        assert(reach(m, w, h, b, eq, src, k) =~= reach(m, w, h, b, eq, src, d + 1));
    }
}

/// `q` can be reached from `src` in some number of steps.
pub open spec fn reachable(m: Seq<u8>, w: int, h: int, b: u8, eq: bool, src: Point, q: Point) -> bool {
    exists|k: nat| #[trigger] reach(m, w, h, b, eq, src, k).contains(q)
}

/// Every cell passable in `m2` is passable in `m`.
pub open spec fn fewer(m2: Seq<u8>, m: Seq<u8>, w: int, h: int, b: u8, eq: bool) -> bool {
    forall|q: Point| #[trigger] passable(m2, w, h, b, eq, q) ==> passable(m, w, h, b, eq, q)
}

/// With fewer passable cells, no more cells are reached.
pub proof fn lemma_reach_fewer(m2: Seq<u8>, m: Seq<u8>, w: int, h: int, b: u8, eq: bool, src: Point, k: nat)
    requires
        fewer(m2, m, w, h, b, eq),
    ensures
        reach(m2, w, h, b, eq, src, k).subset_of(reach(m, w, h, b, eq, src, k)),
    decreases k,
{
    if k > 0 {
        lemma_reach_fewer(m2, m, w, h, b, eq, src, (k - 1) as nat);
        let r2 = reach(m2, w, h, b, eq, src, (k - 1) as nat);
        let r = reach(m, w, h, b, eq, src, (k - 1) as nat);
        assert forall|q: Point| reach(m2, w, h, b, eq, src, k).contains(q) implies reach(m, w, h, b, eq, src, k).contains(q) by {
            if !r2.contains(q) {
                let p = choose|p: Point| #[trigger] r2.contains(p) && adjacent(p, q);
                assert(r.contains(p));
            }
        }
    }
}

/// Walling off cells that cannot be reached changes no reach.
pub proof fn lemma_reach_walled(m2: Seq<u8>, m: Seq<u8>, w: int, h: int, b: u8, eq: bool, src: Point, k: nat)
    requires
        fewer(m2, m, w, h, b, eq),
        forall|q: Point| passable(m, w, h, b, eq, q) && !passable(m2, w, h, b, eq, q) ==> !#[trigger] reachable(m, w, h, b, eq, src, q),
    ensures
        reach(m2, w, h, b, eq, src, k) == reach(m, w, h, b, eq, src, k),
    decreases k,
{
    lemma_reach_fewer(m2, m, w, h, b, eq, src, k);
    if k > 0 {
        lemma_reach_walled(m2, m, w, h, b, eq, src, (k - 1) as nat);
        let r = reach(m, w, h, b, eq, src, (k - 1) as nat);
        assert forall|q: Point| reach(m, w, h, b, eq, src, k).contains(q) implies reach(m2, w, h, b, eq, src, k).contains(q) by {
            if !r.contains(q) {
                if !passable(m2, w, h, b, eq, q) {
                    assert(reachable(m, w, h, b, eq, src, q));
                }
            }
        }
        assert(reach(m2, w, h, b, eq, src, k) =~= reach(m, w, h, b, eq, src, k));
    }
}

/// A cell `d > 0` steps away has a neighbour `d - 1` steps away.
pub proof fn lemma_parent(m: Seq<u8>, w: int, h: int, b: u8, eq: bool, src: Point, q: Point, d: nat)
    requires
        d > 0,
        is_dist(m, w, h, b, eq, src, q, d),
    ensures
        exists|p: Point| #[trigger] adjacent(p, q) && is_dist(m, w, h, b, eq, src, p, (d - 1) as nat),
{
    let r = reach(m, w, h, b, eq, src, (d - 1) as nat);
    let p = choose|p: Point| #[trigger] r.contains(p) && adjacent(p, q);
    lemma_dist_exists(m, w, h, b, eq, src, p, (d - 1) as nat);
    let j = choose|j: nat| is_dist(m, w, h, b, eq, src, p, j);
    if j > d - 1 {
        lemma_reach_mono(m, w, h, b, eq, src, (d - 1) as nat, (j - 1) as nat);
    }
    if j < d - 1 {
        assert(reach(m, w, h, b, eq, src, j + 1).contains(q));
        lemma_reach_mono(m, w, h, b, eq, src, j + 1, (d - 1) as nat);
    }
    assert(is_dist(m, w, h, b, eq, src, p, (d - 1) as nat));
}

/// How many cells are not yet labelled.
pub open spec fn unlabelled(v: Seq<u16>) -> nat
    decreases v.len(),
{
    if v.len() == 0 {
        0
    } else {
        unlabelled(v.drop_last()) + (if v.last() == NOT_REACHED { 1nat } else { 0nat })
    }
}

pub proof fn lemma_unlabelled_le(v: Seq<u16>)
    ensures
        unlabelled(v) <= v.len(),
    decreases v.len(),
{
    if v.len() > 0 {
        lemma_unlabelled_le(v.drop_last());
    }
}

pub proof fn lemma_unlabelled_all(v: Seq<u16>)
    requires
        forall|i: int| 0 <= i < v.len() ==> v[i] == NOT_REACHED,
    ensures
        unlabelled(v) == v.len(),
    decreases v.len(),
{
    if v.len() > 0 {
        lemma_unlabelled_all(v.drop_last());
    }
}

pub proof fn lemma_label_one(v: Seq<u16>, i: int, z: u16)
    requires
        0 <= i < v.len(),
        v[i] == NOT_REACHED,
        z != NOT_REACHED,
    ensures
        unlabelled(v.update(i, z)) + 1 == unlabelled(v),
    decreases v.len(),
{
    let u = v.update(i, z);
    if i < v.len() - 1 {
        assert(u.drop_last() =~= v.drop_last().update(i, z));
        lemma_label_one(v.drop_last(), i, z);
    } else {
        assert(u.drop_last() =~= v.drop_last());
    }
}

/// The labels of the cells: at each cell `q`, what `f` gives.
pub open spec fn labels_are(g: Grid<u8>, lab: Grid<u16>, f: spec_fn(Point) -> int) -> bool {
    &&& lab.wf()
    &&& lab.width() == g.width() && lab.height() == g.height()
    &&& forall|q: Point| #[trigger] g.inside(q) ==> lab.at(q) as int == f(q)
}

/// `q` is one step from one of the first `i` cells of `level`, or by one of the first `j`
/// steps from cell `i`.
pub open spec fn near(level: Seq<Point>, i: int, j: int, q: Point) -> bool {
    exists|t: int, k: int|
        0 <= t < level.len() && 0 <= k < 4 && (t < i || (t == i && k < j)) && #[trigger] hits(level[t], k, q)
}

/// The labels of a round in progress: reached cells carry their distance, cells found
/// from the cells of the round so far carry `d + 1`, the others are unlabelled.
pub open spec fn round_labels(g: Grid<u8>, b: u8, eq: bool, src: Point, lab: Grid<u16>, d: nat, level: Seq<Point>, i: int, j: int) -> bool {
    &&& lab.wf()
    &&& lab.width() == g.width() && lab.height() == g.height()
    &&& forall|q: Point| #[trigger] g.inside(q) ==> lab.at(q) as int == (if reach(g.cells(), g.width(), g.height(), b, eq, src, d).contains(q) {
        distance(g.cells(), g.width(), g.height(), b, eq, src, q)
    } else if passable(g.cells(), g.width(), g.height(), b, eq, q) && near(level, i, j, q) {
        d + 1int
    } else {
        NOT_REACHED as int
    })
}

/// The cells of `level` are the cells exactly `d` steps away.
pub open spec fn level_is(m: Seq<u8>, w: int, h: int, b: u8, eq: bool, src: Point, level: Seq<Point>, d: nat) -> bool {
    &&& forall|t: int| 0 <= t < level.len() ==> #[trigger] is_dist(m, w, h, b, eq, src, level[t], d) && 0 <= level[t].x < w && 0 <= level[t].y < h
    &&& forall|q: Point| is_dist(m, w, h, b, eq, src, q, d) ==> #[trigger] level.contains(q)
}

/// The cells found in a round: new, passable and next to a cell of the round.
pub open spec fn next_is(m: Seq<u8>, w: int, h: int, b: u8, eq: bool, src: Point, next: Seq<Point>, d: nat, level: Seq<Point>, i: int, j: int) -> bool {
    &&& forall|t: int| 0 <= t < next.len() ==> passable(m, w, h, b, eq, #[trigger] next[t]) && !reach(m, w, h, b, eq, src, d).contains(next[t])
        && near(level, i, j, next[t])
    &&& forall|q: Point| passable(m, w, h, b, eq, q) && !reach(m, w, h, b, eq, src, d).contains(q) && near(level, i, j, q) ==> #[trigger] next.contains(q)
}

pub proof fn lemma_reach_cells(m: Seq<u8>, w: int, h: int, b: u8, eq: bool, src: Point, d: nat, q: Point)
    requires
        0 <= src.x < w && 0 <= src.y < h,
        reach(m, w, h, b, eq, src, d).contains(q),
    ensures
        0 <= q.x < w && 0 <= q.y < h,
    decreases d,
{
    if d > 0 && reach(m, w, h, b, eq, src, (d - 1) as nat).contains(q) {
        lemma_reach_cells(m, w, h, b, eq, src, (d - 1) as nat, q);
    }
}

/// The cells first reached in a round are the passable cells next to the cells of the
/// round before that were not reached yet.
pub proof fn lemma_round(m: Seq<u8>, w: int, h: int, b: u8, eq: bool, src: Point, d: nat, level: Seq<Point>, q: Point)
    requires
        level_is(m, w, h, b, eq, src, level, d),
    ensures
        is_dist(m, w, h, b, eq, src, q, d + 1) <==> (passable(m, w, h, b, eq, q) && !reach(m, w, h, b, eq, src, d).contains(q)
            && near(level, level.len() as int, 0, q)),
{
    let r = reach(m, w, h, b, eq, src, d);
    if is_dist(m, w, h, b, eq, src, q, d + 1) {
        let p = choose|p: Point| #[trigger] r.contains(p) && adjacent(p, q);
        let k = choose|k: int| 0 <= k < 4 && #[trigger] hits(p, k, q);
        if d > 0 && reach(m, w, h, b, eq, src, (d - 1) as nat).contains(p) {
            assert(reach(m, w, h, b, eq, src, d).contains(q));
        }
        assert(is_dist(m, w, h, b, eq, src, p, d));
        assert(level.contains(p));
        let t = choose|t: int| 0 <= t < level.len() && level[t] == p;
        assert(hits(level[t], k, q));
    }
    if passable(m, w, h, b, eq, q) && !r.contains(q) && near(level, level.len() as int, 0, q) {
        let (t, k) = choose|t: int, k: int|
            0 <= t < level.len() && 0 <= k < 4 && (t < level.len() || (t == level.len() && k < 0)) && #[trigger] hits(level[t], k, q);
        assert(is_dist(m, w, h, b, eq, src, level[t], d));
        assert(adjacent(level[t], q));
        assert(r.contains(level[t]));
    }
}

/// The steps from `src` to every cell, as the search finds them round by round.
pub fn bfs(g: &Grid<u8>, b: u8, eq: bool, src: Point) -> (r: Grid<u16>)
    requires
        g.wf(),
        g.inside(src),
        g.cells().len() < NOT_REACHED,
    ensures
        labels_are(*g, r, |q: Point| distance(g.cells(), g.width(), g.height(), b, eq, src, q)),
        forall|q: Point| #[trigger] g.inside(q) ==> (r.at(q) == NOT_REACHED <==> !reachable(g.cells(), g.width(), g.height(), b, eq, src, q)),
{
    broadcast use vstd::seq_lib::group_seq_properties;
    let ghost gg = *g;
    let mut lab = Grid::new(g.dimensions(), NOT_REACHED);
    let ghost l0 = lab.cells();
    lab.set(src, 0);
    proof {
        g.lemma_inside_index(src);
        lemma_unlabelled_all(l0);
        lemma_label_one(l0, g.index_of(src), 0);
        assert(is_dist(gg.cells(), gg.width(), gg.height(), b, eq, src, src, 0));
        lemma_distance_is(gg.cells(), gg.width(), gg.height(), b, eq, src, src, 0);
        assert forall|q: Point| #[trigger] g.inside(q) implies lab.at(q) as int == (if reach(gg.cells(), gg.width(), gg.height(), b, eq, src, 0).contains(q) {
            distance(gg.cells(), gg.width(), gg.height(), b, eq, src, q)
        } else if passable(gg.cells(), gg.width(), gg.height(), b, eq, q) && near(seq![src], 0, 0, q) {
            1int
        } else {
            NOT_REACHED as int
        }) by {
            g.lemma_inside_index(q);
            if q != src {
                g.lemma_pos_index(q);
                g.lemma_pos_index(src);
            }
        }
    }
    let mut level: Vec<Point> = Vec::new();
    level.push(src);
    let mut d: u16 = 0;
    proof {
        assert(level@ == seq![src]);
        assert forall|q: Point| is_dist(gg.cells(), gg.width(), gg.height(), b, eq, src, q, 0) implies #[trigger] level@.contains(q) by {
            assert(level@[0] == src);
        }
        lemma_unlabelled_le(lab.cells());
    }
    loop
        invariant
            g.wf(),
            gg == *g,
            g.inside(src),
            g.cells().len() < NOT_REACHED,
            round_labels(gg, b, eq, src, lab, d as nat, level@, 0, 0),
            level_is(gg.cells(), gg.width(), gg.height(), b, eq, src, level@, d as nat),
            level@.len() > 0,
            d + 1 + unlabelled(lab.cells()) <= lab.cells().len(),
            lab.cells().len() == g.cells().len(),
        ensures
            round_labels(gg, b, eq, src, lab, d as nat, level@, 0, 0),
            reach(gg.cells(), gg.width(), gg.height(), b, eq, src, (d + 1) as nat) == reach(gg.cells(), gg.width(), gg.height(), b, eq, src, d as nat),
        decreases unlabelled(lab.cells()),
    {
        let ghost start = unlabelled(lab.cells());
        let mut next: Vec<Point> = Vec::new();
        let mut i: usize = 0;
        while i < level.len()
            invariant
                g.wf(),
                gg == *g,
                g.inside(src),
                g.cells().len() < NOT_REACHED,
                level_is(gg.cells(), gg.width(), gg.height(), b, eq, src, level@, d as nat),
                0 <= i <= level@.len(),
                round_labels(gg, b, eq, src, lab, d as nat, level@, i as int, 0),
                next_is(gg.cells(), gg.width(), gg.height(), b, eq, src, next@, d as nat, level@, i as int, 0),
                unlabelled(lab.cells()) + next@.len() == start,
                d + 1 + start <= lab.cells().len(),
                lab.cells().len() == g.cells().len(),
            decreases level@.len() - i,
        {
            let p = level[i];
            let mut k: usize = 0;
            while k < 4
                invariant
                    g.wf(),
                    gg == *g,
                    g.inside(src),
                    g.cells().len() < NOT_REACHED,
                    level_is(gg.cells(), gg.width(), gg.height(), b, eq, src, level@, d as nat),
                    0 <= i < level@.len(),
                    p == level@[i as int],
                    k <= 4,
                    round_labels(gg, b, eq, src, lab, d as nat, level@, i as int, k as int),
                    next_is(gg.cells(), gg.width(), gg.height(), b, eq, src, next@, d as nat, level@, i as int, k as int),
                    unlabelled(lab.cells()) + next@.len() == start,
                    d + 1 + start <= lab.cells().len(),
                    lab.cells().len() == g.cells().len(),
                decreases 4 - k,
            {
                proof {
                    assert(is_dist(gg.cells(), gg.width(), gg.height(), b, eq, src, p, d as nat));
                    assert(g.inside(p));
                }
                let q = p.plus(unit_step(k));
                let open = match g.get(q) {
                    Some(c) => if eq { c == b } else { c != b },
                    None => false,
                };
                let ghost before = lab.cells();
                let ghost nbefore = next@;
                let lq = lab.get(q);
                let upd = open && lq == Some(NOT_REACHED);
                if upd {
                    proof {
                        lemma_unlabelled_le(lab.cells());
                        g.lemma_inside_index(q);
                        lemma_label_one(before, lab.index_of(q), (d + 1) as u16);
                    }
                    lab.set(q, d + 1);
                    next.push(q);
                }
                proof {
                    assert(hits(level@[i as int], k as int, q));
                    assert forall|x: Point| near(level@, i as int, (k + 1) as int, x) <==> (near(level@, i as int, k as int, x) || hits(p, k as int, x)) by {
                        if near(level@, i as int, (k + 1) as int, x) {
                            let (t, kk) = choose|t: int, kk: int|
                                0 <= t < level@.len() && 0 <= kk < 4 && (t < i || (t == i && kk < k + 1)) && #[trigger] hits(level@[t], kk, x);
                            if !(t == i && kk == k) {
                                assert(hits(level@[t], kk, x));
                            }
                        }
                        if hits(p, k as int, x) {
                            assert(hits(level@[i as int], k as int, x));
                        }
                        if near(level@, i as int, k as int, x) {
                            let (t, kk) = choose|t: int, kk: int|
                                0 <= t < level@.len() && 0 <= kk < 4 && (t < i || (t == i && kk < k)) && #[trigger] hits(level@[t], kk, x);
                            assert(hits(level@[t], kk, x));
                        }
                    }
                    assert forall|x: Point| #[trigger] g.inside(x) implies lab.at(x) as int == (if reach(gg.cells(), gg.width(), gg.height(), b, eq, src, d as nat).contains(x) {
                        distance(gg.cells(), gg.width(), gg.height(), b, eq, src, x)
                    } else if passable(gg.cells(), gg.width(), gg.height(), b, eq, x) && near(level@, i as int, (k + 1) as int, x) {
                        d + 1int
                    } else {
                        NOT_REACHED as int
                    }) by {
                        g.lemma_inside_index(x);
                        let was = before[g.index_of(x)] as int == (if reach(gg.cells(), gg.width(), gg.height(), b, eq, src, d as nat).contains(x) {
                            distance(gg.cells(), gg.width(), gg.height(), b, eq, src, x)
                        } else if passable(gg.cells(), gg.width(), gg.height(), b, eq, x) && near(level@, i as int, k as int, x) {
                            d + 1int
                        } else {
                            NOT_REACHED as int
                        });
                        assert(was);
                        if reach(gg.cells(), gg.width(), gg.height(), b, eq, src, d as nat).contains(x) {
                            lemma_distance_le(gg.cells(), gg.width(), gg.height(), b, eq, src, x, d as nat);
                        }
                        if upd {
                            g.lemma_inside_index(q);
                            if x == q {
                                assert(before[g.index_of(q)] == NOT_REACHED);
                                assert(lab.at(x) == d + 1);
                            } else {
                                g.lemma_pos_index(x);
                                g.lemma_pos_index(q);
                                assert(g.index_of(x) != g.index_of(q));
                                assert(lab.at(x) == before[g.index_of(x)]);
                                if hits(p, k as int, x) {
                                    assert(x == q);
                                }
                            }
                        } else {
                            assert(lab.at(x) == before[g.index_of(x)]);
                            if hits(p, k as int, x) && !near(level@, i as int, k as int, x) {
                                assert(x == q);
                                if passable(gg.cells(), gg.width(), gg.height(), b, eq, x) && !reach(gg.cells(), gg.width(), gg.height(), b, eq, src, d as nat).contains(x) {
                                    assert(lq == Some(before[g.index_of(q)]));
                                }
                            }
                        }
                    }
                    assert forall|t: int| 0 <= t < next@.len() implies passable(gg.cells(), gg.width(), gg.height(), b, eq, #[trigger] next@[t]) && !reach(gg.cells(), gg.width(), gg.height(), b, eq, src, d as nat).contains(next@[t])
                        && near(level@, i as int, (k + 1) as int, next@[t]) by {
                        if t < nbefore.len() {
                            assert(next@[t] == nbefore[t]);
                        }
                    }
                    assert forall|x: Point| passable(gg.cells(), gg.width(), gg.height(), b, eq, x) && !reach(gg.cells(), gg.width(), gg.height(), b, eq, src, d as nat).contains(x) && near(level@, i as int, (k + 1) as int, x) implies #[trigger] next@.contains(x) by {
                        if near(level@, i as int, k as int, x) {
                            assert(nbefore.contains(x));
                            let t = choose|t: int| 0 <= t < nbefore.len() && nbefore[t] == x;
                            assert(next@[t] == x);
                        } else {
                            assert(x == q);
                            assert(g.inside(x));
                            assert(lab.at(x) as int == d + 1 || before[g.index_of(x)] == NOT_REACHED);
                            if before[g.index_of(x)] != NOT_REACHED {
                                assert(near(level@, i as int, k as int, x));
                            }
                            assert(next@[next@.len() - 1] == x);
                        }
                    }
                }
                k += 1;
            }
            proof {
                assert forall|x: Point| near(level@, (i + 1) as int, 0, x) <==> near(level@, i as int, 4, x) by {
                    if near(level@, (i + 1) as int, 0, x) {
                        let (t, kk) = choose|t: int, kk: int|
                            0 <= t < level@.len() && 0 <= kk < 4 && (t < i + 1 || (t == i + 1 && kk < 0)) && #[trigger] hits(level@[t], kk, x);
                        assert(hits(level@[t], kk, x));
                    }
                    if near(level@, i as int, 4, x) {
                        let (t, kk) = choose|t: int, kk: int|
                            0 <= t < level@.len() && 0 <= kk < 4 && (t < i || (t == i && kk < 4)) && #[trigger] hits(level@[t], kk, x);
                        assert(hits(level@[t], kk, x));
                    }
                }
            }
            i += 1;
        }
        proof {
            assert forall|x: Point| #[trigger] is_dist(gg.cells(), gg.width(), gg.height(), b, eq, src, x, (d + 1) as nat) <==> (passable(gg.cells(), gg.width(), gg.height(), b, eq, x)
                && !reach(gg.cells(), gg.width(), gg.height(), b, eq, src, d as nat).contains(x) && near(level@, level@.len() as int, 0, x)) by {
                lemma_round(gg.cells(), gg.width(), gg.height(), b, eq, src, d as nat, level@, x);
            }
        }
        if next.len() == 0 {
            proof {
                assert(reach(gg.cells(), gg.width(), gg.height(), b, eq, src, (d + 1) as nat) =~= reach(gg.cells(), gg.width(), gg.height(), b, eq, src, d as nat)) by {
                    assert forall|x: Point| reach(gg.cells(), gg.width(), gg.height(), b, eq, src, (d + 1) as nat).contains(x) implies reach(gg.cells(), gg.width(), gg.height(), b, eq, src, d as nat).contains(x) by {
                        if !reach(gg.cells(), gg.width(), gg.height(), b, eq, src, d as nat).contains(x) {
                            assert(is_dist(gg.cells(), gg.width(), gg.height(), b, eq, src, x, (d + 1) as nat));
                            assert(next@.contains(x));
                        }
                    }
                }
                assert forall|q: Point| #[trigger] g.inside(q) implies lab.at(q) as int == (if reach(gg.cells(), gg.width(), gg.height(), b, eq, src, d as nat).contains(q) {
                    distance(gg.cells(), gg.width(), gg.height(), b, eq, src, q)
                } else if passable(gg.cells(), gg.width(), gg.height(), b, eq, q) && near(level@, 0, 0, q) {
                    d + 1int
                } else {
                    NOT_REACHED as int
                }) by {
                    if passable(gg.cells(), gg.width(), gg.height(), b, eq, q) && !reach(gg.cells(), gg.width(), gg.height(), b, eq, src, d as nat).contains(q) && near(level@, level@.len() as int, 0, q) {
                        assert(next@.contains(q));
                    }
                    if near(level@, 0, 0, q) {
                        let (t, kk) = choose|t: int, kk: int|
                            0 <= t < level@.len() && 0 <= kk < 4 && (t < 0 || (t == 0 && kk < 0)) && #[trigger] hits(level@[t], kk, q);
                    }
                }
            }
            break;
        }
        proof {
            assert forall|q: Point| #[trigger] g.inside(q) implies lab.at(q) as int == (if reach(gg.cells(), gg.width(), gg.height(), b, eq, src, (d + 1) as nat).contains(q) {
                distance(gg.cells(), gg.width(), gg.height(), b, eq, src, q)
            } else if passable(gg.cells(), gg.width(), gg.height(), b, eq, q) && near(next@, 0, 0, q) {
                d + 2int
            } else {
                NOT_REACHED as int
            }) by {
                lemma_reach_mono(gg.cells(), gg.width(), gg.height(), b, eq, src, d as nat, (d + 1) as nat);
                if reach(gg.cells(), gg.width(), gg.height(), b, eq, src, (d + 1) as nat).contains(q) && !reach(gg.cells(), gg.width(), gg.height(), b, eq, src, d as nat).contains(q) {
                    assert(is_dist(gg.cells(), gg.width(), gg.height(), b, eq, src, q, (d + 1) as nat));
                    lemma_distance_is(gg.cells(), gg.width(), gg.height(), b, eq, src, q, (d + 1) as nat);
                }
                if passable(gg.cells(), gg.width(), gg.height(), b, eq, q) && !reach(gg.cells(), gg.width(), gg.height(), b, eq, src, d as nat).contains(q) && near(level@, level@.len() as int, 0, q) {
                    assert(is_dist(gg.cells(), gg.width(), gg.height(), b, eq, src, q, (d + 1) as nat));
                }
                if near(next@, 0, 0, q) {
                    let (t, kk) = choose|t: int, kk: int|
                        0 <= t < next@.len() && 0 <= kk < 4 && (t < 0 || (t == 0 && kk < 0)) && #[trigger] hits(next@[t], kk, q);
                }
            }
            assert forall|t: int| 0 <= t < next@.len() implies #[trigger] is_dist(gg.cells(), gg.width(), gg.height(), b, eq, src, next@[t], (d + 1) as nat) && g.inside(next@[t]) by {
                assert(passable(gg.cells(), gg.width(), gg.height(), b, eq, next@[t]));
            }
            assert forall|q: Point| is_dist(gg.cells(), gg.width(), gg.height(), b, eq, src, q, (d + 1) as nat) implies #[trigger] next@.contains(q) by {
            }
            lemma_unlabelled_le(lab.cells());
        }
        level = next;
        d = d + 1;
    }
    proof {
        assert forall|q: Point| #[trigger] g.inside(q) implies lab.at(q) as int == distance(gg.cells(), gg.width(), gg.height(), b, eq, src, q)
            && (lab.at(q) == NOT_REACHED <==> !reachable(gg.cells(), gg.width(), gg.height(), b, eq, src, q)) by {
            if reach(gg.cells(), gg.width(), gg.height(), b, eq, src, d as nat).contains(q) {
                lemma_distance_le(gg.cells(), gg.width(), gg.height(), b, eq, src, q, d as nat);
            }
            if !reach(gg.cells(), gg.width(), gg.height(), b, eq, src, d as nat).contains(q) {
                assert forall|k: nat| !(#[trigger] reach(gg.cells(), gg.width(), gg.height(), b, eq, src, k).contains(q)) by {
                    if k <= d {
                        lemma_reach_mono(gg.cells(), gg.width(), gg.height(), b, eq, src, k, d as nat);
                    } else {
                        lemma_reach_stable(gg.cells(), gg.width(), gg.height(), b, eq, src, d as nat, k);
                    }
                }
            }
            if near(level@, 0, 0, q) {
                let (t, kk) = choose|t: int, kk: int|
                    0 <= t < level@.len() && 0 <= kk < 4 && (t < 0 || (t == 0 && kk < 0)) && #[trigger] hits(level@[t], kk, q);
            }
        }
    }
    lab
}

} // verus!
