//! A reindeer maze: the cheapest way from the start, facing east, to the end, where a step
//! forward costs one and a quarter turn costs a thousand.

use vstd::prelude::*;
use vstd::string::*;
use crate::day20::first_of;
use crate::error::AocError;
use crate::grid::{grid_of, has_content, Dir, Grid, Point};
use crate::text::{dec, lines_of, push_dec, push_str};

verus! {

/// An open tile of the maze.
pub const TILE: u8 = 46;

/// The largest cost from which the search still steps on: a turn from it stays in range.
pub const MAX_COST: usize = usize::MAX - 1000;

/// The maze: its tiles, with the start and end marked open, its start and its end.
pub struct Maze {
    pub grid: Grid<u8>,
    pub start: Point,
    pub end: Point,
}

impl Maze {
    pub open spec fn wf(&self) -> bool {
        &&& self.grid.wf()
        &&& self.grid.width() > 0
        &&& self.grid.inside(self.start)
        &&& self.grid.inside(self.end)
    }
}

/// `find_grid_repl`: the first position holding `c`, row by row, which then holds `repl`.
pub fn find_grid_repl(grid: &mut Grid<u8>, c: u8, repl: u8) -> (r: Result<Point, AocError>)
    requires
        old(grid).wf(),
    ensures
        final(grid).wf(),
        final(grid).width() == old(grid).width(),
        final(grid).height() == old(grid).height(),
        match r {
            Ok(p) => old(grid).inside(p) && first_of(old(grid).cells(), c, old(grid).index_of(p))
                && final(grid).cells() == old(grid).cells().update(old(grid).index_of(p), repl),
            Err(e) => e == AocError::NotFound && !(exists|i: int| first_of(old(grid).cells(), c, i))
                && final(grid).cells() == old(grid).cells(),
        },
{
    let ghost cells = grid.cells();
    match grid.find(c) {
        Some(p) => {
            proof {
                grid.lemma_inside_index(p);
            }
            grid.set(p, repl);
            Ok(p)
        },
        None => {
            proof {
                if exists|i: int| first_of(cells, c, i) {
                    let i = choose|i: int| first_of(cells, c, i);
                    assert(cells[i] == c);
                }
            }
            Err(AocError::NotFound)
        },
    }
}

/// The maze `m` is the one that a drawing `w` wide with cells `cells` shows: its first `S`
/// is the start and, with that one made open, its first `E` the end, both made open.
pub open spec fn map_of(m: Maze, w: int, cells: Seq<u8>) -> bool {
    &&& m.wf()
    &&& m.grid.width() == w
    &&& first_of(cells, 83u8, m.grid.index_of(m.start))
    &&& first_of(cells.update(m.grid.index_of(m.start), TILE), 69u8, m.grid.index_of(m.end))
    &&& m.grid.cells() == cells.update(m.grid.index_of(m.start), TILE).update(m.grid.index_of(m.end), TILE)
}

/// The drawing lacks an `S`, or an `E` besides its first `S`.
pub open spec fn map_missing(cells: Seq<u8>) -> bool {
    ||| !(exists|i: int| first_of(cells, 83u8, i))
    ||| exists|s: int| first_of(cells, 83u8, s) && !(exists|i: int| first_of(cells.update(s, TILE), 69u8, i))
}

/// `parse_map`: the maze that the text draws, with its `S` and `E` made open tiles.
pub fn parse_map(input: &str) -> (r: Result<Maze, AocError>)
    requires
        has_content(lines_of(input.spec_bytes())),
    ensures
        match grid_of(input.spec_bytes()) {
            None => r == Err::<Maze, AocError>(AocError::InvalidInput),
            Some((w, cells)) => match r {
                Ok(m) => map_of(m, w, cells),
                Err(e) => e == AocError::NotFound && map_missing(cells),
            },
        },
{
    let mut grid = match Grid::parse(input) {
        Ok(g) => g,
        Err(e) => return Err(e),
    };
    let ghost g0 = grid.cells();
    let start = match find_grid_repl(&mut grid, 83u8, TILE) {
        Ok(p) => p,
        Err(e) => return Err(e),
    };
    let ghost g1 = grid.cells();
    let end = match find_grid_repl(&mut grid, 69u8, TILE) {
        Ok(p) => p,
        Err(e) => {
            proof {
                assert(first_of(g0, 83u8, grid.index_of(start)));
            }
            return Err(e);
        },
    };
    Ok(Maze { grid, start, end })
}

/// The offset of a step in the direction numbered `d` (north, south, east, west).
pub open spec fn dstep(d: int) -> (int, int) {
    if d == 0 {
        (0, -1)
    } else if d == 1 {
        (0, 1)
    } else if d == 2 {
        (1, 0)
    } else {
        (-1, 0)
    }
}

/// The direction a quarter turn clockwise.
pub open spec fn right_i(d: int) -> int {
    if d == 0 {
        2
    } else if d == 2 {
        1
    } else if d == 1 {
        3
    } else {
        0
    }
}

/// The direction a quarter turn counter-clockwise.
pub open spec fn left_i(d: int) -> int {
    if d == 0 {
        3
    } else if d == 3 {
        1
    } else if d == 1 {
        2
    } else {
        0
    }
}

/// A place and heading: column, row and direction number.
pub type Pose = (int, int, int);

pub open spec fn inside_xy(g: Grid<u8>, x: int, y: int) -> bool {
    0 <= x < g.width() && 0 <= y < g.height()
}

pub open spec fn tile_at(g: Grid<u8>, x: int, y: int) -> u8 {
    g.cells()[x + y * g.width()]
}

/// A pose of the maze.
pub open spec fn pose_ok(g: Grid<u8>, t: Pose) -> bool {
    inside_xy(g, t.0, t.1) && 0 <= t.2 < 4
}

/// The pose one step ahead of `t`.
pub open spec fn ahead_of(t: Pose) -> Pose {
    (t.0 + dstep(t.2).0, t.1 + dstep(t.2).1, t.2)
}

/// The step ahead of `t` lands on an open tile of the maze.
pub open spec fn ahead_ok(g: Grid<u8>, t: Pose) -> bool {
    let a = ahead_of(t);
    inside_xy(g, a.0, a.1) && tile_at(g, a.0, a.1) == TILE
}

/// Pose `t` is reached from `s0` at a cost of at most `k`: by steps ahead onto open tiles,
/// at one each, and quarter turns, at a thousand each.
pub open spec fn reach(g: Grid<u8>, s0: Pose, t: Pose, k: nat) -> bool
    decreases k,
{
    if t == s0 {
        true
    } else {
        let p = (t.0 - dstep(t.2).0, t.1 - dstep(t.2).1, t.2);
        ||| (k >= 1 && pose_ok(g, p) && pose_ok(g, t) && tile_at(g, t.0, t.1) == TILE && reach(g, s0, p, (k - 1) as nat))
        ||| (k >= 1000 && pose_ok(g, t) && (reach(g, s0, (t.0, t.1, right_i(t.2)), (k - 1000) as nat) || reach(
            g,
            s0,
            (t.0, t.1, left_i(t.2)),
            (k - 1000) as nat,
        )))
    }
}

/// A node of the search: a pose and the cost of reaching it.
#[derive(Debug, Clone, Copy, PartialEq, Eq, Structural)]
pub struct SearchNode {
    pub p: Point,
    pub dir: Dir,
    pub cost: usize,
}

impl SearchNode {
    pub open spec fn pose(&self) -> Pose {
        (self.p.x as int, self.p.y as int, self.dir.spec_index() as int)
    }

    /// A node at `p`, facing `dir`, at no cost.
    pub fn new(p: Point, dir: Dir) -> (r: SearchNode)
        ensures
            r == (SearchNode { p, dir, cost: 0 }),
    {
        SearchNode { p, dir, cost: 0 }
    }

    /// The node with `c` more cost.
    pub fn with_cost(&self, c: usize) -> (r: SearchNode)
        requires
            self.cost + c <= usize::MAX,
        ensures
            r == (SearchNode { cost: (self.cost + c) as usize, ..*self }),
    {
        SearchNode { cost: self.cost + c, ..*self }
    }

    /// One step ahead, at a cost of one.
    pub fn ahead(&self) -> (r: SearchNode)
        requires
            self.cost < usize::MAX,
            i32::MIN < self.p.x < i32::MAX,
            i32::MIN < self.p.y < i32::MAX,
        ensures
            r.pose() == ahead_of(self.pose()),
            r.cost == self.cost + 1,
    {
        let s = self.dir.step(1);
        let q = Point { x: self.p.x + s.x, y: self.p.y + s.y };
        SearchNode { p: q, ..self.with_cost(1) }
    }

    /// A quarter turn counter-clockwise, at a cost of a thousand.
    pub fn left(&self) -> (r: SearchNode)
        requires
            self.cost + 1000 <= usize::MAX,
        ensures
            r.pose() == (self.pose().0, self.pose().1, left_i(self.pose().2)),
            r.cost == self.cost + 1000,
    {
        SearchNode { dir: self.dir.left(), ..self.with_cost(1000) }
    }

    /// A quarter turn clockwise, at a cost of a thousand.
    pub fn right(&self) -> (r: SearchNode)
        requires
            self.cost + 1000 <= usize::MAX,
        ensures
            r.pose() == (self.pose().0, self.pose().1, right_i(self.pose().2)),
            r.cost == self.cost + 1000,
    {
        SearchNode { dir: self.dir.right(), ..self.with_cost(1000) }
    }
}

/// Where the least cost found of pose `t` is kept, in a maze `w` wide.
pub open spec fn slot(w: int, t: Pose) -> int {
    (t.0 + t.1 * w) * 4 + t.2
}

pub proof fn lemma_slot(g: Grid<u8>, t: Pose, u: Pose)
    requires
        g.wf(),
        pose_ok(g, t),
        pose_ok(g, u),
    ensures
        0 <= slot(g.width(), t) < 4 * g.cells().len(),
        slot(g.width(), t) == slot(g.width(), u) ==> t == u,
{
    let w = g.width();
    let h = g.height();
    let ct = t.0 + t.1 * w;
    let cu = u.0 + u.1 * w;
    crate::grid::lemma_index_bounds(t.0, t.1, w, h);
    crate::grid::lemma_index_bounds(u.0, u.1, w, h);
    assert(slot(w, t) == ct * 4 + t.2);
    assert(0 <= ct * 4 + t.2 < 4 * (w * h)) by (nonlinear_arith)
        requires 0 <= ct < w * h, 0 <= t.2 < 4;
    if slot(w, t) == slot(w, u) {
        assert(ct == cu && t.2 == u.2) by (nonlinear_arith)
            requires ct * 4 + t.2 == cu * 4 + u.2, 0 <= t.2 < 4, 0 <= u.2 < 4;
        assert(t.0 == u.0 && t.1 == u.1) by (nonlinear_arith)
            requires t.0 + t.1 * w == u.0 + u.1 * w, 0 <= t.0 < w, 0 <= u.0 < w;
    }
}

/// The search: the nodes still to take up, and the least cost found of each pose.
pub struct SearchSpace {
    pub heap: Vec<SearchNode>,
    pub min_cost: Vec<usize>,
    pub w: i32,
    pub h: i32,
}

impl SearchSpace {
    pub open spec fn mcv(&self, t: Pose) -> usize {
        self.min_cost@[slot(self.w as int, t)]
    }

    /// An empty search of a maze of the given width and height.
    pub fn new(dimensions: (i32, i32)) -> (r: SearchSpace)
        requires
            dimensions.0 >= 0,
            dimensions.1 >= 0,
            4 * dimensions.0 * dimensions.1 <= usize::MAX,
        ensures
            r.heap@ == Seq::<SearchNode>::empty(),
            r.min_cost@.len() == 4 * dimensions.0 * dimensions.1,
            forall|i: int| 0 <= i < r.min_cost@.len() ==> r.min_cost@[i] == usize::MAX,
            r.w == dimensions.0,
            r.h == dimensions.1,
    {
        let a = dimensions.0 as usize;
        let b = dimensions.1 as usize;
        proof {
            assert(a * b <= 4 * (a * b) && 4 * (a * b) == 4 * a * b) by (nonlinear_arith)
                requires a >= 0, b >= 0;
        }
        let n: usize = 4 * (a * b);
        let mut mc: Vec<usize> = Vec::new();
        let mut k: usize = 0;
        while k < n
            invariant
                k <= n,
                mc@.len() == k,
                forall|i: int| 0 <= i < k ==> mc@[i] == usize::MAX,
            decreases n - k,
        {
            mc.push(usize::MAX);
            k += 1;
        }
        SearchSpace { heap: Vec::new(), min_cost: mc, w: dimensions.0, h: dimensions.1 }
    }

    /// Takes up a node of least cost.
    pub fn pop(&mut self) -> (r: Option<SearchNode>)
        ensures
            final(self).min_cost@ == old(self).min_cost@,
            final(self).w == old(self).w,
            final(self).h == old(self).h,
            match r {
                None => old(self).heap@.len() == 0 && final(self).heap@ == old(self).heap@,
                Some(n) => exists|bi: int|
                    0 <= bi < old(self).heap@.len() && old(self).heap@[bi] == n && final(self).heap@ == old(self).heap@.remove(bi)
                        && forall|j: int| 0 <= j < old(self).heap@.len() ==> n.cost <= (#[trigger] old(self).heap@[j]).cost,
            },
    {
        if self.heap.len() == 0 {
            return None;
        }
        let mut bi: usize = 0;
        let mut t: usize = 1;
        while t < self.heap.len()
            invariant
                1 <= t <= self.heap@.len(),
                bi < self.heap@.len(),
                forall|j: int| 0 <= j < t ==> self.heap@[bi as int].cost <= (#[trigger] self.heap@[j]).cost,
            decreases self.heap@.len() - t,
        {
            if self.heap[t].cost < self.heap[bi].cost {
                bi = t;
            }
            t += 1;
        }
        let n = self.heap.remove(bi);
        Some(n)
    }

    /// Adds a node, where it lies in the maze and is cheaper than any found for its pose.
    pub fn push(&mut self, n: SearchNode)
        requires
            old(self).min_cost@.len() == 4 * old(self).w * old(self).h,
            old(self).w >= 0,
            old(self).h >= 0,
            4 * old(self).w * old(self).h <= usize::MAX,
        ensures
            final(self).w == old(self).w,
            final(self).h == old(self).h,
            ({
                let t = n.pose();
                let inside = 0 <= t.0 < old(self).w && 0 <= t.1 < old(self).h;
                if inside && n.cost < old(self).mcv(t) {
                    &&& final(self).min_cost@ == old(self).min_cost@.update(slot(old(self).w as int, t), n.cost)
                    &&& final(self).heap@ == old(self).heap@.push(n)
                } else {
                    &&& final(self).min_cost@ == old(self).min_cost@
                    &&& final(self).heap@ == old(self).heap@
                }
            }),
    {
        if 0 <= n.p.x && n.p.x < self.w && 0 <= n.p.y && n.p.y < self.h {
            let d = n.dir.index();
            proof {
                let w = self.w as int;
                let h = self.h as int;
                crate::grid::lemma_index_bounds(n.p.x as int, n.p.y as int, w, h);
                assert(0 <= (n.p.x + n.p.y * w) * 4 + d < 4 * w * h) by (nonlinear_arith)
                    requires 0 <= n.p.x + n.p.y * w < w * h, 0 <= d < 4;
                assert(0 <= n.p.y * w <= n.p.x + n.p.y * w) by (nonlinear_arith)
                    requires 0 <= n.p.y, 0 <= w, 0 <= n.p.x;
                assert(w * h <= 4 * w * h) by (nonlinear_arith)
                    requires 0 <= w, 0 <= h;
            }
            let cell = n.p.x as usize + n.p.y as usize * self.w as usize;
            let i = cell * 4 + d as usize;
            if n.cost < self.min_cost[i] {
                self.min_cost.set(i, n.cost);
                self.heap.push(n);
            }
        }
    }
}


/// The least cost found of pose `t`.
pub open spec fn cost_at(mc: Seq<usize>, w: int, t: Pose) -> usize {
    mc[slot(w, t)]
}

/// A node of cost `c` at pose `t` is still to be taken up.
pub open spec fn in_heap(h: Seq<SearchNode>, c: usize, t: Pose) -> bool {
    exists|i: int| 0 <= i < h.len() && (#[trigger] h[i]).cost == c && h[i].pose() == t
}

/// Pose `t` has been taken up at its least cost found: each move from it leads to a pose
/// whose least cost found is at most the move's cost above it; nothing is owed past
/// `MAX_COST`.
pub open spec fn expanded(g: Grid<u8>, mc: Seq<usize>, w: int, t: Pose) -> bool {
    let c = cost_at(mc, w, t);
    c <= MAX_COST ==> {
        &&& ahead_ok(g, t) ==> cost_at(mc, w, ahead_of(t)) <= c + 1
        &&& cost_at(mc, w, (t.0, t.1, right_i(t.2))) <= c + 1000
        &&& cost_at(mc, w, (t.0, t.1, left_i(t.2))) <= c + 1000
    }
}

/// A pose with a cost found is still to be taken up at that cost, or has been.
pub open spec fn settled(g: Grid<u8>, mc: Seq<usize>, w: int, h: Seq<SearchNode>, t: Pose) -> bool {
    cost_at(mc, w, t) < usize::MAX ==> in_heap(h, cost_at(mc, w, t), t) || expanded(g, mc, w, t)
}

/// What holds of the search throughout, but for pose `s` taken up at cost `c`, while its
/// moves are made.
pub open spec fn search_ok(g: Grid<u8>, s0: Pose, e: (int, int), mc: Seq<usize>, h: Seq<SearchNode>, s: Pose, c: int) -> bool {
    let w = g.width();
    &&& mc.len() == 4 * g.cells().len()
    &&& cost_at(mc, w, s0) == 0
    &&& forall|i: int| 0 <= i < h.len() ==> pose_ok(g, (#[trigger] h[i]).pose()) && reach(g, s0, h[i].pose(), h[i].cost as nat)
        && cost_at(mc, w, h[i].pose()) <= h[i].cost
    &&& forall|t: Pose| pose_ok(g, t) && #[trigger] cost_at(mc, w, t) < usize::MAX ==> reach(g, s0, t, cost_at(mc, w, t) as nat)
    &&& forall|t: Pose| pose_ok(g, t) && !(t == s && cost_at(mc, w, t) == c) ==> #[trigger] settled(g, mc, w, h, t)
    &&& forall|d: int| 0 <= d < 4 && #[trigger] cost_at(mc, w, (e.0, e.1, d)) < usize::MAX ==> in_heap(h, cost_at(mc, w, (e.0, e.1, d)), (e.0, e.1, d))
}

pub proof fn lemma_turns(d: int)
    requires
        0 <= d < 4,
    ensures
        left_i(right_i(d)) == d,
        right_i(left_i(d)) == d,
        0 <= left_i(d) < 4,
        0 <= right_i(d) < 4,
{
}

/// No pose is reached below `m`, the least cost still to be taken up, more cheaply than its
/// least cost found.
pub proof fn lemma_lower(g: Grid<u8>, s0: Pose, e: (int, int), mc: Seq<usize>, h: Seq<SearchNode>, t: Pose, k: nat, m: int)
    requires
        g.wf(),
        pose_ok(g, s0),
        search_ok(g, s0, e, mc, h, (-1, -1, -1), -1),
        forall|i: int| 0 <= i < h.len() ==> (#[trigger] h[i]).cost >= m,
        reach(g, s0, t, k),
        k < m,
        k <= MAX_COST,
        pose_ok(g, t),
    ensures
        cost_at(mc, g.width(), t) <= k,
    decreases k,
{
    let w = g.width();
    if t != s0 {
        let p = (t.0 - dstep(t.2).0, t.1 - dstep(t.2).1, t.2);
        if k >= 1 && pose_ok(g, p) && pose_ok(g, t) && tile_at(g, t.0, t.1) == TILE && reach(g, s0, p, (k - 1) as nat) {
            lemma_lower(g, s0, e, mc, h, p, (k - 1) as nat, m);
            assert(settled(g, mc, w, h, p));
            if in_heap(h, cost_at(mc, w, p), p) {
                let i = choose|i: int| 0 <= i < h.len() && (#[trigger] h[i]).cost == cost_at(mc, w, p) && h[i].pose() == p;
                assert(h[i].cost >= m);
            }
            assert(ahead_of(p) == t);
        } else {
            lemma_turns(t.2);
            let pr = (t.0, t.1, right_i(t.2));
            let pl = (t.0, t.1, left_i(t.2));
            if reach(g, s0, pr, (k - 1000) as nat) {
                lemma_lower(g, s0, e, mc, h, pr, (k - 1000) as nat, m);
                assert(settled(g, mc, w, h, pr));
                if in_heap(h, cost_at(mc, w, pr), pr) {
                    let i = choose|i: int| 0 <= i < h.len() && (#[trigger] h[i]).cost == cost_at(mc, w, pr) && h[i].pose() == pr;
                    assert(h[i].cost >= m);
                }
                assert((pr.0, pr.1, left_i(pr.2)) == t);
            } else {
                lemma_lower(g, s0, e, mc, h, pl, (k - 1000) as nat, m);
                assert(settled(g, mc, w, h, pl));
                if in_heap(h, cost_at(mc, w, pl), pl) {
                    let i = choose|i: int| 0 <= i < h.len() && (#[trigger] h[i]).cost == cost_at(mc, w, pl) && h[i].pose() == pl;
                    assert(h[i].cost >= m);
                }
                assert((pl.0, pl.1, right_i(pl.2)) == t);
            }
        }
    }
}

/// The least costs, summed.
pub open spec fn cost_sum(mc: Seq<usize>) -> nat
    decreases mc.len(),
{
    if mc.len() == 0 {
        0
    } else {
        cost_sum(mc.drop_last()) + mc.last() as nat
    }
}

pub proof fn lemma_cost_sum_update(mc: Seq<usize>, i: int, v: usize)
    requires
        0 <= i < mc.len(),
    ensures
        cost_sum(mc.update(i, v)) + mc[i] == cost_sum(mc) + v,
    decreases mc.len(),
{
    let u = mc.update(i, v);
    if i == mc.len() - 1 {
        assert(u.drop_last() =~= mc.drop_last());
    } else {
        assert(u.drop_last() =~= mc.drop_last().update(i, v));
        lemma_cost_sum_update(mc.drop_last(), i, v);
    }
}


/// What `push` does to the least costs and the nodes to take up.
pub open spec fn pushed(g: Grid<u8>, mc: Seq<usize>, h: Seq<SearchNode>, mc2: Seq<usize>, h2: Seq<SearchNode>, n: SearchNode) -> bool {
    if pose_ok(g, n.pose()) && n.cost < cost_at(mc, g.width(), n.pose()) {
        mc2 == mc.update(slot(g.width(), n.pose()), n.cost) && h2 == h.push(n)
    } else {
        mc2 == mc && h2 == h
    }
}

/// A move from pose `s`, taken up at cost `c`, to node `n` keeps the search sound.
pub proof fn lemma_push_keeps(
    g: Grid<u8>,
    s0: Pose,
    e: (int, int),
    mc: Seq<usize>,
    h: Seq<SearchNode>,
    mc2: Seq<usize>,
    h2: Seq<SearchNode>,
    n: SearchNode,
    s: Pose,
    c: int,
)
    requires
        g.wf(),
        pose_ok(g, s0),
        pose_ok(g, s),
        inside_xy(g, e.0, e.1),
        0 <= c,
        search_ok(g, s0, e, mc, h, s, c),
        reach(g, s0, s, c as nat),
        (n.cost == c + 1 && ahead_ok(g, s) && n.pose() == ahead_of(s)) || (n.cost == c + 1000 && (n.pose() == (
            s.0,
            s.1,
            left_i(s.2),
        ) || n.pose() == (s.0, s.1, right_i(s.2)))),
        0 <= n.pose().2 < 4,
        pushed(g, mc, h, mc2, h2, n),
    ensures
        search_ok(g, s0, e, mc2, h2, s, c),
        pose_ok(g, n.pose()) ==> cost_at(mc2, g.width(), n.pose()) <= n.cost,
        forall|t: Pose| pose_ok(g, t) ==> cost_at(mc2, g.width(), t) <= cost_at(mc, g.width(), t),
        cost_at(mc2, g.width(), s) == cost_at(mc, g.width(), s),
        (cost_sum(mc2) < cost_sum(mc) && h2.len() == h.len() + 1) || (mc2 == mc && h2 == h),
{
    let w = g.width();
    let t = n.pose();
    lemma_turns(s.2);
    assert(t != s);
    if pose_ok(g, t) && n.cost < cost_at(mc, w, t) {
        let i = slot(w, t);
        lemma_slot(g, t, t);
        assert forall|u: Pose| pose_ok(g, u) && u != t implies #[trigger] cost_at(mc2, w, u) == cost_at(mc, w, u) by {
            lemma_slot(g, u, t);
        }
        assert(cost_at(mc2, w, t) == n.cost);
        lemma_cost_sum_update(mc, i, n.cost);
        // The new node is reached at its cost.
        assert(reach(g, s0, t, n.cost as nat)) by {
            if t != s0 {
                if n.cost == c + 1 && ahead_ok(g, s) && t == ahead_of(s) {
                    let p = (t.0 - dstep(t.2).0, t.1 - dstep(t.2).1, t.2);
                    assert(p == s);
                } else if t == (s.0, s.1, left_i(s.2)) {
                    assert((t.0, t.1, right_i(t.2)) == s);
                } else {
                    assert((t.0, t.1, left_i(t.2)) == s);
                }
            }
        }
        assert(search_ok(g, s0, e, mc2, h2, s, c)) by {
            assert forall|k: int| 0 <= k < h2.len() implies pose_ok(g, (#[trigger] h2[k]).pose()) && reach(g, s0, h2[k].pose(), h2[k].cost as nat)
                && cost_at(mc2, w, h2[k].pose()) <= h2[k].cost by {
                if k < h.len() {
                    assert(h2[k] == h[k]);
                    if h[k].pose() != t {
                        assert(cost_at(mc2, w, h[k].pose()) == cost_at(mc, w, h[k].pose()));
                    }
                }
            }
            assert forall|u: Pose| pose_ok(g, u) && #[trigger] cost_at(mc2, w, u) < usize::MAX implies reach(g, s0, u, cost_at(mc2, w, u) as nat) by {
                if u != t {
                    assert(cost_at(mc2, w, u) == cost_at(mc, w, u));
                }
            }
            assert forall|u: Pose| pose_ok(g, u) && !(u == s && cost_at(mc2, w, u) == c) implies #[trigger] settled(g, mc2, w, h2, u) by {
                if u == t {
                    assert(h2[h.len() as int] == n);
                } else {
                    assert(cost_at(mc2, w, u) == cost_at(mc, w, u));
                    assert(settled(g, mc, w, h, u));
                    if cost_at(mc, w, u) < usize::MAX {
                        if in_heap(h, cost_at(mc, w, u), u) {
                            let k = choose|k: int| 0 <= k < h.len() && (#[trigger] h[k]).cost == cost_at(mc, w, u) && h[k].pose() == u;
                            assert(h2[k] == h[k]);
                        } else {
                            assert(expanded(g, mc, w, u));
                            lemma_turns(u.2);
                            let ua = ahead_of(u);
                            if ahead_ok(g, u) {
                                assert(pose_ok(g, ua));
                                if ua != t {
                                    assert(cost_at(mc2, w, ua) == cost_at(mc, w, ua));
                                }
                            }
                            let ur = (u.0, u.1, right_i(u.2));
                            let ul = (u.0, u.1, left_i(u.2));
                            if ur != t {
                                assert(cost_at(mc2, w, ur) == cost_at(mc, w, ur));
                            }
                            if ul != t {
                                assert(cost_at(mc2, w, ul) == cost_at(mc, w, ul));
                            }
                            assert(expanded(g, mc2, w, u));
                        }
                    }
                }
            }
            assert forall|d: int| 0 <= d < 4 && #[trigger] cost_at(mc2, w, (e.0, e.1, d)) < usize::MAX implies in_heap(h2, cost_at(mc2, w, (e.0, e.1, d)), (e.0, e.1, d)) by {
                let u = (e.0, e.1, d);
                if u == t {
                    assert(h2[h.len() as int] == n);
                } else {
                    assert(pose_ok(g, u));
                    assert(cost_at(mc2, w, u) == cost_at(mc, w, u));
                    let k = choose|k: int| 0 <= k < h.len() && (#[trigger] h[k]).cost == cost_at(mc, w, u) && h[k].pose() == u;
                    assert(h2[k] == h[k]);
                }
            }
            if s0 != t {
                assert(cost_at(mc2, w, s0) == cost_at(mc, w, s0));
            }
        }
    }
}


/// The start pose: the start, facing east.
pub open spec fn start_pose(m: Maze) -> Pose {
    (m.start.x as int, m.start.y as int, 2)
}

/// `c` is the least cost, up to `MAX_COST`, of a way from the start to the end of maze `m`.
pub open spec fn least_cost(m: Maze, c: usize) -> bool {
    &&& exists|d: int| 0 <= d < 4 && reach(m.grid, start_pose(m), (m.end.x as int, m.end.y as int, d), c as nat)
    &&& forall|d: int, k: nat| 0 <= d < 4 && k < c && k <= MAX_COST ==> !#[trigger] reach(
        m.grid,
        start_pose(m),
        (m.end.x as int, m.end.y as int, d),
        k,
    )
}

/// No way of cost up to `MAX_COST` leads from the start to the end of maze `m`.
pub open spec fn no_way(m: Maze) -> bool {
    forall|d: int, k: nat| 0 <= d < 4 && k <= MAX_COST ==> !#[trigger] reach(m.grid, start_pose(m), (m.end.x as int, m.end.y as int, d), k)
}

/// `shortest_path_cost`: the least cost of a way from the start, facing east, to the end,
/// facing any way; `None` where no way of cost up to `MAX_COST` reaches it.
pub fn shortest_path_cost(m: &Maze) -> (r: Option<usize>)
    requires
        m.wf(),
        4 * m.grid.cells().len() <= usize::MAX,
    ensures
        match r {
            Some(c) => least_cost(*m, c),
            None => no_way(*m),
        },
{
    let ghost g = m.grid;
    let ghost s0 = start_pose(*m);
    let ghost e = (m.end.x as int, m.end.y as int);
    let (w, h) = m.grid.dimensions();
    proof {
        assert(4 * w * h <= usize::MAX && 4 * w * h == 4 * m.grid.cells().len()) by (nonlinear_arith)
            requires 4 * m.grid.cells().len() <= usize::MAX, m.grid.cells().len() == w * h;
    }
    let mut work = SearchSpace::new((w, h));
    let ghost mc0 = work.min_cost@;
    let start = SearchNode::new(m.start, Dir::East);
    assert(start.pose() == s0);
    proof {
        lemma_slot(g, s0, s0);
        assert(mc0[slot(w as int, s0)] == usize::MAX);
    }
    work.push(start);
    proof {
        let wi = w as int;
        assert(work.min_cost@ == mc0.update(slot(wi, s0), 0));
        assert forall|u: Pose| pose_ok(g, u) && u != s0 implies #[trigger] cost_at(work.min_cost@, wi, u) == usize::MAX by {
            lemma_slot(g, u, s0);
            assert(work.min_cost@[slot(wi, u)] == mc0[slot(wi, u)]);
        }
        assert(work.heap@[0] == start);
        assert(search_ok(g, s0, e, work.min_cost@, work.heap@, (-1, -1, -1), -1)) by {
            assert forall|u: Pose| pose_ok(g, u) && !(u == (-1int, -1int, -1int) && cost_at(work.min_cost@, wi, u) == -1) implies #[trigger] settled(g, work.min_cost@, wi, work.heap@, u) by {
                if u == s0 {
                    assert(in_heap(work.heap@, 0, s0));
                }
            }
            assert forall|d: int| 0 <= d < 4 && #[trigger] cost_at(work.min_cost@, wi, (e.0, e.1, d)) < usize::MAX implies in_heap(work.heap@, cost_at(work.min_cost@, wi, (e.0, e.1, d)), (e.0, e.1, d)) by {
                if (e.0, e.1, d) == s0 {
                    assert(in_heap(work.heap@, 0, s0));
                }
            }
        }
    }
    loop
        invariant
            m.wf(),
            g == m.grid,
            s0 == start_pose(*m),
            e == (m.end.x as int, m.end.y as int),
            work.w == w,
            work.h == h,
            w == g.width(),
            h == g.height(),
            4 * w * h == 4 * g.cells().len(),
            4 * w * h <= usize::MAX,
            search_ok(g, s0, e, work.min_cost@, work.heap@, (-1, -1, -1), -1),
        decreases cost_sum(work.min_cost@), work.heap@.len(),
    {
        let ghost mc1 = work.min_cost@;
        let ghost h1 = work.heap@;
        let n = match work.pop() {
            Some(n) => n,
            None => {
                proof {
                    assert forall|d: int, k: nat| 0 <= d < 4 && k <= MAX_COST implies !#[trigger] reach(g, s0, (e.0, e.1, d), k) by {
                        if reach(g, s0, (e.0, e.1, d), k) {
                            lemma_lower(g, s0, e, mc1, h1, (e.0, e.1, d), k, MAX_COST + 1);
                            assert(cost_at(mc1, w as int, (e.0, e.1, d)) < usize::MAX);
                        }
                    }
                }
                return None;
            },
        };
        let ghost bi = choose|bi: int| 0 <= bi < h1.len() && h1[bi] == n && work.heap@ == h1.remove(bi)
            && forall|j: int| 0 <= j < h1.len() ==> n.cost <= (#[trigger] h1[j]).cost;
        let ghost sp = n.pose();
        let ghost c = n.cost as int;
        proof {
            assert(pose_ok(g, sp) && reach(g, s0, sp, n.cost as nat) && cost_at(mc1, w as int, sp) <= n.cost);
        }
        if n.p.x == m.end.x && n.p.y == m.end.y {
            proof {
                assert(0 <= sp.2 < 4 && sp == (e.0, e.1, sp.2));
                assert forall|d: int, k: nat| 0 <= d < 4 && k < n.cost && k <= MAX_COST implies !#[trigger] reach(g, s0, (e.0, e.1, d), k) by {
                    if reach(g, s0, (e.0, e.1, d), k) {
                        lemma_lower(g, s0, e, mc1, h1, (e.0, e.1, d), k, n.cost as int);
                        let i = choose|i: int| 0 <= i < h1.len() && (#[trigger] h1[i]).cost == cost_at(mc1, w as int, (e.0, e.1, d)) && h1[i].pose() == (e.0, e.1, d);
                        assert(h1[i].cost >= n.cost);
                    }
                }
            }
            return Some(n.cost);
        }
        proof {
            // With `n` taken up, every other pose is as it was.
            let h2 = work.heap@;
            let wi = w as int;
            assert forall|k: int| 0 <= k < h2.len() implies pose_ok(g, (#[trigger] h2[k]).pose()) && reach(g, s0, h2[k].pose(), h2[k].cost as nat)
                && cost_at(mc1, wi, h2[k].pose()) <= h2[k].cost by {
                if k < bi {
                    assert(h2[k] == h1[k]);
                } else {
                    assert(h2[k] == h1[k + 1]);
                }
            }
            assert forall|u: Pose| pose_ok(g, u) && !(u == sp && cost_at(mc1, wi, u) == c) implies #[trigger] settled(g, mc1, wi, h2, u) by {
                assert(settled(g, mc1, wi, h1, u));
                if cost_at(mc1, wi, u) < usize::MAX && in_heap(h1, cost_at(mc1, wi, u), u) {
                    let k = choose|k: int| 0 <= k < h1.len() && (#[trigger] h1[k]).cost == cost_at(mc1, wi, u) && h1[k].pose() == u;
                    assert(k != bi);
                    if k < bi {
                        assert(h2[k] == h1[k]);
                    } else {
                        assert(h2[k - 1] == h1[k]);
                    }
                }
            }
            assert forall|d: int| 0 <= d < 4 && #[trigger] cost_at(mc1, wi, (e.0, e.1, d)) < usize::MAX implies in_heap(h2, cost_at(mc1, wi, (e.0, e.1, d)), (e.0, e.1, d)) by {
                let k = choose|k: int| 0 <= k < h1.len() && (#[trigger] h1[k]).cost == cost_at(mc1, wi, (e.0, e.1, d)) && h1[k].pose() == (e.0, e.1, d);
                assert(k != bi);
                if k < bi {
                    assert(h2[k] == h1[k]);
                } else {
                    assert(h2[k - 1] == h1[k]);
                }
            }
            assert(search_ok(g, s0, e, mc1, h2, sp, c));
        }
        let ghost hp = work.heap@;
        if n.cost <= MAX_COST {
            let a = n.ahead();
            let ghost mca = work.min_cost@;
            let ghost ha = work.heap@;
            if m.grid.get(a.p) == Some(TILE) {
                work.push(a);
                proof {
                    lemma_push_keeps(g, s0, e, mca, ha, work.min_cost@, work.heap@, a, sp, c);
                }
            }
            let ghost mcb = work.min_cost@;
            let ghost hb = work.heap@;
            let l = n.left();
            work.push(l);
            proof {
                lemma_push_keeps(g, s0, e, mcb, hb, work.min_cost@, work.heap@, l, sp, c);
            }
            let ghost mcc = work.min_cost@;
            let ghost hc = work.heap@;
            let r = n.right();
            work.push(r);
            proof {
                lemma_push_keeps(g, s0, e, mcc, hc, work.min_cost@, work.heap@, r, sp, c);
                let wi = w as int;
                let mcd = work.min_cost@;
                // `n`'s pose, if taken up at its least cost, is now expanded.
                if cost_at(mcd, wi, sp) == c {
                    lemma_turns(sp.2);
                    if ahead_ok(g, sp) {
                        assert(cost_at(mcb, wi, ahead_of(sp)) <= c + 1);
                    }
                    assert(expanded(g, mcd, wi, sp));
                }
                assert(search_ok(g, s0, e, mcd, work.heap@, (-1, -1, -1), -1)) by {
                    assert forall|u: Pose| pose_ok(g, u) implies #[trigger] settled(g, mcd, wi, work.heap@, u) by {
                        if u == sp {
                            assert(cost_at(mcd, wi, sp) == cost_at(mc1, wi, sp));
                        }
                    }
                }
            }
        } else {
            proof {
                let wi = w as int;
                assert(search_ok(g, s0, e, mc1, hp, (-1, -1, -1), -1)) by {
                    assert forall|u: Pose| pose_ok(g, u) implies #[trigger] settled(g, mc1, wi, hp, u) by {
                        if u == sp && cost_at(mc1, wi, u) == c {
                            assert(expanded(g, mc1, wi, u));
                        }
                    }
                }
            }
        }
    }
}

/// How many cells the text's drawing has.
pub open spec fn w_cells_len(s: Seq<u8>) -> int {
    match grid_of(s) {
        Some((w, cells)) => cells.len() as int,
        None => 0,
    }
}

/// The answers: the least cost of a way through the maze; the second part is left empty.
pub fn run(input: &str) -> (r: Result<String, AocError>)
    requires
        has_content(lines_of(input.spec_bytes())),
        grid_of(input.spec_bytes()) matches Some((w, cells)) ==> 4 * cells.len() <= usize::MAX,
    ensures
        match grid_of(input.spec_bytes()) {
            None => r == Err::<String, AocError>(AocError::InvalidInput),
            Some((w, cells)) => match r {
                Ok(out) => exists|m: Maze, c: usize| map_of(m, w, cells) && least_cost(m, c) && out@ == dec(c as nat) + " "@,
                Err(e) => e == AocError::NotFound && (map_missing(cells) || exists|m: Maze| map_of(m, w, cells) && no_way(m)),
            },
        },
{
    let m = match parse_map(input) {
        Ok(m) => m,
        Err(e) => return Err(e),
    };
    proof {
        assert(m.grid.cells().len() == w_cells_len(input.spec_bytes()));
    }
    let s1 = match shortest_path_cost(&m) {
        Some(c) => c,
        None => return Err(AocError::NotFound),
    };
    let mut out = String::new();
    push_dec(&mut out, s1 as u64);
    push_str(&mut out, " ");
    proof {
        reveal_strlit(" ");
    }
    Ok(out)
}

} // verus!
