//! Points, compass directions and rectangular grids of cells.

use vstd::prelude::*;
use std::collections::HashSet;
use vstd::string::*;
use crate::error::AocError;
use crate::text::{lines, lines_of, views};



verus! {

broadcast use vstd::std_specs::hash::group_hash_axioms;

/// A cell's x and y coordinates.
#[derive(Debug, Clone, Copy, PartialEq, Eq, Structural, Hash)]
pub struct Point {
    pub x: i32,
    pub y: i32,
}

impl Point {
    pub fn new(x: i32, y: i32) -> (r: Self)
        ensures
            r.x == x && r.y == y,
    {
        Self { x: x, y: y }
    }

    pub fn xy(self) -> (r: (i32, i32))
        ensures
            r == (self.x, self.y),
    {
        (self.x, self.y)
    }

    pub open spec fn sum_fits(self, o: Point) -> bool {
        i32::MIN <= self.x + o.x <= i32::MAX && i32::MIN <= self.y + o.y <= i32::MAX
    }

    pub open spec fn diff_fits(self, o: Point) -> bool {
        i32::MIN <= self.x - o.x <= i32::MAX && i32::MIN <= self.y - o.y <= i32::MAX
    }

    /// The component-wise sum.
    pub fn plus(self, o: Point) -> (r: Point)
        requires
            self.sum_fits(o),
        ensures
            r.x == self.x + o.x && r.y == self.y + o.y,
    {
        Point { x: self.x + o.x, y: self.y + o.y }
    }

    /// The component-wise difference.
    pub fn minus(self, o: Point) -> (r: Point)
        requires
            self.diff_fits(o),
        ensures
            r.x == self.x - o.x && r.y == self.y - o.y,
    {
        Point { x: self.x - o.x, y: self.y - o.y }
    }
}

pub fn pt(x: i32, y: i32) -> (r: Point)
    ensures
        r.x == x && r.y == y,
{
    Point::new(x, y)
}

/// The four unit steps: north, south, west, east.
pub open spec fn spec_step(i: int) -> Point {
    if i == 0 {
        Point { x: 0i32, y: -1i32 }
    } else if i == 1 {
        Point { x: 0, y: 1 }
    } else if i == 2 {
        Point { x: -1i32, y: 0i32 }
    } else {
        Point { x: 1, y: 0 }
    }
}

/// The `i`th of the four unit steps (north, south, west, east).
pub fn unit_step(i: usize) -> (r: Point)
    requires
        i < 4,
    ensures
        r == spec_step(i as int),
{
    if i == 0 {
        pt(0, -1)
    } else if i == 1 {
        pt(0, 1)
    } else if i == 2 {
        pt(-1, 0)
    } else {
        pt(1, 0)
    }
}

/// Cardinal directions.
#[derive(Debug, Clone, Copy, PartialEq, Eq, Structural, Hash)]
pub enum Dir {
    North,
    South,
    East,
    West,
}

/// The cell one unit step `d` (north, south, west, east) from `p`.
pub open spec fn step_from(p: Point, d: int) -> Point {
    Point { x: (p.x + spec_step(d).x) as i32, y: (p.y + spec_step(d).y) as i32 }
}

/// Cell `b` is a neighbour of cell `a`, one unit step away.
pub open spec fn nbr<T>(g: Grid<T>, a: int, b: int) -> bool {
    exists|d: int| 0 <= d < 4 && g.inside(#[trigger] step_from(g.pos_of(a), d)) && g.index_of(step_from(g.pos_of(a), d)) == b
}

/// `path` walks from cell `s`, step by step to a neighbour, over cells among `vs` or `s`.
pub open spec fn walk_in<T>(g: Grid<T>, vs: Seq<bool>, s: int, path: Seq<int>) -> bool {
    &&& path.len() >= 1
    &&& path[0] == s
    &&& forall|i: int| 0 <= i < path.len() ==> 0 <= #[trigger] path[i] < vs.len() && (vs[path[i]] || path[i] == s)
    &&& forall|i: int| 0 <= i < path.len() - 1 ==> nbr(g, #[trigger] path[i], path[i + 1])
}

/// A walk over cells among `vs` joins cell `s` to cell `k`.
pub open spec fn linked<T>(g: Grid<T>, vs: Seq<bool>, s: int, k: int) -> bool {
    exists|path: Seq<int>| #[trigger] walk_in(g, vs, s, path) && path.last() == k
}

proof fn lemma_linked_start<T>(g: Grid<T>, vs: Seq<bool>, s: int)
    requires
        0 <= s < vs.len(),
    ensures
        linked(g, vs, s, s),
{
    let path = seq![s];
    assert(walk_in(g, vs, s, path));
}

/// A walk over some cells is a walk over any cells that hold them.
proof fn lemma_linked_grow<T>(g: Grid<T>, v0: Seq<bool>, v1: Seq<bool>, s: int, k: int)
    requires
        linked(g, v0, s, k),
        v0.len() == v1.len(),
        forall|m: int| 0 <= m < v0.len() && #[trigger] v0[m] ==> v1[m],
    ensures
        linked(g, v1, s, k),
{
    let path = choose|path: Seq<int>| #[trigger] walk_in(g, v0, s, path) && path.last() == k;
    assert forall|i: int| 0 <= i < path.len() implies 0 <= #[trigger] path[i] < v1.len() && (v1[path[i]] || path[i] == s) by {
        assert(0 <= path[i] < v0.len() && (v0[path[i]] || path[i] == s));
    }
    assert(walk_in(g, v1, s, path));
}

/// A walk to `p` goes on to its neighbour `q` among the cells.
proof fn lemma_linked_extend<T>(g: Grid<T>, vs: Seq<bool>, s: int, p: int, q: int, d: int)
    requires
        linked(g, vs, s, p),
        0 <= d < 4,
        g.inside(step_from(g.pos_of(p), d)),
        g.index_of(step_from(g.pos_of(p), d)) == q,
        0 <= q < vs.len(),
        vs[q],
    ensures
        linked(g, vs, s, q),
{
    let path = choose|path: Seq<int>| #[trigger] walk_in(g, vs, s, path) && path.last() == p;
    let p2 = path.push(q);
    assert forall|i: int| 0 <= i < p2.len() implies 0 <= #[trigger] p2[i] < vs.len() && (vs[p2[i]] || p2[i] == s) by {
        if i < path.len() {
            assert(p2[i] == path[i]);
        }
    }
    assert forall|i: int| 0 <= i < p2.len() - 1 implies nbr(g, #[trigger] p2[i], p2[i + 1]) by {
        if i < path.len() - 1 {
            assert(p2[i] == path[i] && p2[i + 1] == path[i + 1]);
        } else {
            assert(p2[i] == p && p2[i + 1] == q);
            assert(g.inside(step_from(g.pos_of(p), d)));
        }
    }
    assert(walk_in(g, vs, s, p2));
}

/// `after` is `before` flooded from `start` with `value` over the cells `vs`: they hold
/// `value` and the rest are unchanged; `start` is among them; each other one passed `pred`
/// on its value and is joined to `start` by a walk over them; and each neighbour of one of
/// them is among them or fails `pred`.
pub open spec fn flood_done<T, P: Fn(&T) -> bool>(
    before: Grid<T>,
    after: Grid<T>,
    start: Point,
    value: T,
    pred: P,
    vs: Seq<bool>,
) -> bool {
    let n = before.cells().len() as int;
    let si = before.index_of(start);
    &&& vs.len() == n
    &&& after.cells().len() == n
    &&& vs[si]
    &&& forall|k: int| 0 <= k < n ==> #[trigger] after.cells()[k] == (if vs[k] { value } else { before.cells()[k] })
    &&& forall|k: int| 0 <= k < n && #[trigger] vs[k] && k != si ==> call_ensures(pred, (&before.cells()[k],), true)
    &&& forall|k: int| 0 <= k < n && #[trigger] vs[k] ==> linked(before, vs, si, k)
    &&& forall|k: int, d: int|
        0 <= k < n && #[trigger] vs[k] && 0 <= d < 4 && before.inside(#[trigger] step_from(before.pos_of(k), d)) ==> {
            let q = before.index_of(step_from(before.pos_of(k), d));
            vs[q] || q == si || call_ensures(pred, (&before.cells()[q],), false)
        }
}

/// The number of cells not visited among the first `n`.
pub open spec fn unvisited(v: Seq<bool>, n: int) -> nat
    decreases n,
{
    if n <= 0 {
        0
    } else {
        unvisited(v, n - 1) + if v[n - 1] { 0nat } else { 1nat }
    }
}

proof fn lemma_unvisited_bound(v: Seq<bool>, n: int)
    requires
        0 <= n,
    ensures
        unvisited(v, n) <= n,
    decreases n,
{
    if n > 0 {
        lemma_unvisited_bound(v, n - 1);
    }
}

proof fn lemma_unvisited_set(v: Seq<bool>, n: int, i: int)
    requires
        0 <= i < n <= v.len(),
        !v[i],
    ensures
        unvisited(v.update(i, true), n) + 1 == unvisited(v, n),
    decreases n,
{
    if n - 1 > i {
        lemma_unvisited_set(v, n - 1, i);
    } else {
        assert forall|k: int| 0 <= k < n - 1 implies v.update(i, true)[k] == v[k] by {}
        lemma_unvisited_same(v.update(i, true), v, n - 1);
    }
}

proof fn lemma_unvisited_same(a: Seq<bool>, b: Seq<bool>, n: int)
    requires
        forall|k: int| 0 <= k < n ==> a[k] == b[k],
    ensures
        unvisited(a, n) == unvisited(b, n),
    decreases n,
{
    if n > 0 {
        lemma_unvisited_same(a, b, n - 1);
    }
}

/// `q` lies in the block with corners `p0` and `p1`, their far row and column left out.
pub open spec fn in_block(p0: Point, p1: Point, q: Point) -> bool {
    &&& (if p0.x <= p1.x { p0.x <= q.x < p1.x } else { p1.x <= q.x < p0.x })
    &&& (if p0.y <= p1.y { p0.y <= q.y < p1.y } else { p1.y <= q.y < p0.y })
}

/// The direction of the offset `(x, y)`, where it lies along an axis and is not zero.
pub open spec fn dir_of(x: int, y: int) -> Option<Dir> {
    if x == 0 {
        if y < 0 {
            Some(Dir::North)
        } else if y == 0 {
            None
        } else {
            Some(Dir::South)
        }
    } else if y == 0 {
        if x < 0 {
            Some(Dir::West)
        } else {
            Some(Dir::East)
        }
    } else {
        None
    }
}

impl Dir {
    /// The direction of a step along one axis.
    pub fn from_xy(p: Point) -> (r: Option<Self>)
        ensures
            r == dir_of(p.x as int, p.y as int),
    {
        let (dx, dy) = p.xy();
        if dx == 0 {
            if dy < 0 {
                Some(Self::North)
            } else if dy == 0 {
                None
            } else {
                Some(Self::South)
            }
        } else if dy == 0 {
            if dx < 0 {
                Some(Self::West)
            } else {
                Some(Self::East)
            }
        } else {
            None
        }
    }

    pub open spec fn spec_right(self) -> Dir {
        match self {
            Dir::North => Dir::East,
            Dir::East => Dir::South,
            Dir::South => Dir::West,
            Dir::West => Dir::North,
        }
    }

    /// The direction a quarter turn clockwise.
    pub fn right(self) -> (r: Self)
        ensures
            r == self.spec_right(),
    {
        match self {
            Self::North => Self::East,
            Self::East => Self::South,
            Self::South => Self::West,
            Self::West => Self::North,
        }
    }

    pub open spec fn spec_left(self) -> Dir {
        match self {
            Dir::North => Dir::West,
            Dir::West => Dir::South,
            Dir::South => Dir::East,
            Dir::East => Dir::North,
        }
    }

    /// The direction a quarter turn counter-clockwise.
    pub fn left(self) -> (r: Self)
        ensures
            r == self.spec_left(),
    {
        match self {
            Self::North => Self::West,
            Self::West => Self::South,
            Self::South => Self::East,
            Self::East => Self::North,
        }
    }

    pub open spec fn spec_opposite(self) -> Dir {
        match self {
            Dir::North => Dir::South,
            Dir::South => Dir::North,
            Dir::East => Dir::West,
            Dir::West => Dir::East,
        }
    }

    /// The reverse direction.
    pub fn opposite(self) -> (r: Self)
        ensures
            r == self.spec_opposite(),
    {
        match self {
            Self::North => Self::South,
            Self::South => Self::North,
            Self::East => Self::West,
            Self::West => Self::East,
        }
    }

    pub open spec fn spec_index(self) -> u8 {
        match self {
            Dir::North => 0,
            Dir::South => 1,
            Dir::East => 2,
            Dir::West => 3,
        }
    }

    /// A number for the direction, below 4.
    pub fn index(self) -> (r: u8)
        ensures
            r == self.spec_index(),
            r < 4,
    {
        match self {
            Self::North => 0,
            Self::South => 1,
            Self::East => 2,
            Self::West => 3,
        }
    }

    pub open spec fn spec_step(self, x: int) -> (int, int) {
        match self {
            Dir::North => (0, -x),
            Dir::South => (0, x),
            Dir::East => (x, 0),
            Dir::West => (-x, 0),
        }
    }

    /// The offset of `x` steps in this direction.
    pub fn step(self, x: i32) -> (r: Point)
        requires
            self is North || self is West ==> x != i32::MIN,
        ensures
            (r.x as int, r.y as int) == self.spec_step(x as int),
    {
        match self {
            Self::North => pt(0, -x),
            Self::South => pt(0, x),
            Self::East => pt(x, 0),
            Self::West => pt(-x, 0),
        }
    }
}

/// A rectangular grid of `dx` by `dy` cells, stored row by row.
#[derive(Clone)]
pub struct Grid<T> {
    dx: i32,
    dy: i32,
    m: Vec<T>,
}

pub proof fn lemma_index_bounds(x: int, y: int, w: int, h: int)
    requires
        0 <= x < w,
        0 <= y < h,
    ensures
        0 <= x + y * w < w * h,
{
    assert(0 <= y * w) by (nonlinear_arith)
        requires 0 <= y, 0 <= w;
    assert(x + y * w < w * h) by (nonlinear_arith)
        requires 0 <= x < w, 0 <= y < h;
}

impl<T> Grid<T> {
    pub closed spec fn width(&self) -> int {
        self.dx as int
    }

    pub closed spec fn height(&self) -> int {
        self.dy as int
    }

    /// The cells, row by row.
    pub closed spec fn cells(&self) -> Seq<T> {
        self.m@
    }

    pub open spec fn wf(&self) -> bool {
        &&& 0 <= self.width() <= i32::MAX
        &&& 0 <= self.height() <= i32::MAX
        &&& self.width() * self.height() <= i32::MAX
        &&& self.cells().len() == self.width() * self.height()
    }

    pub open spec fn inside(&self, p: Point) -> bool {
        0 <= p.x < self.width() && 0 <= p.y < self.height()
    }

    pub open spec fn index_of(&self, p: Point) -> int {
        p.x + p.y * self.width()
    }

    /// The cell at `p`.
    pub open spec fn at(&self, p: Point) -> T {
        self.cells()[self.index_of(p)]
    }

    /// The position of the `i`th cell.
    pub open spec fn pos_of(&self, i: int) -> Point {
        Point { x: (i % self.width()) as i32, y: (i / self.width()) as i32 }
    }

    pub proof fn lemma_inside_index(&self, p: Point)
        requires
            self.wf(),
            self.inside(p),
        ensures
            0 <= self.index_of(p) < self.cells().len(),
    {
        lemma_index_bounds(p.x as int, p.y as int, self.width(), self.height());
    }

    pub proof fn lemma_pos_of(&self, i: int)
        requires
            self.wf(),
            0 <= i < self.cells().len(),
        ensures
            self.inside(self.pos_of(i)),
            self.index_of(self.pos_of(i)) == i,
            self.pos_of(i).x == i % self.width(),
            self.pos_of(i).y == i / self.width(),
    {
        let w = self.width();
        let h = self.height();
        assert(w > 0) by (nonlinear_arith)
            requires 0 <= i < w * h, 0 <= w, 0 <= h;
        assert(0 <= i % w < w) by (nonlinear_arith)
            requires w > 0;
        assert(i == (i % w) + (i / w) * w) by (nonlinear_arith)
            requires w > 0;
        assert(0 <= i / w < h) by (nonlinear_arith)
            requires w > 0, 0 <= i < w * h;
        assert(i / w <= i) by (nonlinear_arith)
            requires w > 0, 0 <= i;
    }

    pub proof fn lemma_pos_index(&self, p: Point)
        requires
            self.wf(),
            self.inside(p),
        ensures
            self.pos_of(self.index_of(p)) == p,
            0 <= self.index_of(p) < self.cells().len(),
    {
        self.lemma_inside_index(p);
        let w = self.width();
        assert((p.x + p.y * w) % w == p.x && (p.x + p.y * w) / w == p.y) by (nonlinear_arith)
            requires 0 <= p.x < w, 0 <= p.y;
    }

    /// The width and height.
    pub fn dimensions(&self) -> (r: (i32, i32))
        ensures
            r.0 == self.width() && r.1 == self.height(),
    {
        (self.dx, self.dy)
    }

    /// Whether `p` lies in the grid.
    pub fn is_inside(&self, p: Point) -> (r: bool)
        ensures
            r == self.inside(p),
    {
        let (px, py) = p.xy();
        px >= 0 && px < self.dx && py >= 0 && py < self.dy
    }

    /// The index of the cell at `p`, where `p` lies in the grid.
    pub fn to_index(&self, p: Point) -> (r: Option<usize>)
        requires
            self.wf(),
        ensures
            match r {
                Some(i) => self.inside(p) && i == self.index_of(p) && i < self.cells().len(),
                None => !self.inside(p),
            },
    {
        if self.is_inside(p) {
            proof { self.lemma_inside_index(p); }
            let (px, py) = p.xy();
            Some((px + py * self.dx) as usize)
        } else {
            None
        }
    }

    /// The position of the cell with index `p`, where there is one.
    pub fn to_xy(&self, p: usize) -> (r: Option<Point>)
        requires
            self.wf(),
        ensures
            match r {
                Some(q) => p < self.cells().len() && q == self.pos_of(p as int) && self.inside(q),
                None => p >= self.cells().len(),
            },
    {
        if p < self.m.len() {
            proof { self.lemma_pos_of(p as int); }
            let i = p as i32;
            Some(pt(i % self.dx, i / self.dx))
        } else {
            None
        }
    }

    /// The cells, row by row.
    pub fn as_slice(&self) -> (r: &[T])
        ensures
            r@ == self.cells(),
    {
        self.m.as_slice()
    }

    /// Every position, row by row.
    pub fn positions(&self) -> (r: Vec<Point>)
        requires
            self.wf(),
        ensures
            r@.len() == self.cells().len(),
            forall|i: int| 0 <= i < r@.len() ==> #[trigger] r@[i] == self.pos_of(i),
    {
        let mut r: Vec<Point> = Vec::new();
        let mut y: i32 = 0;
        proof {
            assert(self.width() * 0 == 0);
        }
        while y < self.dy
            invariant
                self.wf(),
                0 <= y <= self.height(),
                r@.len() == y * self.width(),
                forall|i: int| 0 <= i < r@.len() ==> #[trigger] r@[i] == self.pos_of(i),
            decreases self.height() - y,
        {
            let mut x: i32 = 0;
            while x < self.dx
                invariant
                    self.wf(),
                    0 <= y < self.height(),
                    0 <= x <= self.width(),
                    r@.len() == y * self.width() + x,
                    forall|i: int| 0 <= i < r@.len() ==> #[trigger] r@[i] == self.pos_of(i),
                decreases self.width() - x,
            {
                proof {
                    let w = self.width();
                    let i = y * w + x;
                    assert(i == x + y * w) by (nonlinear_arith) requires i == y * w + x;
                    lemma_index_bounds(x as int, y as int, w, self.height());
                    assert(i % w == x as int && i / w == y as int) by (nonlinear_arith)
                        requires i == x + y * w, 0 <= x < w, 0 <= y;
                }
                r.push(pt(x, y));
                x += 1;
            }
            proof {
                assert(y * self.width() + self.width() == (y + 1) * self.width()) by (nonlinear_arith);
            }
            y += 1;
        }
        proof {
            assert(self.height() * self.width() == self.width() * self.height()) by (nonlinear_arith);
        }
        r
    }
}

impl<T: Copy> Grid<T> {
    /// A grid of the given width and height with every cell `v`.
    pub fn new(d: (i32, i32), v: T) -> (r: Self)
        requires
            0 <= d.0,
            0 <= d.1,
            d.0 * d.1 <= i32::MAX,
        ensures
            r.wf(),
            r.width() == d.0,
            r.height() == d.1,
            r.cells() == Seq::new((d.0 * d.1) as nat, |i: int| v),
    {
        let (dx, dy) = d;
        let n = (dx * dy) as usize;
        let mut m: Vec<T> = Vec::new();
        while m.len() < n
            invariant
                m@.len() <= n,
                m@ == Seq::new(m@.len(), |i: int| v),
            decreases n - m@.len(),
        {
            m.push(v);
            assert(m@ =~= Seq::new(m@.len(), |i: int| v));
        }
        let r = Self { dx, dy, m };
        assert(r.cells() =~= Seq::new((d.0 * d.1) as nat, |i: int| v));
        r
    }

    /// The cell at `p`, where `p` lies in the grid.
    pub fn get(&self, p: Point) -> (r: Option<T>)
        requires
            self.wf(),
        ensures
            r == (if self.inside(p) { Some(self.at(p)) } else { None }),
    {
        match self.to_index(p) {
            Some(i) => Some(self.m[i]),
            None => None,
        }
    }

    /// Sets the cell at `p` to `v`, where `p` lies in the grid; reports whether it does.
    pub fn set(&mut self, p: Point, v: T) -> (r: bool)
        requires
            old(self).wf(),
        ensures
            final(self).wf(),
            r == old(self).inside(p),
            final(self).width() == old(self).width(),
            final(self).height() == old(self).height(),
            final(self).cells() == (if r {
                old(self).cells().update(old(self).index_of(p), v)
            } else {
                old(self).cells()
            }),
    {
        match self.to_index(p) {
            Some(i) => {
                self.m.set(i, v);
                true
            },
            None => false,
        }
    }

    /// Sets every cell to `v`.
    pub fn fill(&mut self, v: T)
        requires
            old(self).wf(),
        ensures
            final(self).wf(),
            final(self).width() == old(self).width(),
            final(self).height() == old(self).height(),
            final(self).cells() == Seq::new(old(self).cells().len(), |i: int| v),
    {
        let n = self.m.len();
        let mut i: usize = 0;
        while i < n
            invariant
                n == self.m@.len() == old(self).m@.len(),
                self.dx == old(self).dx && self.dy == old(self).dy,
                i <= n,
                forall|k: int| 0 <= k < i ==> self.m@[k] == v,
            decreases n - i,
        {
            self.m.set(i, v);
            i += 1;
        }
        assert(self.cells() =~= Seq::new(old(self).cells().len(), |i: int| v));
    }

    /// The cell at `p` to change in place, where `p` lies in the grid.
    pub fn get_mut(&mut self, p: Point) -> (r: Option<&mut T>)
        requires
            old(self).wf(),
        ensures
            r is Some == old(self).inside(p),
            r is None ==> *final(self) == *old(self),
            r matches Some(e) ==> *e == old(self).at(p),
            final(self).width() == old(self).width(),
            final(self).height() == old(self).height(),
            r matches Some(e) ==> final(self).cells() == old(self).cells().update(old(self).index_of(p), *final(e)),
    {
        match self.to_index(p) {
            Some(i) => Some(&mut self.m[i]),
            None => None,
        }
    }

    /// Sets to `fillc` each cell of the block with corners `p0` and `p1`, their far row and
    /// column left out; the rest of the block, where it passes the grid's edge, is dropped.
    pub fn fill_block(&mut self, p0: Point, p1: Point, fillc: T)
        requires
            old(self).wf(),
        ensures
            final(self).wf(),
            final(self).width() == old(self).width(),
            final(self).height() == old(self).height(),
            final(self).cells().len() == old(self).cells().len(),
            forall|i: int| 0 <= i < old(self).cells().len() ==> #[trigger] final(self).cells()[i] == (if in_block(
                p0,
                p1,
                old(self).pos_of(i),
            ) {
                fillc
            } else {
                old(self).cells()[i]
            }),
    {
        let n = self.m.len();
        let mut i: usize = 0;
        while i < n
            invariant
                old(self).wf(),
                n == self.m@.len() == old(self).m@.len(),
                self.dx == old(self).dx && self.dy == old(self).dy,
                i <= n,
                forall|k: int| 0 <= k < i ==> #[trigger] self.m@[k] == (if in_block(p0, p1, old(self).pos_of(k)) {
                    fillc
                } else {
                    old(self).m@[k]
                }),
                forall|k: int| i <= k < n ==> #[trigger] self.m@[k] == old(self).m@[k],
            decreases n - i,
        {
            let q = self.to_xy(i).unwrap();
            let lx = if p0.x <= p1.x { p0.x } else { p1.x };
            let hx = if p0.x <= p1.x { p1.x } else { p0.x };
            let ly = if p0.y <= p1.y { p0.y } else { p1.y };
            let hy = if p0.y <= p1.y { p1.y } else { p0.y };
            if lx <= q.x && q.x < hx && ly <= q.y && q.y < hy {
                self.m.set(i, fillc);
            }
            i += 1;
        }
    }

    /// Sets `value` into the cell at `start` and, from each cell set, into each neighbouring
    /// cell not reached yet on whose value `pred` holds when it is reached; nothing where
    /// `start` lies outside the grid.
    pub fn flood<P: Fn(&T) -> bool>(&mut self, start: Point, value: T, pred: P)
        requires
            old(self).wf(),
            forall|t: &T| #[trigger] pred.requires((t,)),
        ensures
            final(self).wf(),
            final(self).width() == old(self).width(),
            final(self).height() == old(self).height(),
            !old(self).inside(start) ==> final(self).cells() == old(self).cells(),
            old(self).inside(start) ==> exists|vs: Seq<bool>| flood_done(*old(self), *final(self), start, value, pred, vs),
    {
        let ghost g0 = *self;
        let ghost n = self.cells().len() as int;
        let si = match self.to_index(start) {
            Some(i) => i,
            None => {
                return;
            },
        };
        let len = self.m.len();
        let mut visited: HashSet<usize> = HashSet::new();
        let ghost mut vis: Seq<bool> = Seq::new(len as nat, |k: int| false);
        let ghost mut done: Seq<bool> = Seq::new(len as nat, |k: int| false);
        let mut stack: Vec<usize> = Vec::new();
        stack.push(si);
        proof {
            lemma_unvisited_bound(vis, n);
            lemma_linked_start(g0, vis, si as int);
        }
        while stack.len() > 0
            invariant
                g0.wf(),
                self.wf(),
                self.width() == g0.width() && self.height() == g0.height(),
                n == g0.cells().len() == self.cells().len() == len,
                vis.len() == n && done.len() == n,
                forall|u: usize| #[trigger] visited@.contains(u) <==> (u < n && vis[u as int]),
                si == g0.index_of(start),
                si < n,
                g0.inside(start),
                forall|t: &T| #[trigger] pred.requires((t,)),
                forall|k: int| 0 <= k < n ==> #[trigger] self.cells()[k] == (if done[k] { value } else { g0.cells()[k] }),
                forall|j: int| 0 <= j < stack@.len() ==> #[trigger] stack@[j] < n,
                forall|j: int| 0 <= j < stack@.len() && stack@[j] != si ==> vis[stack@[j] as int],
                forall|k: int| 0 <= k < n && #[trigger] vis[k] ==> done[k] || stack@.contains(k as usize),
                forall|k: int| 0 <= k < n && #[trigger] done[k] ==> vis[k] || k == si,
                done[si as int] || stack@ == seq![si],
                forall|k: int| 0 <= k < n && #[trigger] vis[k] && k != si ==> call_ensures(pred, (&g0.cells()[k],), true),
                forall|k: int| 0 <= k < n && #[trigger] vis[k] ==> linked(g0, vis, si as int, k),
                linked(g0, vis, si as int, si as int),
                forall|k: int, d: int|
                    0 <= k < n && #[trigger] done[k] && 0 <= d < 4 && g0.inside(#[trigger] step_from(g0.pos_of(k), d)) ==> {
                        let q = g0.index_of(step_from(g0.pos_of(k), d));
                        vis[q] || q == si || call_ensures(pred, (&g0.cells()[q],), false)
                    },
                unvisited(vis, n) <= n,
            decreases 5 * unvisited(vis, n) + stack@.len(),
        {
            let ghost st0 = stack@;
            let ghost m0 = 5 * unvisited(vis, n) + st0.len();
            let p = stack.pop().unwrap();
            proof {
                assert(st0.last() == p && st0.drop_last() =~= stack@);
                assert(st0[st0.len() - 1] == p);
            }
            let pp = self.to_xy(p).unwrap();
            self.m.set(p, value);
            proof {
                g0.lemma_pos_of(p as int);
                done = done.update(p as int, true);
                assert forall|k: int| 0 <= k < n && #[trigger] vis[k] implies done[k] || stack@.contains(k as usize) by {
                    if !done[k] && k != p {
                        assert(st0.contains(k as usize));
                        let j = choose|j: int| 0 <= j < st0.len() && st0[j] == k as usize;
                        assert(stack@[j] == st0[j]);
                    }
                }
                assert forall|j: int| 0 <= j < stack@.len() implies #[trigger] stack@[j] < n by {
                    assert(stack@[j] == st0[j]);
                }
                assert forall|j: int| 0 <= j < stack@.len() && stack@[j] != si implies vis[stack@[j] as int] by {
                    assert(stack@[j] == st0[j]);
                }
                if p != si {
                    assert(vis[p as int]);
                }
                if !done[si as int] {
                    assert(st0 == seq![si]);
                }
            }
            let mut k: usize = 0;
            while k < 4
                invariant
                    g0.wf(),
                    self.wf(),
                    self.width() == g0.width() && self.height() == g0.height(),
                    n == g0.cells().len() == self.cells().len() == len,
                    vis.len() == n && done.len() == n,
                    forall|u: usize| #[trigger] visited@.contains(u) <==> (u < n && vis[u as int]),
                    si == g0.index_of(start),
                    si < n,
                    p < n,
                    pp == g0.pos_of(p as int),
                    g0.inside(pp),
                    done[p as int],
                    done[si as int],
                    k <= 4,
                    forall|t: &T| #[trigger] pred.requires((t,)),
                    forall|k: int| 0 <= k < n ==> #[trigger] self.cells()[k] == (if done[k] { value } else { g0.cells()[k] }),
                    forall|j: int| 0 <= j < stack@.len() ==> #[trigger] stack@[j] < n,
                    forall|j: int| 0 <= j < stack@.len() && stack@[j] != si ==> vis[stack@[j] as int],
                    forall|k: int| 0 <= k < n && #[trigger] vis[k] ==> done[k] || stack@.contains(k as usize),
                    forall|k: int| 0 <= k < n && #[trigger] done[k] ==> vis[k] || k == si,
                    forall|k: int| 0 <= k < n && #[trigger] vis[k] && k != si ==> call_ensures(pred, (&g0.cells()[k],), true),
                    forall|k: int| 0 <= k < n && #[trigger] vis[k] ==> linked(g0, vis, si as int, k),
                    linked(g0, vis, si as int, si as int),
                    forall|kk: int, d: int|
                        0 <= kk < n && #[trigger] done[kk] && 0 <= d < 4 && (kk != p || d < k) && g0.inside(#[trigger] step_from(g0.pos_of(kk), d)) ==> {
                            let q = g0.index_of(step_from(g0.pos_of(kk), d));
                            vis[q] || q == si || call_ensures(pred, (&g0.cells()[q],), false)
                        },
                    unvisited(vis, n) <= n,
                    5 * unvisited(vis, n) + stack@.len() < m0,
                decreases 4 - k,
            {
                let s = unit_step(k);
                let q = pt(pp.x + s.x, pp.y + s.y);
                assert(q == step_from(pp, k as int));
                if self.is_inside(q) {
                    let qi = self.to_index(q).unwrap();
                    proof {
                        g0.lemma_pos_index(q);
                    }
                    if !visited.contains(&qi) {
                        let c = self.m[qi];
                        let ok = pred(&c);
                        proof {
                            assert(qi as int == g0.index_of(step_from(g0.pos_of(p as int), k as int)));
                            if qi != si {
                                assert(!done[qi as int]);
                                assert(c == g0.cells()[qi as int]);
                                assert(call_ensures(pred, (&g0.cells()[qi as int],), ok));
                            }
                        }
                        if ok {
                            let ghost v0 = vis;
                            let ghost s1 = stack@;
                            visited.insert(qi);
                            proof {
                                vis = vis.update(qi as int, true);
                            }
                            stack.push(qi);
                            proof {
                                lemma_unvisited_set(v0, n, qi as int);
                                assert forall|kk: int| 0 <= kk < n && #[trigger] vis[kk] implies linked(g0, vis, si as int, kk) by {
                                    if kk != qi {
                                        assert(v0[kk]);
                                        lemma_linked_grow(g0, v0, vis, si as int, kk);
                                    } else {
                                        assert(done[p as int]);
                                        if p != si {
                                            assert(v0[p as int]);
                                        }
                                        lemma_linked_grow(g0, v0, vis, si as int, p as int);
                                        lemma_linked_extend(g0, vis, si as int, p as int, qi as int, k as int);
                                    }
                                }
                                lemma_linked_grow(g0, v0, vis, si as int, si as int);
                                assert forall|kk: int| 0 <= kk < n && #[trigger] vis[kk] implies done[kk] || stack@.contains(kk as usize) by {
                                    if kk == qi {
                                        assert(stack@[s1.len() as int] == qi);
                                    } else {
                                        assert(v0[kk]);
                                        if !done[kk] {
                                            let j = choose|j: int| 0 <= j < s1.len() && s1[j] == kk as usize;
                                            assert(stack@[j] == s1[j]);
                                        }
                                    }
                                }
                                assert forall|j: int| 0 <= j < stack@.len() implies #[trigger] stack@[j] < n by {
                                    if j < s1.len() {
                                        assert(stack@[j] == s1[j]);
                                    }
                                }
                                assert forall|j: int| 0 <= j < stack@.len() && stack@[j] != si implies vis[stack@[j] as int] by {
                                    if j < s1.len() {
                                        assert(stack@[j] == s1[j]);
                                    }
                                }
                                assert forall|kk: int, d: int|
                                    0 <= kk < n && #[trigger] done[kk] && 0 <= d < 4 && (kk != p || d < k + 1) && g0.inside(#[trigger] step_from(g0.pos_of(kk), d)) implies {
                                        let q = g0.index_of(step_from(g0.pos_of(kk), d));
                                        vis[q] || q == si || call_ensures(pred, (&g0.cells()[q],), false)
                                    } by {
                                    let q2 = g0.index_of(step_from(g0.pos_of(kk), d));
                                    g0.lemma_inside_index(step_from(g0.pos_of(kk), d));
                                    if kk == p && d == k {
                                        assert(q2 == qi);
                                    } else {
                                        if v0[q2] {
                                            assert(vis[q2]);
                                        }
                                    }
                                }
                            }
                        }
                    }
                }
                k += 1;
            }
        }
        proof {
            assert(done[si as int]);
            assert forall|k: int| 0 <= k < n && #[trigger] vis[k] implies done[k] by {
                assert(!stack@.contains(k as usize));
            }
            assert forall|k: int, d: int|
                0 <= k < n && #[trigger] done[k] && 0 <= d < 4 && g0.inside(#[trigger] step_from(g0.pos_of(k), d)) implies {
                    let q = g0.index_of(step_from(g0.pos_of(k), d));
                    done[q] || q == si || call_ensures(pred, (&g0.cells()[q],), false)
                } by {
                let q = g0.index_of(step_from(g0.pos_of(k), d));
                g0.lemma_inside_index(step_from(g0.pos_of(k), d));
                if vis[q] {
                    assert(!stack@.contains(q as usize));
                }
            }
            assert forall|k: int| 0 <= k < n && #[trigger] done[k] && k != si implies call_ensures(pred, (&g0.cells()[k],), true) by {
                assert(vis[k]);
            }
            assert forall|k: int| 0 <= k < n && #[trigger] done[k] implies linked(g0, done, si as int, k) by {
                if k != si {
                    assert(vis[k]);
                }
                lemma_linked_grow(g0, vis, done, si as int, k);
            }
            assert(flood_done(g0, *self, start, value, pred, done));
        }
    }

    /// Swaps the cells at `p` and `q`, where both lie in the grid; reports whether they do.
    pub fn swap(&mut self, p: Point, q: Point) -> (r: bool)
        requires
            old(self).wf(),
        ensures
            final(self).wf(),
            r == (old(self).inside(p) && old(self).inside(q)),
            final(self).width() == old(self).width(),
            final(self).height() == old(self).height(),
            final(self).cells() == (if r {
                old(self).cells().update(old(self).index_of(p), old(self).at(q)).update(
                    old(self).index_of(q),
                    old(self).at(p),
                )
            } else {
                old(self).cells()
            }),
    {
        match (self.to_index(p), self.to_index(q)) {
            (Some(i), Some(j)) => {
                let a = self.m[i];
                let b = self.m[j];
                self.m.set(i, b);
                self.m.set(j, a);
                true
            },
            _ => false,
        }
    }

    /// Every position with its cell, row by row.
    pub fn iter(&self) -> (r: Vec<(Point, T)>)
        requires
            self.wf(),
        ensures
            r@.len() == self.cells().len(),
            forall|i: int|
                0 <= i < r@.len() ==> #[trigger] r@[i] == (self.pos_of(i), self.cells()[i]),
    {
        let ps = self.positions();
        let mut r: Vec<(Point, T)> = Vec::new();
        let mut i: usize = 0;
        while i < ps.len()
            invariant
                ps@.len() == self.m@.len(),
                i <= ps@.len(),
                r@.len() == i,
                forall|k: int| 0 <= k < ps@.len() ==> #[trigger] ps@[k] == self.pos_of(k),
                forall|k: int| 0 <= k < i ==> #[trigger] r@[k] == (self.pos_of(k), self.cells()[k]),
            decreases ps@.len() - i,
        {
            r.push((ps[i], self.m[i]));
            i += 1;
        }
        r
    }

    /// The cells, row by row.
    pub fn values(&self) -> (r: Vec<T>)
        ensures
            r@ == self.cells(),
    {
        let mut r: Vec<T> = Vec::new();
        let mut i: usize = 0;
        while i < self.m.len()
            invariant
                i <= self.m@.len(),
                r@ == self.m@.take(i as int),
            decreases self.m@.len() - i,
        {
            r.push(self.m[i]);
            i += 1;
            assert(r@ =~= self.m@.take(i as int));
        }
        assert(self.m@.take(self.m@.len() as int) =~= self.m@);
        r
    }

    /// The rows, top to bottom.
    pub fn rows(&self) -> (r: Vec<Vec<T>>)
        requires
            self.wf(),
            self.width() > 0,
        ensures
            r@.len() == self.height(),
            forall|y: int|
                0 <= y < self.height() ==> #[trigger] r@[y]@ == self.cells().subrange(
                    y * self.width(),
                    (y + 1) * self.width(),
                ),
    {
        let w = self.dx as usize;
        let mut r: Vec<Vec<T>> = Vec::new();
        let mut y: usize = 0;
        while y < self.dy as usize
            invariant
                self.wf(),
                w == self.width() > 0,
                y <= self.height(),
                r@.len() == y,
                forall|k: int|
                    0 <= k < y ==> #[trigger] r@[k]@ == self.cells().subrange(
                        k * self.width(),
                        (k + 1) * self.width(),
                    ),
            decreases self.height() - y,
        {
            let mut row: Vec<T> = Vec::new();
            let mut x: usize = 0;
            proof {
                assert((y + 1) * w <= self.height() * w) by (nonlinear_arith)
                    requires y < self.height(), w > 0;
                assert(self.height() * w == w * self.height()) by (nonlinear_arith);
                assert((y + 1) * w == y * w + w) by (nonlinear_arith);
            }
            while x < w
                invariant
                    self.wf(),
                    w == self.width() > 0,
                    y < self.height(),
                    (y + 1) * w <= self.cells().len(),
                    (y + 1) * w == y * w + w,
                    x <= w,
                    row@ == self.cells().subrange(y * w, y * w + x),
                decreases w - x,
            {
                row.push(self.m[y * w + x]);
                x += 1;
                assert(row@ =~= self.cells().subrange(y * w, y * w + x));
            }
            r.push(row);
            y += 1;
        }
        proof {
            assert(self.height() * self.width() == self.width() * self.height()) by (nonlinear_arith);
        }
        r
    }
}

/// The lines joined end to end.
pub open spec fn concat_all(ls: Seq<Seq<u8>>) -> Seq<u8>
    decreases ls.len(),
{
    if ls.len() == 0 {
        Seq::empty()
    } else {
        concat_all(ls.drop_last()) + ls.last()
    }
}

/// Every line after a non-empty one is as long as it.
pub open spec fn rectangular(ls: Seq<Seq<u8>>) -> bool {
    forall|i: int, j: int|
        0 <= i < j < ls.len() && ls[i].len() > 0 ==> #[trigger] ls[j].len() == #[trigger] ls[i].len()
}

/// Some line is not empty.
pub open spec fn has_content(ls: Seq<Seq<u8>>) -> bool {
    exists|i: int| 0 <= i < ls.len() && ls[i].len() > 0
}

/// The grid that `Grid::parse` reads from text: the width of its rows and its cells,
/// or `None` where the rows differ in length or hold more than `i32::MAX` cells.
pub open spec fn grid_of(s: Seq<u8>) -> Option<(int, Seq<u8>)> {
    let ls = lines_of(s);
    if rectangular(ls) && concat_all(ls).len() <= i32::MAX {
        Some((ls.last().len() as int, concat_all(ls)))
    } else {
        None
    }
}

impl Grid<u8> {
    /// Reads a grid of bytes, one row per line; text with no character on any line
    /// has no width, and is left out.
    pub fn parse(input: &str) -> (r: Result<Grid<u8>, AocError>)
        requires
            has_content(lines_of(input.spec_bytes())),
        ensures
            match r {
                Ok(g) => grid_of(input.spec_bytes()) == Some((g.width(), g.cells())) && g.wf()
                    && g.width() > 0,
                Err(e) => grid_of(input.spec_bytes()) is None && e == AocError::InvalidInput,
            },
    {
        Self::from_bytes(input.as_bytes())
    }

    /// Reads a grid from the bytes of text, as `parse` does.
    pub fn from_bytes(input: &[u8]) -> (r: Result<Grid<u8>, AocError>)
        requires
            has_content(lines_of(input@)),
        ensures
            match r {
                Ok(g) => grid_of(input@) == Some((g.width(), g.cells())) && g.wf() && g.width() > 0,
                Err(e) => grid_of(input@) is None && e == AocError::InvalidInput,
            },
    {
        let ls = lines(input);
        let ghost sl = lines_of(input@);
        let mut dx: usize = 0;
        let mut v: Vec<u8> = Vec::new();
        let mut j: usize = 0;
        let ghost mut rows: int = 0;
        assert(sl.take(0) =~= Seq::<Seq<u8>>::empty());
        while j < ls.len()
            invariant
                sl == lines_of(input@),
                views(ls@) == sl,
                j <= sl.len(),
                rectangular(sl.take(j as int)),
                v@ == concat_all(sl.take(j as int)),
                dx == (if j == 0 { 0 } else { sl[j - 1].len() }),
                v@.len() == rows * dx,
                0 <= rows,
                v@.len() > 0 <==> has_content(sl.take(j as int)),
            decreases sl.len() - j,
        {
            let line = &ls[j];
            assert(line@ == sl[j as int]);
            let ghost t = sl.take(j + 1);
            assert(t.drop_last() =~= sl.take(j as int));
            if v.len() > 0 && dx != line.len() {
                proof {
                    let i = choose|i: int| 0 <= i < j && sl.take(j as int)[i].len() > 0;
                    assert(sl[i].len() > 0);
                    if i < j - 1 {
                        assert(sl.take(j as int)[j - 1].len() == sl.take(j as int)[i].len());
                    }
                    assert(!rectangular(sl)) by {
                        assert(sl[j - 1] == sl.take(j as int)[j - 1]);
                        assert(sl[i] == sl.take(j as int)[i]);
                        assert(sl[j as int].len() != sl[j - 1].len());
                        if i < j - 1 {
                            assert(sl[j - 1].len() == sl[i].len());
                        }
                    }
                    assert(grid_of(input@) is None);
                }
                return Err(AocError::InvalidInput);
            }
            let ghost old_v = v@;
            let mut k: usize = 0;
            while k < line.len()
                invariant
                    k <= line@.len(),
                    v@ == old_v + line@.take(k as int),
                decreases line@.len() - k,
            {
                v.push(line[k]);
                k += 1;
                assert(v@ =~= old_v + line@.take(k as int));
            }
            assert(line@.take(line@.len() as int) =~= line@);
            proof {
                if old_v.len() > 0 {
                    rows = rows + 1;
                    assert(v@.len() == rows * line@.len()) by (nonlinear_arith)
                        requires v@.len() == (rows - 1) * line@.len() + line@.len();
                } else {
                    if line@.len() > 0 {
                        rows = 1;
                    } else {
                        rows = 0;
                    }
                }
                assert forall|a: int, b: int|
                    0 <= a < b < t.len() && t[a].len() > 0 implies #[trigger] t[b].len()
                        == #[trigger] t[a].len() by {
                    if b < j {
                        assert(sl.take(j as int)[a] == t[a] && sl.take(j as int)[b] == t[b]);
                    } else {
                        assert(old_v.len() > 0) by {
                            assert(sl.take(j as int)[a] == t[a]);
                        }
                        if a < j - 1 {
                            assert(sl.take(j as int)[j - 1].len() == sl.take(j as int)[a].len());
                        }
                    }
                }
                if v@.len() > 0 {
                    if old_v.len() > 0 {
                        let i = choose|i: int| 0 <= i < j && sl.take(j as int)[i].len() > 0;
                        assert(t[i].len() > 0);
                    } else {
                        assert(t[j as int].len() > 0);
                    }
                } else {
                    assert forall|i: int| 0 <= i < t.len() implies t[i].len() == 0 by {
                        if i < j {
                            assert(t[i] == sl.take(j as int)[i]);
                        }
                    }
                }
            }
            dx = line.len();
            j += 1;
        }
        assert(sl.take(sl.len() as int) =~= sl);
        if v.len() > 2147483647 {
            return Err(AocError::InvalidInput);
        }
        proof {
            assert(dx > 0) by {
                let i = choose|i: int| 0 <= i < sl.len() && sl[i].len() > 0;
                if i < sl.len() - 1 {
                    assert(sl[sl.len() - 1].len() == sl[i].len());
                }
            }
            assert((v@.len() as int) / (dx as int) == rows) by (nonlinear_arith)
                requires v@.len() == rows * dx, dx > 0;
            assert(rows <= v@.len()) by (nonlinear_arith)
                requires v@.len() == rows * dx, dx > 0, rows >= 0;
        }
        let dy = v.len() / dx;
        let g = Grid { dx: dx as i32, dy: dy as i32, m: v };
        proof {
            assert(g.width() * g.height() == rows * (dx as int)) by (nonlinear_arith)
                requires g.width() == dx as int, g.height() == rows;
            assert(sl.len() > 0);
            assert(dx == sl.last().len());
            assert(rectangular(sl));
            assert(g.cells() == concat_all(sl));
        }
        Ok(g)
    }

    /// The first position holding `what`, row by row.
    pub fn find(&self, what: u8) -> (r: Option<Point>)
        requires
            self.wf(),
        ensures
            match r {
                Some(p) => self.inside(p) && self.at(p) == what && forall|i: int|
                    0 <= i < self.index_of(p) ==> self.cells()[i] != what,
                None => forall|i: int| 0 <= i < self.cells().len() ==> self.cells()[i] != what,
            },
    {
        let mut i: usize = 0;
        while i < self.m.len()
            invariant
                self.wf(),
                i <= self.m@.len(),
                forall|k: int| 0 <= k < i ==> self.m@[k] != what,
            decreases self.m@.len() - i,
        {
            if self.m[i] == what {
                proof { self.lemma_pos_of(i as int); }
                return self.to_xy(i);
            }
            i += 1;
        }
        None
    }
}

} // verus!
