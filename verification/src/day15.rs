//! A robot pushing boxes around a warehouse, in a narrow and in a wide version.

use vstd::prelude::*;
use vstd::string::*;
use crate::error::AocError;
use crate::grid::{grid_of, has_content, pt, Grid, Point};
use crate::text::{dec, lines_of, push_dec, push_str, split_at_blank, split_blank};

verus! {

/// A free cell.
pub const FREE: u8 = 46;
/// A wall.
pub const WALL: u8 = 35;
/// A narrow box.
pub const BOX: u8 = 79;
/// The left half of a wide box.
pub const LEFT: u8 = 91;
/// The right half of a wide box.
pub const RIGHT: u8 = 93;
/// The robot.
pub const ROBOT: u8 = 64;

/// The cell at `(x, y)` of a `w` by `h` floor whose cells, row by row, are `m`.
pub open spec fn cell(m: Seq<u8>, w: int, h: int, x: int, y: int) -> Option<u8> {
    if 0 <= x < w && 0 <= y < h {
        Some(m[x + y * w])
    } else {
        None
    }
}

/// The left half of a wide box stands at `(x, y)`.
pub open spec fn lbox(m: Seq<u8>, w: int, h: int, x: int, y: int) -> bool {
    cell(m, w, h, x, y) == Some(LEFT)
}

/// The right half of a wide box stands at `(x, y)`.
pub open spec fn rbox(m: Seq<u8>, w: int, h: int, x: int, y: int) -> bool {
    cell(m, w, h, x, y) == Some(RIGHT)
}

/// The cells `(x, y)` and `(x + 1, y)` hold the two halves of a wide box, or neither does.
pub open spec fn paired(m: Seq<u8>, w: int, h: int, x: int, y: int) -> bool {
    lbox(m, w, h, x, y) <==> rbox(m, w, h, x + 1, y)
}

/// Every half of a wide box stands beside its other half.
pub open spec fn boxes_whole(m: Seq<u8>, w: int, h: int) -> bool {
    forall|x: int, y: int| #[trigger] paired(m, w, h, x, y)
}

/// One of the four unit steps.
pub open spec fn unit(s: Point) -> bool {
    (s.x == 0 && (s.y == 1 || s.y == -1)) || (s.y == 0 && (s.x == 1 || s.x == -1))
}

/// `x` moved `i` times by `d`, which is `-1`, `0` or `1`.
pub open spec fn ray(x: int, d: int, i: int) -> int {
    if d == 0 {
        x
    } else if d == 1 {
        x + i
    } else {
        x - i
    }
}

/// A cell that a push moves along: a box, or a half of a wide box.
pub open spec fn movable(c: Option<u8>, wide: bool) -> bool {
    if wide {
        c == Some(LEFT) || c == Some(RIGHT)
    } else {
        c == Some(BOX)
    }
}

/// The cell `i` steps along `s` from `p`.
pub open spec fn cell_along(m: Seq<u8>, w: int, h: int, p: Point, s: Point, i: int) -> Option<u8> {
    cell(m, w, h, ray(p.x as int, s.x as int, i), ray(p.y as int, s.y as int, i))
}

/// From `p` along `s`, `k` movable cells come in a row, and the next is not movable.
pub open spec fn run_is(m: Seq<u8>, w: int, h: int, p: Point, s: Point, wide: bool, k: int) -> bool {
    &&& 0 <= k
    &&& forall|i: int| 0 <= i < k ==> #[trigger] movable(cell_along(m, w, h, p, s, i), wide)
    &&& !movable(cell_along(m, w, h, p, s, k), wide)
}

/// The number of movable cells in a row from `p` along `s`.
pub open spec fn run_len(m: Seq<u8>, w: int, h: int, p: Point, s: Point, wide: bool) -> int {
    choose|k: int| run_is(m, w, h, p, s, wide, k)
}

pub proof fn lemma_run_unique(m: Seq<u8>, w: int, h: int, p: Point, s: Point, wide: bool, k: int)
    requires
        run_is(m, w, h, p, s, wide, k),
    ensures
        run_len(m, w, h, p, s, wide) == k,
{
    let j = run_len(m, w, h, p, s, wide);
    assert(run_is(m, w, h, p, s, wide, j));
    if j < k {
        assert(movable(cell_along(m, w, h, p, s, j), wide));
    }
    if k < j {
        assert(movable(cell_along(m, w, h, p, s, k), wide));
    }
}

/// Whether a push from `p` along `s` can go: the row of movable cells ends in a free cell.
pub open spec fn push_free(m: Seq<u8>, w: int, h: int, p: Point, s: Point, wide: bool) -> bool {
    cell_along(m, w, h, p, s, run_len(m, w, h, p, s, wide)) == Some(FREE)
}

/// The cells after a narrow push from `p` along `s` that can go: the free cell at the end
/// of the row takes a box, and `p` is left free.
pub open spec fn pushed(m: Seq<u8>, w: int, h: int, p: Point, s: Point) -> Seq<u8> {
    let k = run_len(m, w, h, p, s, false);
    let qx = ray(p.x as int, s.x as int, k);
    let qy = ray(p.y as int, s.y as int, k);
    m.update(qx + qy * w, BOX).update(p.x + p.y * w, FREE)
}

/// The cell `(x, y)` after a sideways push from `p` along `s` over `k` halves of wide
/// boxes: each of them moves one step on, and `p` is left free.
pub open spec fn hshift_cell(m: Seq<u8>, w: int, p: Point, s: Point, k: int, x: int, y: int) -> u8 {
    let t = if s.x == 1 { x - p.x } else { p.x - x };
    if y == p.y && t == 0 {
        FREE
    } else if y == p.y && 1 <= t <= k {
        m[(x - s.x) + y * w]
    } else {
        m[x + y * w]
    }
}

/// The cells after a sideways push of wide boxes from `p` along `s` that can go.
pub open spec fn hshifted(m: Seq<u8>, w: int, h: int, p: Point, s: Point) -> Seq<u8> {
    let k = run_len(m, w, h, p, s, true);
    Seq::new((w * h) as nat, |i: int| hshift_cell(m, w, p, s, k, i % w, i / w))
}

/// Row `j` counted from `y0` in direction `dy`.
pub open spec fn row(y0: int, dy: int, j: int) -> int {
    if dy == 1 {
        y0 + j
    } else {
        y0 - j
    }
}

/// How many rows from `y0` in direction `dy` row `y` is.
pub open spec fn level(y0: int, dy: int, y: int) -> int {
    if dy == 1 {
        y - y0
    } else {
        y0 - y
    }
}

/// The wide boxes, by their left halves' columns, that a push up or down moves in row `j`
/// counted from the box at `(x0, y0)`: that box, and in each further row the boxes that
/// the boxes of the row before would run into.
pub open spec fn front(m: Seq<u8>, w: int, h: int, x0: int, y0: int, dy: int, j: nat) -> Set<int>
    decreases j,
{
    if j == 0 {
        set![x0]
    } else {
        let prev = front(m, w, h, x0, y0, dy, (j - 1) as nat);
        let y = row(y0, dy, j as int);
        Set::new(
            |x: int|
                lbox(m, w, h, x, y) && (prev.contains(x - 1) || prev.contains(x) || prev.contains(
                    x + 1,
                )),
        )
    }
}

pub open spec fn nonempty(s: Set<int>) -> bool {
    exists|x: int| s.contains(x)
}

/// A cell that a box can be pushed into, at once or once the boxes there move on.
pub open spec fn open_cell(c: Option<u8>) -> bool {
    c == Some(FREE) || c == Some(LEFT) || c == Some(RIGHT)
}

/// No box of row `j` of a push runs into a wall.
pub open spec fn level_clear(m: Seq<u8>, w: int, h: int, x0: int, y0: int, dy: int, j: nat) -> bool {
    forall|x: int|
        #[trigger] front(m, w, h, x0, y0, dy, j).contains(x) ==> open_cell(
            cell(m, w, h, x, row(y0, dy, j + 1int)),
        ) && open_cell(cell(m, w, h, x + 1, row(y0, dy, j + 1int)))
}

pub open spec fn rows_left(h: int, y: int, dy: int) -> int {
    if dy == 1 {
        h - y
    } else {
        y + 1
    }
}

/// How a push up or down goes from row `j` on: `Some(k)` where the rows up to `k` move
/// and row `k + 1` has no box to move, `None` where a box runs into a wall.
pub open spec fn settle(m: Seq<u8>, w: int, h: int, x0: int, y0: int, dy: int, j: nat) -> Option<nat>
    decreases rows_left(h, row(y0, dy, j as int), dy),
{
    if !level_clear(m, w, h, x0, y0, dy, j) {
        None
    } else if !nonempty(front(m, w, h, x0, y0, dy, j + 1)) {
        Some(j)
    } else {
        proof {
            let x = choose|x: int| #[trigger] front(m, w, h, x0, y0, dy, j + 1).contains(x);
            assert(lbox(m, w, h, x, row(y0, dy, j + 1int)));
        }
        settle(m, w, h, x0, y0, dy, j + 1)
    }
}

/// The cell `(x, y)` after a push up or down whose rows `0` to `k` move: each moved box
/// stands one row on, and the cells it left that no box moved into are free.
pub open spec fn vpush_cell(
    m: Seq<u8>,
    w: int,
    h: int,
    x0: int,
    y0: int,
    dy: int,
    k: nat,
    x: int,
    y: int,
) -> u8 {
    let j = level(y0, dy, y);
    if 1 <= j <= k + 1 && front(m, w, h, x0, y0, dy, (j - 1) as nat).contains(x) {
        LEFT
    } else if 1 <= j <= k + 1 && front(m, w, h, x0, y0, dy, (j - 1) as nat).contains(x - 1) {
        RIGHT
    } else if 0 <= j <= k && (front(m, w, h, x0, y0, dy, j as nat).contains(x) || front(
        m,
        w,
        h,
        x0,
        y0,
        dy,
        j as nat,
    ).contains(x - 1)) {
        FREE
    } else {
        m[x + y * w]
    }
}

/// The cells after a push up or down whose rows `0` to `k` move.
pub open spec fn vpushed(m: Seq<u8>, w: int, h: int, x0: int, y0: int, dy: int, k: nat) -> Seq<u8> {
    Seq::new((w * h) as nat, |i: int| vpush_cell(m, w, h, x0, y0, dy, k, i % w, i / w))
}

/// The cells and the robot's position after the robot at `p` tries a step along `s`.
pub open spec fn step(m: Seq<u8>, w: int, h: int, p: Point, s: Point) -> (Seq<u8>, Point) {
    let q = Point { x: (p.x + s.x) as i32, y: (p.y + s.y) as i32 };
    let c = cell(m, w, h, q.x as int, q.y as int);
    if c == Some(FREE) {
        (m, q)
    } else if c == Some(BOX) {
        if push_free(m, w, h, q, s, false) {
            (pushed(m, w, h, q, s), q)
        } else {
            (m, p)
        }
    } else if c == Some(LEFT) || c == Some(RIGHT) {
        if s.y == 0 {
            if push_free(m, w, h, q, s, true) {
                (hshifted(m, w, h, q, s), q)
            } else {
                (m, p)
            }
        } else {
            let x0 = if c == Some(RIGHT) { q.x - 1 } else { q.x as int };
            match settle(m, w, h, x0, q.y as int, s.y as int, 0) {
                Some(k) => (vpushed(m, w, h, x0, q.y as int, s.y as int, k), q),
                None => (m, p),
            }
        }
    } else {
        (m, p)
    }
}

/// The cells and the robot's position after the robot at `p` tries each step of `mv`.
pub open spec fn walk(m: Seq<u8>, w: int, h: int, p: Point, mv: Seq<Point>) -> (Seq<u8>, Point)
    decreases mv.len(),
{
    if mv.len() == 0 {
        (m, p)
    } else {
        let (m1, p1) = walk(m, w, h, p, mv.drop_last());
        step(m1, w, h, p1, mv.last())
    }
}

/// The measure of how far `p` is from the edge it walks towards along `s`.
pub open spec fn to_edge(w: int, h: int, p: Point, s: Point) -> int {
    (if s.x == 1 {
        w - p.x
    } else if s.x == -1 {
        p.x + 1
    } else {
        0
    }) + (if s.y == 1 {
        h - p.y
    } else if s.y == -1 {
        p.y + 1
    } else {
        0
    })
}

/// Two positions of a floor with the same index are the same.
pub proof fn lemma_index_inj(x: int, y: int, a: int, b: int, w: int)
    requires
        0 <= x < w,
        0 <= a < w,
        x + y * w == a + b * w,
    ensures
        x == a && y == b,
{
    assert(x == a && y == b) by (nonlinear_arith)
        requires 0 <= x < w, 0 <= a < w, x + y * w == a + b * w;
}

/// Cells known one by one are the sequence of them.
pub proof fn lemma_cells_from(m: Seq<u8>, n: Seq<u8>, w: int, h: int)
    requires
        w > 0,
        h >= 0,
        m.len() == w * h,
        n.len() == w * h,
        forall|x: int, y: int| 0 <= x < w && 0 <= y < h ==> #[trigger] m[x + y * w] == n[x + y * w],
    ensures
        m == n,
{
    assert forall|i: int| 0 <= i < m.len() implies m[i] == n[i] by {
        let x = i % w;
        let y = i / w;
        assert(0 <= x < w && 0 <= y < h && i == x + y * w) by (nonlinear_arith)
            requires w > 0, 0 <= i < w * h, x == i % w, y == i / w;
        assert(m[x + y * w] == n[x + y * w]);
    }
    assert(m =~= n);
}

/// Walks from `p` along `s` over movable cells; gives the first other position and the
/// number of cells walked over.
fn walk_run(grid: &Grid<u8>, p: Point, s: Point, wide: bool) -> (r: (Point, Ghost<int>))
    requires
        grid.wf(),
        grid.inside(p),
        unit(s),
    ensures
        run_is(grid.cells(), grid.width(), grid.height(), p, s, wide, r.1@),
        r.0.x == ray(p.x as int, s.x as int, r.1@),
        r.0.y == ray(p.y as int, s.y as int, r.1@),
{
    let ghost m = grid.cells();
    let ghost w = grid.width();
    let ghost h = grid.height();
    let mut q = p;
    let ghost mut k: int = 0;
    loop
        invariant
            grid.wf(),
            m == grid.cells() && w == grid.width() && h == grid.height(),
            unit(s),
            0 <= k,
            q.x == ray(p.x as int, s.x as int, k),
            q.y == ray(p.y as int, s.y as int, k),
            -1 <= q.x <= w,
            -1 <= q.y <= h,
            forall|i: int| 0 <= i < k ==> #[trigger] movable(cell_along(m, w, h, p, s, i), wide),
        ensures
            run_is(m, w, h, p, s, wide, k),
            q.x == ray(p.x as int, s.x as int, k),
            q.y == ray(p.y as int, s.y as int, k),
        decreases to_edge(w, h, q, s),
    {
        let c = grid.get(q);
        let more = if wide {
            c == Some(LEFT) || c == Some(RIGHT)
        } else {
            c == Some(BOX)
        };
        if !more {
            break;
        }
        q = q.plus(s);
        proof {
            k = k + 1;
        }
    }
    (q, Ghost(k))
}

/// Pushes a row of narrow boxes that starts at `p` along `s`, if it ends in a free cell.
fn try_push_boxes(grid: &mut Grid<u8>, p: Point, s: Point) -> (r: bool)
    requires
        old(grid).wf(),
        old(grid).inside(p),
        unit(s),
    ensures
        final(grid).wf(),
        final(grid).width() == old(grid).width(),
        final(grid).height() == old(grid).height(),
        r == push_free(old(grid).cells(), old(grid).width(), old(grid).height(), p, s, false),
        run_is(old(grid).cells(), old(grid).width(), old(grid).height(), p, s, false, run_len(old(grid).cells(), old(grid).width(), old(grid).height(), p, s, false)),
        final(grid).cells() == (if r {
            pushed(old(grid).cells(), old(grid).width(), old(grid).height(), p, s)
        } else {
            old(grid).cells()
        }),
{
    let (q, Ghost(k)) = walk_run(grid, p, s, false);
    proof {
        lemma_run_unique(grid.cells(), grid.width(), grid.height(), p, s, false, k);
    }
    if grid.get(q) == Some(FREE) {
        grid.set(q, BOX);
        grid.set(p, FREE);
        true
    } else {
        false
    }
}

/// Index arithmetic of a floor `w` wide.
pub proof fn lemma_div_mod(x: int, y: int, w: int)
    requires
        0 <= x < w,
        0 <= y,
    ensures
        (x + y * w) % w == x,
        (x + y * w) / w == y,
{
    assert((x + y * w) % w == x && (x + y * w) / w == y) by (nonlinear_arith)
        requires 0 <= x < w, 0 <= y;
}

/// The index of a cell of a `w` by `h` floor lies among its `w * h` cells.
pub proof fn lemma_index_in(x: int, y: int, w: int, h: int)
    requires
        0 <= x < w,
        0 <= y < h,
    ensures
        0 <= x + y * w < w * h,
{
    crate::grid::lemma_index_bounds(x, y, w, h);
}

/// The cells of a sideways push with the first `i` cells of the row done.
pub open spec fn hpartial(m: Seq<u8>, cur: Seq<u8>, w: int, h: int, p: Point, s: Point, i: int) -> bool {
    forall|x: int, y: int|
        0 <= x < w && 0 <= y < h ==> #[trigger] cur[x + y * w] == (if y == p.y && 0 <= (if s.x
            == 1 { x - p.x } else { p.x - x }) < i {
            hshift_cell(m, w, p, s, i, x, y)
        } else {
            m[x + y * w]
        })
}

/// Pushes a row of wide boxes that starts at `p` sideways along `s`, if it ends in a free
/// cell.
fn try_push_wide_boxes_h(grid: &mut Grid<u8>, p: Point, s: Point) -> (r: bool)
    requires
        old(grid).wf(),
        old(grid).inside(p),
        unit(s),
        s.y == 0,
    ensures
        final(grid).wf(),
        final(grid).width() == old(grid).width(),
        final(grid).height() == old(grid).height(),
        r == push_free(old(grid).cells(), old(grid).width(), old(grid).height(), p, s, true),
        run_is(old(grid).cells(), old(grid).width(), old(grid).height(), p, s, true, run_len(old(grid).cells(), old(grid).width(), old(grid).height(), p, s, true)),
        final(grid).cells() == (if r {
            hshifted(old(grid).cells(), old(grid).width(), old(grid).height(), p, s)
        } else {
            old(grid).cells()
        }),
{
    let ghost m = grid.cells();
    let ghost w = grid.width();
    let ghost h = grid.height();
    let (q_end, Ghost(k)) = walk_run(grid, p, s, true);
    proof {
        lemma_run_unique(m, w, h, p, s, true, k);
    }
    if grid.get(q_end) != Some(FREE) {
        return false;
    }
    let mut q = p;
    let mut carry = FREE;
    let ghost mut i: int = 0;
    proof {
        assert(hpartial(m, grid.cells(), w, h, p, s, 0));
    }
    loop
        invariant_except_break
            hpartial(m, grid.cells(), w, h, p, s, i),
        invariant
            grid.wf(),
            grid.width() == w && grid.height() == h,
            m.len() == w * h,
            unit(s),
            s.y == 0,
            run_is(m, w, h, p, s, true, k),
            cell_along(m, w, h, p, s, k) == Some(FREE),
            0 <= i <= k,
            q.x == ray(p.x as int, s.x as int, i),
            q.y == p.y,
            carry == (if i == 0 { FREE } else { m[(q.x - s.x) + q.y * w] }),
        ensures
            hpartial(m, grid.cells(), w, h, p, s, k + 1),
            grid.wf(),
            grid.width() == w && grid.height() == h,
        decreases k - i,
    {
        proof {
            if i < k {
                assert(movable(cell_along(m, w, h, p, s, i), true));
            }
            assert(grid.inside(q));
            assert(grid.cells()[q.x + q.y * w] == m[q.x + q.y * w]);
        }
        let c = grid.get(q).unwrap();
        let ghost before = grid.cells();
        grid.set(q, carry);
        proof {
            let t = i;
            assert forall|x: int, y: int| 0 <= x < w && 0 <= y < h implies #[trigger] grid.cells()[x
                + y * w] == (if y == p.y && 0 <= (if s.x == 1 { x - p.x } else { p.x - x }) < i
                + 1 {
                hshift_cell(m, w, p, s, i + 1, x, y)
            } else {
                m[x + y * w]
            }) by {
                lemma_index_in(x, y, w, h);
                lemma_index_in(q.x as int, q.y as int, w, h);
                if x + y * w == q.x + q.y * w {
                    lemma_index_inj(x, y, q.x as int, q.y as int, w);
                } else {
                    assert(before[x + y * w] == grid.cells()[x + y * w]);
                }
            }
        }
        if c == FREE {
            proof {
                if i < k {
                    assert(movable(cell_along(m, w, h, p, s, i), true));
                }
                assert(i == k);
                assert forall|x: int, y: int| 0 <= x < w && 0 <= y < h implies #[trigger] grid.cells()[x
                    + y * w] == (if y == p.y && 0 <= (if s.x == 1 { x - p.x } else { p.x - x })
                    < k + 1 {
                    hshift_cell(m, w, p, s, k + 1, x, y)
                } else {
                    m[x + y * w]
                }) by {
                    assert(grid.cells()[x + y * w] == (if y == p.y && 0 <= (if s.x == 1 { x - p.x } else { p.x - x }) < i
                        + 1 {
                        hshift_cell(m, w, p, s, i + 1, x, y)
                    } else {
                        m[x + y * w]
                    }));
                }
            }
            break;
        }
        proof {
            assert(i < k);
            assert(movable(cell_along(m, w, h, p, s, i), true));
        }
        carry = c;
        q = q.plus(s);
        proof {
            i = i + 1;
        }
    }
    proof {
        let n = Seq::new((w * h) as nat, |j: int| hshift_cell(m, w, p, s, k, j % w, j / w));
        assert(w > 0);
        assert forall|x: int, y: int| 0 <= x < w && 0 <= y < h implies #[trigger] grid.cells()[x + y
            * w] == n[x + y * w] by {
            lemma_index_in(x, y, w, h);
            lemma_div_mod(x, y, w);
        }
        lemma_cells_from(grid.cells(), n, w, h);
    }
    true
}

/// The columns `r`, in increasing order, are the members of `f`.
pub open spec fn row_matches(r: Seq<i32>, f: Set<int>) -> bool {
    &&& forall|t: int| 0 <= t < r.len() ==> #[trigger] f.contains(r[t] as int)
    &&& forall|x: int| #[trigger] f.contains(x) ==> r.contains(x as i32) && i32::MIN <= x <= i32::MAX
    &&& forall|a: int, b: int| 0 <= a < b < r.len() ==> r[a] < r[b]
}

/// Every column of row `j` of a push holds the left half of a wide box.
pub proof fn lemma_front_boxes(m: Seq<u8>, w: int, h: int, x0: int, y0: int, dy: int, j: nat, x: int)
    requires
        lbox(m, w, h, x0, y0),
        front(m, w, h, x0, y0, dy, j).contains(x),
    ensures
        lbox(m, w, h, x, row(y0, dy, j as int)),
{
}

/// Each column of `next` holds a box of row `y` next to one of the first `i` columns of `xs`.
pub open spec fn sound_row(m: Seq<u8>, w: int, h: int, xs: Seq<i32>, i: int, next: Seq<i32>, y: int) -> bool {
    forall|t: int| 0 <= t < next.len() ==> #[trigger] lbox(m, w, h, next[t] as int, y) && near_some(xs, i, next[t] as int)
}

/// Each box of row `y` next to one of the first `i` columns of `xs` is among `next`.
pub open spec fn complete_row(m: Seq<u8>, w: int, h: int, xs: Seq<i32>, i: int, next: Seq<i32>, y: int) -> bool {
    forall|u: int| 0 <= u < i ==> (lbox(m, w, h, #[trigger] xs[u] - 1, y) ==> next.contains((xs[u] - 1) as i32))
        && (lbox(m, w, h, xs[u] as int, y) ==> next.contains(xs[u]))
        && (lbox(m, w, h, xs[u] + 1, y) ==> next.contains((xs[u] + 1) as i32))
}

/// Some column among the first `i` of `xs` is `v` or next to it.
pub open spec fn near_some(xs: Seq<i32>, i: int, v: int) -> bool {
    exists|u: int| 0 <= u < i && (xs[u] == v - 1 || xs[u] == v || xs[u] == v + 1)
}

/// `next` is `before` with boxes of row `y` next to column `x` added, in increasing order.
pub open spec fn grows(m: Seq<u8>, w: int, h: int, before: Seq<i32>, next: Seq<i32>, x: int, y: int) -> bool {
    &&& next.len() >= before.len()
    &&& forall|t: int| 0 <= t < before.len() ==> next[t] == before[t]
    &&& forall|t: int| before.len() <= t < next.len() ==> #[trigger] lbox(m, w, h, next[t] as int, y) && x - 1 <= next[t] <= x + 1
    &&& forall|a: int, b: int| 0 <= a < b < next.len() ==> next[a] < next[b]
    &&& forall|t: int| 0 <= t < next.len() ==> #[trigger] next[t] <= x + 1
}

pub proof fn lemma_sound_step(m: Seq<u8>, w: int, h: int, xs: Seq<i32>, i: int, before: Seq<i32>, next: Seq<i32>, y: int)
    requires
        0 <= i < xs.len(),
        sound_row(m, w, h, xs, i, before, y),
        grows(m, w, h, before, next, xs[i] as int, y),
    ensures
        sound_row(m, w, h, xs, i + 1, next, y),
{
    assert forall|t: int| 0 <= t < next.len() implies #[trigger] lbox(m, w, h, next[t] as int, y)
        && near_some(xs, i + 1, next[t] as int) by {
        if t < before.len() {
            assert(next[t] == before[t]);
            assert(lbox(m, w, h, before[t] as int, y));
            assert(near_some(xs, i, before[t] as int));
            let u = choose|u: int| 0 <= u < i && (xs[u] == before[t] - 1 || xs[u] == before[t] || xs[u] == before[t] + 1);
            assert(0 <= u < i + 1);
        } else {
            assert(lbox(m, w, h, next[t] as int, y));
            assert(xs[i] == next[t] - 1 || xs[i] == next[t] || xs[i] == next[t] + 1);
        }
    }
}

/// Whether `x` is among `v`.
fn has(v: &Vec<i32>, x: i32) -> (r: bool)
    ensures
        r == v@.contains(x),
{
    let mut i: usize = 0;
    while i < v.len()
        invariant
            i <= v@.len(),
            forall|t: int| 0 <= t < i ==> v@[t] != x,
        decreases v@.len() - i,
    {
        if v[i] == x {
            assert(v@[i as int] == x);
            return true;
        }
        i += 1;
    }
    false
}

/// The boxes of the next row of a push that the boxes at columns `xs` of a row run into,
/// in row `y`; `None` where one of them runs into a wall.
fn next_row(grid: &Grid<u8>, xs: &Vec<i32>, y: i32, cy: i32) -> (r: Option<Vec<i32>>)
    requires
        grid.wf(),
        boxes_whole(grid.cells(), grid.width(), grid.height()),
        forall|t: int| 0 <= t < xs@.len() ==> #[trigger] lbox(grid.cells(), grid.width(), grid.height(), xs@[t] as int, cy as int),
        forall|a: int, b: int| 0 <= a < b < xs@.len() ==> xs@[a] < xs@[b],
    ensures
        match r {
            Some(next) => {
                &&& forall|t: int| 0 <= t < xs@.len() ==> open_cell(#[trigger] cell(grid.cells(), grid.width(), grid.height(), xs@[t] as int, y as int))
                    && open_cell(cell(grid.cells(), grid.width(), grid.height(), xs@[t] + 1, y as int))
                &&& sound_row(grid.cells(), grid.width(), grid.height(), xs@, xs@.len() as int, next@, y as int)
                &&& complete_row(grid.cells(), grid.width(), grid.height(), xs@, xs@.len() as int, next@, y as int)
                &&& forall|a: int, b: int| 0 <= a < b < next@.len() ==> next@[a] < next@[b]
            },
            None => exists|t: int| 0 <= t < xs@.len() && !(open_cell(#[trigger] cell(grid.cells(), grid.width(), grid.height(), xs@[t] as int, y as int))
                    && open_cell(cell(grid.cells(), grid.width(), grid.height(), xs@[t] + 1, y as int))),
        },
{
    broadcast use vstd::seq_lib::group_seq_properties;
    let ghost m = grid.cells();
    let ghost w = grid.width();
    let ghost h = grid.height();
    let mut next: Vec<i32> = Vec::new();
    let mut i: usize = 0;
    while i < xs.len()
        invariant
            grid.wf(),
            m == grid.cells() && w == grid.width() && h == grid.height(),
            boxes_whole(m, w, h),
            forall|t: int| 0 <= t < xs@.len() ==> #[trigger] lbox(m, w, h, xs@[t] as int, cy as int),
            forall|a: int, b: int| 0 <= a < b < xs@.len() ==> xs@[a] < xs@[b],
            i <= xs@.len(),
            forall|t: int| 0 <= t < i ==> open_cell(#[trigger] cell(m, w, h, xs@[t] as int, y as int))
                && open_cell(cell(m, w, h, xs@[t] + 1, y as int)),
            sound_row(m, w, h, xs@, i as int, next@, y as int),
            complete_row(m, w, h, xs@, i as int, next@, y as int),
            forall|a: int, b: int| 0 <= a < b < next@.len() ==> next@[a] < next@[b],
            forall|t: int| 0 <= t < next@.len() ==> i > 0 && #[trigger] next@[t] <= xs@[i - 1] + 1,
        decreases xs@.len() - i,
    {
        let x = xs[i];
        proof {
            assert(lbox(m, w, h, x as int, cy as int));
            assert(paired(m, w, h, x as int, cy as int));
            assert(paired(m, w, h, x - 1, y as int));
            assert(paired(m, w, h, x as int, y as int));
            assert(paired(m, w, h, x - 1, cy as int));
            if i > 0 {
                let xp = xs@[i - 1];
                assert(lbox(m, w, h, xp as int, cy as int));
                assert(paired(m, w, h, xp as int, cy as int));
                assert(xp < x);
                assert(xp + 2 <= x);
            }
        }
        let c0 = grid.get(pt(x, y));
        let c1 = if x + 1 < i32::MAX { grid.get(pt(x + 1, y)) } else { None };
        let k0 = c0 == Some(FREE) || c0 == Some(RIGHT) || c0 == Some(LEFT);
        let k1 = c1 == Some(FREE) || c1 == Some(RIGHT) || c1 == Some(LEFT);
        if !(k0 && k1) {
            proof {
                assert(!(open_cell(cell(m, w, h, xs@[i as int] as int, y as int)) && open_cell(cell(m, w, h, xs@[i as int] + 1, y as int))));
            }
            return None;
        }
        let ghost before = next@;
        proof {
            assert(grows(m, w, h, before, next@, x as int, y as int));
        }
        if c0 == Some(RIGHT) {
            if next.len() == 0 || next[next.len() - 1] != x - 1 {
                let ghost pre = next@;
                next.push(x - 1);
                proof {
                    assert(next@ == pre.push((x - 1) as i32));
                    assert(next@[next@.len() - 1] == x - 1);
                }
            } else {
                assert(next@[next@.len() - 1] == x - 1);
                assert(next@.contains((x - 1) as i32));
            }
        }
        proof {
            assert(grows(m, w, h, before, next@, x as int, y as int));
            assert(lbox(m, w, h, x - 1, y as int) ==> next@.contains((x - 1) as i32)) by {
                if lbox(m, w, h, x - 1, y as int) {
                    assert(next@[next@.len() - 1] == x - 1);
                }
            }
        }
        let ghost mid = next@;
        if c0 == Some(LEFT) {
            let ghost pre = next@;
            next.push(x);
            proof {
                assert(next@ == pre.push(x));
                assert(next@[next@.len() - 1] == x);
            }
        }
        proof {
            assert(grows(m, w, h, before, next@, x as int, y as int));
            assert(forall|t: int| 0 <= t < mid.len() ==> next@[t] == mid[t]);
            assert(mid.contains((x - 1) as i32) ==> next@.contains((x - 1) as i32)) by {
                if mid.contains((x - 1) as i32) {
                    let t = choose|t: int| 0 <= t < mid.len() && mid[t] == (x - 1) as i32;
                    assert(next@[t] == (x - 1) as i32);
                }
            }
            assert(lbox(m, w, h, x as int, y as int) ==> next@.contains(x)) by {
                if lbox(m, w, h, x as int, y as int) {
                    assert(next@[next@.len() - 1] == x);
                }
            }
        }
        let ghost mid2 = next@;
        if c1 == Some(LEFT) {
            let ghost pre = next@;
            next.push(x + 1);
            proof {
                assert(next@ == pre.push((x + 1) as i32));
                assert(next@[next@.len() - 1] == x + 1);
            }
        }
        proof {
            assert(grows(m, w, h, before, next@, x as int, y as int));
            assert(forall|t: int| 0 <= t < mid2.len() ==> next@[t] == mid2[t]);
            assert forall|v: i32| mid2.contains(v) implies next@.contains(v) by {
                let t = choose|t: int| 0 <= t < mid2.len() && mid2[t] == v;
                assert(next@[t] == v);
            }
            assert(lbox(m, w, h, x + 1, y as int) ==> next@.contains((x + 1) as i32)) by {
                if lbox(m, w, h, x + 1, y as int) {
                    assert(next@[next@.len() - 1] == x + 1);
                }
            }
            assert forall|v: i32| before.contains(v) implies next@.contains(v) by {
                let t = choose|t: int| 0 <= t < before.len() && before[t] == v;
                assert(next@[t] == v);
            }
            lemma_sound_step(m, w, h, xs@, i as int, before, next@, y as int);
            assert forall|u: int| 0 <= u < i + 1 implies (lbox(m, w, h, #[trigger] xs@[u] - 1, y as int) ==> next@.contains((xs@[u] - 1) as i32))
                && (lbox(m, w, h, xs@[u] as int, y as int) ==> next@.contains(xs@[u]))
                && (lbox(m, w, h, xs@[u] + 1, y as int) ==> next@.contains((xs@[u] + 1) as i32)) by {
                if u < i {
                    assert(lbox(m, w, h, xs@[u] - 1, y as int) ==> before.contains((xs@[u] - 1) as i32));
                }
            }
            assert(sound_row(m, w, h, xs@, i + 1, next@, y as int));
            assert(complete_row(m, w, h, xs@, i + 1, next@, y as int));
        }
        i += 1;
    }
    Some(next)
}

/// The cells of a push up or down with the rows before level `lv`, and the first `cx`
/// cells of level `lv`, done.
pub open spec fn vpartial(
    m: Seq<u8>,
    cur: Seq<u8>,
    w: int,
    h: int,
    x0: int,
    y0: int,
    dy: int,
    k: nat,
    lv: int,
    cx: int,
) -> bool {
    forall|x: int, y: int|
        0 <= x < w && 0 <= y < h ==> #[trigger] cur[x + y * w] == (if (0 <= level(y0, dy, y) < lv) || (
        level(y0, dy, y) == lv && x < cx) {
            vpush_cell(m, w, h, x0, y0, dy, k, x, y)
        } else {
            m[x + y * w]
        })
}

/// Row `t` of the rows of a push is held in increasing order by `rows[t]`.
pub open spec fn rows_match(
    m: Seq<u8>,
    w: int,
    h: int,
    x0: int,
    y0: int,
    dy: int,
    rows: Seq<Vec<i32>>,
) -> bool {
    forall|t: int| 0 <= t < rows.len() ==> row_matches(#[trigger] rows[t]@, front(m, w, h, x0, y0, dy, t as nat))
}

pub proof fn lemma_has_front(r: Seq<i32>, f: Set<int>, c: i32)
    requires
        row_matches(r, f),
    ensures
        r.contains(c) == f.contains(c as int),
{
    if r.contains(c) {
        let u = choose|u: int| 0 <= u < r.len() && r[u] == c;
        assert(f.contains(r[u] as int));
    }
}

/// Pushes the wide box at `p` up or down, with every box it runs into, if none of them
/// runs into a wall.
fn try_push_wide_boxes_v(grid: &mut Grid<u8>, p: Point, dy: i32) -> (r: bool)
    requires
        old(grid).wf(),
        boxes_whole(old(grid).cells(), old(grid).width(), old(grid).height()),
        old(grid).inside(p),
        lbox(old(grid).cells(), old(grid).width(), old(grid).height(), p.x as int, p.y as int)
            || rbox(old(grid).cells(), old(grid).width(), old(grid).height(), p.x as int, p.y as int),
        dy == 1 || dy == -1,
    ensures
        final(grid).wf(),
        final(grid).width() == old(grid).width(),
        final(grid).height() == old(grid).height(),
        ({
            let m = old(grid).cells();
            let w = old(grid).width();
            let h = old(grid).height();
            let x0 = if rbox(m, w, h, p.x as int, p.y as int) { p.x - 1 } else { p.x as int };
            match settle(m, w, h, x0, p.y as int, dy as int, 0) {
                Some(k) => r && final(grid).cells() == vpushed(m, w, h, x0, p.y as int, dy as int, k)
                    && !nonempty(front(m, w, h, x0, p.y as int, dy as int, k + 1)),
                None => !r && final(grid).cells() == m,
            }
        }),
{
    broadcast use vstd::seq_lib::group_seq_properties;
    let ghost m = grid.cells();
    let ghost w = grid.width();
    let ghost h = grid.height();
    let ghost y0 = p.y as int;
    let ghost ddy = dy as int;
    let x0: i32 = if grid.get(p) == Some(RIGHT) { p.x - 1 } else { p.x };
    proof {
        assert(paired(m, w, h, p.x - 1, p.y as int));
        assert(lbox(m, w, h, x0 as int, y0));
        assert(x0 as int == (if rbox(m, w, h, p.x as int, p.y as int) { p.x - 1 } else { p.x as int }));
    }
    let mut first: Vec<i32> = Vec::new();
    first.push(x0);
    let mut rows: Vec<Vec<i32>> = Vec::new();
    rows.push(first);
    let mut cy: i32 = p.y;
    proof {
        assert(rows@[0]@ == seq![x0]);
        assert(front(m, w, h, x0 as int, y0, ddy, 0) == set![x0 as int]);
        assert(rows@[0]@[0] == x0);
        assert(rows_match(m, w, h, x0 as int, y0, ddy, rows@));
    }
    let mut k: usize = 0;
    loop
        invariant_except_break
            rows@[rows@.len() - 1]@.len() > 0,
            settle(m, w, h, x0 as int, y0, ddy, 0) == settle(m, w, h, x0 as int, y0, ddy, (rows@.len() - 1) as nat),
            0 <= cy < h,
        invariant
            grid.wf(),
            grid.cells() == m && grid.width() == w && grid.height() == h,
            boxes_whole(m, w, h),
            lbox(m, w, h, x0 as int, y0),
            x0 as int == (if rbox(m, w, h, p.x as int, p.y as int) { p.x - 1 } else { p.x as int }),
            y0 == p.y && ddy == dy,
            dy == 1 || dy == -1,
            rows@.len() >= 1,
            cy as int == row(y0, ddy, rows@.len() - 1),
            rows_match(m, w, h, x0 as int, y0, ddy, rows@),
        ensures
            rows@.len() == k + 1,
            settle(m, w, h, x0 as int, y0, ddy, 0) == Some(k as nat),
            rows@[k as int]@.len() > 0,
            level_clear(m, w, h, x0 as int, y0, ddy, k as nat),
            !nonempty(front(m, w, h, x0 as int, y0, ddy, (k + 1) as nat)),
        decreases rows_left(h, cy as int, ddy),
    {
        let j = rows.len() - 1;
        let y = cy + dy;
        let ghost xs = rows@[j as int]@;
        let ghost fj = front(m, w, h, x0 as int, y0, ddy, j as nat);
        let ghost fn1 = front(m, w, h, x0 as int, y0, ddy, (j + 1) as nat);
        proof {
            assert(row_matches(rows@[j as int]@, fj));
            assert forall|t: int| 0 <= t < xs.len() implies #[trigger] lbox(m, w, h, xs[t] as int, cy as int) by {
                assert(fj.contains(xs[t] as int));
                lemma_front_boxes(m, w, h, x0 as int, y0, ddy, j as nat, xs[t] as int);
            }
        }
        let res = next_row(grid, &rows[j], y, cy);
        match res {
            None => {
                proof {
                    let t = choose|t: int| 0 <= t < xs.len() && !(open_cell(#[trigger] cell(m, w, h, xs[t] as int, y as int))
                        && open_cell(cell(m, w, h, xs[t] + 1, y as int)));
                    assert(fj.contains(xs[t] as int));
                    assert(!level_clear(m, w, h, x0 as int, y0, ddy, j as nat));
                    assert(settle(m, w, h, x0 as int, y0, ddy, j as nat) is None);
                    assert(x0 as int == (if rbox(m, w, h, p.x as int, p.y as int) { p.x - 1 } else { p.x as int }));
                }
                return false;
            },
            Some(next) => {
                proof {
                    assert(y as int == row(y0, ddy, j + 1));
                    assert(level_clear(m, w, h, x0 as int, y0, ddy, j as nat)) by {
                        assert forall|x: int| #[trigger] fj.contains(x) implies open_cell(cell(m, w, h, x, y as int))
                            && open_cell(cell(m, w, h, x + 1, y as int)) by {
                            assert(xs.contains(x as i32));
                            let t = choose|t: int| 0 <= t < xs.len() && xs[t] == x as i32;
                            assert(open_cell(cell(m, w, h, xs[t] as int, y as int)));
                        }
                    }
                    assert forall|t: int| 0 <= t < next@.len() implies #[trigger] fn1.contains(next@[t] as int) by {
                        assert(lbox(m, w, h, next@[t] as int, y as int));
                        assert(near_some(xs, xs.len() as int, next@[t] as int));
                        let u = choose|u: int| 0 <= u < xs.len() && (xs[u] == next@[t] - 1 || xs[u] == next@[t] || xs[u] == next@[t] + 1);
                        assert(fj.contains(xs[u] as int));
                    }
                    assert forall|x: int| #[trigger] fn1.contains(x) implies next@.contains(x as i32) && i32::MIN <= x <= i32::MAX by {
                        assert(lbox(m, w, h, x, y as int));
                        if fj.contains(x - 1) {
                            assert(xs.contains((x - 1) as i32));
                            let u = choose|u: int| 0 <= u < xs.len() && xs[u] == (x - 1) as i32;
                            assert(lbox(m, w, h, xs[u] + 1, y as int));
                        } else if fj.contains(x) {
                            assert(xs.contains(x as i32));
                            let u = choose|u: int| 0 <= u < xs.len() && xs[u] == x as i32;
                            assert(lbox(m, w, h, xs[u] as int, y as int));
                        } else {
                            assert(fj.contains(x + 1));
                            assert(xs.contains((x + 1) as i32));
                            let u = choose|u: int| 0 <= u < xs.len() && xs[u] == (x + 1) as i32;
                            assert(lbox(m, w, h, xs[u] - 1, y as int));
                        }
                    }
                    assert(row_matches(next@, fn1));
                }
                if next.len() == 0 {
                    proof {
                        if nonempty(fn1) {
                            let x = choose|x: int| fn1.contains(x);
                            assert(next@.contains(x as i32));
                        }
                    }
                    k = j;
                    break;
                }
                proof {
                    assert(fn1.contains(next@[0] as int));
                    assert(nonempty(fn1));
                    assert(lbox(m, w, h, next@[0] as int, y as int));
                }
                let ghost old_rows = rows@;
                rows.push(next);
                proof {
                    assert forall|t: int| 0 <= t < rows@.len() implies row_matches(#[trigger] rows@[t]@, front(m, w, h, x0 as int, y0, ddy, t as nat)) by {
                        if t < old_rows.len() {
                            assert(rows@[t] == old_rows[t]);
                        }
                    }
                }
                cy = y;
            },
        }
    }
    proof {
        let x = rows@[k as int]@[0] as int;
        assert(front(m, w, h, x0 as int, y0, ddy, k as nat).contains(x));
        assert(open_cell(cell(m, w, h, x, row(y0, ddy, k + 1))));
    }
    // Every row from level 0 to level k + 1 lies in the floor.
    let nl = rows.len();
    let mut lv: usize = 0;
    proof {
        assert(vpartial(m, grid.cells(), w, h, x0 as int, y0, ddy, k as nat, 0, 0));
    }
    while lv <= nl
        invariant
            grid.wf(),
            grid.width() == w && grid.height() == h,
            m.len() == w * h,
            w > 0,
            boxes_whole(m, w, h),
            y0 == p.y && ddy == dy,
            dy == 1 || dy == -1,
            0 <= y0 < h,
            0 <= row(y0, ddy, k + 1) < h,
            nl == k + 1 == rows@.len(),
            lv <= nl + 1,
            rows_match(m, w, h, x0 as int, y0, ddy, rows@),
            vpartial(m, grid.cells(), w, h, x0 as int, y0, ddy, k as nat, lv as int, 0),
        decreases nl + 1 - lv,
    {
        let yy: i32 = if dy == 1 { p.y + lv as i32 } else { p.y - lv as i32 };
        proof {
            assert(yy as int == row(y0, ddy, lv as int));
            assert(level(y0, ddy, yy as int) == lv);
        }
        let dx = grid.dimensions().0;
        let mut cx: i32 = 0;
        while cx < dx
            invariant
                grid.wf(),
                grid.width() == w && grid.height() == h,
                dx == w,
                m.len() == w * h,
                w > 0,
                0 <= yy < h,
                level(y0, ddy, yy as int) == lv,
                y0 == p.y && ddy == dy,
                dy == 1 || dy == -1,
                nl == k + 1 == rows@.len(),
                lv <= nl,
                0 <= cx <= w,
                rows_match(m, w, h, x0 as int, y0, ddy, rows@),
                vpartial(m, grid.cells(), w, h, x0 as int, y0, ddy, k as nat, lv as int, cx as int),
            decreases w - cx,
        {
            let mut setv = false;
            let mut v: u8 = FREE;
            if lv >= 1 && has(&rows[lv - 1], cx) {
                v = LEFT;
                setv = true;
            } else if lv >= 1 && has(&rows[lv - 1], cx - 1) {
                v = RIGHT;
                setv = true;
            } else if lv < nl && (has(&rows[lv], cx) || has(&rows[lv], cx - 1)) {
                v = FREE;
                setv = true;
            }
            proof {
                if lv >= 1 {
                    assert(row_matches(rows@[lv - 1]@, front(m, w, h, x0 as int, y0, ddy, (lv - 1) as nat)));
                    lemma_has_front(rows@[lv - 1]@, front(m, w, h, x0 as int, y0, ddy, (lv - 1) as nat), cx);
                    lemma_has_front(rows@[lv - 1]@, front(m, w, h, x0 as int, y0, ddy, (lv - 1) as nat), (cx - 1) as i32);
                }
                if lv < nl {
                    assert(row_matches(rows@[lv as int]@, front(m, w, h, x0 as int, y0, ddy, lv as nat)));
                    lemma_has_front(rows@[lv as int]@, front(m, w, h, x0 as int, y0, ddy, lv as nat), cx);
                    lemma_has_front(rows@[lv as int]@, front(m, w, h, x0 as int, y0, ddy, lv as nat), (cx - 1) as i32);
                }
                let want = vpush_cell(m, w, h, x0 as int, y0, ddy, k as nat, cx as int, yy as int);
                assert(setv ==> v == want);
                assert(!setv ==> want == m[cx + yy * w]);
            }
            let ghost before = grid.cells();
            if setv {
                grid.set(pt(cx, yy), v);
            }
            proof {
                assert forall|x: int, y: int| 0 <= x < w && 0 <= y < h implies #[trigger] grid.cells()[x + y * w] == (if (0 <= level(y0, ddy, y) < lv) || (
                    level(y0, ddy, y) == lv && x < cx + 1) {
                    vpush_cell(m, w, h, x0 as int, y0, ddy, k as nat, x, y)
                } else {
                    m[x + y * w]
                }) by {
                    lemma_index_in(x, y, w, h);
                    lemma_index_in(cx as int, yy as int, w, h);
                    assert(before[x + y * w] == (if (0 <= level(y0, ddy, y) < lv) || (
                        level(y0, ddy, y) == lv && x < cx) {
                        vpush_cell(m, w, h, x0 as int, y0, ddy, k as nat, x, y)
                    } else {
                        m[x + y * w]
                    }));
                    if x + y * w == cx + yy * w {
                        lemma_index_inj(x, y, cx as int, yy as int, w);
                    } else {
                        if x == cx && y == yy {
                        }
                    }
                }
            }
            cx += 1;
        }
        proof {
            assert forall|x: int, y: int| 0 <= x < w && 0 <= y < h implies #[trigger] grid.cells()[x + y * w] == (if (0 <= level(y0, ddy, y) < lv + 1) || (
                level(y0, ddy, y) == lv + 1 && x < 0) {
                vpush_cell(m, w, h, x0 as int, y0, ddy, k as nat, x, y)
            } else {
                m[x + y * w]
            }) by {
                assert(grid.cells()[x + y * w] == (if (0 <= level(y0, ddy, y) < lv) || (
                    level(y0, ddy, y) == lv && x < w) {
                    vpush_cell(m, w, h, x0 as int, y0, ddy, k as nat, x, y)
                } else {
                    m[x + y * w]
                }));
            }
        }
        lv += 1;
    }
    proof {
        let n = vpushed(m, w, h, x0 as int, y0, ddy, k as nat);
        assert forall|x: int, y: int| 0 <= x < w && 0 <= y < h implies #[trigger] grid.cells()[x + y * w] == n[x + y * w] by {
            lemma_index_in(x, y, w, h);
            lemma_div_mod(x, y, w);
            assert(grid.cells()[x + y * w] == (if (0 <= level(y0, ddy, y) < nl + 1) || (
                level(y0, ddy, y) == nl + 1 && x < 0) {
                vpush_cell(m, w, h, x0 as int, y0, ddy, k as nat, x, y)
            } else {
                m[x + y * w]
            }));
        }
        lemma_cells_from(grid.cells(), n, w, h);
    }
    true
}

/// The cell `(x, y)` of `n` is `v` and every other cell is as in `m`.
pub proof fn lemma_cell_update(m: Seq<u8>, w: int, h: int, a: int, b: int, v: u8, x: int, y: int)
    requires
        m.len() == w * h,
        0 <= a < w,
        0 <= b < h,
    ensures
        cell(m.update(a + b * w, v), w, h, x, y) == (if x == a && y == b {
            Some(v)
        } else {
            cell(m, w, h, x, y)
        }),
{
    lemma_index_in(a, b, w, h);
    if 0 <= x < w && 0 <= y < h {
        lemma_index_in(x, y, w, h);
        if x + y * w == a + b * w {
            lemma_index_inj(x, y, a, b, w);
        }
    }
}

/// A narrow push leaves the wide boxes whole.
pub proof fn lemma_pushed_whole(m: Seq<u8>, w: int, h: int, p: Point, s: Point)
    requires
        boxes_whole(m, w, h),
        m.len() == w * h,
        cell(m, w, h, p.x as int, p.y as int) == Some(BOX),
        run_is(m, w, h, p, s, false, run_len(m, w, h, p, s, false)),
        push_free(m, w, h, p, s, false),
    ensures
        boxes_whole(pushed(m, w, h, p, s), w, h),
{
    let k = run_len(m, w, h, p, s, false);
    let qx = ray(p.x as int, s.x as int, k);
    let qy = ray(p.y as int, s.y as int, k);
    assert(0 <= qx < w && 0 <= qy < h);
    lemma_index_in(qx, qy, w, h);
    let m1 = m.update(qx + qy * w, BOX);
    let n = pushed(m, w, h, p, s);
    assert forall|x: int, y: int| #[trigger] paired(n, w, h, x, y) by {
        assert(paired(m, w, h, x, y));
        lemma_cell_update(m, w, h, qx, qy, BOX, x, y);
        lemma_cell_update(m, w, h, qx, qy, BOX, x + 1, y);
        lemma_cell_update(m1, w, h, p.x as int, p.y as int, FREE, x, y);
        lemma_cell_update(m1, w, h, p.x as int, p.y as int, FREE, x + 1, y);
    }
}

/// A sideways push of wide boxes, by a robot standing on a free cell, leaves them whole.
pub proof fn lemma_hshift_whole(m: Seq<u8>, w: int, h: int, p: Point, s: Point)
    requires
        boxes_whole(m, w, h),
        w > 0,
        h >= 0,
        m.len() == w * h,
        unit(s),
        s.y == 0,
        cell_along(m, w, h, p, s, -1) == Some(FREE),
        0 <= p.x < w && 0 <= p.y < h,
        run_is(m, w, h, p, s, true, run_len(m, w, h, p, s, true)),
        push_free(m, w, h, p, s, true),
    ensures
        boxes_whole(hshifted(m, w, h, p, s), w, h),
{
    let k = run_len(m, w, h, p, s, true);
    let n = hshifted(m, w, h, p, s);
    assert forall|x: int, y: int| #[trigger] paired(n, w, h, x, y) by {
        assert(paired(m, w, h, x, y));
        assert(paired(m, w, h, x - 1, y));
        assert(paired(m, w, h, x + 1, y));
        assert forall|c: int| 0 <= c < w && 0 <= y < h implies #[trigger] cell(n, w, h, c, y) == Some(hshift_cell(m, w, p, s, k, c, y)) by {
            lemma_index_in(c, y, w, h);
            lemma_div_mod(c, y, w);
        }
        if 0 <= y < h && y == p.y {
            let t = if s.x == 1 { x - p.x } else { p.x - x };
            if s.x == 1 {
                if 1 <= t <= k {
                    assert(movable(cell_along(m, w, h, p, s, t - 1), true));
                }
                if 1 <= t + 1 <= k {
                    assert(movable(cell_along(m, w, h, p, s, t), true));
                }
                if t == 0 && k >= 1 {
                    assert(movable(cell_along(m, w, h, p, s, 0), true));
                }
            } else {
                if 1 <= t <= k {
                    assert(movable(cell_along(m, w, h, p, s, t - 1), true));
                }
                if 1 <= t - 1 <= k {
                    assert(movable(cell_along(m, w, h, p, s, t - 2), true));
                }
                if t == 1 && k >= 1 {
                    assert(movable(cell_along(m, w, h, p, s, 0), true));
                }
                if t == k + 1 && k >= 1 {
                    assert(movable(cell_along(m, w, h, p, s, k - 1), true));
                }
            }
        }
    }
}

/// Two wide boxes of one row of a push are never side by side.
pub proof fn lemma_front_apart(m: Seq<u8>, w: int, h: int, x0: int, y0: int, dy: int, j: nat, x: int)
    requires
        boxes_whole(m, w, h),
        lbox(m, w, h, x0, y0),
        front(m, w, h, x0, y0, dy, j).contains(x),
    ensures
        !front(m, w, h, x0, y0, dy, j).contains(x + 1),
        !front(m, w, h, x0, y0, dy, j).contains(x - 1),
        rbox(m, w, h, x + 1, row(y0, dy, j as int)),
        0 <= x && x + 1 < w && 0 <= row(y0, dy, j as int) < h,
{
    let y = row(y0, dy, j as int);
    lemma_front_boxes(m, w, h, x0, y0, dy, j, x);
    assert(paired(m, w, h, x, y));
    assert(paired(m, w, h, x - 1, y));
    if front(m, w, h, x0, y0, dy, j).contains(x + 1) {
        lemma_front_boxes(m, w, h, x0, y0, dy, j, x + 1);
    }
    if front(m, w, h, x0, y0, dy, j).contains(x - 1) {
        lemma_front_boxes(m, w, h, x0, y0, dy, j, x - 1);
    }
}

/// A push up or down that goes leaves the wide boxes whole.
pub proof fn lemma_vpush_whole(m: Seq<u8>, w: int, h: int, x0: int, y0: int, dy: int, k: nat)
    requires
        boxes_whole(m, w, h),
        w > 0,
        h >= 0,
        m.len() == w * h,
        dy == 1 || dy == -1,
        lbox(m, w, h, x0, y0),
        !nonempty(front(m, w, h, x0, y0, dy, k + 1)),
    ensures
        boxes_whole(vpushed(m, w, h, x0, y0, dy, k), w, h),
{
    let n = vpushed(m, w, h, x0, y0, dy, k);
    assert forall|c: int, y: int| 0 <= c < w && 0 <= y < h implies #[trigger] cell(n, w, h, c, y) == Some(vpush_cell(m, w, h, x0, y0, dy, k, c, y)) by {
        lemma_index_in(c, y, w, h);
        lemma_div_mod(c, y, w);
    }
    assert forall|x: int, y: int| #[trigger] paired(n, w, h, x, y) by {
        assert(paired(m, w, h, x, y));
        assert(paired(m, w, h, x - 1, y));
        let j = level(y0, dy, y);
        if 0 <= y < h {
            if j >= 1 {
                let f = front(m, w, h, x0, y0, dy, (j - 1) as nat);
                if f.contains(x) {
                    lemma_front_apart(m, w, h, x0, y0, dy, (j - 1) as nat, x);
                }
                if f.contains(x - 1) {
                    lemma_front_apart(m, w, h, x0, y0, dy, (j - 1) as nat, x - 1);
                }
                if f.contains(x + 1) {
                    lemma_front_apart(m, w, h, x0, y0, dy, (j - 1) as nat, x + 1);
                }
                assert(row(y0, dy, j) == y);
                // A box of row j that a box of row j - 1 runs into moves itself.
                let g = front(m, w, h, x0, y0, dy, j as nat);
                if lbox(m, w, h, x, y) && (f.contains(x - 1) || f.contains(x) || f.contains(x + 1)) {
                    assert(g.contains(x));
                }
                if lbox(m, w, h, x - 1, y) && (f.contains(x - 2) || f.contains(x - 1) || f.contains(x)) {
                    assert(g.contains(x - 1));
                }
                if j == k + 1 {
                    if g.contains(x) {
                        assert(nonempty(g));
                    }
                    if g.contains(x - 1) {
                        assert(nonempty(g));
                    }
                }
            }
            if 0 <= j {
                let g = front(m, w, h, x0, y0, dy, j as nat);
                if g.contains(x) {
                    lemma_front_apart(m, w, h, x0, y0, dy, j as nat, x);
                }
                if g.contains(x - 1) {
                    lemma_front_apart(m, w, h, x0, y0, dy, j as nat, x - 1);
                }
                if g.contains(x + 1) {
                    lemma_front_apart(m, w, h, x0, y0, dy, j as nat, x + 1);
                }
            }
        }
    }
}

/// What a robot standing on a free cell of a floor whose wide boxes are whole keeps.
pub open spec fn robot_ok(m: Seq<u8>, w: int, h: int, p: Point) -> bool {
    &&& boxes_whole(m, w, h)
    &&& 0 <= p.x < w && 0 <= p.y < h
    &&& cell(m, w, h, p.x as int, p.y as int) == Some(FREE)
}

/// Pushes the wide box at `p` along `s`, sideways or up or down.
fn try_push_wide_boxes(grid: &mut Grid<u8>, p: Point, s: Point) -> (r: bool)
    requires
        old(grid).wf(),
        boxes_whole(old(grid).cells(), old(grid).width(), old(grid).height()),
        old(grid).inside(p),
        lbox(old(grid).cells(), old(grid).width(), old(grid).height(), p.x as int, p.y as int)
            || rbox(old(grid).cells(), old(grid).width(), old(grid).height(), p.x as int, p.y as int),
        unit(s),
    ensures
        final(grid).wf(),
        final(grid).width() == old(grid).width(),
        final(grid).height() == old(grid).height(),
        s.y == 0 ==> r == push_free(old(grid).cells(), old(grid).width(), old(grid).height(), p, s, true)
            && run_is(old(grid).cells(), old(grid).width(), old(grid).height(), p, s, true, run_len(old(grid).cells(), old(grid).width(), old(grid).height(), p, s, true))
            && final(grid).cells() == (if r {
                hshifted(old(grid).cells(), old(grid).width(), old(grid).height(), p, s)
            } else {
                old(grid).cells()
            }),
        s.y != 0 ==> ({
            let m = old(grid).cells();
            let w = old(grid).width();
            let h = old(grid).height();
            let x0 = if rbox(m, w, h, p.x as int, p.y as int) { p.x - 1 } else { p.x as int };
            match settle(m, w, h, x0, p.y as int, s.y as int, 0) {
                Some(k) => r && final(grid).cells() == vpushed(m, w, h, x0, p.y as int, s.y as int, k)
                    && !nonempty(front(m, w, h, x0, p.y as int, s.y as int, k + 1)),
                None => !r && final(grid).cells() == m,
            }
        }),
{
    if s.y == 0 {
        try_push_wide_boxes_h(grid, p, s)
    } else {
        try_push_wide_boxes_v(grid, p, s.y)
    }
}

/// The robot at `p0` tries a step along `s`, pushing what boxes it can; gives its new position.
pub fn step_robot(grid: &mut Grid<u8>, p0: Point, s: Point) -> (r: Point)
    requires
        old(grid).wf(),
        robot_ok(old(grid).cells(), old(grid).width(), old(grid).height(), p0),
        unit(s),
    ensures
        final(grid).wf(),
        final(grid).width() == old(grid).width(),
        final(grid).height() == old(grid).height(),
        robot_ok(final(grid).cells(), final(grid).width(), final(grid).height(), r),
        (final(grid).cells(), r) == step(old(grid).cells(), old(grid).width(), old(grid).height(), p0, s),
{
    let ghost m = grid.cells();
    let ghost w = grid.width();
    let ghost h = grid.height();
    let p1 = p0.plus(s);
    let c = grid.get(p1);
    if c == Some(FREE) {
        p1
    } else if c == Some(BOX) {
        if try_push_boxes(grid, p1, s) {
            proof {
                lemma_pushed_whole(m, w, h, p1, s);
                let k = run_len(m, w, h, p1, s, false);
                let qx = ray(p1.x as int, s.x as int, k);
                let qy = ray(p1.y as int, s.y as int, k);
                lemma_index_in(qx, qy, w, h);
                lemma_cell_update(m.update(qx + qy * w, BOX), w, h, p1.x as int, p1.y as int, FREE, p1.x as int, p1.y as int);
            }
            p1
        } else {
            p0
        }
    } else if c == Some(LEFT) || c == Some(RIGHT) {
        let ok = try_push_wide_boxes(grid, p1, s);
        if ok {
            proof {
                assert(w > 0);
                if s.y == 0 {
                    assert(cell_along(m, w, h, p1, s, -1) == cell(m, w, h, p0.x as int, p0.y as int));
                    lemma_hshift_whole(m, w, h, p1, s);
                    lemma_index_in(p1.x as int, p1.y as int, w, h);
                    lemma_div_mod(p1.x as int, p1.y as int, w);
                } else {
                    let x0 = if rbox(m, w, h, p1.x as int, p1.y as int) { p1.x - 1 } else { p1.x as int };
                    assert(paired(m, w, h, p1.x - 1, p1.y as int));
                    assert(lbox(m, w, h, x0, p1.y as int));
                    let k = settle(m, w, h, x0, p1.y as int, s.y as int, 0)->0;
                    lemma_vpush_whole(m, w, h, x0, p1.y as int, s.y as int, k);
                    lemma_index_in(p1.x as int, p1.y as int, w, h);
                    lemma_div_mod(p1.x as int, p1.y as int, w);
                    assert(level(p1.y as int, s.y as int, p1.y as int) == 0);
                    assert(front(m, w, h, x0, p1.y as int, s.y as int, 0) == set![x0]);
                }
            }
            p1
        } else {
            p0
        }
    } else {
        p0
    }
}

/// The steps that the text `s` asks of the robot: `^`, `<`, `>` and `v`, in order; every
/// other character is passed over.
pub open spec fn moves_of(s: Seq<u8>) -> Seq<Point>
    decreases s.len(),
{
    if s.len() == 0 {
        Seq::empty()
    } else {
        let rest = moves_of(s.drop_last());
        let c = s.last();
        if c == 94u8 {
            rest.push(Point { x: 0i32, y: -1i32 })
        } else if c == 60u8 {
            rest.push(Point { x: -1i32, y: 0i32 })
        } else if c == 62u8 {
            rest.push(Point { x: 1, y: 0 })
        } else if c == 118u8 {
            rest.push(Point { x: 0, y: 1 })
        } else {
            rest
        }
    }
}

/// The robot's steps read from text.
pub fn moves_iter(moves: &[u8]) -> (r: Vec<Point>)
    ensures
        r@ == moves_of(moves@),
        forall|i: int| 0 <= i < r@.len() ==> unit(#[trigger] r@[i]),
{
    let mut r: Vec<Point> = Vec::new();
    let mut i: usize = 0;
    while i < moves.len()
        invariant
            i <= moves@.len(),
            r@ == moves_of(moves@.take(i as int)),
            forall|t: int| 0 <= t < r@.len() ==> unit(#[trigger] r@[t]),
        decreases moves@.len() - i,
    {
        let c = moves[i];
        if c == 94u8 {
            r.push(pt(0, -1));
        } else if c == 60u8 {
            r.push(pt(-1, 0));
        } else if c == 62u8 {
            r.push(pt(1, 0));
        } else if c == 118u8 {
            r.push(pt(0, 1));
        }
        assert(moves@.take(i + 1).drop_last() =~= moves@.take(i as int));
        i += 1;
    }
    assert(moves@.take(moves@.len() as int) =~= moves@);
    r
}

/// A box or the left half of a wide box: what the positioning system counts.
pub open spec fn goods(c: u8) -> bool {
    c == BOX || c == LEFT
}

/// The sum of the positions `x + 100 y` of the boxes among the first `n` cells of a
/// floor `w` wide.
pub open spec fn gps(m: Seq<u8>, w: int, n: int) -> int
    decreases n,
{
    if n <= 0 {
        0
    } else {
        gps(m, w, n - 1) + (if goods(m[n - 1]) {
            (n - 1) % w + 100 * ((n - 1) / w)
        } else {
            0
        })
    }
}

/// The sums of box positions fit in their types.
pub open spec fn gps_fits(w: int, h: int) -> bool {
    &&& w * h * (w + 100 * h) <= u64::MAX
    &&& w + 100 * h <= i32::MAX
}

/// The sum of the positions of the boxes.
pub fn gps_sum(grid: &Grid<u8>) -> (r: u64)
    requires
        grid.wf(),
        grid.width() > 0,
        gps_fits(grid.width(), grid.height()),
    ensures
        r == gps(grid.cells(), grid.width(), grid.cells().len() as int),
{
    let ghost m = grid.cells();
    let ghost w = grid.width();
    let ghost h = grid.height();
    let cells = grid.as_slice();
    let dx = grid.dimensions().0 as usize;
    let mut acc: u64 = 0;
    let mut i: usize = 0;
    while i < cells.len()
        invariant
            cells@ == m,
            m.len() == w * h,
            dx == w > 0,
            h >= 0,
            gps_fits(w, h),
            i <= m.len(),
            acc == gps(m, w, i as int),
            acc <= i * (w + 100 * h),
        decreases m.len() - i,
    {
        proof {
            let ii = i as int;
            assert(ii / w < h && 0 <= ii % w < w) by (nonlinear_arith)
                requires 0 <= ii < w * h, w > 0;
            assert((i + 1) * (w + 100 * h) <= w * h * (w + 100 * h)) by (nonlinear_arith)
                requires i + 1 <= w * h, w > 0, h >= 0;
            assert((i + 1) * (w + 100 * h) == i * (w + 100 * h) + (w + 100 * h)) by (nonlinear_arith);
            assert(100 * (ii / w) <= 100 * h);
        }
        if cells[i] == BOX || cells[i] == LEFT {
            let v = (i % dx) as u64 + 100 * ((i / dx) as u64);
            acc = acc + v;
        }
        i += 1;
    }
    acc
}

/// The cell `(x, y)` of a floor `w` wide made twice as wide: a box becomes the two halves
/// of a wide box, every other cell is doubled.
pub open spec fn wide_cell(m: Seq<u8>, w: int, x: int, y: int) -> u8 {
    let c = m[x / 2 + y * w];
    if c == BOX {
        if x % 2 == 0 {
            LEFT
        } else {
            RIGHT
        }
    } else {
        c
    }
}

/// The cells of a floor `w` by `h` made twice as wide.
pub open spec fn widened(m: Seq<u8>, w: int, h: int) -> Seq<u8> {
    Seq::new((2 * w * h) as nat, |i: int| wide_cell(m, w, i % (2 * w), i / (2 * w)))
}

/// No cell holds a half of a wide box.
pub open spec fn no_halves(m: Seq<u8>) -> bool {
    forall|i: int| 0 <= i < m.len() ==> #[trigger] m[i] != LEFT && m[i] != RIGHT
}

/// The floor made twice as wide, and the robot's place on it.
pub fn widen(grid: &Grid<u8>, start: Point) -> (r: (Grid<u8>, Point))
    requires
        grid.wf(),
        grid.width() > 0,
        2 * grid.width() * grid.height() <= i32::MAX,
        grid.inside(start),
    ensures
        r.0.wf(),
        r.0.width() == 2 * grid.width(),
        r.0.height() == grid.height(),
        r.0.cells() == widened(grid.cells(), grid.width(), grid.height()),
        r.1.x == 2 * start.x && r.1.y == start.y,
{
    let ghost m = grid.cells();
    let ghost w = grid.width();
    let ghost h = grid.height();
    let (dx, dy) = grid.dimensions();
    proof {
        assert(2 * dx * dy == (2 * dx) * dy) by (nonlinear_arith);
        assert(dy * (2 * dx) == (2 * dx) * dy) by (nonlinear_arith);
        assert(2 * dx <= 2 * dx * dy) by (nonlinear_arith)
            requires dy >= 1, dx >= 0;
    }
    let mut wg = Grid::new((2 * dx, dy), FREE);
    let ghost ww = 2 * w;
    proof {
        assert forall|x: int, yy: int| 0 <= x < ww && 0 <= yy < h implies #[trigger] wg.cells()[x + yy * ww] == (if yy < 0 {
            wide_cell(m, w, x, yy)
        } else {
            FREE
        }) by {
            lemma_index_in(x, yy, ww, h);
        }
    }
    let mut y: i32 = 0;
    while y < dy
        invariant
            grid.wf(),
            grid.cells() == m && grid.width() == w && grid.height() == h,
            dx == w > 0 && dy == h,
            ww == 2 * w,
            2 * w * h <= i32::MAX,
            wg.wf(),
            wg.width() == ww && wg.height() == h,
            0 <= y <= h,
            forall|x: int, yy: int| 0 <= x < ww && 0 <= yy < h ==> #[trigger] wg.cells()[x + yy * ww] == (if yy < y {
                wide_cell(m, w, x, yy)
            } else {
                FREE
            }),
        decreases h - y,
    {
        let mut x: i32 = 0;
        while x < dx
            invariant
                grid.wf(),
                grid.cells() == m && grid.width() == w && grid.height() == h,
                dx == w > 0 && dy == h,
                ww == 2 * w,
                2 * w * h <= i32::MAX,
                wg.wf(),
                wg.width() == ww && wg.height() == h,
                0 <= y < h,
                0 <= x <= w,
                forall|xx: int, yy: int| 0 <= xx < ww && 0 <= yy < h ==> #[trigger] wg.cells()[xx + yy * ww] == (if yy < y || (yy == y && xx < 2 * x) {
                    wide_cell(m, w, xx, yy)
                } else {
                    FREE
                }),
            decreases w - x,
        {
            let c = grid.get(pt(x, y)).unwrap();
            let (c0, c1) = if c == BOX { (LEFT, RIGHT) } else { (c, c) };
            let ghost before = wg.cells();
            wg.set(pt(2 * x, y), c0);
            let ghost mid = wg.cells();
            wg.set(pt(2 * x + 1, y), c1);
            proof {
                assert forall|xx: int, yy: int| 0 <= xx < ww && 0 <= yy < h implies #[trigger] wg.cells()[xx + yy * ww] == (if yy < y || (yy == y && xx < 2 * (x + 1)) {
                    wide_cell(m, w, xx, yy)
                } else {
                    FREE
                }) by {
                    lemma_index_in(xx, yy, ww, h);
                    lemma_index_in(2 * x, y as int, ww, h);
                    lemma_index_in(2 * x + 1, y as int, ww, h);
                    assert(before[xx + yy * ww] == (if yy < y || (yy == y && xx < 2 * x) {
                        wide_cell(m, w, xx, yy)
                    } else {
                        FREE
                    }));
                    if xx + yy * ww == 2 * x + y * ww {
                        lemma_index_inj(xx, yy, 2 * x, y as int, ww);
                    }
                    if xx + yy * ww == 2 * x + 1 + y * ww {
                        lemma_index_inj(xx, yy, 2 * x + 1, y as int, ww);
                    }
                    if yy == y && (xx == 2 * x || xx == 2 * x + 1) {
                        assert(xx / 2 == x);
                        assert(xx % 2 == (if xx == 2 * x { 0int } else { 1int }));
                    }
                }
            }
            x += 1;
        }
        proof {
            assert forall|xx: int, yy: int| 0 <= xx < ww && 0 <= yy < h implies #[trigger] wg.cells()[xx + yy * ww] == (if yy < y + 1 {
                wide_cell(m, w, xx, yy)
            } else {
                FREE
            }) by {
                assert(wg.cells()[xx + yy * ww] == (if yy < y || (yy == y && xx < 2 * w) {
                    wide_cell(m, w, xx, yy)
                } else {
                    FREE
                }));
            }
        }
        y += 1;
    }
    proof {
        let n = widened(m, w, h);
        assert(ww * h == 2 * w * h) by (nonlinear_arith)
            requires ww == 2 * w;
        assert forall|xx: int, yy: int| 0 <= xx < ww && 0 <= yy < h implies #[trigger] wg.cells()[xx + yy * ww] == n[xx + yy * ww] by {
            lemma_index_in(xx, yy, ww, h);
            lemma_div_mod(xx, yy, ww);
        }
        lemma_cells_from(wg.cells(), n, ww, h);
    }
    let (sx, sy) = start.xy();
    (wg, pt(2 * sx, sy))
}

/// A floor made twice as wide holds whole wide boxes, where it held no halves of them.
pub proof fn lemma_widened_whole(m: Seq<u8>, w: int, h: int)
    requires
        w > 0,
        h >= 0,
        m.len() == w * h,
        no_halves(m),
    ensures
        boxes_whole(widened(m, w, h), 2 * w, h),
{
    let n = widened(m, w, h);
    let ww = 2 * w;
    assert(ww * h == 2 * w * h) by (nonlinear_arith)
        requires ww == 2 * w;
    assert forall|x: int, y: int| #[trigger] paired(n, ww, h, x, y) by {
        if 0 <= y < h {
            if 0 <= x < ww {
                lemma_index_in(x, y, ww, h);
                lemma_div_mod(x, y, ww);
                lemma_index_in(x / 2, y, w, h);
            }
            if 0 <= x + 1 < ww {
                lemma_index_in(x + 1, y, ww, h);
                lemma_div_mod(x + 1, y, ww);
                lemma_index_in((x + 1) / 2, y, w, h);
            }
            if x % 2 == 0 {
                assert((x + 1) / 2 == x / 2 && (x + 1) % 2 == 1);
            } else {
                assert((x + 1) % 2 == 0);
            }
        }
    }
}

/// The sum of the positions of the boxes once the robot at `start` has tried every step.
pub fn star(grid: Grid<u8>, start: Point, moves: &Vec<Point>) -> (r: u64)
    requires
        grid.wf(),
        grid.width() > 0,
        robot_ok(grid.cells(), grid.width(), grid.height(), start),
        forall|i: int| 0 <= i < moves@.len() ==> unit(#[trigger] moves@[i]),
        gps_fits(grid.width(), grid.height()),
    ensures
        r == gps(
            walk(grid.cells(), grid.width(), grid.height(), start, moves@).0,
            grid.width(),
            grid.width() * grid.height(),
        ),
{
    let ghost m = grid.cells();
    let ghost w = grid.width();
    let ghost h = grid.height();
    let mut grid = grid;
    let mut p = start;
    let mut i: usize = 0;
    while i < moves.len()
        invariant
            grid.wf(),
            grid.width() == w && grid.height() == h,
            w > 0,
            gps_fits(w, h),
            forall|t: int| 0 <= t < moves@.len() ==> unit(#[trigger] moves@[t]),
            i <= moves@.len(),
            robot_ok(grid.cells(), w, h, p),
            (grid.cells(), p) == walk(m, w, h, start, moves@.take(i as int)),
        decreases moves@.len() - i,
    {
        proof {
            assert(moves@.take(i + 1).drop_last() =~= moves@.take(i as int));
            assert(unit(moves@[i as int]));
        }
        p = step_robot(&mut grid, p, moves[i]);
        i += 1;
    }
    assert(moves@.take(moves@.len() as int) =~= moves@);
    gps_sum(&grid)
}

/// The first robot among the cells is at index `i`.
pub open spec fn first_robot(m: Seq<u8>, i: int) -> bool {
    0 <= i < m.len() && m[i] == ROBOT && forall|j: int| 0 <= j < i ==> m[j] != ROBOT
}

/// The index of the first robot among the cells, if there is one.
pub open spec fn start_of(m: Seq<u8>) -> Option<int> {
    if exists|i: int| first_robot(m, i) {
        Some(choose|i: int| first_robot(m, i))
    } else {
        None
    }
}

/// The floor, its width and height, the robot's place and its steps that the text `s`
/// describes: a map, a blank line, and the steps.
pub open spec fn warehouse(s: Seq<u8>) -> Result<(Seq<u8>, int, int, Point, Seq<Point>), AocError> {
    match split_blank(s) {
        None => Err(AocError::InvalidInput),
        Some((map, mv)) => match grid_of(map) {
            None => Err(AocError::InvalidInput),
            Some((w, cells)) => match start_of(cells) {
                None => Err(AocError::NotFound),
                Some(i) => Ok(
                    (
                        cells.update(i, FREE),
                        w,
                        cells.len() as int / w,
                        Point { x: (i % w) as i32, y: (i / w) as i32 },
                        moves_of(mv),
                    ),
                ),
            },
        },
    }
}

/// The floor and its wider version fit the machine's integers.
pub open spec fn floor_fits(w: int, h: int) -> bool {
    2 * w * h <= i32::MAX && gps_fits(2 * w, h)
}

/// What the text must hold for the puzzle to be solved: a map with at least one character,
/// no halves of wide boxes in it, and a size that the sums fit.
pub open spec fn warehouse_ok(s: Seq<u8>) -> bool {
    match split_blank(s) {
        None => true,
        Some((map, mv)) => has_content(lines_of(map)) && match grid_of(map) {
            None => true,
            Some((w, cells)) => no_halves(cells) && floor_fits(w, cells.len() as int / w),
        },
    }
}

/// Reads the map; the robot's cell is left free.
pub fn parse_map(map: &[u8]) -> (r: Result<(Grid<u8>, Point), AocError>)
    requires
        has_content(lines_of(map@)),
    ensures
        match grid_of(map@) {
            None => r == Err::<(Grid<u8>, Point), AocError>(AocError::InvalidInput),
            Some((w, cells)) => match start_of(cells) {
                None => r == Err::<(Grid<u8>, Point), AocError>(AocError::NotFound),
                Some(i) => r matches Ok((g, p)) && g.wf() && g.width() == w && w > 0
                    && g.height() == cells.len() as int / w && g.cells() == cells.update(i, FREE)
                    && p == Point { x: (i % w) as i32, y: (i / w) as i32 } && g.inside(p),
            },
        },
{
    let mut grid = match Grid::from_bytes(map) {
        Ok(g) => g,
        Err(e) => return Err(e),
    };
    let ghost cells = grid.cells();
    let ghost w = grid.width();
    proof {
        assert(grid.height() == cells.len() as int / w) by (nonlinear_arith)
            requires cells.len() == w * grid.height(), w > 0;
    }
    match grid.find(ROBOT) {
        None => {
            proof {
                if exists|i: int| first_robot(cells, i) {
                    let i = choose|i: int| first_robot(cells, i);
                    assert(cells[i] == ROBOT);
                }
            }
            Err(AocError::NotFound)
        },
        Some(p) => {
            proof {
                let i = grid.index_of(p);
                grid.lemma_pos_index(p);
                assert(first_robot(cells, i));
                let c = choose|c: int| first_robot(cells, c);
                if c < i {
                    assert(cells[c] != ROBOT);
                }
                if i < c {
                    assert(cells[i] != ROBOT);
                }
            }
            grid.set(p, FREE);
            Ok((grid, p))
        },
    }
}

/// The sums of the box positions after the robot's steps, on the floor as read and on the
/// floor made twice as wide.
pub fn stars(input: &str) -> (r: Result<(u64, u64), AocError>)
    requires
        warehouse_ok(input.spec_bytes()),
    ensures
        match warehouse(input.spec_bytes()) {
            Ok((m, w, h, p, mv)) => r matches Ok((a, b)) && a == gps(walk(m, w, h, p, mv).0, w, w * h)
                && b == gps(
                walk(widened(m, w, h), 2 * w, h, Point { x: (2 * p.x) as i32, y: p.y }, mv).0,
                2 * w,
                2 * w * h,
            ),
            Err(e) => r == Err::<(u64, u64), AocError>(e),
        },
{
    let (maps, rest) = match split_at_blank(input.as_bytes()) {
        Some(parts) => parts,
        None => return Err(AocError::InvalidInput),
    };
    let (grid, start) = match parse_map(maps) {
        Ok(v) => v,
        Err(e) => return Err(e),
    };
    let moves = moves_iter(rest);
    let ghost parsed = grid_of(maps@)->0;
    let ghost cells = parsed.1;
    let ghost w = grid.width();
    let ghost h = grid.height();
    let ghost i = start_of(cells)->0;
    proof {
        assert(no_halves(grid.cells())) by {
            assert forall|t: int| 0 <= t < grid.cells().len() implies #[trigger] grid.cells()[t] != LEFT && grid.cells()[t] != RIGHT by {
                if t != i {
                    assert(cells[t] != LEFT && cells[t] != RIGHT);
                }
            }
        }
        assert(w * h * (w + 100 * h) <= 2 * w * h * (2 * w + 100 * h)) by (nonlinear_arith)
            requires w > 0, h >= 0;
        lemma_widened_whole(grid.cells(), w, h);
        lemma_index_in(start.x as int, start.y as int, w, h);
        assert(grid.cells()[start.x + start.y * w] == FREE) by {
            assert(0 <= i % w < w && i % w + (i / w) * w == i && 0 <= i / w) by (nonlinear_arith)
                requires w > 0, 0 <= i;
            assert(start.x == i % w && start.y == i / w);
        }
        assert forall|x: int, y: int| #[trigger] paired(grid.cells(), w, h, x, y) by {
            if 0 <= x < w && 0 <= y < h {
                lemma_index_in(x, y, w, h);
                assert(grid.cells()[x + y * w] != LEFT);
            }
            if 0 <= x + 1 < w && 0 <= y < h {
                lemma_index_in(x + 1, y, w, h);
                assert(grid.cells()[x + 1 + y * w] != RIGHT);
            }
        }
    }
    let (wgrid, wstart) = widen(&grid, start);
    proof {
        let ww = 2 * w;
        lemma_index_in(wstart.x as int, wstart.y as int, ww, h);
        lemma_div_mod(wstart.x as int, wstart.y as int, ww);
        assert(ww * h == 2 * w * h) by (nonlinear_arith)
            requires ww == 2 * w;
        assert((2 * start.x) / 2 == start.x);
    }
    let s1 = star(grid, start, &moves);
    let s2 = star(wgrid, wstart, &moves);
    Ok((s1, s2))
}

/// Both sums, as text.
pub fn run(input: &str) -> (r: Result<String, AocError>)
    requires
        warehouse_ok(input.spec_bytes()),
    ensures
        match warehouse(input.spec_bytes()) {
            Ok((m, w, h, p, mv)) => r matches Ok(out) && out@ == dec(gps(walk(m, w, h, p, mv).0, w, w * h) as nat)
                + " "@ + dec(
                gps(
                    walk(widened(m, w, h), 2 * w, h, Point { x: (2 * p.x) as i32, y: p.y }, mv).0,
                    2 * w,
                    2 * w * h,
                ) as nat,
            ),
            Err(e) => r == Err::<String, AocError>(e),
        },
{
    let (s1, s2) = match stars(input) {
        Ok(v) => v,
        Err(e) => return Err(e),
    };
    let mut out = String::new();
    push_dec(&mut out, s1);
    push_str(&mut out, " ");
    push_dec(&mut out, s2);
    Ok(out)
}

} // verus!
