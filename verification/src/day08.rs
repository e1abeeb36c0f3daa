//! Resonant collinearity: the antinodes of pairs of antennas of one frequency, either the
//! two points at twice the distance (first answer) or every grid point on their line at a
//! whole multiple of their distance (second answer).

use vstd::prelude::*;
use vstd::string::*;
use crate::error::AocError;
use crate::grid::{grid_of, has_content, pt, Grid, Point};
use crate::text::{lines_of, push_dec, push_str};

verus! {

/// An ASCII letter or digit: the frequency of an antenna.
pub open spec fn is_alnum(c: u8) -> bool {
    (48 <= c <= 57) || (65 <= c <= 90) || (97 <= c <= 122)
}

/// The cells among the first `n` that hold the frequency `f`, in grid order.
pub open spec fn ants(cells: Seq<u8>, f: u8, n: int) -> Seq<int>
    decreases n,
{
    if n <= 0 {
        seq![]
    } else if cells[n - 1] == f {
        ants(cells, f, n - 1).push(n - 1)
    } else {
        ants(cells, f, n - 1)
    }
}

/// The coordinates of cell `i` in a grid `w` wide.
pub open spec fn xy(i: int, w: int) -> (int, int) {
    (i % w, i / w)
}

/// `q` is one of the two points beyond a pair `a`, `b`: at `b - (a - b)` or `a + (a - b)`.
pub open spec fn antinode1(a: (int, int), b: (int, int), q: (int, int)) -> bool {
    q == (2 * b.0 - a.0, 2 * b.1 - a.1) || q == (2 * a.0 - b.0, 2 * a.1 - b.1)
}

/// `a + k (a - b)`.
pub open spec fn ray(a: (int, int), b: (int, int), k: int) -> (int, int) {
    (a.0 + k * (a.0 - b.0), a.1 + k * (a.1 - b.1))
}

/// `q` lies at `a + k (a - b)` or at `b + k (b - a)` for some `k >= 0`.
pub open spec fn antinode2(a: (int, int), b: (int, int), q: (int, int)) -> bool {
    exists|k: nat| #![trigger ray(a, b, k as int)] #![trigger ray(b, a, k as int)]
        q == ray(a, b, k as int) || q == ray(b, a, k as int)
}

/// `q` is an antinode, of the first or second kind, of a pair of antennas of frequency `f`.
pub open spec fn node_of(g: Grid<u8>, f: u8, q: (int, int), second: bool) -> bool {
    let l = ants(g.cells(), f, g.cells().len() as int);
    exists|i: int, j: int|
        0 <= i < j < l.len() && if second {
            antinode2(xy(#[trigger] l[i], g.width()), xy(#[trigger] l[j], g.width()), q)
        } else {
            antinode1(xy(l[i], g.width()), xy(l[j], g.width()), q)
        }
}

/// `q` is an antinode of some pair of antennas of one frequency.
pub open spec fn is_node(g: Grid<u8>, q: (int, int), second: bool) -> bool {
    exists|f: u8| is_alnum(f) && #[trigger] node_of(g, f, q, second)
}

/// The cells among the first `n` that are antinodes.
pub open spec fn node_count(g: Grid<u8>, n: int, second: bool) -> nat
    decreases n,
{
    if n <= 0 {
        0
    } else {
        node_count(g, n - 1, second) + if is_node(g, xy(n - 1, g.width()), second) {
            1nat
        } else {
            0nat
        }
    }
}

/// The cells that hold each frequency, in grid order, one list for each byte.
pub fn find_antennas(grid: &Grid<u8>) -> (r: Vec<Vec<usize>>)
    requires
        grid.wf(),
    ensures
        r@.len() == 256,
        forall|f: int| 0 <= f < 256 ==> #[trigger] r@[f]@.len() == ants(grid.cells(), f as u8, grid.cells().len() as int).len(),
        forall|f: int, i: int|
            0 <= f < 256 && 0 <= i < r@[f]@.len() ==> #[trigger] r@[f]@[i] as int == ants(
                grid.cells(),
                f as u8,
                grid.cells().len() as int,
            )[i],
{
    let cells = grid.as_slice();
    let n = cells.len();
    let mut r: Vec<Vec<usize>> = Vec::new();
    while r.len() < 256
        invariant
            r@.len() <= 256,
            forall|f: int| 0 <= f < r@.len() ==> #[trigger] r@[f]@.len() == 0,
        decreases 256 - r@.len(),
    {
        r.push(Vec::new());
    }
    let mut c: usize = 0;
    while c < n
        invariant
            n == cells@.len(),
            cells@ == grid.cells(),
            c <= n,
            r@.len() == 256,
            forall|f: int| 0 <= f < 256 ==> #[trigger] r@[f]@.len() == ants(cells@, f as u8, c as int).len(),
            forall|f: int, i: int|
                0 <= f < 256 && 0 <= i < r@[f]@.len() ==> #[trigger] r@[f]@[i] as int == ants(cells@, f as u8, c as int)[i],
        decreases n - c,
    {
        let v = cells[c];
        let ghost before = r@;
        r[v as usize].push(c);
        proof {
            assert forall|f: int| 0 <= f < 256 implies #[trigger] r@[f]@.len() == ants(cells@, f as u8, c + 1).len() by {
                if f != v as int {
                    assert(r@[f] == before[f]);
                    assert(cells@[c as int] != f as u8);
                }
            }
            assert forall|f: int, i: int|
                0 <= f < 256 && 0 <= i < r@[f]@.len() implies #[trigger] r@[f]@[i] as int == ants(cells@, f as u8, c + 1)[i] by {
                if f != v as int {
                    assert(r@[f] == before[f]);
                    assert(cells@[c as int] != f as u8);
                }
            }
        }
        c += 1;
    }
    r
}

proof fn lemma_xy(c: int, w: int, h: int)
    requires
        0 < w,
        0 <= c < w * h,
    ensures
        0 <= xy(c, w).0 < w,
        0 <= xy(c, w).1 < h,
        c == xy(c, w).0 + xy(c, w).1 * w,
{
    vstd::arithmetic::div_mod::lemma_fundamental_div_mod(c, w);
    assert(c / w < h) by (nonlinear_arith)
        requires c == w * (c / w) + c % w, 0 <= c % w, c < w * h, 0 < w;
    assert(c / w >= 0) by (nonlinear_arith)
        requires 0 <= c, 0 < w;
    assert(w * (c / w) == (c / w) * w) by (nonlinear_arith);
}

proof fn lemma_xy_of(x: int, y: int, w: int)
    requires
        0 <= x < w,
        0 <= y,
    ensures
        xy(x + y * w, w) == (x, y),
{
    assert(x + y * w == w * y + x) by (nonlinear_arith);
    vstd::arithmetic::div_mod::lemma_fundamental_div_mod_converse(x + y * w, w, y, x);
}

proof fn lemma_convex(a0: int, d: int, m: int, j: int, w: int)
    requires
        0 <= m <= j,
        0 <= a0 < w,
        0 <= a0 + j * d < w,
    ensures
        0 <= a0 + m * d < w,
{
    assert(0 <= a0 + m * d < w) by (nonlinear_arith)
        requires 0 <= m <= j, 0 <= a0 < w, 0 <= a0 + j * d < w;
}

proof fn lemma_steps(a0: int, d: int, k: int, w: int)
    requires
        0 <= k,
        d != 0,
        0 <= a0 < w,
        0 <= a0 + k * d < w,
    ensures
        k < w,
{
    assert(k < w) by (nonlinear_arith)
        requires 0 <= k, d != 0, 0 <= a0 < w, 0 <= a0 + k * d < w;
}

/// The point of a cell index.
fn cell_xy(c: usize, w: usize) -> (r: (i64, i64))
    requires
        0 < w <= i32::MAX,
        c <= i32::MAX,
    ensures
        r.0 == xy(c as int, w as int).0 && r.1 == xy(c as int, w as int).1,
{
    ((c % w) as i64, (c / w) as i64)
}

/// Marks the cell at `q` where it lies in the `w` by `h` grid.
fn mark(marks: &mut Vec<bool>, w: usize, h: usize, q: (i64, i64))
    requires
        old(marks)@.len() == w * h,
        0 < w <= i32::MAX,
        h <= i32::MAX,
        w * h <= i32::MAX,
    ensures
        final(marks)@.len() == w * h,
        forall|c: int| 0 <= c < w * h ==> #[trigger] final(marks)@[c] == (old(marks)@[c] || xy(c, w as int) == (q.0 as int, q.1 as int)),
{
    if q.0 >= 0 && q.0 < w as i64 && q.1 >= 0 && q.1 < h as i64 {
        proof {
            assert(q.0 + q.1 * w < w * h) by (nonlinear_arith)
                requires 0 <= q.0 < w, 0 <= q.1 < h;
            assert(0 <= q.1 * w) by (nonlinear_arith)
                requires 0 <= q.1, 0 < w;
        }
        let idx = (q.0 as usize) + (q.1 as usize) * w;
        let ghost before = marks@;
        marks.set(idx, true);
        proof {
            lemma_xy_of(q.0 as int, q.1 as int, w as int);
            assert forall|c: int| 0 <= c < w * h implies #[trigger] marks@[c] == (before[c] || xy(c, w as int) == (q.0 as int, q.1 as int)) by {
                lemma_xy(c, w as int, h as int);
            }
        }
    } else {
        proof {
            assert forall|c: int| 0 <= c < w * h implies #[trigger] marks@[c] == (marks@[c] || xy(c, w as int) == (q.0 as int, q.1 as int)) by {
                lemma_xy(c, w as int, h as int);
            }
        }
    }
}

/// Marks the cells `a + k (a - b)`, `k >= 0`, that lie in the grid.
fn walk(marks: &mut Vec<bool>, w: usize, h: usize, a: (i64, i64), b: (i64, i64))
    requires
        old(marks)@.len() == w * h,
        0 < w <= i32::MAX,
        h <= i32::MAX,
        w * h <= i32::MAX,
        0 <= a.0 < w && 0 <= a.1 < h,
        0 <= b.0 < w && 0 <= b.1 < h,
        a != b,
    ensures
        final(marks)@.len() == w * h,
        forall|c: int| 0 <= c < w * h ==> #[trigger] final(marks)@[c] == (old(marks)@[c] || exists|k: nat|
            xy(c, w as int) == #[trigger] ray((a.0 as int, a.1 as int), (b.0 as int, b.1 as int), k as int)),
{
    let ghost ai = (a.0 as int, a.1 as int);
    let ghost bi = (b.0 as int, b.1 as int);
    let d = (a.0 - b.0, a.1 - b.1);
    let mut p = a;
    let ghost mut k: nat = 0;
    proof {
        assert(ray(ai, bi, 0) == ai);
    }
    loop
        invariant
            marks@.len() == w * h,
            0 < w <= i32::MAX,
            h <= i32::MAX,
            w * h <= i32::MAX,
            0 <= a.0 < w && 0 <= a.1 < h,
            0 <= b.0 < w && 0 <= b.1 < h,
            ai == (a.0 as int, a.1 as int),
            bi == (b.0 as int, b.1 as int),
            a != b,
            d.0 == a.0 - b.0 && d.1 == a.1 - b.1,
            (p.0 as int, p.1 as int) == ray(ai, bi, k as int),
            0 <= p.0 < w && 0 <= p.1 < h,
            k < w + h,
            forall|c: int| 0 <= c < w * h ==> #[trigger] marks@[c] == (old(marks)@[c] || exists|j: nat|
                j < k && xy(c, w as int) == #[trigger] ray(ai, bi, j as int)),
        decreases w + h - k,
    {
        let ghost before = marks@;
        mark(marks, w, h, p);
        proof {
            assert forall|c: int| 0 <= c < w * h implies #[trigger] marks@[c] == (old(marks)@[c] || exists|j: nat|
                j < k + 1 && xy(c, w as int) == #[trigger] ray(ai, bi, j as int)) by {
                if xy(c, w as int) == (p.0 as int, p.1 as int) {
                    assert(xy(c, w as int) == ray(ai, bi, k as int));
                }
                if exists|j: nat| j < k + 1 && xy(c, w as int) == #[trigger] ray(ai, bi, j as int) {
                    let j = choose|j: nat| j < k + 1 && xy(c, w as int) == #[trigger] ray(ai, bi, j as int);
                    if j < k {
                        assert(before[c]);
                    }
                }
            }
            assert(ray(ai, bi, (k + 1) as int) == (p.0 + d.0, p.1 + d.1)) by {
                assert(ai.0 + (k + 1) * (ai.0 - bi.0) == ai.0 + k * (ai.0 - bi.0) + (ai.0 - bi.0)) by (nonlinear_arith);
                assert(ai.1 + (k + 1) * (ai.1 - bi.1) == ai.1 + k * (ai.1 - bi.1) + (ai.1 - bi.1)) by (nonlinear_arith);
            }
        }
        let q = (p.0 + d.0, p.1 + d.1);
        if !(q.0 >= 0 && q.0 < w as i64 && q.1 >= 0 && q.1 < h as i64) {
            proof {
                assert forall|c: int| 0 <= c < w * h implies #[trigger] marks@[c] == (old(marks)@[c] || exists|j: nat|
                    xy(c, w as int) == #[trigger] ray(ai, bi, j as int)) by {
                    if exists|j: nat| xy(c, w as int) == #[trigger] ray(ai, bi, j as int) {
                        let j = choose|j: nat| xy(c, w as int) == #[trigger] ray(ai, bi, j as int);
                        lemma_xy(c, w as int, h as int);
                        if j > k {
                            lemma_convex(ai.0, ai.0 - bi.0, (k + 1) as int, j as int, w as int);
                            lemma_convex(ai.1, ai.1 - bi.1, (k + 1) as int, j as int, h as int);
                            assert(false);
                        }
                        assert(j < k + 1);
                    }
                }
            }
            return;
        }
        proof {
            if d.0 != 0 {
                lemma_steps(ai.0, ai.0 - bi.0, (k + 1) as int, w as int);
            } else {
                lemma_steps(ai.1, ai.1 - bi.1, (k + 1) as int, h as int);
            }
            k = k + 1;
        }
        p = q;
    }
}

/// The antinodes, of the kind `second` names, of a pair of antennas at `a` and `b`.
pub open spec fn antinode(a: (int, int), b: (int, int), q: (int, int), second: bool) -> bool {
    if second {
        antinode2(a, b, q)
    } else {
        antinode1(a, b, q)
    }
}

/// Marks the antinodes of the pair at `a` and `b` that lie in the grid.
fn mark_pair(marks: &mut Vec<bool>, w: usize, h: usize, a: (i64, i64), b: (i64, i64), second: bool)
    requires
        old(marks)@.len() == w * h,
        0 < w <= i32::MAX,
        h <= i32::MAX,
        w * h <= i32::MAX,
        0 <= a.0 < w && 0 <= a.1 < h,
        0 <= b.0 < w && 0 <= b.1 < h,
        a != b,
    ensures
        final(marks)@.len() == w * h,
        forall|c: int| 0 <= c < w * h ==> #[trigger] final(marks)@[c] == (old(marks)@[c] || antinode(
            (a.0 as int, a.1 as int),
            (b.0 as int, b.1 as int),
            xy(c, w as int),
            second,
        )),
{
    if second {
        walk(marks, w, h, a, b);
        walk(marks, w, h, b, a);
    } else {
        mark(marks, w, h, (2 * b.0 - a.0, 2 * b.1 - a.1));
        mark(marks, w, h, (2 * a.0 - b.0, 2 * a.1 - b.1));
    }
}

proof fn lemma_ants(cells: Seq<u8>, f: u8, n: int)
    requires
        0 <= n <= cells.len(),
    ensures
        forall|i: int| 0 <= i < ants(cells, f, n).len() ==> 0 <= #[trigger] ants(cells, f, n)[i] < n,
        forall|i: int, j: int| 0 <= i < j < ants(cells, f, n).len() ==> #[trigger] ants(cells, f, n)[i] < #[trigger] ants(cells, f, n)[j],
    decreases n,
{
    if n > 0 {
        lemma_ants(cells, f, n - 1);
        let prev = ants(cells, f, n - 1);
        if cells[n - 1] == f {
            let cur = prev.push(n - 1);
            assert(ants(cells, f, n) == cur);
            assert forall|i: int| 0 <= i < cur.len() implies 0 <= #[trigger] cur[i] < n by {
                if i < prev.len() {
                    assert(cur[i] == prev[i]);
                }
            }
            assert forall|i: int, j: int| 0 <= i < j < cur.len() implies #[trigger] cur[i] < #[trigger] cur[j] by {
                assert(cur[i] == prev[i]);
                if j < prev.len() {
                    assert(cur[j] == prev[j]);
                }
            }
        }
    }
}

/// Marks the antinodes of every pair of antennas in the list `l`.
fn mark_list(marks: &mut Vec<bool>, w: usize, h: usize, l: &Vec<usize>, second: bool)
    requires
        old(marks)@.len() == w * h,
        0 < w <= i32::MAX,
        h <= i32::MAX,
        w * h <= i32::MAX,
        forall|i: int| 0 <= i < l@.len() ==> #[trigger] l@[i] < w * h,
        forall|i: int, j: int| 0 <= i < j < l@.len() ==> #[trigger] l@[i] < #[trigger] l@[j],
    ensures
        final(marks)@.len() == w * h,
        forall|c: int| 0 <= c < w * h ==> #[trigger] final(marks)@[c] == (old(marks)@[c] || exists|i: int, j: int|
            0 <= i < j < l@.len() && antinode(
                xy(#[trigger] l@[i] as int, w as int),
                xy(#[trigger] l@[j] as int, w as int),
                xy(c, w as int),
                second,
            )),
{
    let n = l.len();
    let mut i: usize = 0;
    while i < n
        invariant
            n == l@.len(),
            marks@.len() == w * h,
            0 < w <= i32::MAX,
            h <= i32::MAX,
            w * h <= i32::MAX,
            forall|i: int| 0 <= i < l@.len() ==> #[trigger] l@[i] < w * h,
            forall|i: int, j: int| 0 <= i < j < l@.len() ==> #[trigger] l@[i] < #[trigger] l@[j],
            i <= n,
            forall|c: int| 0 <= c < w * h ==> #[trigger] marks@[c] == (old(marks)@[c] || exists|a: int, b: int|
                0 <= a < b < n && a < i && antinode(
                    xy(#[trigger] l@[a] as int, w as int),
                    xy(#[trigger] l@[b] as int, w as int),
                    xy(c, w as int),
                    second,
                )),
        decreases n - i,
    {
        let mut j: usize = i + 1;
        while j < n
            invariant
                n == l@.len(),
                marks@.len() == w * h,
                0 < w <= i32::MAX,
                h <= i32::MAX,
                w * h <= i32::MAX,
                forall|i: int| 0 <= i < l@.len() ==> #[trigger] l@[i] < w * h,
                forall|i: int, j: int| 0 <= i < j < l@.len() ==> #[trigger] l@[i] < #[trigger] l@[j],
                i < n,
                i + 1 <= j <= n,
                forall|c: int| 0 <= c < w * h ==> #[trigger] marks@[c] == (old(marks)@[c] || exists|a: int, b: int|
                    0 <= a < b < n && (a < i || (a == i && b < j)) && antinode(
                        xy(#[trigger] l@[a] as int, w as int),
                        xy(#[trigger] l@[b] as int, w as int),
                        xy(c, w as int),
                        second,
                    )),
            decreases n - j,
        {
            let ca = l[i];
            let cb = l[j];
            let pa = cell_xy(ca, w);
            let pb = cell_xy(cb, w);
            proof {
                lemma_xy(ca as int, w as int, h as int);
                lemma_xy(cb as int, w as int, h as int);
                assert(ca < cb);
            }
            let ghost before = marks@;
            mark_pair(marks, w, h, pa, pb, second);
            proof {
                assert forall|c: int| 0 <= c < w * h implies #[trigger] marks@[c] == (old(marks)@[c] || exists|a: int, b: int|
                    0 <= a < b < n && (a < i || (a == i && b < j + 1)) && antinode(
                        xy(#[trigger] l@[a] as int, w as int),
                        xy(#[trigger] l@[b] as int, w as int),
                        xy(c, w as int),
                        second,
                    )) by {
                    if antinode(xy(l@[i as int] as int, w as int), xy(l@[j as int] as int, w as int), xy(c, w as int), second) {
                        assert(0 <= i < j < n && (i < i || (i == i && j < j + 1)));
                    }
                    if exists|a: int, b: int|
                        0 <= a < b < n && (a < i || (a == i && b < j + 1)) && antinode(
                            xy(#[trigger] l@[a] as int, w as int),
                            xy(#[trigger] l@[b] as int, w as int),
                            xy(c, w as int),
                            second,
                        ) {
                        let (a, b) = choose|a: int, b: int|
                            0 <= a < b < n && (a < i || (a == i && b < j + 1)) && antinode(
                                xy(#[trigger] l@[a] as int, w as int),
                                xy(#[trigger] l@[b] as int, w as int),
                                xy(c, w as int),
                                second,
                            );
                        if !(a == i && b == j) {
                            assert(before[c]);
                        }
                    }
                }
            }
            j += 1;
        }
        i += 1;
    }
}

/// The antinodes of the kind `second` names, counted once each.
pub fn star(grid: &Grid<u8>, antennas: &Vec<Vec<usize>>, second: bool) -> (r: usize)
    requires
        grid.wf(),
        antennas@.len() == 256,
        forall|f: int| 0 <= f < 256 ==> #[trigger] antennas@[f]@.len() == ants(grid.cells(), f as u8, grid.cells().len() as int).len(),
        forall|f: int, i: int|
            0 <= f < 256 && 0 <= i < antennas@[f]@.len() ==> #[trigger] antennas@[f]@[i] as int == ants(
                grid.cells(),
                f as u8,
                grid.cells().len() as int,
            )[i],
    ensures
        r == node_count(*grid, grid.cells().len() as int, second),
{
    let (dx, dy) = grid.dimensions();
    let n = grid.as_slice().len();
    if n == 0 {
        return 0;
    }
    let w = dx as usize;
    let h = dy as usize;
    proof {
        assert(w * h == n);
        assert(w > 0) by {
            if w == 0 {
                assert(w * h == 0) by (nonlinear_arith)
                    requires w == 0;
            }
        }
    }
    let ghost cells = grid.cells();
    let mut marks: Vec<bool> = Vec::new();
    while marks.len() < n
        invariant
            marks@.len() <= n,
            forall|c: int| 0 <= c < marks@.len() ==> !#[trigger] marks@[c],
        decreases n - marks@.len(),
    {
        marks.push(false);
    }
    let mut f: usize = 0;
    while f < 256
        invariant
            grid.wf(),
            cells == grid.cells(),
            n == cells.len() == w * h,
            w == grid.width() && h == grid.height(),
            0 < w <= i32::MAX,
            h <= i32::MAX,
            w * h <= i32::MAX,
            antennas@.len() == 256,
            forall|f: int| 0 <= f < 256 ==> #[trigger] antennas@[f]@.len() == ants(cells, f as u8, n as int).len(),
            forall|f: int, i: int|
                0 <= f < 256 && 0 <= i < antennas@[f]@.len() ==> #[trigger] antennas@[f]@[i] as int == ants(cells, f as u8, n as int)[i],
            f <= 256,
            marks@.len() == n,
            forall|c: int| 0 <= c < n ==> #[trigger] marks@[c] == exists|g: u8| g < f && is_alnum(g) && #[trigger] node_of(*grid, g, xy(c, w as int), second),
        decreases 256 - f,
    {
        let fb = f as u8;
        if (48 <= fb && fb <= 57) || (65 <= fb && fb <= 90) || (97 <= fb && fb <= 122) {
            let l = &antennas[f];
            proof {
                lemma_ants(cells, fb, n as int);
                assert forall|i: int| 0 <= i < l@.len() implies #[trigger] l@[i] < w * h by {
                    assert(l@[i] as int == ants(cells, fb, n as int)[i]);
                }
                assert forall|i: int, j: int| 0 <= i < j < l@.len() implies #[trigger] l@[i] < #[trigger] l@[j] by {
                    assert(l@[i] as int == ants(cells, fb, n as int)[i]);
                    assert(l@[j] as int == ants(cells, fb, n as int)[j]);
                }
            }
            let ghost before = marks@;
            mark_list(&mut marks, w, h, l, second);
            proof {
                assert forall|c: int| 0 <= c < n implies #[trigger] marks@[c] == exists|g: u8|
                    g < f + 1 && is_alnum(g) && #[trigger] node_of(*grid, g, xy(c, w as int), second) by {
                    let al = ants(cells, fb, n as int);
                    if exists|i: int, j: int|
                        0 <= i < j < l@.len() && antinode(
                            xy(#[trigger] l@[i] as int, w as int),
                            xy(#[trigger] l@[j] as int, w as int),
                            xy(c, w as int),
                            second,
                        ) {
                        let (i, j) = choose|i: int, j: int|
                            0 <= i < j < l@.len() && antinode(
                                xy(#[trigger] l@[i] as int, w as int),
                                xy(#[trigger] l@[j] as int, w as int),
                                xy(c, w as int),
                                second,
                            );
                        assert(l@[i] as int == al[i] && l@[j] as int == al[j]);
                        assert(node_of(*grid, fb, xy(c, w as int), second));
                    }
                    if node_of(*grid, fb, xy(c, w as int), second) {
                        let (i, j) = choose|i: int, j: int|
                            0 <= i < j < al.len() && if second {
                                antinode2(xy(#[trigger] al[i], w as int), xy(#[trigger] al[j], w as int), xy(c, w as int))
                            } else {
                                antinode1(xy(al[i], w as int), xy(al[j], w as int), xy(c, w as int))
                            };
                        assert(l@[i] as int == al[i] && l@[j] as int == al[j]);
                    }
                    if exists|g: u8| g < f + 1 && is_alnum(g) && #[trigger] node_of(*grid, g, xy(c, w as int), second) {
                        let g = choose|g: u8| g < f + 1 && is_alnum(g) && #[trigger] node_of(*grid, g, xy(c, w as int), second);
                        if g < f {
                            assert(before[c]);
                        }
                    }
                }
            }
        } else {
            proof {
                assert forall|c: int| 0 <= c < n implies #[trigger] marks@[c] == exists|g: u8|
                    g < f + 1 && is_alnum(g) && #[trigger] node_of(*grid, g, xy(c, w as int), second) by {
                    if exists|g: u8| g < f + 1 && is_alnum(g) && #[trigger] node_of(*grid, g, xy(c, w as int), second) {
                        let g = choose|g: u8| g < f + 1 && is_alnum(g) && #[trigger] node_of(*grid, g, xy(c, w as int), second);
                        assert(g != fb);
                    }
                }
            }
        }
        f += 1;
    }
    let mut count: usize = 0;
    let mut c: usize = 0;
    while c < n
        invariant
            n == marks@.len(),
            w == grid.width(),
            forall|c: int| 0 <= c < n ==> #[trigger] marks@[c] == exists|g: u8| g < 256 && is_alnum(g) && #[trigger] node_of(*grid, g, xy(c, w as int), second),
            c <= n,
            count == node_count(*grid, c as int, second),
            count <= c,
        decreases n - c,
    {
        if marks[c] {
            count += 1;
        }
        c += 1;
    }
    count
}

/// The antinodes of the first kind, and those of the second kind.
pub fn run(input: &str) -> (r: Result<String, AocError>)
    requires
        has_content(lines_of(input.spec_bytes())),
    ensures
        match r {
            Ok(out) => exists|g: Grid<u8>|
                {
                    &&& g.wf()
                    &&& grid_of(input.spec_bytes()) == Some((g.width(), g.cells()))
                    &&& out@ == crate::text::dec(node_count(g, g.cells().len() as int, false)) + " "@ + crate::text::dec(
                        node_count(g, g.cells().len() as int, true),
                    )
                },
            Err(e) => grid_of(input.spec_bytes()) is None && e == AocError::InvalidInput,
        },
{
    let grid = Grid::parse(input)?;
    let antennas = find_antennas(&grid);
    let s1 = star(&grid, &antennas, false);
    let s2 = star(&grid, &antennas, true);
    let mut out = String::new();
    push_dec(&mut out, s1 as u64);
    push_str(&mut out, " ");
    push_dec(&mut out, s2 as u64);
    Ok(out)
}

} // verus!
