//! Ceres search: `XMAS` written in any of eight directions in a letter grid, and `MAS`
//! crossed with itself in an X.

use vstd::prelude::*;
use vstd::string::*;
use crate::error::AocError;
use crate::grid::{grid_of, has_content, pt, Grid, Point};
use crate::text::{lines_of, push_dec, push_str};

verus! {

/// The eight directions in the order they are tried: north-west, north, north-east, east,
/// south-east, south, south-west, west.
pub open spec fn dir8(k: int) -> (int, int) {
    if k == 0 {
        (-1, -1)
    } else if k == 1 {
        (0, -1)
    } else if k == 2 {
        (1, -1)
    } else if k == 3 {
        (1, 0)
    } else if k == 4 {
        (1, 1)
    } else if k == 5 {
        (0, 1)
    } else if k == 6 {
        (-1, 1)
    } else {
        (-1, 0)
    }
}

/// `X`, `M`, `A`, `S`.
pub open spec fn xmas() -> Seq<u8> {
    seq![88u8, 77u8, 65u8, 83u8]
}

/// The cell at `(x, y)` where it lies in the grid.
pub open spec fn cell(g: Grid<u8>, x: int, y: int) -> Option<u8> {
    if 0 <= x < g.width() && 0 <= y < g.height() {
        Some(g.cells()[x + y * g.width()])
    } else {
        None
    }
}

/// The word `w` from its letter `k` on is written from `(x, y)` in direction `(dx, dy)`.
pub open spec fn word_from(g: Grid<u8>, x: int, y: int, dx: int, dy: int, w: Seq<u8>, k: int) -> bool
    decreases w.len() - k,
{
    if k < 0 || k >= w.len() {
        true
    } else {
        cell(g, x, y) == Some(w[k]) && word_from(g, x + dx, y + dy, dx, dy, w, k + 1)
    }
}

/// The directions among the first `m` in which `XMAS` starts at `(x, y)`.
pub open spec fn dirs_count(g: Grid<u8>, x: int, y: int, m: int) -> nat
    decreases m,
{
    if m <= 0 {
        0
    } else {
        dirs_count(g, x, y, m - 1) + if word_from(g, x, y, dir8(m - 1).0, dir8(m - 1).1, xmas(), 0) {
            1nat
        } else {
            0nat
        }
    }
}

/// The ways `XMAS` is written starting at one of the first `n` cells.
pub open spec fn xmas_count(g: Grid<u8>, n: int) -> nat
    decreases n,
{
    if n <= 0 {
        0
    } else {
        xmas_count(g, n - 1) + dirs_count(g, g.pos_of(n - 1).x as int, g.pos_of(n - 1).y as int, 8)
    }
}

/// Whether `s` is written from `p` in direction `d`.
pub fn is_grid_string(grid: &Grid<u8>, p: Point, d: (i32, i32), s: &[u8]) -> (r: bool)
    requires
        grid.wf(),
        grid.inside(p),
        -1 <= d.0 <= 1,
        -1 <= d.1 <= 1,
        s@.len() <= 8,
    ensures
        r == word_from(*grid, p.x as int, p.y as int, d.0 as int, d.1 as int, s@, 0),
{
    let mut x: i32 = p.x;
    let mut y: i32 = p.y;
    let mut k: usize = 0;
    while k < s.len()
        invariant
            grid.wf(),
            -1 <= d.0 <= 1,
            -1 <= d.1 <= 1,
            k <= s@.len() <= 8,
            word_from(*grid, p.x as int, p.y as int, d.0 as int, d.1 as int, s@, 0) == word_from(
                *grid,
                x as int,
                y as int,
                d.0 as int,
                d.1 as int,
                s@,
                k as int,
            ),
        decreases s@.len() - k,
    {
        let c = grid.get(pt(x, y));
        match c {
            Some(v) => {
                if v != s[k] {
                    return false;
                }
            },
            None => {
                return false;
            },
        }
        if k + 1 < s.len() {
            proof {
                lemma_index_small(grid.width(), grid.height(), x as int, y as int);
            }
            x = x + d.0;
            y = y + d.1;
        } else {
            proof {
                assert(word_from(*grid, x + d.0, y + d.1, d.0 as int, d.1 as int, s@, k + 1));
            }
            return true;
        }
        k += 1;
    }
    true
}

proof fn lemma_index_small(w: int, h: int, x: int, y: int)
    requires
        0 <= x < w <= i32::MAX,
        0 <= y < h <= i32::MAX,
    ensures
        i32::MIN < x + 1 <= i32::MAX,
        i32::MIN < y + 1 <= i32::MAX,
{
}

/// The direction `k` of the eight.
fn dir_of(k: usize) -> (r: (i32, i32))
    requires
        k < 8,
    ensures
        r.0 as int == dir8(k as int).0 && r.1 as int == dir8(k as int).1,
{
    if k == 0 {
        (-1, -1)
    } else if k == 1 {
        (0, -1)
    } else if k == 2 {
        (1, -1)
    } else if k == 3 {
        (1, 0)
    } else if k == 4 {
        (1, 1)
    } else if k == 5 {
        (0, 1)
    } else if k == 6 {
        (-1, 1)
    } else {
        (-1, 0)
    }
}

/// The ways `XMAS` is written in the grid, over every cell and direction.
pub fn star1(grid: &Grid<u8>) -> (r: usize)
    requires
        grid.wf(),
        grid.cells().len() * 8 <= usize::MAX,
    ensures
        r == xmas_count(*grid, grid.cells().len() as int),
{
    let word: Vec<u8> = vec![88u8, 77u8, 65u8, 83u8];
    assert(word@ =~= xmas());
    let ps = grid.positions();
    let mut count: usize = 0;
    let mut i: usize = 0;
    while i < ps.len()
        invariant
            grid.wf(),
            grid.cells().len() * 8 <= usize::MAX,
            word@ == xmas(),
            ps@.len() == grid.cells().len(),
            forall|j: int| 0 <= j < ps@.len() ==> #[trigger] ps@[j] == grid.pos_of(j),
            i <= ps@.len(),
            count == xmas_count(*grid, i as int),
            count <= 8 * i,
        decreases ps@.len() - i,
    {
        let p = ps[i];
        proof {
            grid.lemma_pos_of(i as int);
        }
        let mut k: usize = 0;
        let mut here: usize = 0;
        while k < 8
            invariant
                grid.wf(),
                grid.inside(p),
                word@ == xmas(),
                k <= 8,
                here == dirs_count(*grid, p.x as int, p.y as int, k as int),
                here <= k,
            decreases 8 - k,
        {
            let d = dir_of(k);
            if is_grid_string(grid, p, d, word.as_slice()) {
                here += 1;
            }
            k += 1;
        }
        assert(p == grid.pos_of(i as int));
        count = count + here;
        i += 1;
    }
    count
}

/// `M` and `S` at the two ends of a diagonal, in either order.
pub open spec fn ms_pair(a: Option<u8>, b: Option<u8>) -> bool {
    (a == Some(77u8) && b == Some(83u8)) || (a == Some(83u8) && b == Some(77u8))
}

/// `MAS` crosses itself in an X at `(x, y)`.
pub open spec fn x_mas_at(g: Grid<u8>, x: int, y: int) -> bool {
    &&& cell(g, x, y) == Some(65u8)
    &&& ms_pair(cell(g, x - 1, y - 1), cell(g, x + 1, y + 1))
    &&& ms_pair(cell(g, x + 1, y - 1), cell(g, x - 1, y + 1))
}

/// Whether `MAS` crosses itself in an X at `p`.
pub fn is_x_mas(grid: &Grid<u8>, p: Point) -> (r: bool)
    requires
        grid.wf(),
        grid.inside(p),
    ensures
        r == x_mas_at(*grid, p.x as int, p.y as int),
{
    if grid.get(p) != Some(65u8) {
        return false;
    }
    let d1 = (grid.get(pt(p.x - 1, p.y - 1)), grid.get(pt(p.x + 1, p.y + 1)));
    let d2 = (grid.get(pt(p.x + 1, p.y - 1)), grid.get(pt(p.x - 1, p.y + 1)));
    let ok1 = (d1.0 == Some(77u8) && d1.1 == Some(83u8)) || (d1.0 == Some(83u8) && d1.1 == Some(77u8));
    let ok2 = (d2.0 == Some(77u8) && d2.1 == Some(83u8)) || (d2.0 == Some(83u8) && d2.1 == Some(77u8));
    ok1 && ok2
}

/// The cells among the first `n` where `MAS` crosses itself.
pub open spec fn x_mas_count(g: Grid<u8>, n: int) -> nat
    decreases n,
{
    if n <= 0 {
        0
    } else {
        x_mas_count(g, n - 1) + if x_mas_at(g, g.pos_of(n - 1).x as int, g.pos_of(n - 1).y as int) {
            1nat
        } else {
            0nat
        }
    }
}

/// The cells where `MAS` crosses itself in an X.
pub fn star2(grid: &Grid<u8>) -> (r: usize)
    requires
        grid.wf(),
    ensures
        r == x_mas_count(*grid, grid.cells().len() as int),
{
    let ps = grid.positions();
    let mut count: usize = 0;
    let mut i: usize = 0;
    while i < ps.len()
        invariant
            grid.wf(),
            ps@.len() == grid.cells().len(),
            forall|j: int| 0 <= j < ps@.len() ==> #[trigger] ps@[j] == grid.pos_of(j),
            i <= ps@.len(),
            count == x_mas_count(*grid, i as int),
            count <= i,
        decreases ps@.len() - i,
    {
        let p = ps[i];
        proof {
            grid.lemma_pos_of(i as int);
        }
        if is_x_mas(grid, p) {
            count += 1;
        }
        i += 1;
    }
    count
}

/// The ways `XMAS` is written, and the crossings of `MAS`.
pub fn run(input: &str) -> (r: Result<String, AocError>)
    requires
        has_content(lines_of(input.spec_bytes())),
        grid_of(input.spec_bytes()) matches Some((w, cells)) ==> cells.len() * 8 <= usize::MAX,
    ensures
        match r {
            Ok(out) => exists|g: Grid<u8>|
                {
                    &&& g.wf()
                    &&& grid_of(input.spec_bytes()) == Some((g.width(), g.cells()))
                    &&& out@ == crate::text::dec(xmas_count(g, g.cells().len() as int)) + " "@ + crate::text::dec(
                        x_mas_count(g, g.cells().len() as int),
                    )
                },
            Err(e) => grid_of(input.spec_bytes()) is None && e == AocError::InvalidInput,
        },
{
    let grid = Grid::parse(input)?;
    let s1 = star1(&grid);
    let s2 = star2(&grid);
    let mut out = String::new();
    push_dec(&mut out, s1 as u64);
    push_str(&mut out, " ");
    push_dec(&mut out, s2 as u64);
    Ok(out)
}

} // verus!
