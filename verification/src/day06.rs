//! Guard gallivant: a guard walks ahead and turns right before each obstacle until she
//! leaves the map; the cells she visits, counted once each.

use vstd::prelude::*;
use vstd::string::*;
use crate::error::AocError;
use crate::grid::{grid_of, has_content, pt, Dir, Grid, Point};
use crate::text::{lines_of, push_dec, push_str};

verus! {

/// The cell one step from `p` in direction `d`.
pub open spec fn ahead(p: Point, d: Dir) -> (int, int) {
    (p.x + d.spec_step(1).0, p.y + d.spec_step(1).1)
}

/// The cell at `(x, y)` where it lies in the grid.
pub open spec fn cell_at(g: Grid<u8>, q: (int, int)) -> Option<u8> {
    if 0 <= q.0 < g.width() && 0 <= q.1 < g.height() {
        Some(g.cells()[q.0 + q.1 * g.width()])
    } else {
        None
    }
}

/// What one move from `(p, d)` does: the guard leaves the map, moves on (after turning
/// right before obstacles), or cannot go on (an obstacle on every side, or a turn that
/// faces off the map right before an obstacle).
pub enum Move {
    Leaves,
    Goes(Point, Dir),
    Stuck,
}

/// Turning right from `d` while the cell ahead is an obstacle, at most `n` more times.
pub open spec fn turn(g: Grid<u8>, p: Point, d: Dir, n: nat) -> Move
    decreases n,
{
    match cell_at(g, ahead(p, d)) {
        None => Move::Stuck,
        Some(c) => if c != 35u8 {
            Move::Goes(Point { x: ahead(p, d).0 as i32, y: ahead(p, d).1 as i32 }, d)
        } else if n == 0 {
            Move::Stuck
        } else {
            turn(g, p, d.spec_right(), (n - 1) as nat)
        },
    }
}

/// One move of the guard.
pub open spec fn next(g: Grid<u8>, p: Point, d: Dir) -> Move {
    if cell_at(g, ahead(p, d)) is None {
        Move::Leaves
    } else {
        turn(g, p, d, 3)
    }
}

/// The guard's place and direction after `k` moves, `None` once she has left or is stuck.
pub open spec fn state(g: Grid<u8>, p0: Point, d0: Dir, k: nat) -> Option<(Point, Dir)>
    decreases k,
{
    if k == 0 {
        Some((p0, d0))
    } else {
        match state(g, p0, d0, (k - 1) as nat) {
            Some((p, d)) => match next(g, p, d) {
                Move::Goes(q, e) => Some((q, e)),
                _ => None,
            },
            None => None,
        }
    }
}

/// The guard leaves the map after `n` moves, never stuck on the way.
pub open spec fn leaves_after(g: Grid<u8>, p0: Point, d0: Dir, n: nat) -> bool {
    &&& forall|k: nat| k <= n ==> #[trigger] state(g, p0, d0, k) is Some
    &&& next(g, state(g, p0, d0, n)->Some_0.0, state(g, p0, d0, n)->Some_0.1) is Leaves
}

/// After `k` moves the guard stands on cell `c`.
pub open spec fn stands_at(g: Grid<u8>, p0: Point, d0: Dir, k: nat, c: int) -> bool {
    state(g, p0, d0, k) matches Some((p, d)) && p.x + p.y * g.width() == c
}

/// Cell `c` is one that the guard stands on within her first `n + 1` places.
pub open spec fn visited(g: Grid<u8>, p0: Point, d0: Dir, n: nat, c: int) -> bool {
    exists|k: nat| k <= n && #[trigger] stands_at(g, p0, d0, k, c)
}

/// The cells among the first `m` that the guard visits.
pub open spec fn visit_count(g: Grid<u8>, p0: Point, d0: Dir, n: nat, m: int) -> nat
    decreases m,
{
    if m <= 0 {
        0
    } else {
        visit_count(g, p0, d0, n, m - 1) + if visited(g, p0, d0, n, m - 1) {
            1nat
        } else {
            0nat
        }
    }
}

/// The cells among the first `m` of `s` marked `X`.
pub open spec fn marked_count(s: Seq<u8>, m: int) -> nat
    decreases m,
{
    if m <= 0 {
        0
    } else {
        marked_count(s, m - 1) + if s[m - 1] == 88u8 {
            1nat
        } else {
            0nat
        }
    }
}

proof fn lemma_mark_one(s: Seq<u8>, i: int, m: int)
    requires
        0 <= i < s.len(),
        s[i] != 88u8,
        0 <= m <= s.len(),
    ensures
        marked_count(s.update(i, 88u8), m) == marked_count(s, m) + if i < m {
            1nat
        } else {
            0nat
        },
        marked_count(s, m) <= m,
    decreases m,
{
    if m > 0 {
        lemma_mark_one(s, i, m - 1);
    }
}

proof fn lemma_marked_le(s: Seq<u8>, m: int)
    requires
        0 <= m <= s.len(),
    ensures
        marked_count(s, m) <= m,
        (forall|i: int| 0 <= i < m ==> s[i] != 88u8) ==> marked_count(s, m) == 0,
    decreases m,
{
    if m > 0 {
        lemma_marked_le(s, m - 1);
    }
}

proof fn lemma_counts_agree(g: Grid<u8>, p0: Point, d0: Dir, n: nat, s: Seq<u8>, m: int)
    requires
        0 <= m <= s.len(),
        forall|c: int| 0 <= c < s.len() ==> (#[trigger] s[c] == 88u8 <==> visited(g, p0, d0, n, c)),
    ensures
        marked_count(s, m) == visit_count(g, p0, d0, n, m),
    decreases m,
{
    if m > 0 {
        lemma_counts_agree(g, p0, d0, n, s, m - 1);
        assert(s[m - 1] == 88u8 <==> visited(g, p0, d0, n, m - 1));
    }
}

proof fn lemma_turn_not_leaves(g: Grid<u8>, p: Point, d: Dir, n: nat)
    ensures
        !(turn(g, p, d, n) is Leaves),
    decreases n,
{
    if n > 0 {
        lemma_turn_not_leaves(g, p, d.spec_right(), (n - 1) as nat);
    }
}

/// The place and direction after turning right before obstacles, where that succeeds.
fn turn_exec(grid: &Grid<u8>, p: Point, d: Dir) -> (r: (Point, Dir))
    requires
        grid.wf(),
        grid.inside(p),
        turn(*grid, p, d, 3) is Goes,
    ensures
        turn(*grid, p, d, 3) == Move::Goes(r.0, r.1),
        grid.inside(r.0),
{
    let ghost g = *grid;
    let ghost d0 = d;
    let mut d = d;
    let ghost mut t: nat = 3;
    proof {
        assert(cell_at(g, ahead(p, d)) is Some);
    }
    let mut q = p.plus(d.step(1));
    while grid.get(q).unwrap() == 35u8
        invariant
            grid.wf(),
            g == *grid,
            grid.inside(q),
            grid.inside(p),
            (q.x as int, q.y as int) == ahead(p, d),
            t <= 3,
            turn(g, p, d, t) is Goes,
            turn(g, p, d0, 3) == turn(g, p, d, t),
        decreases t,
    {
        proof {
            grid.lemma_inside_index(q);
            assert(cell_at(g, ahead(p, d)) == Some(35u8));
            if t == 0 {
                assert(turn(g, p, d, t) is Stuck);
            }
        }
        d = d.right();
        proof {
            t = (t - 1) as nat;
            assert(cell_at(g, ahead(p, d)) is Some);
        }
        q = p.plus(d.step(1));
    }
    proof {
        grid.lemma_inside_index(q);
        assert(cell_at(g, ahead(p, d)) == Some(grid.at(q)));
    }
    (q, d)
}

/// The number of cells the guard visits before she leaves the map, starting at `start`
/// facing `dir`.
pub fn star1(grid: &Grid<u8>, start: Point, dir: Dir) -> (r: usize)
    requires
        grid.wf(),
        grid.inside(start),
        exists|n: nat| leaves_after(*grid, start, dir, n),
    ensures
        exists|n: nat| leaves_after(*grid, start, dir, n) && r == visit_count(*grid, start, dir, n, grid.cells().len() as int),
{
    let ghost g = *grid;
    let ghost big_n = choose|n: nat| leaves_after(*grid, start, dir, n);
    let mut visited_grid = Grid::new(grid.dimensions(), 46u8);
    let mut count: usize = 0;
    let mut p = start;
    let mut d = dir;
    let ghost mut k: nat = 0;
    proof {
        lemma_marked_le(visited_grid.cells(), grid.cells().len() as int);
    }
    loop
        invariant
            grid.wf(),
            g == *grid,
            leaves_after(g, start, dir, big_n),
            k <= big_n,
            state(g, start, dir, k) == Some((p, d)),
            grid.inside(p),
            visited_grid.wf(),
            visited_grid.width() == grid.width(),
            visited_grid.height() == grid.height(),
            visited_grid.cells().len() == grid.cells().len(),
            forall|c: int|
                0 <= c < grid.cells().len() ==> (#[trigger] visited_grid.cells()[c] == 88u8 <==> exists|j: nat|
                    j < k && #[trigger] stands_at(g, start, dir, j, c)),
            forall|c: int| 0 <= c < grid.cells().len() ==> #[trigger] visited_grid.cells()[c] == 46u8 || visited_grid.cells()[c] == 88u8,
            count == marked_count(visited_grid.cells(), grid.cells().len() as int),
            count <= grid.cells().len(),
        decreases big_n - k,
    {
        let ghost before = visited_grid.cells();
        proof {
            grid.lemma_inside_index(p);
        }
        let here = visited_grid.get(p).unwrap();
        if here == 46u8 {
            visited_grid.set(p, 88u8);
            proof {
                lemma_mark_one(before, grid.index_of(p), grid.cells().len() as int);
                lemma_marked_le(visited_grid.cells(), grid.cells().len() as int);
            }
            count += 1;
        }
        proof {
            assert forall|c: int| 0 <= c < grid.cells().len() implies (#[trigger] visited_grid.cells()[c] == 88u8
                <==> exists|j: nat| j < k + 1 && #[trigger] stands_at(g, start, dir, j, c)) by {
                if c == grid.index_of(p) {
                    assert(stands_at(g, start, dir, k, c));
                    assert(visited_grid.cells()[c] == 88u8);
                } else {
                    assert(visited_grid.cells()[c] == before[c]);
                    if exists|j: nat| j < k + 1 && #[trigger] stands_at(g, start, dir, j, c) {
                        let j = choose|j: nat| j < k + 1 && #[trigger] stands_at(g, start, dir, j, c);
                        assert(j != k);
                    }
                }
            }
        }
        let s = d.step(1);
        let q0 = p.plus(s);
        if !grid.is_inside(q0) {
            proof {
                assert(next(g, p, d) is Leaves);
                if k < big_n {
                    assert(state(g, start, dir, k + 1) is Some);
                }
                assert(k == big_n);
                assert forall|c: int| 0 <= c < grid.cells().len() implies (#[trigger] visited_grid.cells()[c] == 88u8
                    <==> visited(g, start, dir, big_n, c)) by {
                    if visited(g, start, dir, big_n, c) {
                        let j = choose|j: nat| j <= big_n && #[trigger] stands_at(g, start, dir, j, c);
                        assert(j < k + 1);
                    }
                }
                lemma_counts_agree(g, start, dir, big_n, visited_grid.cells(), grid.cells().len() as int);
            }
            return count;
        }
        proof {
            assert((q0.x as int, q0.y as int) == ahead(p, d));
            assert(cell_at(g, ahead(p, d)) is Some);
            lemma_turn_not_leaves(g, p, d, 3);
            assert(!(next(g, p, d) is Leaves));
            assert(k < big_n) by {
                if k == big_n {
                    assert(state(g, start, dir, big_n)->Some_0 == (p, d));
                }
            }
            assert(state(g, start, dir, k + 1) is Some);
        }
        let (q, e) = turn_exec(grid, p, d);
        d = e;
        p = q;
        proof {
            k = k + 1;
        }
    }
}

/// The guard's place: the first cell, row by row, that holds `^`.
pub fn find_start(grid: &Grid<u8>) -> (r: Option<Point>)
    requires
        grid.wf(),
    ensures
        match r {
            Some(p) => grid.inside(p) && grid.at(p) == 94u8 && forall|i: int|
                0 <= i < grid.index_of(p) ==> grid.cells()[i] != 94u8,
            None => forall|i: int| 0 <= i < grid.cells().len() ==> grid.cells()[i] != 94u8,
        },
{
    grid.find(94u8)
}

/// The guard's walk from the first `^`, facing north, can be followed: she leaves the map.
pub open spec fn walk_ok(g: Grid<u8>) -> bool {
    forall|p: Point|
        g.inside(p) && g.at(p) == 94u8 && (forall|i: int| 0 <= i < g.index_of(p) ==> g.cells()[i] != 94u8)
            ==> exists|n: nat| #[trigger] leaves_after(g, p, Dir::North, n)
}

/// The cells the guard visits, followed by a space; an error where the map holds no guard.
pub fn run(input: &str) -> (r: Result<String, AocError>)
    requires
        has_content(lines_of(input.spec_bytes())),
        forall|g: Grid<u8>| g.wf() && grid_of(input.spec_bytes()) == Some((g.width(), g.cells())) ==> walk_ok(g),
    ensures
        match r {
            Ok(out) => exists|g: Grid<u8>, p: Point, n: nat|
                {
                    &&& g.wf()
                    &&& grid_of(input.spec_bytes()) == Some((g.width(), g.cells()))
                    &&& g.inside(p) && g.at(p) == 94u8
                    &&& leaves_after(g, p, Dir::North, n)
                    &&& out@ == crate::text::dec(visit_count(g, p, Dir::North, n, g.cells().len() as int)) + " "@
                },
            Err(e) => (grid_of(input.spec_bytes()) is None && e == AocError::InvalidInput) || (e == AocError::NotFound
                && (grid_of(input.spec_bytes()) matches Some((w, cells)) && forall|i: int|
                0 <= i < cells.len() ==> cells[i] != 94u8)),
        },
{
    let grid = Grid::parse(input)?;
    let start = match find_start(&grid) {
        Some(p) => p,
        None => return Err(AocError::NotFound),
    };
    assert(walk_ok(grid));
    let s1 = star1(&grid, start, Dir::North);
    let mut out = String::new();
    push_dec(&mut out, s1 as u64);
    push_str(&mut out, " ");
    Ok(out)
}

} // verus!
