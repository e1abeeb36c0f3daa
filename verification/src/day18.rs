//! Bytes falling onto a square memory space: the shortest way across, and the first byte
//! that cuts the way off.

use vstd::prelude::*;
use vstd::string::*;
use crate::bfs::{bfs, distance, lemma_reach_fewer, lemma_reach_walled, passable, reachable, fewer, reach, NOT_REACHED};
use crate::grid::{pt, Grid, Point};
use crate::text::{dec, lines, lines_of, parse_i32, push_dec, push_str, signed_in, split_once, split_once_byte, views};

verus! {

/// A free cell.
pub const FREE: u8 = 46;

/// A cell that a byte has fallen on.
pub const WALL: u8 = 35;

/// A line `x,y`: the point it names.
pub open spec fn coord_line(l: Seq<u8>) -> Option<Point> {
    match split_once(l, 44u8) {
        Some((a, b)) => match (signed_in(a, i32::MIN as int, i32::MAX as int), signed_in(b, i32::MIN as int, i32::MAX as int)) {
            (Some(x), Some(y)) => Some(Point { x: x as i32, y: y as i32 }),
            _ => None,
        },
        None => None,
    }
}

/// The points named by the first `n` lines; lines that name none are passed over.
pub open spec fn coords_from(ls: Seq<Seq<u8>>, n: int) -> Seq<Point>
    decreases n,
{
    if n <= 0 {
        Seq::empty()
    } else {
        let r = coords_from(ls, n - 1);
        match coord_line(ls[n - 1]) {
            Some(p) => r.push(p),
            None => r,
        }
    }
}

/// The points named by the text's lines.
pub open spec fn coords_of(s: Seq<u8>) -> Seq<Point> {
    coords_from(lines_of(s), lines_of(s).len() as int)
}

/// The points named by the text's lines.
pub fn coords(input: &[u8]) -> (r: Vec<Point>)
    ensures
        r@ == coords_of(input@),
{
    let ls = lines(input);
    let ghost lv = views(ls@);
    let mut r: Vec<Point> = Vec::new();
    let mut i: usize = 0;
    while i < ls.len()
        invariant
            lv == views(ls@),
            lv == lines_of(input@),
            i <= ls@.len(),
            r@ == coords_from(lv, i as int),
        decreases ls@.len() - i,
    {
        proof {
            assert(ls@[i as int]@ == lv[i as int]);
        }
        match split_once_byte(ls[i].as_slice(), 44u8) {
            Some((a, b)) => {
                match (parse_i32(a.as_slice()), parse_i32(b.as_slice())) {
                    (Some(x), Some(y)) => {
                        r.push(pt(x, y));
                    },
                    _ => {},
                }
            },
            None => {},
        }
        i += 1;
    }
    r
}

/// The point lies in the square of side `n`.
pub open spec fn in_space(n: int, p: Point) -> bool {
    0 <= p.x < n && 0 <= p.y < n
}

/// The square of side `n` once the first `k` points of `cs` have fallen: their cells hold
/// bytes, the others are free.
pub open spec fn fallen(n: int, cs: Seq<Point>, k: int) -> Seq<u8>
    decreases k,
{
    if k <= 0 {
        Seq::new((n * n) as nat, |i: int| FREE)
    } else {
        let m = fallen(n, cs, k - 1);
        let p = cs[k - 1];
        if in_space(n, p) {
            m.update(p.x + p.y * n, WALL)
        } else {
            m
        }
    }
}

pub proof fn lemma_fallen_len(n: int, cs: Seq<Point>, k: int)
    requires
        n >= 0,
    ensures
        fallen(n, cs, k).len() == n * n,
    decreases k,
{
    if k > 0 {
        lemma_fallen_len(n, cs, k - 1);
        let p = cs[k - 1];
        if in_space(n, p) {
            crate::day15::lemma_index_in(p.x as int, p.y as int, n, n);
        }
    }
}

/// The square of side `n` with the first `k` points of `cs` fallen on it.
fn fall(n: i32, cs: &Vec<Point>, k: usize) -> (r: Grid<u8>)
    requires
        0 < n,
        n * n < NOT_REACHED,
        k <= cs@.len(),
    ensures
        r.wf(),
        r.width() == n && r.height() == n,
        r.cells() == fallen(n as int, cs@, k as int),
{
    let mut g = Grid::new((n, n), FREE);
    let mut t: usize = 0;
    proof {
        assert(g.cells() =~= fallen(n as int, cs@, 0));
    }
    while t < k
        invariant
            g.wf(),
            g.width() == n && g.height() == n,
            t <= k <= cs@.len(),
            g.cells() == fallen(n as int, cs@, t as int),
        decreases k - t,
    {
        g.set(cs[t], WALL);
        t += 1;
    }
    g
}

/// The number of steps from the far corner to the near one once the first `len` bytes
/// have fallen on the square of side `dim + 1`; `NOT_REACHED` where there is no way.
pub fn star1(input: &str, dim: i32, len: usize) -> (r: u64)
    requires
        0 <= dim,
        (dim + 1) * (dim + 1) < NOT_REACHED,
    ensures
        ({
            let cs = coords_of(input.spec_bytes());
            let k = if len < cs.len() { len as int } else { cs.len() as int };
            let n = dim + 1;
            r == distance(fallen(n, cs, k), n, n, FREE, true, Point { x: dim, y: dim }, Point { x: 0, y: 0 })
        }),
{
    let cs = coords(input.as_bytes());
    let k = if len < cs.len() { len } else { cs.len() };
    proof {
        assert(dim + 1 < 65535) by (nonlinear_arith)
            requires 0 <= dim, (dim + 1) * (dim + 1) < 65535;
    }
    let n = dim + 1;
    let g = fall(n, &cs, k);
    let reach = bfs(&g, FREE, true, pt(dim, dim));
    let start = pt(0, 0);
    assert(g.inside(start));
    match reach.get(start) {
        Some(v) => v as u64,
        None => 0,
    }
}

/// Once the first `i + 1` bytes have fallen, and not sooner, no way leads from the far
/// corner to the near one.
pub open spec fn first_block(cs: Seq<Point>, n: int, i: int) -> bool {
    let goal = Point { x: (n - 1) as i32, y: (n - 1) as i32 };
    let start = Point { x: 0, y: 0 };
    &&& 0 <= i < cs.len()
    &&& !reachable(fallen(n, cs, i + 1), n, n, FREE, true, goal, start)
    &&& forall|j: int| 0 <= j < i ==> #[trigger] reachable(fallen(n, cs, j + 1), n, n, FREE, true, goal, start)
}

/// The byte that first cuts the way off, if one does.
pub open spec fn block_of(cs: Seq<Point>, n: int) -> Option<Point> {
    if exists|i: int| first_block(cs, n, i) {
        Some(cs[choose|i: int| first_block(cs, n, i)])
    } else {
        None
    }
}

/// What the search keeps: the walls it put are among the fallen bytes, and the bytes it
/// left out could not be reached, so that both squares reach the same cells.
pub open spec fn same_reach(e: Seq<u8>, f: Seq<u8>, n: int, goal: Point) -> bool {
    &&& fewer(f, e, n, n, FREE, true)
    &&& forall|q: Point| passable(e, n, n, FREE, true, q) && !passable(f, n, n, FREE, true, q) ==> !#[trigger] reachable(e, n, n, FREE, true, goal, q)
}

/// The first fallen byte after which no way leads from the far corner of the square of
/// side `dim + 1` to the near one.
pub fn star2(input: &str, dim: i32) -> (r: Option<(i32, i32)>)
    requires
        0 <= dim,
        (dim + 1) * (dim + 1) < NOT_REACHED,
        forall|t: int| 0 <= t < coords_of(input.spec_bytes()).len() ==> in_space(dim + 1, #[trigger] coords_of(input.spec_bytes())[t]),
    ensures
        r == (match block_of(coords_of(input.spec_bytes()), dim + 1) {
            Some(p) => Some((p.x, p.y)),
            None => None,
        }),
{
    let cs = coords(input.as_bytes());
    proof {
        assert(dim + 1 < 65535) by (nonlinear_arith)
            requires 0 <= dim, (dim + 1) * (dim + 1) < 65535;
    }
    let n = dim + 1;
    let goal = pt(dim, dim);
    let start = pt(0, 0);
    let ghost nn = n as int;
    let mut grid = Grid::new((n, n), FREE);
    let mut labels = bfs(&grid, FREE, true, goal);
    let mut i: usize = 0;
    proof {
        assert(grid.cells() =~= fallen(nn, cs@, 0));
        assert forall|q: Point| passable(grid.cells(), nn, nn, FREE, true, q) && !passable(grid.cells(), nn, nn, FREE, true, q) implies !#[trigger] reachable(grid.cells(), nn, nn, FREE, true, goal, q) by {}
    }
    while i < cs.len()
        invariant
            cs@ == coords_of(input.spec_bytes()),
            forall|t: int| 0 <= t < cs@.len() ==> in_space(nn, #[trigger] cs@[t]),
            nn == n && n == dim + 1 && 0 < n,
            n * n < NOT_REACHED,
            goal == (Point { x: dim, y: dim }) && start == (Point { x: 0, y: 0 }),
            grid.wf(),
            grid.width() == n && grid.height() == n,
            labels.wf(),
            labels.width() == n && labels.height() == n,
            forall|q: Point| #[trigger] grid.inside(q) ==> (labels.at(q) == NOT_REACHED <==> !reachable(grid.cells(), nn, nn, FREE, true, goal, q)),
            i <= cs@.len(),
            same_reach(grid.cells(), fallen(nn, cs@, i as int), nn, goal),
            forall|j: int| 0 <= j < i ==> #[trigger] reachable(fallen(nn, cs@, j + 1), nn, nn, FREE, true, goal, start),
        decreases cs@.len() - i,
    {
        let p = cs[i];
        let ghost e = grid.cells();
        let ghost f = fallen(nn, cs@, i as int);
        let ghost f1 = fallen(nn, cs@, i + 1);
        proof {
            lemma_fallen_len(nn, cs@, i as int);
            assert(grid.inside(p));
        }
        let p_reach = labels.get(p).unwrap();
        if p_reach != NOT_REACHED {
            grid.set(p, WALL);
            labels = bfs(&grid, FREE, true, goal);
        }
        proof {
            let e2 = grid.cells();
            assert(f1 == f.update(p.x + p.y * nn, WALL));
            crate::day15::lemma_index_in(p.x as int, p.y as int, nn, nn);
            assert forall|q: Point| #[trigger] passable(f1, nn, nn, FREE, true, q) implies passable(e2, nn, nn, FREE, true, q) by {
                crate::day15::lemma_index_in(q.x as int, q.y as int, nn, nn);
                if q.x + q.y * nn == p.x + p.y * nn {
                    crate::day15::lemma_index_inj(q.x as int, q.y as int, p.x as int, p.y as int, nn);
                }
                assert(passable(f, nn, nn, FREE, true, q));
            }
            if p_reach != NOT_REACHED {
                assert(fewer(e2, e, nn, nn, FREE, true)) by {
                    assert forall|q: Point| #[trigger] passable(e2, nn, nn, FREE, true, q) implies passable(e, nn, nn, FREE, true, q) by {
                        crate::day15::lemma_index_in(q.x as int, q.y as int, nn, nn);
                        if q.x + q.y * nn == p.x + p.y * nn {
                            crate::day15::lemma_index_inj(q.x as int, q.y as int, p.x as int, p.y as int, nn);
                        }
                    }
                }
                assert forall|q: Point| passable(e2, nn, nn, FREE, true, q) && !passable(f1, nn, nn, FREE, true, q) implies !#[trigger] reachable(e2, nn, nn, FREE, true, goal, q) by {
                    crate::day15::lemma_index_in(q.x as int, q.y as int, nn, nn);
                    if q.x + q.y * nn == p.x + p.y * nn {
                        crate::day15::lemma_index_inj(q.x as int, q.y as int, p.x as int, p.y as int, nn);
                    }
                    assert(passable(e, nn, nn, FREE, true, q) && !passable(f, nn, nn, FREE, true, q));
                    assert(!reachable(e, nn, nn, FREE, true, goal, q));
                    assert forall|k: nat| !(#[trigger] reach(e2, nn, nn, FREE, true, goal, k).contains(q)) by {
                        lemma_reach_fewer(e2, e, nn, nn, FREE, true, goal, k);
                    }
                }
            } else {
                assert forall|q: Point| passable(e2, nn, nn, FREE, true, q) && !passable(f1, nn, nn, FREE, true, q) implies !#[trigger] reachable(e2, nn, nn, FREE, true, goal, q) by {
                    crate::day15::lemma_index_in(q.x as int, q.y as int, nn, nn);
                    if q.x + q.y * nn == p.x + p.y * nn {
                        crate::day15::lemma_index_inj(q.x as int, q.y as int, p.x as int, p.y as int, nn);
                    } else {
                        assert(passable(e, nn, nn, FREE, true, q) && !passable(f, nn, nn, FREE, true, q));
                    }
                }
            }
            assert forall|k: nat| #[trigger] reach(e2, nn, nn, FREE, true, goal, k) == reach(f1, nn, nn, FREE, true, goal, k) by {
                lemma_reach_walled(f1, e2, nn, nn, FREE, true, goal, k);
            }
            assert(grid.inside(start));
            assert(reachable(e2, nn, nn, FREE, true, goal, start) == reachable(f1, nn, nn, FREE, true, goal, start)) by {
                if reachable(e2, nn, nn, FREE, true, goal, start) {
                    let k = choose|k: nat| #[trigger] reach(e2, nn, nn, FREE, true, goal, k).contains(start);
                    assert(reach(f1, nn, nn, FREE, true, goal, k).contains(start));
                }
                if reachable(f1, nn, nn, FREE, true, goal, start) {
                    let k = choose|k: nat| #[trigger] reach(f1, nn, nn, FREE, true, goal, k).contains(start);
                    assert(reach(e2, nn, nn, FREE, true, goal, k).contains(start));
                }
            }
        }
        if labels.get(start) == Some(NOT_REACHED) {
            proof {
                assert(first_block(cs@, nn, i as int));
                let c = choose|c: int| first_block(cs@, nn, c);
                if c < i {
                    assert(reachable(fallen(nn, cs@, c + 1), nn, nn, FREE, true, goal, start));
                }
                if i < c {
                    assert(reachable(fallen(nn, cs@, i + 1), nn, nn, FREE, true, goal, start));
                }
            }
            return Some(p.xy());
        }
        i += 1;
    }
    proof {
        if exists|c: int| first_block(cs@, nn, c) {
            let c = choose|c: int| first_block(cs@, nn, c);
            assert(reachable(fallen(nn, cs@, c + 1), nn, nn, FREE, true, goal, start));
        }
    }
    None
}

/// The steps across once 1024 bytes have fallen, and the byte that cuts the way off, on
/// a square of side 71.
pub fn run(input: &str) -> (r: String)
    requires
        forall|t: int| 0 <= t < coords_of(input.spec_bytes()).len() ==> in_space(71, #[trigger] coords_of(input.spec_bytes())[t]),
    ensures
        ({
            let cs = coords_of(input.spec_bytes());
            let k = if 1024 < cs.len() { 1024 } else { cs.len() as int };
            r@ == dec(distance(fallen(71, cs, k), 71, 71, FREE, true, Point { x: 70, y: 70 }, Point { x: 0, y: 0 }) as nat)
                + " "@ + match block_of(cs, 71) {
                Some(p) => dec(p.x as nat) + ","@ + dec(p.y as nat),
                None => "failed"@,
            }
        }),
{
    let s1 = star1(input, 70, 1024);
    let mut out = String::new();
    push_dec(&mut out, s1);
    push_str(&mut out, " ");
    match star2(input, 70) {
        Some((x, y)) => {
            push_dec(&mut out, x as u64);
            push_str(&mut out, ",");
            push_dec(&mut out, y as u64);
        },
        None => {
            push_str(&mut out, "failed");
        },
    }
    out
}

} // verus!
