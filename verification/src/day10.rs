//! Hoof it: hiking trails climb one height at a time from `0` to `9` on a topographic map;
//! a trailhead's score is the number of `9` cells its trails reach.

use vstd::prelude::*;
use vstd::string::*;
use crate::error::AocError;
use crate::grid::{grid_of, has_content, spec_step, unit_step, Grid, Point};
use crate::text::{lines_of, push_dec, push_str};

verus! {

/// `b` is one step north, south, west or east of `a`.
pub open spec fn adjacent(a: Point, b: Point) -> bool {
    exists|i: int| 0 <= i < 4 && b.x == a.x + #[trigger] spec_step(i).x && b.y == a.y + spec_step(i).y
}

/// A trail can go from `a` to `b`: both on the map, `b` next to `a` and one higher, and
/// `a` below `9`.
pub open spec fn climbs(g: Grid<u8>, a: Point, b: Point) -> bool {
    &&& g.inside(a) && g.inside(b)
    &&& g.at(a) < 57u8
    &&& g.at(b) == g.at(a) + 1
    &&& adjacent(a, b)
}

/// Point `i` of `s` climbs to point `i + 1`.
pub open spec fn climbs_at(g: Grid<u8>, s: Seq<Point>, i: int) -> bool {
    climbs(g, s[i], s[i + 1])
}

/// `s` is a hiking trail: each point climbs to the next.
pub open spec fn is_trail(g: Grid<u8>, s: Seq<Point>) -> bool {
    s.len() >= 1 && forall|i: int| 0 <= i < s.len() - 1 ==> #[trigger] climbs_at(g, s, i)
}

/// A trail leads from `p` to `q`.
pub open spec fn reaches(g: Grid<u8>, p: Point, q: Point) -> bool {
    exists|s: Seq<Point>| #[trigger] is_trail(g, s) && s[0] == p && s.last() == q
}

/// The cells among the first `m` that hold `9` and that a trail from `p` reaches.
pub open spec fn peak_count(g: Grid<u8>, p: Point, m: int) -> nat
    decreases m,
{
    if m <= 0 {
        0
    } else {
        peak_count(g, p, m - 1) + if g.cells()[m - 1] == 57u8 && reaches(g, p, g.pos_of(m - 1)) {
            1nat
        } else {
            0nat
        }
    }
}

/// The score of `p`: the `9` cells its trails reach, where it holds `0`.
pub open spec fn score(g: Grid<u8>, p: Point) -> nat {
    if g.inside(p) && g.at(p) == 48u8 {
        peak_count(g, p, g.cells().len() as int)
    } else {
        0
    }
}

/// The cells among the first `m` that are marked and hold `9`.
pub open spec fn marked_peaks(g: Grid<u8>, vis: Seq<bool>, m: int) -> nat
    decreases m,
{
    if m <= 0 {
        0
    } else {
        marked_peaks(g, vis, m - 1) + if vis[m - 1] && g.cells()[m - 1] == 57u8 {
            1nat
        } else {
            0nat
        }
    }
}

/// The marked cells among the first `m`.
pub open spec fn marked(vis: Seq<bool>, m: int) -> nat
    decreases m,
{
    if m <= 0 {
        0
    } else {
        marked(vis, m - 1) + if vis[m - 1] {
            1nat
        } else {
            0nat
        }
    }
}

proof fn lemma_mark(g: Grid<u8>, vis: Seq<bool>, i: int, m: int)
    requires
        0 <= i < vis.len(),
        !vis[i],
        0 <= m <= vis.len(),
    ensures
        marked(vis.update(i, true), m) == marked(vis, m) + if i < m { 1nat } else { 0nat },
        marked_peaks(g, vis.update(i, true), m) == marked_peaks(g, vis, m) + if i < m && g.cells()[i] == 57u8 {
            1nat
        } else {
            0nat
        },
        marked(vis, m) <= m,
        marked(vis.update(i, true), m) <= m,
    decreases m,
{
    if m > 0 {
        lemma_mark(g, vis, i, m - 1);
    }
}

proof fn lemma_peaks_agree(g: Grid<u8>, p: Point, vis: Seq<bool>, m: int)
    requires
        0 <= m <= vis.len(),
        forall|c: int| 0 <= c < vis.len() && g.cells()[c] == 57u8 ==> (#[trigger] vis[c] <==> reaches(g, p, g.pos_of(c))),
    ensures
        marked_peaks(g, vis, m) == peak_count(g, p, m),
    decreases m,
{
    if m > 0 {
        lemma_peaks_agree(g, p, vis, m - 1);
    }
}

proof fn lemma_zero_marks(g: Grid<u8>, vis: Seq<bool>, m: int)
    requires
        0 <= m <= vis.len(),
        forall|c: int| 0 <= c < vis.len() ==> !vis[c],
    ensures
        marked(vis, m) == 0,
        marked_peaks(g, vis, m) == 0,
    decreases m,
{
    if m > 0 {
        lemma_zero_marks(g, vis, m - 1);
    }
}

/// A trail extended by one climb is a trail.
proof fn lemma_extend(g: Grid<u8>, s: Seq<Point>, b: Point)
    requires
        is_trail(g, s),
        climbs(g, s.last(), b),
    ensures
        is_trail(g, s.push(b)),
        s.push(b)[0] == s[0],
        s.push(b).last() == b,
{
    let t = s.push(b);
    assert forall|i: int| 0 <= i < t.len() - 1 implies #[trigger] climbs_at(g, t, i) by {
        if i < s.len() - 1 {
            assert(climbs_at(g, s, i));
            assert(t[i] == s[i] && t[i + 1] == s[i + 1]);
        }
    }
}

/// Where every marked cell below `9` that is not waiting has all its climbs marked, as has
/// `p`, every trail from `p` ends at `p` or at a marked cell.
proof fn lemma_closed(g: Grid<u8>, p: Point, vis: Seq<bool>, s: Seq<Point>, k: int)
    requires
        g.wf(),
        vis.len() == g.cells().len(),
        is_trail(g, s),
        s[0] == p,
        0 <= k < s.len(),
        forall|a: Point, b: Point|
            #[trigger] climbs(g, a, b) && (a == p || vis[g.index_of(a)]) ==> vis[g.index_of(b)],
    ensures
        s[k] == p || vis[g.index_of(s[k])],
    decreases k,
{
    if k > 0 {
        lemma_closed(g, p, vis, s, k - 1);
        assert(climbs_at(g, s, k - 1));
    }
}

/// Point `a` waits on the stack `w`.
pub open spec fn waiting(w: Seq<(Point, u8)>, a: Point) -> bool {
    exists|k: int| 0 <= k < w.len() && (#[trigger] w[k]).0 == a
}

/// The point one step `j` from `q`.
pub open spec fn moved(q: Point, j: int) -> Point {
    Point { x: (q.x + spec_step(j).x) as i32, y: (q.y + spec_step(j).y) as i32 }
}

proof fn lemma_step_fits(g: Grid<u8>, q: Point, s: int)
    requires
        g.wf(),
        g.inside(q),
        0 <= s < 4,
    ensures
        q.sum_fits(spec_step(s)),
{
}

proof fn lemma_reach_self(g: Grid<u8>, p: Point)
    ensures
        reaches(g, p, p),
{
    let s = seq![p];
    assert(is_trail(g, s));
}

proof fn lemma_reach_more(g: Grid<u8>, p: Point, q: Point, b: Point)
    requires
        reaches(g, p, q),
        climbs(g, q, b),
    ensures
        reaches(g, p, b),
{
    let s = choose|s: Seq<Point>| #[trigger] is_trail(g, s) && s[0] == p && s.last() == q;
    lemma_extend(g, s, b);
}

/// The score of the trailhead `p`: the `9` cells that its trails reach, searched depth
/// first, each cell visited once.
pub fn trailhead_score(grid: &Grid<u8>, p: Point) -> (r: usize)
    requires
        grid.wf(),
    ensures
        r == score(*grid, p),
{
    if grid.get(p) != Some(48u8) {
        return 0;
    }
    let ghost g = *grid;
    let n = grid.as_slice().len();
    let mut vis: Vec<bool> = Vec::new();
    while vis.len() < n
        invariant
            vis@.len() <= n,
            forall|c: int| 0 <= c < vis@.len() ==> !vis@[c],
        decreases n - vis@.len(),
    {
        vis.push(false);
    }
    proof {
        lemma_zero_marks(g, vis@, n as int);
        lemma_reach_self(g, p);
    }
    let mut work: Vec<(Point, u8)> = Vec::new();
    work.push((p, 48u8));
    let mut num_peaks: usize = 0;
    let ghost mut nv: nat = 0;
    proof {
        assert forall|a: Point, b: Point|
            #[trigger] climbs(g, a, b) && (a == p || vis@[g.index_of(a)]) && !waiting(work@, a) implies vis@[g.index_of(b)] by {
            if a == p {
                assert(work@[0].0 == p);
            } else {
                g.lemma_inside_index(a);
            }
        }
    }
    loop
        invariant
            grid.wf(),
            g == *grid,
            n == g.cells().len(),
            g.inside(p) && g.at(p) == 48u8,
            vis@.len() == n,
            forall|k: int|
                0 <= k < work@.len() ==> {
                    let (q, h) = #[trigger] work@[k];
                    &&& g.inside(q)
                    &&& g.at(q) == h
                    &&& 48 <= h < 57u8
                    &&& reaches(g, p, q)
                },
            forall|c: int| 0 <= c < n ==> #[trigger] vis@[c] ==> reaches(g, p, g.pos_of(c)) && g.pos_of(c) != p,
            forall|a: Point, b: Point|
                #[trigger] climbs(g, a, b) && (a == p || vis@[g.index_of(a)]) && !waiting(work@, a)
                    ==> vis@[g.index_of(b)],
            nv == marked(vis@, n as int),
            nv <= n,
            num_peaks == marked_peaks(g, vis@, n as int),
            num_peaks <= nv,
        ensures
            work@.len() == 0,
            vis@.len() == n,
            forall|c: int| 0 <= c < n ==> #[trigger] vis@[c] ==> reaches(g, p, g.pos_of(c)) && g.pos_of(c) != p,
            forall|a: Point, b: Point|
                #[trigger] climbs(g, a, b) && (a == p || vis@[g.index_of(a)]) && !waiting(work@, a)
                    ==> vis@[g.index_of(b)],
            num_peaks == marked_peaks(g, vis@, n as int),
        decreases 4 * (n - nv) + work@.len(),
    {
        let ghost wfull = work@;
        let (q, h) = match work.pop() {
            Some(x) => x,
            None => {
                break;
            },
        };
        let ghost nv0 = nv;
        let ghost w0 = work@;
        assert(wfull[wfull.len() - 1] == (q, h));
        assert(g.inside(q) && g.at(q) == h && 48 <= h < 57u8 && reaches(g, p, q));
        proof {
            assert forall|a: Point| a != q && waiting(wfull, a) implies waiting(w0, a) by {
                let k = choose|k: int| 0 <= k < wfull.len() && (#[trigger] wfull[k]).0 == a;
                assert(wfull[k] == w0[k]);
            }
            assert forall|a: Point, b: Point|
                #[trigger] climbs(g, a, b) && (a == p || vis@[g.index_of(a)]) && !waiting(work@, a) && a != q
                    implies vis@[g.index_of(b)] by {
                assert(!waiting(wfull, a));
            }
            assert forall|k: int| 0 <= k < work@.len() implies {
                let (q, h) = #[trigger] work@[k];
                &&& g.inside(q)
                &&& g.at(q) == h
                &&& 48 <= h < 57u8
                &&& reaches(g, p, q)
            } by {
                assert(work@[k] == wfull[k]);
            }
        }
        let h1 = h + 1;
        let mut s: usize = 0;
        while s < 4
            invariant
                grid.wf(),
                g == *grid,
                n == g.cells().len(),
                g.inside(p) && g.at(p) == 48u8,
                g.inside(q) && g.at(q) == h && 48 <= h < 57u8 && h1 == h + 1,
                reaches(g, p, q),
                vis@.len() == n,
                s <= 4,
                forall|k: int|
                    0 <= k < work@.len() ==> {
                        let (q, h) = #[trigger] work@[k];
                        &&& g.inside(q)
                        &&& g.at(q) == h
                        &&& 48 <= h < 57u8
                        &&& reaches(g, p, q)
                    },
                forall|c: int| 0 <= c < n ==> #[trigger] vis@[c] ==> reaches(g, p, g.pos_of(c)) && g.pos_of(c) != p,
                forall|a: Point, b: Point|
                    #[trigger] climbs(g, a, b) && (a == p || vis@[g.index_of(a)]) && !waiting(work@, a) && a != q
                        ==> vis@[g.index_of(b)],
                forall|j: int| 0 <= j < s && #[trigger] climbs(g, q, moved(q, j)) ==> vis@[g.index_of(moved(q, j))],
                nv == marked(vis@, n as int),
                nv <= n,
                num_peaks == marked_peaks(g, vis@, n as int),
                num_peaks <= nv,
                nv0 <= nv,
                w0.len() <= work@.len() <= w0.len() + (nv - nv0),
            decreases 4 - s,
        {
            let ghost vis_start = vis@;
            let st = unit_step(s);
            proof {
                lemma_step_fits(g, q, s as int);
            }
            let b = q.plus(st);
            if grid.get(b) == Some(h1) {
                let bi = grid.to_index(b).unwrap();
                proof {
                    assert(adjacent(q, b));
                    assert(climbs(g, q, b));
                    lemma_reach_more(g, p, q, b);
                    g.lemma_pos_index(b);
                }
                if !vis[bi] {
                    let ghost before = vis@;
                    let ghost wb = work@;
                    vis.set(bi, true);
                    proof {
                        lemma_mark(g, before, bi as int, n as int);
                        nv = nv + 1;
                    }
                    if h1 == 57u8 {
                        num_peaks += 1;
                    } else {
                        work.push((b, h1));
                    }
                    proof {
                        assert forall|c: int| 0 <= c < n implies #[trigger] vis@[c] ==> reaches(g, p, g.pos_of(c)) && g.pos_of(c) != p by {
                            if c == bi {
                                assert(g.pos_of(c) == b);
                            } else {
                                assert(vis@[c] == before[c]);
                            }
                        }
                        assert forall|a: Point, bb: Point|
                            #[trigger] climbs(g, a, bb) && (a == p || vis@[g.index_of(a)]) && !waiting(work@, a) && a != q
                                implies vis@[g.index_of(bb)] by {
                            if a == b {
                                if h1 != 57u8 {
                                    assert(work@[work@.len() - 1].0 == b);
                                }
                            } else {
                                g.lemma_inside_index(a);
                                if a != p {
                                    if g.index_of(a) == bi {
                                        g.lemma_pos_index(a);
                                    }
                                    assert(before[g.index_of(a)]);
                                }
                                if waiting(wb, a) {
                                    let k = choose|k: int| 0 <= k < wb.len() && (#[trigger] wb[k]).0 == a;
                                    assert(work@[k] == wb[k]);
                                }
                                g.lemma_inside_index(bb);
                                assert(before[g.index_of(bb)]);
                            }
                        }
                        assert forall|k: int| 0 <= k < work@.len() implies {
                            let (q, h) = #[trigger] work@[k];
                            &&& g.inside(q)
                                &&& g.at(q) == h
                            &&& 48 <= h < 57u8
                            &&& reaches(g, p, q)
                        } by {
                            if k < wb.len() {
                                assert(work@[k] == wb[k]);
                            }
                        }
                    }
                }
            }
            proof {
                assert forall|j: int| 0 <= j < s + 1 && #[trigger] climbs(g, q, moved(q, j)) implies vis@[g.index_of(moved(q, j))] by {
                    g.lemma_inside_index(moved(q, j));
                    if j < s {
                        assert(vis_start[g.index_of(moved(q, j))]);
                    }
                    if j == s {
                        assert(moved(q, j) == b);
                        g.lemma_inside_index(b);
                        assert(g.at(b) == h1);
                    }
                }
            }
            s += 1;
        }
        proof {
            assert forall|a: Point, b: Point|
                #[trigger] climbs(g, a, b) && (a == p || vis@[g.index_of(a)]) && !waiting(work@, a)
                    implies vis@[g.index_of(b)] by {
                if a == q {
                    let j = choose|j: int| 0 <= j < 4 && b.x == a.x + #[trigger] spec_step(j).x && b.y == a.y + spec_step(j).y;
                    assert(moved(q, j) == b);
                }
            }
        }
    }
    proof {
        assert forall|c: int| 0 <= c < n && g.cells()[c] == 57u8 implies (#[trigger] vis@[c] <==> reaches(g, p, g.pos_of(c))) by {
            if reaches(g, p, g.pos_of(c)) {
                let tr = choose|tr: Seq<Point>| #[trigger] is_trail(g, tr) && tr[0] == p && tr.last() == g.pos_of(c);
                assert forall|a: Point, b: Point| #[trigger] climbs(g, a, b) && (a == p || vis@[g.index_of(a)]) implies vis@[g.index_of(b)] by {
                    assert(!waiting(work@, a));
                }
                lemma_closed(g, p, vis@, tr, tr.len() - 1);
                g.lemma_pos_of(c);
                if tr.last() == p {
                    assert(g.at(p) == 48u8);
                }
            }
        }
        lemma_peaks_agree(g, p, vis@, n as int);
    }
    num_peaks
}

proof fn lemma_peak_le(g: Grid<u8>, p: Point, m: int)
    requires
        0 <= m,
    ensures
        peak_count(g, p, m) <= m,
    decreases m,
{
    if m > 0 {
        lemma_peak_le(g, p, m - 1);
    }
}

/// The scores of the first `k` positions, summed.
pub open spec fn score_sum(g: Grid<u8>, k: int) -> nat
    decreases k,
{
    if k <= 0 {
        0
    } else {
        score_sum(g, k - 1) + score(g, g.pos_of(k - 1))
    }
}

/// The scores of all trailheads, summed.
pub fn star1(grid: &Grid<u8>) -> (r: usize)
    requires
        grid.wf(),
        grid.cells().len() * grid.cells().len() <= usize::MAX,
    ensures
        r == score_sum(*grid, grid.cells().len() as int),
{
    let ps = grid.positions();
    let n = ps.len();
    let mut sum: usize = 0;
    let mut i: usize = 0;
    while i < n
        invariant
            grid.wf(),
            n == grid.cells().len(),
            n * n <= usize::MAX,
            ps@.len() == n,
            forall|j: int| 0 <= j < n ==> #[trigger] ps@[j] == grid.pos_of(j),
            i <= n,
            sum == score_sum(*grid, i as int),
            sum <= i * n,
        decreases n - i,
    {
        let v = trailhead_score(grid, ps[i]);
        proof {
            lemma_peak_le(*grid, ps@[i as int], n as int);
            assert(v <= n);
            assert(i * n + n == (i + 1) * n) by (nonlinear_arith);
            assert((i + 1) * n <= n * n) by (nonlinear_arith)
                requires i + 1 <= n;
        }
        sum = sum + v;
        i += 1;
    }
    sum
}

/// The sum of the trailhead scores, followed by a space.
pub fn run(input: &str) -> (r: Result<String, AocError>)
    requires
        has_content(lines_of(input.spec_bytes())),
        grid_of(input.spec_bytes()) matches Some((w, cells)) ==> cells.len() * cells.len() <= usize::MAX,
    ensures
        match r {
            Ok(out) => exists|g: Grid<u8>|
                {
                    &&& g.wf()
                    &&& grid_of(input.spec_bytes()) == Some((g.width(), g.cells()))
                    &&& out@ == crate::text::dec(score_sum(g, g.cells().len() as int)) + " "@
                },
            Err(e) => grid_of(input.spec_bytes()) is None && e == AocError::InvalidInput,
        },
{
    let grid = Grid::parse(input)?;
    let s1 = star1(&grid);
    let mut out = String::new();
    push_dec(&mut out, s1 as u64);
    push_str(&mut out, " ");
    Ok(out)
}

} // verus!
