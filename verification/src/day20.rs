//! A race track, and the shortcuts through its walls that save time.

use vstd::prelude::*;
use vstd::string::*;
use crate::bfs::{
    adjacent, bfs, distance, hits, is_dist, lemma_dist_exists, lemma_distance_is, lemma_parent,
    lemma_reach_cells, passable, reachable, NOT_REACHED,
};
use crate::error::AocError;
use crate::grid::{grid_of, has_content, pt, spec_step, unit_step, Grid, Point};
use crate::text::{dec, lines_of, push_dec, push_str};

verus! {

/// A wall of the track.
pub const WALL: u8 = 35;

/// The race track: its map, its start and its end.
pub struct Track {
    pub grid: Grid<u8>,
    pub start: Point,
    pub end: Point,
}

/// The first cell of `m` that holds `c`, by index.
pub open spec fn first_of(m: Seq<u8>, c: u8, i: int) -> bool {
    0 <= i < m.len() && m[i] == c && forall|j: int| 0 <= j < i ==> m[j] != c
}

impl Track {
    pub open spec fn wf(&self) -> bool {
        &&& self.grid.wf()
        &&& self.grid.width() > 0
        &&& self.grid.inside(self.start)
        &&& self.grid.inside(self.end)
    }

    /// Reads the track: its map, with the first `S` as start and the first `E` as end.
    pub fn parse(input: &str) -> (r: Result<Track, AocError>)
        requires
            has_content(lines_of(input.spec_bytes())),
        ensures
            match grid_of(input.spec_bytes()) {
                None => r == Err::<Track, AocError>(AocError::InvalidInput),
                Some((w, cells)) => if (exists|i: int| first_of(cells, 83u8, i)) && (exists|i: int| first_of(cells, 69u8, i)) {
                    r matches Ok(t) && t.wf() && t.grid.cells() == cells && t.grid.width() == w
                        && first_of(cells, 83u8, t.grid.index_of(t.start)) && first_of(cells, 69u8, t.grid.index_of(t.end))
                } else {
                    r == Err::<Track, AocError>(AocError::NotFound)
                },
            },
    {
        let grid = match Grid::parse(input) {
            Ok(g) => g,
            Err(e) => return Err(e),
        };
        let ghost cells = grid.cells();
        let start = match grid.find(83u8) {
            Some(p) => p,
            None => {
                proof {
                    if exists|i: int| first_of(cells, 83u8, i) {
                        let i = choose|i: int| first_of(cells, 83u8, i);
                        assert(cells[i] == 83u8);
                    }
                }
                return Err(AocError::NotFound);
            },
        };
        let end = match grid.find(69u8) {
            Some(p) => p,
            None => {
                proof {
                    if exists|i: int| first_of(cells, 69u8, i) {
                        let i = choose|i: int| first_of(cells, 69u8, i);
                        assert(cells[i] == 69u8);
                    }
                }
                return Err(AocError::NotFound);
            },
        };
        proof {
            grid.lemma_inside_index(start);
            grid.lemma_inside_index(end);
            assert(first_of(cells, 83u8, grid.index_of(start)));
            assert(first_of(cells, 69u8, grid.index_of(end)));
        }
        Ok(Track { grid, start, end })
    }
}

/// The cell one step `k` from `p`.
pub open spec fn neighbour(p: Point, k: int) -> Point {
    Point { x: (p.x + spec_step(k).x) as i32, y: (p.y + spec_step(k).y) as i32 }
}

/// The steps from the start of the track to `q`.
pub open spec fn steps(m: Seq<u8>, w: int, h: int, src: Point, q: Point) -> int {
    distance(m, w, h, WALL, false, src, q)
}

/// The cell lies on a map `w` by `h`.
pub open spec fn on_map(w: int, h: int, q: Point) -> bool {
    0 <= q.x < w && 0 <= q.y < h
}

/// The cells one step from `p`, by the first `k` steps in order, that lie on the map and
/// are fewer steps from the start than `p`.
pub open spec fn lower(m: Seq<u8>, w: int, h: int, src: Point, p: Point, k: int) -> Seq<Point>
    decreases k,
{
    if k <= 0 {
        Seq::empty()
    } else {
        let r = lower(m, w, h, src, p, k - 1);
        let q = neighbour(p, k - 1);
        if on_map(w, h, q) && steps(m, w, h, src, q) < steps(m, w, h, src, p) {
            r.push(q)
        } else {
            r
        }
    }
}

pub proof fn lemma_lower_less(m: Seq<u8>, w: int, h: int, src: Point, p: Point, k: int)
    ensures
        forall|t: int| 0 <= t < lower(m, w, h, src, p, k).len() ==> steps(m, w, h, src, #[trigger] lower(m, w, h, src, p, k)[t]) < steps(m, w, h, src, p)
            && on_map(w, h, lower(m, w, h, src, p, k)[t]),
    decreases k,
{
    if k > 0 {
        lemma_lower_less(m, w, h, src, p, k - 1);
        let r = lower(m, w, h, src, p, k - 1);
        let l = lower(m, w, h, src, p, k);
        assert forall|t: int| 0 <= t < l.len() implies steps(m, w, h, src, #[trigger] l[t]) < steps(m, w, h, src, p) && on_map(w, h, l[t]) by {
            if t < r.len() {
                assert(l[t] == r[t]);
            }
        }
    }
}

pub proof fn lemma_steps_nonneg(m: Seq<u8>, w: int, h: int, src: Point, q: Point)
    ensures
        steps(m, w, h, src, q) >= 0,
{
}

/// The way back from `p` to the start: from each cell, every neighbour fewer steps from the
/// start, and on from the last of them.
pub open spec fn trail(m: Seq<u8>, w: int, h: int, src: Point, p: Point) -> Seq<Point>
    decreases steps(m, w, h, src, p),
{
    let d = steps(m, w, h, src, p);
    if d <= 0 || d >= NOT_REACHED || !on_map(w, h, p) {
        Seq::empty()
    } else {
        let qs = lower(m, w, h, src, p, 4);
        if qs.len() == 0 {
            Seq::empty()
        } else {
            proof {
                lemma_lower_less(m, w, h, src, p, 4);
                lemma_steps_nonneg(m, w, h, src, qs.last());
                assert(steps(m, w, h, src, qs[qs.len() - 1]) < steps(m, w, h, src, p));
            }
            qs + trail(m, w, h, src, qs.last())
        }
    }
}

/// The sequence backwards.
pub open spec fn reversed(s: Seq<Point>) -> Seq<Point> {
    Seq::new(s.len(), |i: int| s[s.len() - 1 - i])
}

/// The path of the race, from the start to the end: the way back from the end, reversed.
pub fn find_path(t: &Track) -> (r: Vec<Point>)
    requires
        t.wf(),
        t.grid.cells().len() < NOT_REACHED,
    ensures
        r@ == reversed(seq![t.end] + trail(t.grid.cells(), t.grid.width(), t.grid.height(), t.start, t.end)),
        forall|i: int| 0 <= i < r@.len() ==> t.grid.inside(#[trigger] r@[i]),
{
    let ghost g = t.grid;
    let lab = bfs(&t.grid, WALL, false, t.start);
    let mut path: Vec<Point> = Vec::new();
    path.push(t.end);
    loop
        invariant
            g == t.grid,
            t.wf(),
            t.grid.cells().len() < NOT_REACHED,
            crate::bfs::labels_are(g, lab, |q: Point| distance(g.cells(), g.width(), g.height(), WALL, false, t.start, q)),
            forall|q: Point| #[trigger] g.inside(q) ==> (lab.at(q) == NOT_REACHED <==> !reachable(g.cells(), g.width(), g.height(), WALL, false, t.start, q)),
            path@.len() >= 1,
            forall|i: int| 0 <= i < path@.len() ==> g.inside(#[trigger] path@[i]),
            seq![t.end] + trail(g.cells(), g.width(), g.height(), t.start, t.end) == path@ + trail(g.cells(), g.width(), g.height(), t.start, path@.last()),
        ensures
            path@.len() >= 1,
            forall|i: int| 0 <= i < path@.len() ==> g.inside(#[trigger] path@[i]),
            seq![t.end] + trail(g.cells(), g.width(), g.height(), t.start, t.end) == path@,
        decreases lab.at(path@.last()),
    {
        let p = path[path.len() - 1];
        proof {
            assert(g.inside(p));
        }
        let pd = lab.get(p).unwrap();
        if pd == 0 || pd == NOT_REACHED {
            proof {
                assert(trail(g.cells(), g.width(), g.height(), t.start, p) =~= Seq::<Point>::empty());
                assert(path@ + Seq::<Point>::empty() =~= path@);
            }
            break;
        }
        let ghost before = path@;
        let mut k: usize = 0;
        while k < 4
            invariant
                g == t.grid,
                t.wf(),
                crate::bfs::labels_are(g, lab, |q: Point| distance(g.cells(), g.width(), g.height(), WALL, false, t.start, q)),
                g.inside(p),
                pd == lab.at(p),
                k <= 4,
                path@ == before + lower(g.cells(), g.width(), g.height(), t.start, p, k as int),
                forall|i: int| 0 <= i < path@.len() ==> g.inside(#[trigger] path@[i]),
            decreases 4 - k,
        {
            let q = p.plus(unit_step(k));
            match lab.get(q) {
                Some(qd) => {
                    if qd < pd {
                        path.push(q);
                    }
                },
                None => {},
            }
            proof {
                assert(q == neighbour(p, k as int));
                if g.inside(q) {
                    assert(lab.at(q) as int == steps(g.cells(), g.width(), g.height(), t.start, q));
                }
                assert(lab.at(p) as int == steps(g.cells(), g.width(), g.height(), t.start, p));
            }
            k += 1;
        }
        proof {
            let qs = lower(g.cells(), g.width(), g.height(), t.start, p, 4);
            assert(lab.at(p) as int == steps(g.cells(), g.width(), g.height(), t.start, p));
            // the cell one step nearer the start is among them
            assert(reachable(g.cells(), g.width(), g.height(), WALL, false, t.start, p));
            let kk = choose|kk: nat| #[trigger] crate::bfs::reach(g.cells(), g.width(), g.height(), WALL, false, t.start, kk).contains(p);
            lemma_dist_exists(g.cells(), g.width(), g.height(), WALL, false, t.start, p, kk);
            let dd = choose|j: nat| is_dist(g.cells(), g.width(), g.height(), WALL, false, t.start, p, j);
            lemma_distance_is(g.cells(), g.width(), g.height(), WALL, false, t.start, p, dd);
            lemma_parent(g.cells(), g.width(), g.height(), WALL, false, t.start, p, dd);
            let par = choose|par: Point| #[trigger] adjacent(par, p) && is_dist(g.cells(), g.width(), g.height(), WALL, false, t.start, par, (dd - 1) as nat);
            lemma_distance_is(g.cells(), g.width(), g.height(), WALL, false, t.start, par, (dd - 1) as nat);
            let j = choose|j: int| 0 <= j < 4 && #[trigger] hits(par, j, p);
            let o = if j == 0 { 1int } else if j == 1 { 0int } else if j == 2 { 3int } else { 2int };
            assert(neighbour(p, o) == par);
            lemma_reach_cells(g.cells(), g.width(), g.height(), WALL, false, t.start, (dd - 1) as nat, par);
            lemma_lower_has(g.cells(), g.width(), g.height(), t.start, p, 4, o, par);
            assert(qs.len() > 0);
            lemma_lower_less(g.cells(), g.width(), g.height(), t.start, p, 4);
            assert(path@.last() == qs.last());
            assert(trail(g.cells(), g.width(), g.height(), t.start, p) == qs + trail(g.cells(), g.width(), g.height(), t.start, qs.last()));
            assert(before.drop_last().push(p) == before);
            assert(path@ + trail(g.cells(), g.width(), g.height(), t.start, path@.last()) =~= before + trail(g.cells(), g.width(), g.height(), t.start, p));
            assert(lab.at(qs.last()) as int == steps(g.cells(), g.width(), g.height(), t.start, qs.last()));
        }
    }
    let mut r: Vec<Point> = Vec::new();
    let mut i: usize = path.len();
    while i > 0
        invariant
            i <= path@.len(),
            r@.len() == path@.len() - i,
            forall|j: int| 0 <= j < r@.len() ==> #[trigger] r@[j] == path@[path@.len() - 1 - j],
        decreases i,
    {
        r.push(path[i - 1]);
        i -= 1;
    }
    assert(r@ =~= reversed(path@));
    r
}

pub proof fn lemma_lower_has(m: Seq<u8>, w: int, h: int, src: Point, p: Point, k: int, j: int, q: Point)
    requires
        0 <= j < k,
        q == neighbour(p, j),
        on_map(w, h, q),
        steps(m, w, h, src, q) < steps(m, w, h, src, p),
    ensures
        lower(m, w, h, src, p, k).len() > 0,
    decreases k,
{
    if j < k - 1 {
        lemma_lower_has(m, w, h, src, p, k - 1, j, q);
    }
}

/// The map of path positions: each cell of the path holds its index along the path (the
/// later one where the path comes back), every other cell `NOT_REACHED`.
pub open spec fn marks(w: int, h: int, path: Seq<Point>, n: int) -> Seq<u16>
    decreases n,
{
    if n <= 0 {
        Seq::new((w * h) as nat, |i: int| NOT_REACHED)
    } else {
        let p = path[n - 1];
        marks(w, h, path, n - 1).update(p.x + p.y * w, (n - 1) as u16)
    }
}

/// The cell with index `c` of a map `w` wide.
pub open spec fn cell_pos(w: int, c: int) -> Point {
    Point { x: (c % w) as i32, y: (c / w) as i32 }
}

pub open spec fn mark_at(pm: Seq<u16>, w: int, h: int, q: Point) -> Option<u16> {
    if 0 <= q.x < w && 0 <= q.y < h {
        Some(pm[q.x + q.y * w])
    } else {
        None
    }
}

/// The shortcut, if any, from the path cell with index `c` through the wall one step `k`
/// away onto a path cell one step further, reached earlier: the wall cell, the direction,
/// and the steps saved.
pub open spec fn cheat_at(pm: Seq<u16>, w: int, h: int, c: int, k: int) -> Option<((Point, usize), u16)> {
    let p = cell_pos(w, c);
    let pn = pm[c];
    let q = neighbour(p, k);
    let r = neighbour(q, k);
    let rn = pm[r.x + r.y * w];
    if pn != NOT_REACHED && mark_at(pm, w, h, q) == Some(NOT_REACHED) && 0 <= r.x < w && 0 <= r.y < h && rn < pn {
        Some(((q, k as usize), (pn - rn - 2) as u16))
    } else {
        None
    }
}

/// The shortcuts found over the first `n` of the cell and direction pairs, cells in order
/// and each cell's four directions in order.
pub open spec fn cheats_upto(pm: Seq<u16>, w: int, h: int, n: int) -> Seq<((Point, usize), u16)>
    decreases n,
{
    if n <= 0 {
        Seq::empty()
    } else {
        let r = cheats_upto(pm, w, h, n - 1);
        match cheat_at(pm, w, h, (n - 1) / 4, (n - 1) % 4) {
            Some(e) => r.push(e),
            None => r,
        }
    }
}

/// A shortcut from the cell with index `c` in direction `k` saves a whole number of steps:
/// the cell it lands on is at least two steps earlier on the path.
pub open spec fn shortcut_ok(pm: Seq<u16>, w: int, h: int, c: int, k: int) -> bool {
    let p = cell_pos(w, c);
    let q = neighbour(p, k);
    let r = neighbour(q, k);
    let rn = pm[r.x + r.y * w];
    (pm[c] != NOT_REACHED && mark_at(pm, w, h, q) == Some(NOT_REACHED) && 0 <= r.x < w && 0 <= r.y < h
        && rn < pm[c]) ==> pm[c] - rn >= 2
}

/// Every shortcut saves a whole number of steps.
pub open spec fn cheats_fit(pm: Seq<u16>, w: int, h: int) -> bool {
    forall|c: int, k: int| 0 <= c < w * h && 0 <= k < 4 ==> #[trigger] shortcut_ok(pm, w, h, c, k)
}

/// The shortcuts through one wall cell, each with the steps it saves.
pub fn find_cheats(dim: (i32, i32), path: &[Point]) -> (r: Vec<((Point, usize), u16)>)
    requires
        0 < dim.0 < 0x7fff_fff0,
        0 <= dim.1 < 0x7fff_fff0,
        dim.0 * dim.1 <= i32::MAX,
        path@.len() < NOT_REACHED,
        forall|i: int| 0 <= i < path@.len() ==> 0 <= (#[trigger] path@[i]).x < dim.0 && 0 <= path@[i].y < dim.1,
        cheats_fit(marks(dim.0 as int, dim.1 as int, path@, path@.len() as int), dim.0 as int, dim.1 as int),
    ensures
        ({
            let (w, h) = (dim.0 as int, dim.1 as int);
            r@ == cheats_upto(marks(w, h, path@, path@.len() as int), w, h, 4 * w * h)
        }),
{
    let ghost w = dim.0 as int;
    let ghost h = dim.1 as int;
    let mut pg = Grid::new(dim, NOT_REACHED);
    let mut i: usize = 0;
    proof {
        assert(pg.cells() =~= marks(w, h, path@, 0));
    }
    while i < path.len()
        invariant
            pg.wf(),
            pg.width() == w && pg.height() == h,
            w == dim.0 && h == dim.1,
            path@.len() < NOT_REACHED,
            forall|j: int| 0 <= j < path@.len() ==> 0 <= (#[trigger] path@[j]).x < dim.0 && 0 <= path@[j].y < dim.1,
            i <= path@.len(),
            pg.cells() == marks(w, h, path@, i as int),
        decreases path@.len() - i,
    {
        pg.set(path[i], i as u16);
        i += 1;
    }
    let ghost pm = pg.cells();
    let cells = pg.iter();
    let mut cheats: Vec<((Point, usize), u16)> = Vec::new();
    let mut c: usize = 0;
    proof {
        assert(pm.len() == w * h);
    }
    while c < cells.len()
        invariant
            pg.wf(),
            pg.width() == w && pg.height() == h,
            w == dim.0 && h == dim.1 && w > 0,
            dim.0 < 0x7fff_fff0 && dim.1 < 0x7fff_fff0,
            pm == pg.cells(),
            pm == marks(w, h, path@, path@.len() as int),
            cheats_fit(pm, w, h),
            cells@.len() == pm.len(),
            forall|j: int| 0 <= j < cells@.len() ==> #[trigger] cells@[j] == (pg.pos_of(j), pm[j]),
            c <= cells@.len(),
            cheats@ == cheats_upto(pm, w, h, 4 * c),
        decreases cells@.len() - c,
    {
        let (p, pn) = cells[c];
        proof {
            pg.lemma_pos_of(c as int);
            assert(p == cell_pos(w, c as int));
        }
        let mut k: usize = 0;
        while k < 4
            invariant
                pg.wf(),
                pg.width() == w && pg.height() == h,
                w == dim.0 && h == dim.1 && w > 0,
                dim.0 < 0x7fff_fff0 && dim.1 < 0x7fff_fff0,
                pm == pg.cells(),
                cheats_fit(pm, w, h),
                c < pm.len(),
                pm.len() == w * h,
                p == cell_pos(w, c as int),
                pg.inside(p),
                pn == pm[c as int],
                k <= 4,
                cheats@ == cheats_upto(pm, w, h, 4 * c + k),
            decreases 4 - k,
        {
            let step = unit_step(k);
            let q = p.plus(step);
            proof {
                assert(q == neighbour(p, k as int));
            }
            let r = q.plus(step);
            proof {
                assert(r == neighbour(q, k as int));
                assert((4 * c + k) / 4 == c && (4 * c + k) % 4 == k);
                assert(cheats_upto(pm, w, h, 4 * c + k + 1) == match cheat_at(pm, w, h, c as int, k as int) {
                    Some(e) => cheats_upto(pm, w, h, 4 * c + k).push(e),
                    None => cheats_upto(pm, w, h, 4 * c + k),
                });
            }
            if pn != NOT_REACHED {
                if pg.get(q) == Some(NOT_REACHED) {
                    match pg.get(r) {
                        Some(rn) => {
                            if rn < pn {
                                proof {
                                    assert(mark_at(pm, w, h, r) == Some(rn));
                                    assert(shortcut_ok(pm, w, h, c as int, k as int));
                                    assert(pm[c as int] - rn >= 2);
                                }
                                cheats.push(((q, k), pn - rn - 2));
                            }
                        },
                        None => {},
                    }
                }
            }
            k += 1;
        }
        c += 1;
    }
    proof {
        assert(4 * w * h == 4 * cells@.len()) by (nonlinear_arith)
            requires cells@.len() == w * h;
    }
    cheats
}

/// Which savings count.
#[derive(Debug, Clone, Copy, PartialEq, Eq, Structural)]
pub enum Saving {
    /// Savings of at least this many steps.
    AtLeast(usize),
    /// Savings of exactly this many steps.
    Exactly(usize),
}

pub open spec fn counts(rule: Saving, d: int) -> bool {
    match rule {
        Saving::AtLeast(n) => d >= n,
        Saving::Exactly(n) => d == n,
    }
}

pub open spec fn spec_abs(x: int) -> int {
    if x < 0 { -x } else { x }
}

/// The steps between two cells, walking through anything.
pub open spec fn manhattan(p: Point, q: Point) -> int {
    spec_abs(p.x - q.x) + spec_abs(p.y - q.y)
}

/// The steps between two cells, walking through anything.
pub fn manhattan_dist(p: Point, q: Point) -> (r: usize)
    requires
        -0x1000_0000 <= p.x < 0x1000_0000,
        -0x1000_0000 <= p.y < 0x1000_0000,
        -0x1000_0000 <= q.x < 0x1000_0000,
        -0x1000_0000 <= q.y < 0x1000_0000,
    ensures
        r == manhattan(p, q),
{
    let (dx, dy) = p.minus(q).xy();
    let ax = if dx < 0 { -dx } else { dx };
    let ay = if dy < 0 { -dy } else { dy };
    (ax + ay) as usize
}

/// The pair of path positions `pi` and `qi` is a shortcut of at most `duration` steps
/// whose saving counts.
pub open spec fn pair_counts(path: Seq<Point>, duration: int, rule: Saving, pi: int, qi: int) -> bool {
    let dc = manhattan(path[pi], path[qi]);
    dc <= duration && counts(rule, (qi - pi) - dc)
}

/// The counted shortcuts from position `pi` to the positions from `pi + min_save` up to `j`.
pub open spec fn row_count(path: Seq<Point>, duration: int, min_save: int, rule: Saving, pi: int, j: int) -> int
    decreases j - (pi + min_save),
{
    if j <= pi + min_save {
        0
    } else {
        row_count(path, duration, min_save, rule, pi, j - 1) + (if pair_counts(path, duration, rule, pi, j - 1) { 1int } else { 0int })
    }
}

/// The counted shortcuts from the first `i` positions.
pub open spec fn cheat_count(path: Seq<Point>, duration: int, min_save: int, rule: Saving, i: int) -> int
    decreases i,
{
    if i <= 0 {
        0
    } else {
        cheat_count(path, duration, min_save, rule, i - 1) + row_count(path, duration, min_save, rule, i - 1, path.len() as int)
    }
}

pub proof fn lemma_row_count_le(path: Seq<Point>, duration: int, min_save: int, rule: Saving, pi: int, j: int)
    requires
        0 <= pi,
        0 <= min_save,
    ensures
        0 <= row_count(path, duration, min_save, rule, pi, j) <= (if j > pi + min_save { j - (pi + min_save) } else { 0 }),
    decreases j - (pi + min_save),
{
    if j > pi + min_save {
        lemma_row_count_le(path, duration, min_save, rule, pi, j - 1);
    }
}

pub proof fn lemma_cheat_count_le(path: Seq<Point>, duration: int, min_save: int, rule: Saving, i: int)
    requires
        0 <= i,
        0 <= min_save,
    ensures
        0 <= cheat_count(path, duration, min_save, rule, i) <= i * path.len(),
    decreases i,
{
    if i > 0 {
        lemma_cheat_count_le(path, duration, min_save, rule, i - 1);
        lemma_row_count_le(path, duration, min_save, rule, i - 1, path.len() as int);
        assert((i - 1) * path.len() + path.len() == i * path.len()) by (nonlinear_arith);
    }
}

/// A shortcut never covers more steps than the path between its ends.
pub open spec fn cheats_new_fit(path: Seq<Point>, duration: int, min_save: int) -> bool {
    forall|pi: int, qi: int|
        0 <= pi && pi + min_save <= qi < path.len() && #[trigger] manhattan(path[pi], path[qi]) <= duration ==> manhattan(path[pi], path[qi]) <= qi - pi
}

/// The shortcuts of at most `duration` steps between path positions at least `min_save`
/// apart whose saving counts.
pub fn find_cheats_new(path: &[Point], duration: usize, min_save: usize, rule: Saving) -> (r: usize)
    requires
        path@.len() < 0x1_0000,
        min_save < 0x1_0000,
        forall|i: int| 0 <= i < path@.len() ==> -0x1000_0000 <= (#[trigger] path@[i]).x < 0x1000_0000 && -0x1000_0000 <= path@[i].y < 0x1000_0000,
        cheats_new_fit(path@, duration as int, min_save as int),
    ensures
        r == cheat_count(path@, duration as int, min_save as int, rule, path@.len() as int),
{
    let n = path.len();
    let mut count: usize = 0;
    let mut pi: usize = 0;
    while pi < n
        invariant
            n == path@.len() < 0x1_0000,
            min_save < 0x1_0000,
            forall|i: int| 0 <= i < path@.len() ==> -0x1000_0000 <= (#[trigger] path@[i]).x < 0x1000_0000 && -0x1000_0000 <= path@[i].y < 0x1000_0000,
            cheats_new_fit(path@, duration as int, min_save as int),
            pi <= n,
            count == cheat_count(path@, duration as int, min_save as int, rule, pi as int),
        decreases n - pi,
    {
        proof {
            lemma_cheat_count_le(path@, duration as int, min_save as int, rule, pi as int);
            assert(pi * n <= 0x1_0000 * 0x1_0000) by (nonlinear_arith)
                requires pi <= n, n < 0x1_0000;
        }
        let mut qi = pi + min_save;
        let ghost lo = qi as int;
        let mut row: usize = 0;
        while qi < n
            invariant
                n == path@.len() < 0x1_0000,
                forall|i: int| 0 <= i < path@.len() ==> -0x1000_0000 <= (#[trigger] path@[i]).x < 0x1000_0000 && -0x1000_0000 <= path@[i].y < 0x1000_0000,
                cheats_new_fit(path@, duration as int, min_save as int),
                pi < n,
                lo == pi + min_save,
                lo <= qi,
                qi <= n || qi == lo,
                row == row_count(path@, duration as int, min_save as int, rule, pi as int, qi as int),
                row <= qi - lo,
            decreases n - qi,
        {
            let dc = manhattan_dist(path[pi], path[qi]);
            if dc <= duration {
                proof {
                    assert(manhattan(path@[pi as int], path@[qi as int]) <= qi - pi);
                }
                let dn = qi - pi;
                let saved = dn - dc;
                let ok = match rule {
                    Saving::AtLeast(m) => saved >= m,
                    Saving::Exactly(m) => saved == m,
                };
                if ok {
                    row = row + 1;
                }
            }
            qi += 1;
        }
        proof {
            if lo >= n {
                assert(row_count(path@, duration as int, min_save as int, rule, pi as int, n as int) == 0);
            }
            lemma_row_count_le(path@, duration as int, min_save as int, rule, pi as int, n as int);
            assert(count + row <= (pi + 1) * n && (pi + 1) * n <= 0xffff * 0xffff) by (nonlinear_arith)
                requires count <= pi * n, row <= n, pi < n, n < 0x1_0000;
        }
        count = count + row;
        pi += 1;
    }
    count
}

/// How many of the first `n` shortcuts save at least `least` steps.
pub open spec fn saving_count(cs: Seq<((Point, usize), u16)>, least: int, n: int) -> int
    decreases n,
{
    if n <= 0 {
        0
    } else {
        saving_count(cs, least, n - 1) + (if cs[n - 1].1 >= least { 1int } else { 0int })
    }
}

/// The track the text describes: its map's cells, width and height, start and end.
pub open spec fn track_of(s: Seq<u8>) -> Option<(Seq<u8>, int, int, Point, Point)> {
    match grid_of(s) {
        None => None,
        Some((w, cells)) => if (exists|i: int| first_of(cells, 83u8, i)) && (exists|i: int| first_of(cells, 69u8, i)) {
            let si = choose|i: int| first_of(cells, 83u8, i);
            let ei = choose|i: int| first_of(cells, 69u8, i);
            Some((cells, w, cells.len() as int / w, cell_pos(w, si), cell_pos(w, ei)))
        } else {
            None
        },
    }
}

/// The race path of a track.
pub open spec fn path_of(m: Seq<u8>, w: int, h: int, start: Point, end: Point) -> Seq<Point> {
    reversed(seq![end] + trail(m, w, h, start, end))
}

/// What the text must hold: a map with a character, not too large, whose race path's
/// shortcuts each save a whole number of steps.
pub open spec fn run_ok(s: Seq<u8>) -> bool {
    &&& has_content(lines_of(s))
    &&& track_of(s) matches Some((m, w, h, start, end)) ==> {
        let path = path_of(m, w, h, start, end);
        &&& m.len() < NOT_REACHED
        &&& path.len() < NOT_REACHED
        &&& w < 0x7fff_fff0 && h < 0x7fff_fff0
        &&& cheats_fit(marks(w, h, path, path.len() as int), w, h)
        &&& cheats_new_fit(path, 20, 100)
    }
}

pub proof fn lemma_first_unique(m: Seq<u8>, c: u8, i: int, j: int)
    requires
        first_of(m, c, i),
        first_of(m, c, j),
    ensures
        i == j,
{
    if i < j {
        assert(m[i] != c);
    }
    if j < i {
        assert(m[j] != c);
    }
}

/// The shortcuts through one wall that save at least 100 steps, and those of up to 20
/// steps that save at least 100.
pub fn run(input: &str) -> (r: Result<String, AocError>)
    requires
        run_ok(input.spec_bytes()),
    ensures
        match track_of(input.spec_bytes()) {
            Some((m, w, h, start, end)) => {
                let path = path_of(m, w, h, start, end);
                let cs = cheats_upto(marks(w, h, path, path.len() as int), w, h, 4 * w * h);
                r matches Ok(out) && out@ == dec(saving_count(cs, 100, cs.len() as int) as nat) + " "@
                    + dec(cheat_count(path, 20, 100, Saving::AtLeast(100), path.len() as int) as nat)
            },
            None => r is Err,
        },
{
    let t = match Track::parse(input) {
        Ok(t) => t,
        Err(e) => return Err(e),
    };
    let ghost m = t.grid.cells();
    let ghost w = t.grid.width();
    let ghost h = t.grid.height();
    proof {
        let si = choose|i: int| first_of(m, 83u8, i);
        let ei = choose|i: int| first_of(m, 69u8, i);
        lemma_first_unique(m, 83u8, si, t.grid.index_of(t.start));
        lemma_first_unique(m, 69u8, ei, t.grid.index_of(t.end));
        t.grid.lemma_pos_index(t.start);
        t.grid.lemma_pos_index(t.end);
        assert(m.len() as int / w == h) by (nonlinear_arith)
            requires m.len() == w * h, w > 0;
        assert(track_of(input.spec_bytes()) == Some((m, w, h, t.start, t.end)));
    }
    let path = find_path(&t);
    proof {
        assert forall|i: int| 0 <= i < path@.len() implies -0x1000_0000 <= (#[trigger] path@[i]).x < 0x1000_0000 && -0x1000_0000 <= path@[i].y < 0x1000_0000 by {
            assert(t.grid.inside(path@[i]));
            assert(w * h < 0x1_0000 && w >= 1 && h >= 1);
            assert(w < 0x1_0000 && h < 0x1_0000) by (nonlinear_arith)
                requires w * h < 0x1_0000, w >= 1, h >= 1;
        }
        assert(path@.len() < 0x1_0000);
    }
    let cheats = find_cheats(t.grid.dimensions(), path.as_slice());
    let mut s1: u64 = 0;
    let mut i: usize = 0;
    while i < cheats.len()
        invariant
            i <= cheats@.len(),
            s1 == saving_count(cheats@, 100, i as int),
            s1 <= i,
        decreases cheats@.len() - i,
    {
        if cheats[i].1 >= 100 {
            s1 = s1 + 1;
        }
        i += 1;
    }
    let s2 = find_cheats_new(path.as_slice(), 20, 100, Saving::AtLeast(100));
    let mut out = String::new();
    push_dec(&mut out, s1);
    push_str(&mut out, " ");
    push_dec(&mut out, s2 as u64);
    Ok(out)
}

/// The shortcut saves at least `least` steps.
pub open spec fn saves_at_least(least: int) -> spec_fn(((Point, usize), u16)) -> bool {
    |c: ((Point, usize), u16)| c.1 >= least
}

/// The count of shortcuts that save at least `least` steps is the number of them that do:
/// the first `n` shortcuts kept by that test, a shortcut that saves exactly `least` among
/// them.
pub proof fn law_saving_count(cs: Seq<((Point, usize), u16)>, least: int, n: int)
    requires
        0 <= n <= cs.len(),
    ensures
        saving_count(cs, least, n) == cs.take(n).filter(saves_at_least(least)).len(),
    decreases n,
{
    let f = saves_at_least(least);
    let s = cs.take(n);
    reveal(Seq::filter);
    if n == 0 {
        assert(s =~= Seq::<((Point, usize), u16)>::empty());
    } else {
        law_saving_count(cs, least, n - 1);
        assert(s.drop_last() =~= cs.take(n - 1));
        assert(s.last() == cs[n - 1]);
        assert(s.filter(f) == if f(s.last()) { s.drop_last().filter(f).push(s.last()) } else { s.drop_last().filter(f) });
    }
}
} // verus!
