//! Garden plots: each region's area, perimeter and number of straight fence sides.

use vstd::prelude::*;
use vstd::string::*;
use crate::error::AocError;
use crate::grid::{grid_of, has_content, pt, Grid, Point};
use crate::text::{dec, lines_of, push_dec, push_str};

verus! {

/// The bit of the fence on the `i`th side: north, south, east, west.
pub open spec fn fence_bit(i: int) -> u8 {
    if i == 0 {
        1
    } else if i == 1 {
        2
    } else if i == 2 {
        4
    } else {
        8
    }
}

/// The step to the neighbour on the `i`th side: north, south, east, west.
pub open spec fn fence_dir(i: int) -> (int, int) {
    if i == 0 {
        (0, -1)
    } else if i == 1 {
        (0, 1)
    } else if i == 2 {
        (1, 0)
    } else {
        (-1, 0)
    }
}

fn fence(i: usize) -> (r: (Point, u8))
    requires
        i < 4,
    ensures
        (r.0.x as int, r.0.y as int) == fence_dir(i as int),
        r.1 == fence_bit(i as int),
{
    if i == 0 {
        (pt(0, -1), 1)
    } else if i == 1 {
        (pt(0, 1), 2)
    } else if i == 2 {
        (pt(1, 0), 4)
    } else {
        (pt(-1, 0), 8)
    }
}

/// The plot at `(x, y)`, where it lies in the grid.
pub open spec fn plot_at(g: Grid<u8>, x: int, y: int) -> Option<u8> {
    if 0 <= x < g.width() && 0 <= y < g.height() {
        Some(g.cells()[x + y * g.width()])
    } else {
        None
    }
}

/// The plot across side `i` of `p` differs from `p`'s, or lies outside the grid.
pub open spec fn fenced(g: Grid<u8>, p: Point, i: int) -> bool {
    let (dx, dy) = fence_dir(i);
    plot_at(g, p.x as int, p.y as int) != plot_at(g, p.x + dx, p.y + dy)
}

/// The mask of the fenced sides of `p` over the first `n` sides.
pub open spec fn fence_mask_upto(g: Grid<u8>, p: Point, n: int) -> u8
    decreases n,
{
    if n <= 0 {
        0
    } else {
        let m = fence_mask_upto(g, p, n - 1);
        if fenced(g, p, n - 1) {
            m | fence_bit(n - 1)
        } else {
            m
        }
    }
}

pub open spec fn fence_mask(g: Grid<u8>, p: Point) -> u8 {
    fence_mask_upto(g, p, 4)
}

/// The garden cell for `p`: its plot in the low byte, its fence mask in the high byte.
pub open spec fn garden_cell(g: Grid<u8>, p: Point) -> u16 {
    (g.at(p) as int + (fence_mask(g, p) as int) * 256) as u16
}

proof fn lemma_mask_small(g: Grid<u8>, p: Point, n: int)
    requires
        0 <= n <= 4,
    ensures
        fence_mask_upto(g, p, n) < 16,
    decreases n,
{
    if n > 0 {
        lemma_mask_small(g, p, n - 1);
        let m = fence_mask_upto(g, p, n - 1);
        let b = fence_bit(n - 1);
        assert(m | 1 < 16 && m | 2 < 16 && m | 4 < 16 && m | 8 < 16) by (bit_vector)
            requires m < 16;
    }
}

/// Reads the garden and marks each plot with the sides on which it needs a fence.
pub fn parse_garden(input: &str) -> (r: Result<Grid<u16>, AocError>)
    requires
        has_content(lines_of(input.spec_bytes())),
    ensures
        match r {
            Ok(gr) => exists|g: Grid<u8>|
                {
                    &&& grid_of(input.spec_bytes()) == Some((g.width(), g.cells()))
                    &&& g.wf()
                    &&& gr.wf()
                    &&& gr.width() == g.width()
                    &&& gr.height() == g.height()
                    &&& forall|p: Point| g.inside(p) ==> #[trigger] gr.at(p) == garden_cell(g, p)
                },
            Err(e) => grid_of(input.spec_bytes()) is None && e == AocError::InvalidInput,
        },
{
    let g = Grid::parse(input)?;
    let mut r: Grid<u16> = Grid::new(g.dimensions(), 0u16);
    let ps = g.positions();
    let mut k: usize = 0;
    while k < ps.len()
        invariant
            g.wf(),
            r.wf(),
            r.width() == g.width() && r.height() == g.height(),
            ps@.len() == g.cells().len(),
            forall|i: int| 0 <= i < ps@.len() ==> #[trigger] ps@[i] == g.pos_of(i),
            k <= ps@.len(),
            forall|i: int| 0 <= i < k ==> r.cells()[i] == garden_cell(g, g.pos_of(i)),
        decreases ps@.len() - k,
    {
        let p = ps[k];
        proof { g.lemma_pos_of(k as int); }
        let plot = g.get(p).unwrap();
        let mut mask: u8 = 0;
        let mut i: usize = 0;
        while i < 4
            invariant
                g.wf(),
                g.inside(p),
                i <= 4,
                mask == fence_mask_upto(g, p, i as int),
            decreases 4 - i,
        {
            let (s, m) = fence(i);
            let q = p.plus(s);
            proof {
                lemma_mask_small(g, p, i as int);
            }
            if g.get(p) != g.get(q) {
                mask = mask | m;
            }
            i += 1;
        }
        proof {
            lemma_mask_small(g, p, 4);
            r.lemma_inside_index(p);
        }
        let hi: u16 = (mask as u16) << 8u16;
        assert(hi == (mask as u16) * 256) by (bit_vector)
            requires mask < 16, hi == (mask as u16) << 8u16;
        let v: u16 = plot as u16 + hi;
        r.set(p, v);
        k += 1;
    }
    proof {
        assert forall|p: Point| g.inside(p) implies #[trigger] r.at(p) == garden_cell(g, p) by {
            g.lemma_inside_index(p);
            let i = g.index_of(p);
            g.lemma_pos_of(i);
            assert(g.pos_of(i).x == p.x && g.pos_of(i).y == p.y) by {
                let w = g.width();
                assert((p.x + p.y * w) % w == p.x && (p.x + p.y * w) / w == p.y) by (nonlinear_arith)
                    requires 0 <= p.x < w, 0 <= p.y;
            }
        }
    }
    Ok(r)
}


/// `a` comes before `b`: by x, then by y.
pub open spec fn key_lt(a: (i32, i32), b: (i32, i32)) -> bool {
    a.0 < b.0 || (a.0 == b.0 && a.1 < b.1)
}

/// The entries are in strictly increasing key order.
pub open spec fn sorted_keys(es: Seq<((i32, i32), u8)>) -> bool {
    forall|i: int, j: int| 0 <= i < j < es.len() ==> key_lt(#[trigger] es[i].0, #[trigger] es[j].0)
}

/// Some entry at `(x, y)` has `bit` in its mask.
pub open spec fn has_fence(es: Seq<((i32, i32), u8)>, x: int, y: int, bit: u8) -> bool {
    exists|k: int| 0 <= k < es.len() && es[k].0.0 == x && es[k].0.1 == y && (es[k].1 & bit) != 0
}

/// The number of fence sides that begin at entry `k`: a north or south fence that does
/// not continue one to the west, an east or west fence that does not continue one to
/// the north.
pub open spec fn starts_at(es: Seq<((i32, i32), u8)>, k: int) -> nat {
    let (x, y) = (es[k].0.0 as int, es[k].0.1 as int);
    let f = es[k].1;
    (if (f & 1) != 0 && !has_fence(es, x - 1, y, 1) { 1nat } else { 0nat }) + (if (f & 2) != 0
        && !has_fence(es, x - 1, y, 2) { 1nat } else { 0nat }) + (if (f & 4) != 0 && !has_fence(
        es,
        x,
        y - 1,
        4,
    ) { 1nat } else { 0nat }) + (if (f & 8) != 0 && !has_fence(es, x, y - 1, 8) { 1nat } else { 0nat })
}

/// The number of sides that begin at the first `n` entries.
pub open spec fn sides_upto(es: Seq<((i32, i32), u8)>, n: int) -> nat
    decreases n,
{
    if n <= 0 {
        0
    } else {
        sides_upto(es, n - 1) + starts_at(es, n - 1)
    }
}

/// The number of straight fence sides.
pub open spec fn sides(es: Seq<((i32, i32), u8)>) -> nat {
    sides_upto(es, es.len() as int)
}

/// What the scan holds for row `y` after the first `n` entries: one past the x of the
/// last entry in that row, and its north and south fences.
pub open spec fn col_state(es: Seq<((i32, i32), u8)>, n: int, y: int) -> (int, bool, bool)
    decreases n,
{
    if n <= 0 {
        (-1, false, false)
    } else if es[n - 1].0.1 == y {
        (es[n - 1].0.0 + 1, (es[n - 1].1 & 1) != 0, (es[n - 1].1 & 2) != 0)
    } else {
        col_state(es, n - 1, y)
    }
}

proof fn lemma_col_state(es: Seq<((i32, i32), u8)>, n: int, x: int, y: int, bit: u8)
    requires
        sorted_keys(es),
        0 <= n <= es.len(),
        forall|k: int| 0 <= k < es.len() ==> 0 <= #[trigger] es[k].0.0,
        forall|k: int| 0 <= k < n ==> key_lt(#[trigger] es[k].0, (x as i32, y as i32)),
        forall|k: int| n <= k < es.len() ==> !(#[trigger] es[k].0.0 == x - 1 && es[k].0.1 == y),
        0 <= x <= i32::MAX,
        i32::MIN <= y <= i32::MAX,
        bit == 1 || bit == 2,
    ensures
        (col_state(es, n, y).0 == x && (if bit == 1 {
            col_state(es, n, y).1
        } else {
            col_state(es, n, y).2
        })) == has_fence(es, x - 1, y, bit),
    decreases n,
{
    if n == 0 {
        if has_fence(es, x - 1, y, bit) {
            let k = choose|k: int|
                0 <= k < es.len() && es[k].0.0 == x - 1 && es[k].0.1 == y && (es[k].1 & bit) != 0;
        }
    } else {
        let e = es[n - 1];
        if e.0.1 == y {
            if e.0.0 + 1 != x {
                assert(e.0.0 < x) by {
                    assert(key_lt(es[n - 1].0, (x as i32, y as i32)));
                }
                if has_fence(es, x - 1, y, bit) {
                    let k = choose|k: int|
                        0 <= k < es.len() && es[k].0.0 == x - 1 && es[k].0.1 == y && (es[k].1 & bit)
                            != 0;
                    if k < n - 1 {
                        assert(key_lt(es[k].0, es[n - 1].0));
                    }
                }
            } else {
                if has_fence(es, x - 1, y, bit) {
                    let k = choose|k: int|
                        0 <= k < es.len() && es[k].0.0 == x - 1 && es[k].0.1 == y && (es[k].1 & bit)
                            != 0;
                    if k < n - 1 {
                        assert(key_lt(es[k].0, es[n - 1].0));
                    }
                }
            }
        } else {
            lemma_col_state(es, n - 1, x, y, bit);
            if has_fence(es, x - 1, y, bit) {
                let k = choose|k: int|
                    0 <= k < es.len() && es[k].0.0 == x - 1 && es[k].0.1 == y && (es[k].1 & bit) != 0;

            }
        }
    }
}

proof fn lemma_row_state(es: Seq<((i32, i32), u8)>, n: int, bit: u8)
    requires
        sorted_keys(es),
        0 <= n < es.len(),
        bit == 4 || bit == 8,
    ensures
        (n > 0 && es[n - 1].0.0 == es[n].0.0 && es[n - 1].0.1 + 1 == es[n].0.1 && (es[n - 1].1 & bit)
            != 0) == has_fence(es, es[n].0.0 as int, es[n].0.1 - 1, bit),
{
    let (x, y) = es[n].0;
    if has_fence(es, x as int, y - 1, bit) {
        let k = choose|k: int|
            0 <= k < es.len() && es[k].0.0 == x && es[k].0.1 == y - 1 && (es[k].1 & bit) != 0;
        if k >= n {
            if k > n {
                assert(key_lt(es[n].0, es[k].0));
            }
        } else if k < n - 1 {
            assert(key_lt(es[k].0, es[n - 1].0));
            assert(key_lt(es[n - 1].0, es[n].0));
        }
    }
}

/// The mask of the entry at `(x, y)`, if there is one.
pub open spec fn lookup_in(es: Seq<((i32, i32), u8)>, x: i32, y: i32) -> Option<u8> {
    if exists|k: int| 0 <= k < es.len() && es[k].0 == (x, y) {
        let k = choose|k: int| 0 <= k < es.len() && es[k].0 == (x, y);
        Some(es[k].1)
    } else {
        None
    }
}

proof fn lemma_lookup_at(es: Seq<((i32, i32), u8)>, k: int)
    requires
        sorted_keys(es),
        0 <= k < es.len(),
    ensures
        lookup_in(es, es[k].0.0, es[k].0.1) == Some(es[k].1),
{
    let key = es[k].0;
    assert(es[k].0 == (key.0, key.1));
    let k2 = choose|k2: int| 0 <= k2 < es.len() && es[k2].0 == (key.0, key.1);
    if k2 < k {
        assert(key_lt(es[k2].0, es[k].0));
    } else if k2 > k {
        assert(key_lt(es[k].0, es[k2].0));
    }
}

/// The fences of one region: each plot's position and its mask of fenced sides, by
/// position, and one past the largest y.
pub struct Fences {
    entries: Vec<((i32, i32), u8)>,
    ymax: i32,
}

impl Fences {
    /// The entries in order of position.
    pub closed spec fn entries(&self) -> Seq<((i32, i32), u8)> {
        self.entries@
    }

    pub closed spec fn ymax(&self) -> int {
        self.ymax as int
    }

    pub open spec fn wf(&self) -> bool {
        &&& sorted_keys(self.entries())
        &&& 0 <= self.ymax() < i32::MAX
        &&& forall|k: int|
            0 <= k < self.entries().len() ==> {
                &&& 0 <= #[trigger] self.entries()[k].0.0 < i32::MAX
                &&& 0 <= self.entries()[k].0.1 < self.ymax()
                &&& self.entries()[k].1 != 0
            }
    }

    /// The mask at a position, if it has one.
    pub open spec fn lookup(&self, x: i32, y: i32) -> Option<u8> {
        lookup_in(self.entries(), x, y)
    }

    pub fn new() -> (r: Self)
        ensures
            r.wf(),
            r.entries() == Seq::<((i32, i32), u8)>::empty(),
            r.ymax() == 0,
    {
        Fences { entries: Vec::new(), ymax: 0 }
    }

    /// Records the fences of the plot at `p`, where it has any.
    pub fn add(&mut self, p: Point, fence: u8)
        requires
            old(self).wf(),
            0 <= p.x < i32::MAX,
            0 <= p.y < i32::MAX - 1,
        ensures
            final(self).wf(),
            fence == 0 ==> *final(self) == *old(self),
            fence != 0 ==> final(self).ymax() == (if p.y + 1 > old(self).ymax() {
                p.y + 1
            } else {
                old(self).ymax()
            }),
            fence != 0 ==> final(self).lookup(p.x, p.y) == Some(fence),
            final(self).entries().len() <= old(self).entries().len() + 1,
            fence != 0 ==> forall|x: i32, y: i32|
                (x, y) != (p.x, p.y) ==> #[trigger] final(self).lookup(x, y) == old(self).lookup(x, y),
    {
        if fence == 0 {
            return;
        }
        let key = (p.x, p.y);
        let mut i: usize = 0;
        while i < self.entries.len() && key_lt_exec(self.entries[i].0, key)
            invariant
                i <= self.entries@.len(),
                forall|k: int| 0 <= k < i ==> key_lt(#[trigger] self.entries@[k].0, key),
            decreases self.entries@.len() - i,
        {
            i += 1;
        }
        let ghost old_es = self.entries@;
        if i < self.entries.len() && self.entries[i].0.0 == key.0 && self.entries[i].0.1 == key.1 {
            self.entries.set(i, (key, fence));
            proof {
                let es = self.entries@;
                assert(sorted_keys(es)) by {
                    assert forall|a: int, b: int| 0 <= a < b < es.len() implies key_lt(
                        #[trigger] es[a].0,
                        #[trigger] es[b].0,
                    ) by {
                        assert(es[a].0 == old_es[a].0 && es[b].0 == old_es[b].0);
                    }
                }
                lemma_lookup_at(es, i as int);
                assert forall|x: i32, y: i32|
                    (x, y) != (p.x, p.y) implies #[trigger] lookup_in(es, x, y) == lookup_in(
                        old_es,
                        x,
                        y,
                    ) by {
                    if exists|k: int| 0 <= k < old_es.len() && old_es[k].0 == (x, y) {
                        let k = choose|k: int| 0 <= k < old_es.len() && old_es[k].0 == (x, y);
                        lemma_lookup_at(old_es, k);
                        assert(es[k] == old_es[k]);
                        lemma_lookup_at(es, k);
                    } else {
                        if exists|k: int| 0 <= k < es.len() && es[k].0 == (x, y) {
                            let k = choose|k: int| 0 <= k < es.len() && es[k].0 == (x, y);
                            assert(old_es[k].0 == (x, y));
                        }
                    }
                }
            }
        } else {
            self.entries.insert(i, (key, fence));
            proof {
                let es = self.entries@;
                assert(es == old_es.insert(i as int, (key, fence)));
                assert forall|a: int, b: int| 0 <= a < b < es.len() implies key_lt(
                    #[trigger] es[a].0,
                    #[trigger] es[b].0,
                ) by {
                    if b < i {
                        assert(es[a] == old_es[a] && es[b] == old_es[b]);
                    } else if b == i {
                        assert(es[a] == old_es[a]);
                    } else if a < i {
                        assert(es[a] == old_es[a] && es[b] == old_es[b - 1]);
                        assert(key_lt(old_es[a].0, key));
                        if b - 1 > i {
                            assert(key_lt(old_es[i as int].0, old_es[b - 1].0));
                        }
                        assert(!key_lt(old_es[i as int].0, key));
                    } else if a == i {
                        assert(es[b] == old_es[b - 1]);
                        if b - 1 > i {
                            assert(key_lt(old_es[i as int].0, old_es[b - 1].0));
                        }
                        assert(!key_lt(old_es[i as int].0, key));
                    } else {
                        assert(es[a] == old_es[a - 1] && es[b] == old_es[b - 1]);
                    }
                }
                assert(es[i as int] == (key, fence));
                lemma_lookup_at(es, i as int);
                assert forall|x: i32, y: i32|
                    (x, y) != (p.x, p.y) implies #[trigger] lookup_in(es, x, y) == lookup_in(
                        old_es,
                        x,
                        y,
                    ) by {
                    if exists|k: int| 0 <= k < old_es.len() && old_es[k].0 == (x, y) {
                        let k = choose|k: int| 0 <= k < old_es.len() && old_es[k].0 == (x, y);
                        lemma_lookup_at(old_es, k);
                        let k1 = if k < i { k } else { k + 1 };
                        assert(es[k1] == old_es[k]);
                        lemma_lookup_at(es, k1);
                    } else {
                        if exists|k: int| 0 <= k < es.len() && es[k].0 == (x, y) {
                            let k = choose|k: int| 0 <= k < es.len() && es[k].0 == (x, y);
                            if k < i {
                                assert(old_es[k].0 == (x, y));
                            } else if k > i {
                                assert(old_es[k - 1].0 == (x, y));
                            }
                        }
                    }
                }
            }
        }
        if p.y + 1 > self.ymax {
            self.ymax = p.y + 1;
        }
    }

    /// The number of straight fence sides: each run of fences on the same side of
    /// neighbouring plots counts once.
    pub fn count_sides(&self) -> (r: usize)
        requires
            self.wf(),
            self.entries().len() <= usize::MAX / 4,
        ensures
            r == sides(self.entries()),
    {
        let ghost es = self.entries@;
        let n = self.entries.len();
        let h = (self.ymax as usize) + 1;
        let mut cols_x: Vec<i32> = Vec::new();
        let mut cols_n: Vec<bool> = Vec::new();
        let mut cols_s: Vec<bool> = Vec::new();
        let mut c: usize = 0;
        while c < h
            invariant
                c <= h,
                cols_x@.len() == c && cols_n@.len() == c && cols_s@.len() == c,
                forall|y: int| 0 <= y < c ==> cols_x@[y] == -1 && !cols_n@[y] && !cols_s@[y],
            decreases h - c,
        {
            cols_x.push(-1);
            cols_n.push(false);
            cols_s.push(false);
            c += 1;
        }
        let mut last_x: i32 = -1;
        let mut row_y: i32 = -1;
        let mut row_e = false;
        let mut row_w = false;
        let mut n_sides: usize = 0;
        let mut i: usize = 0;
        while i < n
            invariant
                self.wf(),
                es == self.entries@,
                n == es.len(),
                n <= usize::MAX / 4,
                h == self.ymax() + 1,
                cols_x@.len() == h && cols_n@.len() == h && cols_s@.len() == h,
                i <= n,
                forall|y: int|
                    0 <= y < h ==> col_state(es, i as int, y) == (
                        #[trigger] cols_x@[y] as int,
                        cols_n@[y],
                        cols_s@[y],
                    ),
                i == 0 ==> last_x == -1,
                i > 0 ==> last_x == es[i - 1].0.0 && row_y == es[i - 1].0.1 + 1 && row_e == ((es[i
                    - 1].1 & 4) != 0) && row_w == ((es[i - 1].1 & 8) != 0),
                n_sides == sides_upto(es, i as int),
                n_sides <= 4 * i,
            decreases n - i,
        {
            let (key, fence) = self.entries[i];
            let (x, y) = key;
            if x != last_x {
                row_y = -1;
                row_e = false;
                row_w = false;
                last_x = x;
            }
            let has_north = (fence & 1) != 0;
            let has_south = (fence & 2) != 0;
            let has_east = (fence & 4) != 0;
            let has_west = (fence & 8) != 0;
            let yu = y as usize;
            let cont_north = cols_x[yu] == x && cols_n[yu];
            let cont_south = cols_x[yu] == x && cols_s[yu];
            let cont_east = row_y == y && row_e;
            let cont_west = row_y == y && row_w;
            proof {
                assert(es[i as int].0.0 >= 0);
                assert forall|k: int| 0 <= k < i implies key_lt(#[trigger] es[k].0, (x, y)) by {
                    assert(key_lt(es[k].0, es[i as int].0));
                }
                assert forall|k: int| i <= k < es.len() implies !(#[trigger] es[k].0.0 == x - 1
                    && es[k].0.1 == y) by {
                    if k > i {
                        assert(key_lt(es[i as int].0, es[k].0));
                    }
                }
                assert(col_state(es, i as int, y as int) == (cols_x@[y as int] as int, cols_n@[y as int], cols_s@[y as int]));
                lemma_col_state(es, i as int, x as int, y as int, 1);
                lemma_col_state(es, i as int, x as int, y as int, 2);
                lemma_row_state(es, i as int, 4);
                lemma_row_state(es, i as int, 8);
                if i > 0 && es[i - 1].0.0 == x {
                    assert(key_lt(es[i - 1].0, es[i as int].0));
                }
            }
            cols_x.set(yu, x + 1);
            cols_n.set(yu, has_north);
            cols_s.set(yu, has_south);
            row_y = y + 1;
            row_e = has_east;
            row_w = has_west;
            if has_north && !cont_north {
                n_sides += 1;
            }
            if has_south && !cont_south {
                n_sides += 1;
            }
            if has_east && !cont_east {
                n_sides += 1;
            }
            if has_west && !cont_west {
                n_sides += 1;
            }
            proof {
                assert(n_sides == sides_upto(es, i + 1));
                assert forall|yy: int| 0 <= yy < h implies col_state(es, i + 1, yy) == (
                    #[trigger] cols_x@[yy] as int,
                    cols_n@[yy],
                    cols_s@[yy],
                ) by {
                    if yy != y {
                        assert(col_state(es, i + 1, yy) == col_state(es, i as int, yy));
                    }
                }
            }
            i += 1;
        }
        n_sides
    }
}

fn key_lt_exec(a: (i32, i32), b: (i32, i32)) -> (r: bool)
    ensures
        r == key_lt(a, b),
{
    a.0 < b.0 || (a.0 == b.0 && a.1 < b.1)
}


/// The number of set bits among the low eight.
pub open spec fn popcount(m: u8) -> nat {
    (if m & 1 != 0 { 1nat } else { 0nat }) + (if m & 2 != 0 { 1nat } else { 0nat }) + (if m & 4 != 0 {
        1nat
    } else {
        0nat
    }) + (if m & 8 != 0 { 1nat } else { 0nat }) + (if m & 16 != 0 { 1nat } else { 0nat }) + (if m & 32
        != 0 { 1nat } else { 0nat }) + (if m & 64 != 0 { 1nat } else { 0nat }) + (if m & 128 != 0 {
        1nat
    } else {
        0nat
    })
}

fn count_ones(m: u8) -> (r: usize)
    ensures
        r == popcount(m),
{
    let mut r: usize = 0;
    if m & 1 != 0 { r += 1; }
    if m & 2 != 0 { r += 1; }
    if m & 4 != 0 { r += 1; }
    if m & 8 != 0 { r += 1; }
    if m & 16 != 0 { r += 1; }
    if m & 32 != 0 { r += 1; }
    if m & 64 != 0 { r += 1; }
    if m & 128 != 0 { r += 1; }
    r
}

/// The cells newly marked among the first `n`: unmarked in `a`, marked in `b`.
pub open spec fn is_new(a: Seq<u8>, b: Seq<u8>, i: int) -> bool {
    a[i] == 0 && b[i] != 0
}

pub open spec fn new_count(a: Seq<u8>, b: Seq<u8>, n: int) -> nat
    decreases n,
{
    if n <= 0 {
        0
    } else {
        new_count(a, b, n - 1) + if is_new(a, b, n - 1) { 1nat } else { 0nat }
    }
}

/// The fence count, over the newly marked cells among the first `n`, of the garden
/// cells `g`.
pub open spec fn new_perimeter(g: Seq<u16>, a: Seq<u8>, b: Seq<u8>, n: int) -> nat
    decreases n,
{
    if n <= 0 {
        0
    } else {
        new_perimeter(g, a, b, n - 1) + if is_new(a, b, n - 1) {
            popcount((g[n - 1] >> 8u16) as u8)
        } else {
            0nat
        }
    }
}

proof fn lemma_new_mark(g: Seq<u16>, a: Seq<u8>, b: Seq<u8>, j: int, n: int)
    requires
        0 <= j < a.len() == b.len(),
        a[j] == 0,
        b[j] == 0,
        0 <= n <= a.len(),
    ensures
        new_count(a, b.update(j, 1), n) == new_count(a, b, n) + if j < n { 1nat } else { 0nat },
        new_perimeter(g, a, b.update(j, 1), n) == new_perimeter(g, a, b, n) + if j < n {
            popcount((g[j] >> 8u16) as u8)
        } else {
            0nat
        },
    decreases n,
{
    if n > 0 {
        lemma_new_mark(g, a, b, j, n - 1);
    }
}

proof fn lemma_new_count_bound(a: Seq<u8>, b: Seq<u8>, n: int)
    requires
        0 <= n,
    ensures
        new_count(a, b, n) <= n,
    decreases n,
{
    if n > 0 {
        lemma_new_count_bound(a, b, n - 1);
    }
}

proof fn lemma_perimeter_bound(g: Seq<u16>, a: Seq<u8>, b: Seq<u8>, n: int)
    requires
        0 <= n,
    ensures
        new_perimeter(g, a, b, n) <= 8 * new_count(a, b, n),
    decreases n,
{
    if n > 0 {
        lemma_perimeter_bound(g, a, b, n - 1);
    }
}

proof fn lemma_no_new(g: Seq<u16>, a: Seq<u8>, n: int)
    requires
        0 <= n,
    ensures
        new_count(a, a, n) == 0,
        new_perimeter(g, a, a, n) == 0,
    decreases n,
{
    if n > 0 {
        lemma_no_new(g, a, n - 1);
    }
}

/// The fence mask of cell `i`: the high byte of its garden value.
pub open spec fn cell_mask(g: Grid<u16>, i: int) -> u8 {
    (g.cells()[i] >> 8u16) as u8
}

/// The cell at `(x, y)` lies in the garden, is newly marked, and is fenced on side `bit`.
pub open spec fn new_fenced(g: Grid<u16>, a: Seq<u8>, b: Seq<u8>, x: int, y: int, bit: u8) -> bool {
    &&& 0 <= x < g.width()
    &&& 0 <= y < g.height()
    &&& is_new(a, b, x + y * g.width())
    &&& cell_mask(g, x + y * g.width()) & bit != 0
}

/// The number of sides of the newly marked region that begin at cell `i`: a north or
/// south fence whose west neighbour in the region is not fenced so, an east or west
/// fence whose north neighbour in the region is not fenced so.
pub open spec fn new_starts(g: Grid<u16>, a: Seq<u8>, b: Seq<u8>, i: int) -> nat {
    let p = g.pos_of(i);
    let (x, y) = (p.x as int, p.y as int);
    let f = cell_mask(g, i);
    (if (f & 1) != 0 && !new_fenced(g, a, b, x - 1, y, 1) { 1nat } else { 0nat })
        + (if (f & 2) != 0 && !new_fenced(g, a, b, x - 1, y, 2) { 1nat } else { 0nat })
        + (if (f & 4) != 0 && !new_fenced(g, a, b, x, y - 1, 4) { 1nat } else { 0nat })
        + (if (f & 8) != 0 && !new_fenced(g, a, b, x, y - 1, 8) { 1nat } else { 0nat })
}

/// The number of sides of the newly marked cells among the first `n`.
pub open spec fn new_sides(g: Grid<u16>, a: Seq<u8>, b: Seq<u8>, n: int) -> nat
    decreases n,
{
    if n <= 0 {
        0
    } else {
        new_sides(g, a, b, n - 1) + if is_new(a, b, n - 1) { new_starts(g, a, b, n - 1) } else { 0nat }
    }
}

/// Every newly marked cell with fences that has left the stack is in `f`, with its mask.
#[verifier::opaque]
pub open spec fn fences_hold(g: Grid<u16>, a: Seq<u8>, b: Seq<u8>, st: Seq<Point>, f: Fences) -> bool {
    forall|i: int|
        0 <= i < g.cells().len() && #[trigger] is_new(a, b, i) && !st.contains(g.pos_of(i)) && cell_mask(g, i)
            != 0 ==> f.lookup(g.pos_of(i).x, g.pos_of(i).y) == Some(cell_mask(g, i))
}

/// Every position in `f` is a newly marked cell, held with its mask.
#[verifier::opaque]
pub open spec fn fences_new(g: Grid<u16>, a: Seq<u8>, b: Seq<u8>, f: Fences) -> bool {
    forall|x: i32, y: i32|
        #[trigger] f.lookup(x, y) is Some ==> {
            &&& g.inside(Point { x, y })
            &&& is_new(a, b, g.index_of(Point { x, y }))
            &&& f.lookup(x, y) == Some(cell_mask(g, g.index_of(Point { x, y })))
        }
}

proof fn lemma_hold_start(g: Grid<u16>, a: Seq<u8>, b: Seq<u8>, p: Point, f: Fences)
    requires
        g.wf(),
        a.len() == b.len() == g.cells().len(),
        g.inside(p),
        f.entries().len() == 0,
        forall|i: int| 0 <= i < a.len() && #[trigger] is_new(a, b, i) ==> i == g.index_of(p),
    ensures
        fences_hold(g, a, b, seq![p], f),
        fences_new(g, a, b, f),
{
    reveal(fences_hold);
    reveal(fences_new);
    g.lemma_pos_index(p);
    assert(seq![p][0] == p);
}

proof fn lemma_hold_mark(g: Grid<u16>, a: Seq<u8>, b0: Seq<u8>, st0: Seq<Point>, f: Fences, r: Point)
    requires
        g.wf(),
        a.len() == b0.len() == g.cells().len(),
        g.inside(r),
        a[g.index_of(r)] == 0,
        b0[g.index_of(r)] == 0,
        fences_hold(g, a, b0, st0, f),
        fences_new(g, a, b0, f),
    ensures
        fences_hold(g, a, b0.update(g.index_of(r), 1), st0.push(r), f),
        fences_new(g, a, b0.update(g.index_of(r), 1), f),
{
    reveal(fences_hold);
    reveal(fences_new);
    g.lemma_pos_index(r);
    let ri = g.index_of(r);
    let b = b0.update(ri, 1);
    let st = st0.push(r);
    assert forall|i: int|
        0 <= i < g.cells().len() && #[trigger] is_new(a, b, i) && !st.contains(g.pos_of(i)) && cell_mask(g, i)
            != 0 implies f.lookup(g.pos_of(i).x, g.pos_of(i).y) == Some(cell_mask(g, i)) by {
        if i == ri {
            assert(st[st0.len() as int] == r);
        } else {
            assert(is_new(a, b0, i));
            if st0.contains(g.pos_of(i)) {
                let j = choose|j: int| 0 <= j < st0.len() && st0[j] == g.pos_of(i);
                assert(st[j] == st0[j]);
            }
        }
    }
    assert forall|x: i32, y: i32| #[trigger] f.lookup(x, y) is Some implies {
        &&& g.inside(Point { x, y })
        &&& is_new(a, b, g.index_of(Point { x, y }))
        &&& f.lookup(x, y) == Some(cell_mask(g, g.index_of(Point { x, y })))
    } by {
        assert(is_new(a, b0, g.index_of(Point { x, y })));
        g.lemma_inside_index(Point { x, y });
    }
}

proof fn lemma_hold_add(
    g: Grid<u16>,
    a: Seq<u8>,
    b: Seq<u8>,
    st: Seq<Point>,
    f0: Fences,
    f1: Fences,
    q: Point,
)
    requires
        g.wf(),
        a.len() == b.len() == g.cells().len(),
        g.inside(q),
        is_new(a, b, g.index_of(q)),
        fences_hold(g, a, b, st.push(q), f0),
        fences_new(g, a, b, f0),
        cell_mask(g, g.index_of(q)) == 0 ==> f1 == f0,
        cell_mask(g, g.index_of(q)) != 0 ==> f1.lookup(q.x, q.y) == Some(cell_mask(g, g.index_of(q))),
        cell_mask(g, g.index_of(q)) != 0 ==> forall|x: i32, y: i32|
            (x, y) != (q.x, q.y) ==> #[trigger] f1.lookup(x, y) == f0.lookup(x, y),
    ensures
        fences_hold(g, a, b, st, f1),
        fences_new(g, a, b, f1),
{
    reveal(fences_hold);
    reveal(fences_new);
    g.lemma_pos_index(q);
    let qi = g.index_of(q);
    let st0 = st.push(q);
    assert forall|i: int|
        0 <= i < g.cells().len() && #[trigger] is_new(a, b, i) && !st.contains(g.pos_of(i)) && cell_mask(g, i)
            != 0 implies f1.lookup(g.pos_of(i).x, g.pos_of(i).y) == Some(cell_mask(g, i)) by {
        g.lemma_pos_of(i);
        if g.pos_of(i) == q {
            assert(i == qi);
        } else {
            if st0.contains(g.pos_of(i)) {
                let j = choose|j: int| 0 <= j < st0.len() && st0[j] == g.pos_of(i);
                if j < st.len() {
                    assert(st[j] == st0[j]);
                }
            }
            assert(f0.lookup(g.pos_of(i).x, g.pos_of(i).y) == Some(cell_mask(g, i)));
            if cell_mask(g, qi) != 0 {
                assert((g.pos_of(i).x, g.pos_of(i).y) != (q.x, q.y));
            }
        }
    }
    assert forall|x: i32, y: i32| #[trigger] f1.lookup(x, y) is Some implies {
        &&& g.inside(Point { x, y })
        &&& is_new(a, b, g.index_of(Point { x, y }))
        &&& f1.lookup(x, y) == Some(cell_mask(g, g.index_of(Point { x, y })))
    } by {
        if cell_mask(g, qi) != 0 {
            if (x, y) == (q.x, q.y) {
                assert(Point { x, y } == q);
            } else {
                assert(f1.lookup(x, y) == f0.lookup(x, y));
            }
        }
    }
}

/// Some entry is at `(x, y)` with `bit` in its mask just when that cell is newly marked
/// and fenced on side `bit`.
proof fn lemma_has_fence(g: Grid<u16>, a: Seq<u8>, b: Seq<u8>, f: Fences, x: int, y: int, bit: u8)
    requires
        g.wf(),
        a.len() == b.len() == g.cells().len(),
        f.wf(),
        fences_hold(g, a, b, Seq::<Point>::empty(), f),
        fences_new(g, a, b, f),
    ensures
        has_fence(f.entries(), x, y, bit) == new_fenced(g, a, b, x, y, bit),
{
    reveal(fences_hold);
    reveal(fences_new);
    let es = f.entries();
    let w = g.width();
    if has_fence(es, x, y, bit) {
        let k = choose|k: int| 0 <= k < es.len() && es[k].0.0 == x && es[k].0.1 == y && (es[k].1 & bit) != 0;
        lemma_lookup_at(es, k);
        let xi = es[k].0.0;
        let yi = es[k].0.1;
        assert(f.lookup(xi, yi) is Some);
        assert(g.index_of(Point { x: xi, y: yi }) == x + y * w);
    }
    if new_fenced(g, a, b, x, y, bit) {
        let i = x + y * w;
        let pt = Point { x: x as i32, y: y as i32 };
        assert(g.inside(pt));
        g.lemma_pos_index(pt);
        assert(g.index_of(pt) == i);
        let m = cell_mask(g, i);
        assert(m & bit != 0 ==> m != 0) by (bit_vector);
        assert(!Seq::<Point>::empty().contains(g.pos_of(i)));
        assert(f.lookup(pt.x, pt.y) == Some(m));
        assert(exists|k: int| 0 <= k < es.len() && es[k].0 == (pt.x, pt.y));
        let k = choose|k: int| 0 <= k < es.len() && es[k].0 == (pt.x, pt.y);
        assert(es[k].1 == m);
        assert(es[k].0.0 == x && es[k].0.1 == y && (es[k].1 & bit) != 0);
    }
}

/// `h` summed over the first `m` items of `ks`.
pub open spec fn seq_sum(ks: Seq<int>, h: spec_fn(int) -> nat, m: int) -> nat
    decreases m,
{
    if m <= 0 {
        0
    } else {
        seq_sum(ks, h, m - 1) + h(ks[m - 1])
    }
}

/// `h` summed over the members of `s` below `m`.
pub open spec fn set_sum(s: Set<int>, h: spec_fn(int) -> nat, m: int) -> nat
    decreases m,
{
    if m <= 0 {
        0
    } else {
        set_sum(s, h, m - 1) + if s.contains(m - 1) { h(m - 1) } else { 0nat }
    }
}

proof fn lemma_set_sum_same(s: Set<int>, t: Set<int>, h: spec_fn(int) -> nat, m: int)
    requires
        forall|i: int| 0 <= i < m ==> s.contains(i) == t.contains(i),
    ensures
        set_sum(s, h, m) == set_sum(t, h, m),
    decreases m,
{
    if m > 0 {
        lemma_set_sum_same(s, t, h, m - 1);
    }
}

proof fn lemma_set_sum_remove(s: Set<int>, h: spec_fn(int) -> nat, m: int, x: int)
    requires
        0 <= x < m,
        s.contains(x),
    ensures
        set_sum(s, h, m) == set_sum(s.remove(x), h, m) + h(x),
    decreases m,
{
    if x == m - 1 {
        lemma_set_sum_same(s, s.remove(x), h, m - 1);
    } else {
        lemma_set_sum_remove(s, h, m - 1, x);
    }
}

proof fn lemma_seq_sum_prefix(ks: Seq<int>, js: Seq<int>, h: spec_fn(int) -> nat, m: int)
    requires
        0 <= m <= ks.len(),
        m <= js.len(),
        forall|k: int| 0 <= k < m ==> ks[k] == js[k],
    ensures
        seq_sum(ks, h, m) == seq_sum(js, h, m),
    decreases m,
{
    if m > 0 {
        lemma_seq_sum_prefix(ks, js, h, m - 1);
    }
}

/// A sum over a list of distinct members of a set, that holds each member, is the sum over the set.
proof fn lemma_reindex(ks: Seq<int>, s: Set<int>, h: spec_fn(int) -> nat, n: int)
    requires
        0 <= n,
        forall|j: int, k: int| 0 <= j < k < ks.len() ==> ks[j] != ks[k],
        forall|k: int| 0 <= k < ks.len() ==> 0 <= #[trigger] ks[k] < n && s.contains(ks[k]),
        forall|i: int| #[trigger] s.contains(i) ==> exists|k: int| 0 <= k < ks.len() && ks[k] == i,
    ensures
        seq_sum(ks, h, ks.len() as int) == set_sum(s, h, n),
    decreases ks.len(),
{
    if ks.len() == 0 {
        lemma_set_sum_same(s, Set::<int>::empty(), h, n);
        lemma_set_sum_empty(h, n);
    } else {
        let x = ks.last();
        let k2 = ks.drop_last();
        let s2 = s.remove(x);
        assert forall|k: int| 0 <= k < k2.len() implies 0 <= #[trigger] k2[k] < n && s2.contains(k2[k]) by {
            assert(k2[k] == ks[k]);
            assert(ks[k] != ks[ks.len() - 1]);
        }
        assert forall|i: int| #[trigger] s2.contains(i) implies exists|k: int| 0 <= k < k2.len() && k2[k] == i by {
            let k = choose|k: int| 0 <= k < ks.len() && ks[k] == i;
            assert(k2[k] == ks[k]);
        }
        assert forall|j: int, k: int| 0 <= j < k < k2.len() implies k2[j] != k2[k] by {
            assert(k2[j] == ks[j] && k2[k] == ks[k]);
        }
        lemma_reindex(k2, s2, h, n);
        assert(0 <= ks[ks.len() - 1] < n);
        lemma_set_sum_remove(s, h, n, x);
        lemma_seq_sum_prefix(ks, k2, h, k2.len() as int);
    }
}

proof fn lemma_set_sum_empty(h: spec_fn(int) -> nat, m: int)
    ensures
        set_sum(Set::<int>::empty(), h, m) == 0,
    decreases m,
{
    if m > 0 {
        lemma_set_sum_empty(h, m - 1);
    }
}

proof fn lemma_sides_seq(es: Seq<((i32, i32), u8)>, ks: Seq<int>, h: spec_fn(int) -> nat, m: int)
    requires
        0 <= m <= es.len(),
        ks.len() == es.len(),
        forall|k: int| 0 <= k < m ==> starts_at(es, k) == h(#[trigger] ks[k]),
    ensures
        sides_upto(es, m) == seq_sum(ks, h, m),
    decreases m,
{
    if m > 0 {
        lemma_sides_seq(es, ks, h, m - 1);
        assert(starts_at(es, m - 1) == h(ks[m - 1]));
    }
}

proof fn lemma_new_sides_set(g: Grid<u16>, a: Seq<u8>, b: Seq<u8>, s: Set<int>, h: spec_fn(int) -> nat, m: int)
    requires
        0 <= m <= g.cells().len(),
        forall|i: int| 0 <= i < g.cells().len() ==> #[trigger] s.contains(i) == (is_new(a, b, i) && cell_mask(g, i) != 0),
        forall|i: int| #[trigger] h(i) == new_starts(g, a, b, i),
    ensures
        set_sum(s, h, m) == new_sides(g, a, b, m),
    decreases m,
{
    if m > 0 {
        lemma_new_sides_set(g, a, b, s, h, m - 1);
        let i = m - 1;
        assert(s.contains(i) == (is_new(a, b, i) && cell_mask(g, i) != 0));
        assert(h(i) == new_starts(g, a, b, i));
        if cell_mask(g, i) == 0 {
            let f = cell_mask(g, i);
            assert(f & 1 == 0 && f & 2 == 0 && f & 4 == 0 && f & 8 == 0) by (bit_vector)
                requires f == 0;
        }
    }
}

/// The sides counted over the fences of a flooded region are those of its newly marked cells.
proof fn lemma_sides_new(g: Grid<u16>, a: Seq<u8>, b: Seq<u8>, f: Fences)
    requires
        g.wf(),
        a.len() == b.len() == g.cells().len(),
        f.wf(),
        fences_hold(g, a, b, Seq::<Point>::empty(), f),
        fences_new(g, a, b, f),
    ensures
        sides(f.entries()) == new_sides(g, a, b, g.cells().len() as int),
{
    let es = f.entries();
    let w = g.width();
    let n = g.cells().len() as int;
    let ks = Seq::new(es.len(), |k: int| es[k].0.0 + es[k].0.1 * w);
    let h = |i: int| new_starts(g, a, b, i);
    let s = Set::new(|i: int| 0 <= i < n && is_new(a, b, i) && cell_mask(g, i) != 0);
    assert forall|k: int| 0 <= k < es.len() implies {
        &&& g.pos_of(#[trigger] ks[k]) == Point { x: es[k].0.0, y: es[k].0.1 }
        &&& 0 <= ks[k] < n
        &&& s.contains(ks[k])
        &&& starts_at(es, k) == h(ks[k])
    } by {
        reveal(fences_new);
        lemma_lookup_at(es, k);
        let pt = Point { x: es[k].0.0, y: es[k].0.1 };
        assert(f.lookup(pt.x, pt.y) is Some);
        g.lemma_pos_index(pt);
        assert(ks[k] == g.index_of(pt));
        let x = pt.x as int;
        let y = pt.y as int;
        lemma_has_fence(g, a, b, f, x - 1, y, 1);
        lemma_has_fence(g, a, b, f, x - 1, y, 2);
        lemma_has_fence(g, a, b, f, x, y - 1, 4);
        lemma_has_fence(g, a, b, f, x, y - 1, 8);
    }
    lemma_sides_seq(es, ks, h, es.len() as int);
    assert forall|j: int, k: int| 0 <= j < k < ks.len() implies ks[j] != ks[k] by {
        assert(key_lt(es[j].0, es[k].0));
        assert(g.pos_of(ks[j]) == Point { x: es[j].0.0, y: es[j].0.1 });
        assert(g.pos_of(ks[k]) == Point { x: es[k].0.0, y: es[k].0.1 });
    }
    assert forall|i: int| #[trigger] s.contains(i) implies exists|k: int| 0 <= k < ks.len() && ks[k] == i by {
        reveal(fences_hold);
        g.lemma_pos_of(i);
        let pt = g.pos_of(i);
        assert(!Seq::<Point>::empty().contains(pt));
        assert(f.lookup(pt.x, pt.y) is Some);
        let k = choose|k: int| 0 <= k < es.len() && es[k].0 == (pt.x, pt.y);
        assert(ks[k] == i);
    }
    lemma_reindex(ks, s, h, n);
    lemma_new_sides_set(g, a, b, s, h, n);
}

/// Marks the region of `p`'s plot that holds `p`, where `p` is not marked yet, and returns
/// its area times its perimeter and its area times its number of sides.
pub fn flood_step(garden: &Grid<u16>, vis: &mut Grid<u8>, p: Point) -> (r: (usize, usize))
    requires
        garden.wf(),
        old(vis).wf(),
        old(vis).width() == garden.width(),
        old(vis).height() == garden.height(),
        garden.height() < i32::MAX - 1,
        16 * garden.cells().len() * garden.cells().len() <= usize::MAX,
    ensures
        final(vis).wf(),
        final(vis).width() == old(vis).width(),
        final(vis).height() == old(vis).height(),
        !(old(vis).inside(p) && old(vis).at(p) == 0) ==> r == (0usize, 0usize) && *final(vis) == *old(vis),
        old(vis).inside(p) && old(vis).at(p) == 0 ==> {
            let a = old(vis).cells();
            let b = final(vis).cells();
            let n = a.len() as int;
            let plot = garden.at(p) & 0xff;
            let area = new_count(a, b, n);
            &&& b[garden.index_of(p)] != 0
            &&& forall|i: int| 0 <= i < n && a[i] != 0 ==> #[trigger] b[i] == a[i]
            &&& forall|i: int| 0 <= i < n && a[i] == 0 ==> #[trigger] b[i] == 0 || b[i] == 1
            &&& forall|i: int| 0 <= i < n && #[trigger] is_new(a, b, i) ==> garden.cells()[i] & 0xff == plot
            &&& forall|i: int, k: int|
                0 <= i < n && 0 <= k < 4 && #[trigger] is_new(a, b, i) && garden.inside(
                    neighbour(garden.pos_of(i), k),
                ) && #[trigger] garden.at(neighbour(garden.pos_of(i), k)) & 0xff == plot ==> b[garden.index_of(
                    neighbour(garden.pos_of(i), k),
                )] != 0
            &&& forall|i: int| 0 <= i < n && #[trigger] is_new(a, b, i) ==> joined(*garden, p, garden.pos_of(i))
            &&& r.0 == area * new_perimeter(garden.cells(), a, b, n)
            &&& r.0 <= 8 * n * area
            &&& r.1 == area * new_sides(*garden, a, b, n)
            &&& r.1 <= 4 * n * area
        },
{
    let ghost a = vis.cells();
    let ghost n = a.len() as int;
    match vis.get(p) {
        Some(v) => {
            if v != 0 {
                return (0, 0);
            }
        },
        None => {
            return (0, 0);
        },
    }
    proof {
        garden.lemma_inside_index(p);
    }
    let plot = garden.get(p).unwrap() & 0xff;
    let mut stack: Vec<Point> = Vec::new();
    stack.push(p);
    vis.set(p, 1);
    let mut fences = Fences::new();
    let mut n_area: usize = 0;
    let mut n_perim: usize = 0;
    proof {
        lemma_no_new(garden.cells(), a, n);
        lemma_new_mark(garden.cells(), a, a, garden.index_of(p), n);
        garden.lemma_pos_index(p);
        let ip = garden.index_of(p);
        assert(vis.cells() == a.update(ip, 1));
        assert(stack@.drop_last() =~= Seq::<Point>::empty());
        assert forall|i: int| 0 <= i < n && #[trigger] is_new(a, vis.cells(), i) implies i == ip by {}
        lemma_joined_refl(*garden, p);
        assert(stack@[0] == p);
        assert(stack@.contains(p));
        assert(stack_perimeter(*garden, stack@) == stack_perimeter(*garden, stack@.drop_last())
            + popcount((garden.at(stack@.last()) >> 8u16) as u8));
        assert(stack_perimeter(*garden, Seq::<Point>::empty()) == 0);
        assert(new_perimeter(garden.cells(), a, vis.cells(), n) == popcount((garden.cells()[ip] >> 8u16) as u8));
        assert(stack@ =~= seq![p]);
        lemma_hold_start(*garden, a, vis.cells(), p, fences);
    }
    loop
        invariant
            garden.wf(),
            vis.wf(),
            vis.width() == garden.width() && vis.height() == garden.height(),
            garden.height() < i32::MAX - 1,
            16 * garden.cells().len() * garden.cells().len() <= usize::MAX,
            a.len() == n == vis.cells().len(),
            plot == garden.at(p) & 0xff,
            garden.inside(p),
            0 <= garden.index_of(p) < n,
            vis.cells()[garden.index_of(p)] != 0,
            fences.wf(),
            fences.entries().len() <= n_area,
            forall|i: int| 0 <= i < n && a[i] != 0 ==> #[trigger] vis.cells()[i] == a[i],
            forall|i: int| 0 <= i < n && a[i] == 0 ==> #[trigger] vis.cells()[i] == 0 || vis.cells()[i] == 1,
            forall|i: int| 0 <= i < n && #[trigger] is_new(a, vis.cells(), i) ==> garden.cells()[i] & 0xff == plot,
            forall|i: int| 0 <= i < n && #[trigger] is_new(a, vis.cells(), i) ==> joined(*garden, p, garden.pos_of(i)),
            forall|j: int| 0 <= j < stack@.len() ==> garden.inside(#[trigger] stack@[j]) && is_new(a, vis.cells(), garden.index_of(stack@[j])),
            forall|j: int, l: int| 0 <= j < l < stack@.len() ==> #[trigger] stack@[j] != #[trigger] stack@[l],
            forall|i: int, k: int|
                0 <= i < n && 0 <= k < 4 && #[trigger] is_new(a, vis.cells(), i) && !stack@.contains(garden.pos_of(i))
                    && garden.inside(neighbour(garden.pos_of(i), k))
                    && #[trigger] garden.at(neighbour(garden.pos_of(i), k)) & 0xff == plot
                    ==> vis.cells()[garden.index_of(neighbour(garden.pos_of(i), k))] != 0,
            n_area + stack@.len() == new_count(a, vis.cells(), n),
            n_perim + stack_perimeter(*garden, stack@) == new_perimeter(garden.cells(), a, vis.cells(), n),
            fences_hold(*garden, a, vis.cells(), stack@, fences),
            fences_new(*garden, a, vis.cells(), fences),
        ensures
            stack@.len() == 0,
        decreases 5 * (n - new_count(a, vis.cells(), n)) + stack@.len(),
    {
        let ghost st0 = stack@;
        let ghost c0 = new_count(a, vis.cells(), n);
        if stack.len() > 0 {
            proof {
                let j = stack@.len() - 1;
                assert(garden.inside(stack@[j]) && is_new(a, vis.cells(), garden.index_of(stack@[j])));
                assert(stack_perimeter(*garden, stack@) == stack_perimeter(*garden, stack@.drop_last())
                    + popcount((garden.at(stack@[j]) >> 8u16) as u8));
            }
        }
        let q = match stack.pop() {
            Some(q) => q,
            None => {
                break;
            },
        };
        proof {
            assert(st0.last() == q && st0.drop_last() =~= stack@);
            assert(garden.inside(q) && is_new(a, vis.cells(), garden.index_of(q)));
            garden.lemma_pos_index(q);
            assert(!stack@.contains(q)) by {
                if stack@.contains(q) {
                    let j = choose|j: int| 0 <= j < stack@.len() && stack@[j] == q;
                    assert(st0[j] == st0[st0.len() - 1]);
                }
            }
            lemma_new_count_bound(a, vis.cells(), n);
            lemma_perimeter_bound(garden.cells(), a, vis.cells(), n);
            assert(8 * n <= usize::MAX) by (nonlinear_arith)
                requires 16 * n * n <= usize::MAX, n >= 1;
            assert forall|i: int, kk: int|
                0 <= i < n && 0 <= kk < 4 && #[trigger] is_new(a, vis.cells(), i) && !stack@.contains(garden.pos_of(i))
                    && (garden.pos_of(i) != q || kk < 0)
                    && garden.inside(neighbour(garden.pos_of(i), kk))
                    && #[trigger] garden.at(neighbour(garden.pos_of(i), kk)) & 0xff == plot
                    implies vis.cells()[garden.index_of(neighbour(garden.pos_of(i), kk))] != 0 by {
                assert(!st0.contains(garden.pos_of(i))) by {
                    if st0.contains(garden.pos_of(i)) {
                        let j = choose|j: int| 0 <= j < st0.len() && st0[j] == garden.pos_of(i);
                        if j < stack@.len() {
                            assert(stack@[j] == st0[j]);
                        }
                    }
                }
            }
        }
        n_area += 1;
        let cell = garden.get(q).unwrap();
        let fence_mask = (cell >> 8u16) as u8;
        let ghost f0 = fences;
        fences.add(q, fence_mask);
        proof {
            assert(st0 =~= stack@.push(q));
            assert(cell_mask(*garden, garden.index_of(q)) == fence_mask);
            lemma_hold_add(*garden, a, vis.cells(), stack@, f0, fences, q);
        }
        n_perim += count_ones(fence_mask);
        let mut k: usize = 0;
        while k < 4
            invariant
                garden.wf(),
                vis.wf(),
                vis.width() == garden.width() && vis.height() == garden.height(),
                garden.height() < i32::MAX - 1,
                16 * garden.cells().len() * garden.cells().len() <= usize::MAX,
                a.len() == n == vis.cells().len(),
                plot == garden.at(p) & 0xff,
                garden.inside(p),
                garden.inside(q),
                garden.pos_of(garden.index_of(q)) == q,
                0 <= garden.index_of(q) < n,
                0 <= garden.index_of(p) < n,
                is_new(a, vis.cells(), garden.index_of(q)),
                !stack@.contains(q),
                vis.cells()[garden.index_of(p)] != 0,
                fences.wf(),
                fences.entries().len() <= n_area,
                k <= 4,
                forall|i: int| 0 <= i < n && a[i] != 0 ==> #[trigger] vis.cells()[i] == a[i],
                forall|i: int| 0 <= i < n && a[i] == 0 ==> #[trigger] vis.cells()[i] == 0 || vis.cells()[i] == 1,
                forall|i: int| 0 <= i < n && #[trigger] is_new(a, vis.cells(), i) ==> garden.cells()[i] & 0xff == plot,
                forall|i: int| 0 <= i < n && #[trigger] is_new(a, vis.cells(), i) ==> joined(*garden, p, garden.pos_of(i)),
                forall|j: int| 0 <= j < stack@.len() ==> garden.inside(#[trigger] stack@[j]) && is_new(a, vis.cells(), garden.index_of(stack@[j])),
                forall|j: int, l: int| 0 <= j < l < stack@.len() ==> #[trigger] stack@[j] != #[trigger] stack@[l],
                forall|i: int, kk: int|
                    0 <= i < n && 0 <= kk < 4 && #[trigger] is_new(a, vis.cells(), i) && !stack@.contains(garden.pos_of(i))
                        && (garden.pos_of(i) != q || kk < k)
                        && garden.inside(neighbour(garden.pos_of(i), kk))
                        && #[trigger] garden.at(neighbour(garden.pos_of(i), kk)) & 0xff == plot
                        ==> vis.cells()[garden.index_of(neighbour(garden.pos_of(i), kk))] != 0,
                n_area + stack@.len() == new_count(a, vis.cells(), n),
                n_perim + stack_perimeter(*garden, stack@) == new_perimeter(garden.cells(), a, vis.cells(), n),
                fences_hold(*garden, a, vis.cells(), stack@, fences),
                fences_new(*garden, a, vis.cells(), fences),
                new_count(a, vis.cells(), n) <= n,
                new_perimeter(garden.cells(), a, vis.cells(), n) <= 8 * new_count(a, vis.cells(), n),
                5 * (n - new_count(a, vis.cells(), n)) + stack@.len() <= 5 * (n - c0) + st0.len() - 1,
            decreases 4 - k,
        {
            let (s, _) = fence(k);
            let r = q.plus(s);
            assert(r == neighbour(q, k as int));
            let vr = vis.get(r);
            let gr = garden.get(r);
            if vr == Some(0u8) && gr.is_some() && (gr.unwrap() & 0xff) == plot {
                let ghost b0 = vis.cells();
                proof {
                    garden.lemma_pos_index(r);
                    lemma_new_mark(garden.cells(), a, b0, garden.index_of(r), n);
                    assert(a[garden.index_of(r)] == 0);
                }
                vis.set(r, 1);
                let ghost st1 = stack@;
                stack.push(r);
                proof {
                    let b = vis.cells();
                    let ri = garden.index_of(r);
                    assert(b == b0.update(ri, 1));
                    assert(stack@ =~= st1.push(r));
                    lemma_hold_mark(*garden, a, b0, st1, fences, r);
                    assert(stack_perimeter(*garden, stack@) == stack_perimeter(*garden, st1) + popcount((garden.at(r) >> 8u16) as u8)) by {
                        assert(stack@.drop_last() =~= st1);
                    }
                    assert forall|i: int| 0 <= i < n && #[trigger] is_new(a, b, i) implies garden.cells()[i] & 0xff == plot by {
                        if i != ri {
                            assert(is_new(a, b0, i));
                        }
                    }
                    assert(joined(*garden, p, q)) by {
                        assert(is_new(a, b0, garden.index_of(q)));
                    }
                    lemma_joined_step(*garden, p, q, r, k as int);
                    assert forall|i: int| 0 <= i < n && #[trigger] is_new(a, b, i) implies joined(*garden, p, garden.pos_of(i)) by {
                        if i != ri {
                            assert(is_new(a, b0, i));
                        } else {
                            assert(garden.pos_of(ri) == r);
                        }
                    }
                    assert forall|j: int| 0 <= j < stack@.len() implies garden.inside(#[trigger] stack@[j]) && is_new(a, b, garden.index_of(stack@[j])) by {
                        if j < st1.len() {
                            assert(stack@[j] == st1[j]);
                            assert(is_new(a, b0, garden.index_of(st1[j])));
                            garden.lemma_inside_index(st1[j]);
                        }
                    }
                    assert forall|j: int, l: int| 0 <= j < l < stack@.len() implies #[trigger] stack@[j] != #[trigger] stack@[l] by {
                        if l == st1.len() {
                            assert(is_new(a, b0, garden.index_of(st1[j])));
                            if st1[j] == r {
                                assert(b0[ri] == 0);
                            }
                        } else {
                            assert(stack@[j] == st1[j] && stack@[l] == st1[l]);
                        }
                    }
                    assert forall|i: int, kk: int|
                        0 <= i < n && 0 <= kk < 4 && #[trigger] is_new(a, b, i) && !stack@.contains(garden.pos_of(i))
                            && (garden.pos_of(i) != q || kk < k + 1)
                            && garden.inside(neighbour(garden.pos_of(i), kk))
                            && #[trigger] garden.at(neighbour(garden.pos_of(i), kk)) & 0xff == plot
                            implies b[garden.index_of(neighbour(garden.pos_of(i), kk))] != 0 by {
                        if i == ri {
                            assert(stack@.contains(r)) by {
                                assert(stack@[st1.len() as int] == r);
                            }
                        } else {
                            assert(is_new(a, b0, i));
                            if garden.pos_of(i) == q && kk == k {
                                assert(neighbour(garden.pos_of(i), kk) == r);
                                assert(b[ri] == 1);
                            } else {
                                assert((garden.pos_of(i) != q || kk < k));
                                garden.lemma_inside_index(neighbour(garden.pos_of(i), kk));
                                assert(!st1.contains(garden.pos_of(i))) by {
                                    if st1.contains(garden.pos_of(i)) {
                                        let j = choose|j: int| 0 <= j < st1.len() && st1[j] == garden.pos_of(i);
                                        assert(stack@[j] == st1[j]);
                                    }
                                }
                                assert(b0[garden.index_of(neighbour(garden.pos_of(i), kk))] != 0);
                            }
                        }
                    }
                    assert(garden.index_of(q) != ri);
                    assert(is_new(a, b, garden.index_of(q)));
                    assert(!stack@.contains(q)) by {
                        if stack@.contains(q) {
                            let j = choose|j: int| 0 <= j < stack@.len() && stack@[j] == q;
                            if j < st1.len() {
                                assert(stack@[j] == st1[j]);
                                assert(st1.contains(q));
                            } else {
                                assert(b0[ri] == 0);
                            }
                        }
                    }
                    lemma_new_count_bound(a, b, n);
                    lemma_perimeter_bound(garden.cells(), a, b, n);
                }
            } else {
                proof {
                    assert forall|i: int, kk: int|
                        0 <= i < n && 0 <= kk < 4 && #[trigger] is_new(a, vis.cells(), i) && !stack@.contains(garden.pos_of(i))
                            && (garden.pos_of(i) != q || kk < k + 1)
                            && garden.inside(neighbour(garden.pos_of(i), kk))
                            && #[trigger] garden.at(neighbour(garden.pos_of(i), kk)) & 0xff == plot
                            implies vis.cells()[garden.index_of(neighbour(garden.pos_of(i), kk))] != 0 by {
                        if garden.pos_of(i) == q && kk == k {
                            garden.lemma_pos_index(r);
                        }
                    }
                }
            }
            k += 1;
        }
    }
    proof {
        lemma_new_count_bound(a, vis.cells(), n);
        assert(n >= 1);
        assert(n <= usize::MAX / 4) by (nonlinear_arith)
            requires 16 * n * n <= usize::MAX, n >= 1;
    }
    let sides = fences.count_sides();
    proof {
        lemma_sides_bound(fences.entries(), fences.entries().len() as int);
        assert(stack@.len() == 0);
        assert(stack@ =~= Seq::<Point>::empty());
        lemma_sides_new(*garden, a, vis.cells(), fences);
        assert(stack_perimeter(*garden, stack@) == 0);
        assert(n_area == new_count(a, vis.cells(), n));
        assert(n_perim == new_perimeter(garden.cells(), a, vis.cells(), n));
        lemma_new_count_bound(a, vis.cells(), n);
        lemma_perimeter_bound(garden.cells(), a, vis.cells(), n);
        assert(n_area * n_perim <= 8 * n * n) by (nonlinear_arith)
            requires n_area <= n, n_perim <= 8 * n_area;
        assert(sides <= 4 * n_area);
        assert(n_area * sides <= 4 * n * n) by (nonlinear_arith)
            requires n_area <= n, sides <= 4 * n_area;
        assert(8 * n * n <= usize::MAX) by (nonlinear_arith)
            requires 16 * n * n <= usize::MAX;
        assert(4 * n * n <= 8 * n * n) by (nonlinear_arith);
        assert(n_area * sides <= usize::MAX);
        assert(n_area * n_perim <= 8 * n * n_area) by (nonlinear_arith)
            requires n_area <= n, n_perim <= 8 * n_area;
        assert(n_area * sides <= 4 * n * n_area) by (nonlinear_arith)
            requires n_area <= n, sides <= 4 * n_area;
    }
    (n_area * n_perim, n_area * sides)
}

proof fn lemma_sides_bound(es: Seq<((i32, i32), u8)>, n: int)
    requires
        0 <= n,
    ensures
        sides_upto(es, n) <= 4 * n,
    decreases n,
{
    if n > 0 {
        lemma_sides_bound(es, n - 1);
    }
}

/// The neighbour of `p` on side `k`: north, south, east, west.
pub open spec fn neighbour(p: Point, k: int) -> Point {
    let (dx, dy) = fence_dir(k);
    Point { x: (p.x + dx) as i32, y: (p.y + dy) as i32 }
}

/// The fence count of the plots on the stack.
pub open spec fn stack_perimeter(g: Grid<u16>, st: Seq<Point>) -> nat
    decreases st.len(),
{
    if st.len() == 0 {
        0
    } else {
        stack_perimeter(g, st.drop_last()) + popcount((g.at(st.last()) >> 8u16) as u8)
    }
}


/// The number of marked cells among the first `n`.
pub open spec fn marked(b: Seq<u8>, n: int) -> nat
    decreases n,
{
    if n <= 0 {
        0
    } else {
        marked(b, n - 1) + if b[n - 1] != 0 { 1nat } else { 0nat }
    }
}

proof fn lemma_marked_grow(a: Seq<u8>, b: Seq<u8>, n: int)
    requires
        0 <= n <= a.len() == b.len(),
        forall|i: int| 0 <= i < a.len() && a[i] != 0 ==> #[trigger] b[i] == a[i],
    ensures
        marked(b, n) == marked(a, n) + new_count(a, b, n),
    decreases n,
{
    if n > 0 {
        lemma_marked_grow(a, b, n - 1);
    }
}

proof fn lemma_marked_bound(b: Seq<u8>, n: int)
    requires
        0 <= n,
    ensures
        marked(b, n) <= n,
    decreases n,
{
    if n > 0 {
        lemma_marked_bound(b, n - 1);
    }
}

proof fn lemma_marked_zero(b: Seq<u8>, n: int)
    requires
        0 <= n <= b.len(),
        forall|i: int| 0 <= i < b.len() ==> b[i] == 0,
    ensures
        marked(b, n) == 0,
    decreases n,
{
    if n > 0 {
        lemma_marked_zero(b, n - 1);
    }
}

/// The plot of the cell at `p`: the low byte of its garden value.
pub open spec fn plot_of(g: Grid<u16>, p: Point) -> u16 {
    g.at(p) & 0xff
}

/// The fence count of cell `i`.
pub open spec fn cell_perimeter(g: Grid<u16>, i: int) -> nat {
    popcount((g.cells()[i] >> 8u16) as u8)
}

/// Cells `p` and `q` are side by side.
pub open spec fn adj(p: Point, q: Point) -> bool {
    ||| p.x == q.x && (q.y == p.y - 1 || q.y == p.y + 1)
    ||| p.y == q.y && (q.x == p.x - 1 || q.x == p.x + 1)
}

/// `path` walks from cell to neighbouring cell, all of the plot it starts on.
pub open spec fn walk_ok(g: Grid<u16>, path: Seq<Point>) -> bool {
    &&& path.len() >= 1
    &&& forall|i: int| 0 <= i < path.len() ==> g.inside(#[trigger] path[i]) && plot_of(g, path[i]) == plot_of(g, path[0])
    &&& forall|i: int| 0 <= i < path.len() - 1 ==> #[trigger] adj(path[i], path[i + 1])
}

/// Cells `p` and `q` lie in one region: a walk joins them.
pub open spec fn joined(g: Grid<u16>, p: Point, q: Point) -> bool {
    exists|path: Seq<Point>| #[trigger] walk_ok(g, path) && path[0] == p && path.last() == q
}

/// How many of the first `m` cells lie in the region of `p`.
pub open spec fn region_count(g: Grid<u16>, p: Point, m: int) -> nat
    decreases m,
{
    if m <= 0 {
        0
    } else {
        region_count(g, p, m - 1) + if joined(g, p, g.pos_of(m - 1)) { 1nat } else { 0nat }
    }
}

/// The area of the region of cell `i`.
pub open spec fn region_area(g: Grid<u16>, i: int) -> nat {
    region_count(g, g.pos_of(i), g.cells().len() as int)
}

/// The first price over the first `m` cells marked in `b`: each cell's fence count times the
/// area of its region.
pub open spec fn price1_upto(g: Grid<u16>, b: Seq<u8>, m: int) -> nat
    decreases m,
{
    if m <= 0 {
        0
    } else {
        price1_upto(g, b, m - 1) + if b[m - 1] != 0 { cell_perimeter(g, m - 1) * region_area(g, m - 1) } else { 0nat }
    }
}

/// The first price of the garden: over its regions, area times perimeter, summed, each
/// cell's fences counted times the area of its region.
pub open spec fn price1(g: Grid<u16>) -> nat {
    price1_upto(g, Seq::new(g.cells().len(), |i: int| 1u8), g.cells().len() as int)
}

/// The opposite side.
pub open spec fn opp(k: int) -> int {
    if k == 0 {
        1
    } else if k == 1 {
        0
    } else if k == 2 {
        3
    } else {
        2
    }
}

pub proof fn lemma_neighbour_back(g: Grid<u16>, p: Point, k: int)
    requires
        g.wf(),
        g.inside(p),
        0 <= k < 4,
    ensures
        neighbour(neighbour(p, k), opp(k)) == p,
        0 <= opp(k) < 4,
{
}

pub proof fn lemma_joined_refl(g: Grid<u16>, p: Point)
    requires
        g.inside(p),
    ensures
        joined(g, p, p),
{
    let path = seq![p];
    assert(walk_ok(g, path));
}

pub proof fn lemma_joined_step(g: Grid<u16>, p: Point, q: Point, r: Point, k: int)
    requires
        g.wf(),
        g.inside(q),
        joined(g, p, q),
        0 <= k < 4,
        neighbour(q, k) == r,
        g.inside(r),
        plot_of(g, r) == plot_of(g, p),
    ensures
        joined(g, p, r),
{
    let path = choose|path: Seq<Point>| #[trigger] walk_ok(g, path) && path[0] == p && path.last() == q;
    let path2 = path.push(r);
    assert forall|i: int| 0 <= i < path2.len() - 1 implies #[trigger] adj(path2[i], path2[i + 1]) by {
        if i < path.len() - 1 {
            assert(path2[i] == path[i] && path2[i + 1] == path[i + 1]);
        } else {
            assert(path2[i] == q && path2[i + 1] == r);
            assert(g.inside(q));
        }
    }
    assert forall|i: int| 0 <= i < path2.len() implies g.inside(#[trigger] path2[i]) && plot_of(g, path2[i]) == plot_of(g, path2[0]) by {
        if i < path.len() {
            assert(path2[i] == path[i]);
        }
    }
    assert(walk_ok(g, path2));
}

pub proof fn lemma_joined_sym(g: Grid<u16>, p: Point, q: Point)
    requires
        g.wf(),
        joined(g, p, q),
    ensures
        joined(g, q, p),
{
    let path = choose|path: Seq<Point>| #[trigger] walk_ok(g, path) && path[0] == p && path.last() == q;
    let n = path.len();
    let rev = Seq::new(n, |i: int| path[n - 1 - i]);
    assert forall|i: int| 0 <= i < rev.len() - 1 implies #[trigger] adj(rev[i], rev[i + 1]) by {
        let j = n - 2 - i;
        assert(rev[i] == path[j + 1] && rev[i + 1] == path[j]);
        assert(adj(path[j], path[j + 1]));
    }
    assert forall|i: int| 0 <= i < rev.len() implies g.inside(#[trigger] rev[i]) && plot_of(g, rev[i]) == plot_of(g, rev[0]) by {
        assert(rev[i] == path[n - 1 - i]);
        assert(rev[0] == path[n - 1]);
    }
    assert(walk_ok(g, rev));
}

pub proof fn lemma_joined_trans(g: Grid<u16>, p: Point, q: Point, r: Point)
    requires
        joined(g, p, q),
        joined(g, q, r),
    ensures
        joined(g, p, r),
{
    let a = choose|path: Seq<Point>| #[trigger] walk_ok(g, path) && path[0] == p && path.last() == q;
    let b = choose|path: Seq<Point>| #[trigger] walk_ok(g, path) && path[0] == q && path.last() == r;
    let c = a + b.drop_first();
    let na = a.len();
    assert forall|i: int| 0 <= i < c.len() implies g.inside(#[trigger] c[i]) && plot_of(g, c[i]) == plot_of(g, c[0]) by {
        if i < na {
            assert(c[i] == a[i]);
        } else {
            assert(c[i] == b[i - na + 1]);
            assert(b[0] == a[na - 1]);
        }
    }
    assert forall|i: int| 0 <= i < c.len() - 1 implies #[trigger] adj(c[i], c[i + 1]) by {
        if i < na - 1 {
            assert(c[i] == a[i] && c[i + 1] == a[i + 1]);
            assert(adj(a[i], a[i + 1]));
        } else {
            let j = i - na + 1;
            assert(c[i] == b[j] && c[i + 1] == b[j + 1]);
            assert(adj(b[j], b[j + 1]));
        }
    }
    assert(walk_ok(g, c));
    if b.len() == 1 {
        assert(c =~= a);
    }
}

/// Marked cells are closed: a marked cell's neighbours of its plot are marked.
pub open spec fn marks_closed(g: Grid<u16>, b: Seq<u8>) -> bool {
    forall|i: int, k: int|
        0 <= i < b.len() && 0 <= k < 4 && b[i] != 0 && g.inside(neighbour(g.pos_of(i), k))
            && #[trigger] plot_of(g, neighbour(g.pos_of(i), k)) == plot_of(g, g.pos_of(i))
            ==> #[trigger] b[g.index_of(neighbour(g.pos_of(i), k))] != 0
}

/// In closed marks, a cell joined to a marked cell is marked.
pub proof fn lemma_closed_joined(g: Grid<u16>, b: Seq<u8>, path: Seq<Point>)
    requires
        g.wf(),
        b.len() == g.cells().len(),
        marks_closed(g, b),
        walk_ok(g, path),
        b[g.index_of(path[0])] != 0,
    ensures
        b[g.index_of(path.last())] != 0,
    decreases path.len(),
{
    if path.len() > 1 {
        let q = path.drop_last();
        assert(walk_ok(g, q)) by {
            assert forall|i: int| 0 <= i < q.len() - 1 implies #[trigger] adj(q[i], q[i + 1]) by {
                assert(q[i] == path[i] && q[i + 1] == path[i + 1]);
                assert(adj(path[i], path[i + 1]));
            }
            assert forall|i: int| 0 <= i < q.len() implies g.inside(#[trigger] q[i]) && plot_of(g, q[i]) == plot_of(g, q[0]) by {
                assert(q[i] == path[i]);
            }
        }
        lemma_closed_joined(g, b, q);
        let j = path.len() - 2;
        let x = path[j];
        assert(x == q.last());
        assert(adj(path[j], path[j + 1]));
        let y = path[j + 1];
        let kk = if y.y == x.y - 1 && y.x == x.x { 0int } else if y.y == x.y + 1 && y.x == x.x { 1int } else if y.x == x.x + 1 { 2int } else { 3int };
        assert(neighbour(x, kk) == y);
        g.lemma_pos_index(x);
        let i = g.index_of(x);
        assert(g.pos_of(i) == x);
        assert(b[i] != 0);
        assert(plot_of(g, neighbour(g.pos_of(i), kk)) == plot_of(g, g.pos_of(i)));
    }
}

/// Two counts over the first `m` cells that agree cell by cell.
pub proof fn lemma_region_new(g: Grid<u16>, p: Point, a: Seq<u8>, b: Seq<u8>, m: int)
    requires
        0 <= m <= a.len(),
        forall|j: int| 0 <= j < m ==> (joined(g, p, g.pos_of(j)) <==> #[trigger] is_new(a, b, j)),
    ensures
        region_count(g, p, m) == new_count(a, b, m),
    decreases m,
{
    if m > 0 {
        lemma_region_new(g, p, a, b, m - 1);
        assert(joined(g, p, g.pos_of(m - 1)) <==> is_new(a, b, m - 1));
    }
}

/// Cells joined to each other have regions of one area.
pub proof fn lemma_region_same(g: Grid<u16>, p: Point, q: Point, m: int)
    requires
        g.wf(),
        joined(g, p, q),
    ensures
        region_count(g, p, m) == region_count(g, q, m),
    decreases m,
{
    if m > 0 {
        lemma_region_same(g, p, q, m - 1);
        let c = g.pos_of(m - 1);
        if joined(g, p, c) {
            lemma_joined_sym(g, p, q);
            lemma_joined_trans(g, q, p, c);
        }
        if joined(g, q, c) {
            lemma_joined_trans(g, p, q, c);
        }
    }
}

/// The price over newly marked cells, each region area being `area`.
pub proof fn lemma_price_new(g: Grid<u16>, a: Seq<u8>, b: Seq<u8>, m: int, area: nat)
    requires
        0 <= m <= a.len(),
        a.len() == b.len(),
        g.cells().len() == a.len(),
        forall|i: int| 0 <= i < a.len() && a[i] != 0 ==> #[trigger] b[i] == a[i],
        forall|j: int| 0 <= j < m && #[trigger] is_new(a, b, j) ==> region_area(g, j) == area,
    ensures
        price1_upto(g, b, m) == price1_upto(g, a, m) + area * new_perimeter(g.cells(), a, b, m),
    decreases m,
{
    if m > 0 {
        lemma_price_new(g, a, b, m - 1, area);
        let j = m - 1;
        let pa = price1_upto(g, a, j);
        let pb = price1_upto(g, b, j);
        let np = new_perimeter(g.cells(), a, b, j);
        let cp = cell_perimeter(g, j);
        assert(pb == pa + area * np);
        if is_new(a, b, j) {
            assert(price1_upto(g, b, m) == pb + cp * area);
            assert(price1_upto(g, a, m) == pa);
            assert(new_perimeter(g.cells(), a, b, m) == np + cp);
            assert(area * (np + cp) == area * np + cp * area) by (nonlinear_arith);
        } else if a[j] != 0 {
            assert(b[j] == a[j]);
            assert(new_perimeter(g.cells(), a, b, m) == np);
            assert(price1_upto(g, b, m) == pb + cp * region_area(g, j));
            assert(price1_upto(g, a, m) == pa + cp * region_area(g, j));
        } else {
            assert(b[j] == 0);
            assert(new_perimeter(g.cells(), a, b, m) == np);
        }
    } else {
        assert(area * 0 == 0) by (nonlinear_arith);
    }
}

/// The price depends only on which cells are marked.
pub proof fn lemma_price_marks(g: Grid<u16>, b: Seq<u8>, c: Seq<u8>, m: int)
    requires
        0 <= m <= b.len(),
        m <= c.len(),
        forall|i: int| 0 <= i < m ==> (#[trigger] b[i] != 0) == (c[i] != 0),
    ensures
        price1_upto(g, b, m) == price1_upto(g, c, m),
    decreases m,
{
    if m > 0 {
        lemma_price_marks(g, b, c, m - 1);
        assert((b[m - 1] != 0) == (c[m - 1] != 0));
    }
}

pub proof fn lemma_price_zero(g: Grid<u16>, b: Seq<u8>, m: int)
    requires
        0 <= m <= b.len(),
        forall|i: int| 0 <= i < b.len() ==> b[i] == 0,
    ensures
        price1_upto(g, b, m) == 0,
    decreases m,
{
    if m > 0 {
        lemma_price_zero(g, b, m - 1);
    }
}

/// Cell `(x, y)` lies in the garden, is of plot `plot`, and is fenced on side `bit`.
pub open spec fn fenced_as(g: Grid<u16>, x: int, y: int, plot: u16, bit: u8) -> bool {
    &&& 0 <= x < g.width()
    &&& 0 <= y < g.height()
    &&& g.cells()[x + y * g.width()] & 0xff == plot
    &&& cell_mask(g, x + y * g.width()) & bit != 0
}

/// The number of sides of its region that begin at cell `i`: a north or south fence
/// unless the west neighbour, of the same plot, is fenced on that side too; an east or
/// west fence unless the north neighbour, of the same plot, is fenced on that side too.
pub open spec fn side_starts(g: Grid<u16>, i: int) -> nat {
    let p = g.pos_of(i);
    let (x, y) = (p.x as int, p.y as int);
    let f = cell_mask(g, i);
    let plot = g.cells()[i] & 0xff;
    (if (f & 1) != 0 && !fenced_as(g, x - 1, y, plot, 1) { 1nat } else { 0nat })
        + (if (f & 2) != 0 && !fenced_as(g, x - 1, y, plot, 2) { 1nat } else { 0nat })
        + (if (f & 4) != 0 && !fenced_as(g, x, y - 1, plot, 4) { 1nat } else { 0nat })
        + (if (f & 8) != 0 && !fenced_as(g, x, y - 1, plot, 8) { 1nat } else { 0nat })
}

/// The second price over the first `m` cells marked in `b`: the sides that begin at each
/// cell times the area of its region.
pub open spec fn price2_upto(g: Grid<u16>, b: Seq<u8>, m: int) -> nat
    decreases m,
{
    if m <= 0 {
        0
    } else {
        price2_upto(g, b, m - 1) + if b[m - 1] != 0 { side_starts(g, m - 1) * region_area(g, m - 1) } else { 0nat }
    }
}

/// The second price of the garden: over its regions, area times the number of straight
/// sides, summed, each side counted at the cell where it begins.
pub open spec fn price2(g: Grid<u16>) -> nat {
    price2_upto(g, Seq::new(g.cells().len(), |i: int| 1u8), g.cells().len() as int)
}

/// The second price over newly marked cells, each region area being `area`.
pub proof fn lemma_price2_new(g: Grid<u16>, a: Seq<u8>, b: Seq<u8>, m: int, area: nat)
    requires
        0 <= m <= a.len(),
        a.len() == b.len(),
        g.cells().len() == a.len(),
        forall|i: int| 0 <= i < a.len() && a[i] != 0 ==> #[trigger] b[i] == a[i],
        forall|j: int| 0 <= j < m && #[trigger] is_new(a, b, j) ==> region_area(g, j) == area && side_starts(g, j) == new_starts(g, a, b, j),
    ensures
        price2_upto(g, b, m) == price2_upto(g, a, m) + area * new_sides(g, a, b, m),
    decreases m,
{
    if m > 0 {
        lemma_price2_new(g, a, b, m - 1, area);
        let j = m - 1;
        let pa = price2_upto(g, a, j);
        let pb = price2_upto(g, b, j);
        let ns = new_sides(g, a, b, j);
        let cs = side_starts(g, j);
        assert(pb == pa + area * ns);
        if is_new(a, b, j) {
            assert(price2_upto(g, b, m) == pb + cs * area);
            assert(price2_upto(g, a, m) == pa);
            assert(new_sides(g, a, b, m) == ns + cs);
            assert(area * (ns + cs) == area * ns + cs * area) by (nonlinear_arith);
        } else if a[j] != 0 {
            assert(b[j] == a[j]);
            assert(new_sides(g, a, b, m) == ns);
            assert(price2_upto(g, b, m) == pb + cs * region_area(g, j));
            assert(price2_upto(g, a, m) == pa + cs * region_area(g, j));
        } else {
            assert(b[j] == 0);
            assert(new_sides(g, a, b, m) == ns);
        }
    } else {
        assert(area * 0 == 0) by (nonlinear_arith);
    }
}

/// The second price depends only on which cells are marked.
pub proof fn lemma_price2_marks(g: Grid<u16>, b: Seq<u8>, c: Seq<u8>, m: int)
    requires
        0 <= m <= b.len(),
        m <= c.len(),
        forall|i: int| 0 <= i < m ==> (#[trigger] b[i] != 0) == (c[i] != 0),
    ensures
        price2_upto(g, b, m) == price2_upto(g, c, m),
    decreases m,
{
    if m > 0 {
        lemma_price2_marks(g, b, c, m - 1);
        assert((b[m - 1] != 0) == (c[m - 1] != 0));
    }
}

pub proof fn lemma_price2_zero(g: Grid<u16>, b: Seq<u8>, m: int)
    requires
        0 <= m <= b.len(),
        forall|i: int| 0 <= i < b.len() ==> b[i] == 0,
    ensures
        price2_upto(g, b, m) == 0,
    decreases m,
{
    if m > 0 {
        lemma_price2_zero(g, b, m - 1);
    }
}

/// For a newly marked cell, flooded from marks that were closed, the neighbour across a
/// side is newly marked and fenced just when it is of the same plot and fenced.
proof fn lemma_prev_fenced(g: Grid<u16>, a: Seq<u8>, b: Seq<u8>, i: int, k: int, plot: u16, bit: u8)
    requires
        g.wf(),
        a.len() == b.len() == g.cells().len(),
        0 <= i < a.len(),
        k == 0 || k == 3,
        marks_closed(g, a),
        is_new(a, b, i),
        plot == g.cells()[i] & 0xff,
        forall|j: int| 0 <= j < a.len() && #[trigger] is_new(a, b, j) ==> g.cells()[j] & 0xff == plot,
        forall|j: int, kk: int|
            0 <= j < a.len() && 0 <= kk < 4 && #[trigger] is_new(a, b, j) && g.inside(neighbour(g.pos_of(j), kk))
                && #[trigger] g.at(neighbour(g.pos_of(j), kk)) & 0xff == plot ==> b[g.index_of(
                neighbour(g.pos_of(j), kk),
            )] != 0,
    ensures
        ({
            let q = neighbour(g.pos_of(i), k);
            new_fenced(g, a, b, q.x as int, q.y as int, bit) == fenced_as(g, q.x as int, q.y as int, plot, bit)
        }),
{
    g.lemma_pos_of(i);
    let p = g.pos_of(i);
    let q = neighbour(p, k);
    let (x, y) = (q.x as int, q.y as int);
    let w = g.width();
    if fenced_as(g, x, y, plot, bit) {
        assert(g.inside(q));
        g.lemma_pos_index(q);
        let iq = g.index_of(q);
        assert(iq == x + y * w);
        assert(g.at(neighbour(g.pos_of(i), k)) & 0xff == plot);
        assert(b[iq] != 0);
        if a[iq] != 0 {
            lemma_neighbour_back(g, p, k);
            assert(neighbour(g.pos_of(iq), opp(k)) == p);
            assert(plot_of(g, neighbour(g.pos_of(iq), opp(k))) == plot_of(g, g.pos_of(iq)));
            assert(a[g.index_of(neighbour(g.pos_of(iq), opp(k)))] != 0);
        }
    }
    if new_fenced(g, a, b, x, y, bit) {
        assert(g.inside(q));
        g.lemma_pos_index(q);
        assert(is_new(a, b, g.index_of(q)));
    }
}

/// A flood of the region of `p` keeps the marks closed and adds the region's price.
pub proof fn lemma_fence_region(g: Grid<u16>, a: Seq<u8>, b: Seq<u8>, p: Point, k: int, l: int, l2: int)
    requires
        g.wf(),
        a.len() == g.cells().len(),
        b.len() == a.len(),
        0 <= k < a.len(),
        p == g.pos_of(k),
        marks_closed(g, a),
        forall|i: int| 0 <= i < a.len() ==> #[trigger] a[i] == 0 || a[i] == 1,
        !(g.inside(p) && a[g.index_of(p)] == 0) ==> l == 0 && l2 == 0 && b == a,
        g.inside(p) && a[g.index_of(p)] == 0 ==> {
            let n = a.len() as int;
            let plot = g.at(p) & 0xff;
            let area = new_count(a, b, n);
            &&& b[g.index_of(p)] != 0
            &&& forall|i: int| 0 <= i < n && a[i] != 0 ==> #[trigger] b[i] == a[i]
            &&& forall|i: int| 0 <= i < n && #[trigger] is_new(a, b, i) ==> g.cells()[i] & 0xff == plot
            &&& forall|i: int, kk: int|
                0 <= i < n && 0 <= kk < 4 && #[trigger] is_new(a, b, i) && g.inside(neighbour(g.pos_of(i), kk))
                    && #[trigger] g.at(neighbour(g.pos_of(i), kk)) & 0xff == plot ==> b[g.index_of(
                    neighbour(g.pos_of(i), kk),
                )] != 0
            &&& forall|i: int| 0 <= i < n && #[trigger] is_new(a, b, i) ==> joined(g, p, g.pos_of(i))
            &&& l == area * new_perimeter(g.cells(), a, b, n)
            &&& l2 == area * new_sides(g, a, b, n)
        },
    ensures
        marks_closed(g, b),
        price1_upto(g, b, a.len() as int) == price1_upto(g, a, a.len() as int) + l,
        price2_upto(g, b, a.len() as int) == price2_upto(g, a, a.len() as int) + l2,
        b[k] != 0,
        forall|i: int| 0 <= i < a.len() && a[i] != 0 ==> #[trigger] b[i] != 0,
{
    let n = a.len() as int;
    g.lemma_pos_of(k);
    if g.inside(p) && a[g.index_of(p)] == 0 {
        let plot = g.at(p) & 0xff;
        let ip = g.index_of(p);
        assert(ip == k);
        assert(is_new(a, b, k));
        // Every new cell is of `p`'s plot.
        assert forall|i: int| 0 <= i < n && #[trigger] is_new(a, b, i) implies plot_of(g, g.pos_of(i)) == plot by {
            g.lemma_pos_of(i);
        }
        assert forall|i: int, kk: int|
            0 <= i < b.len() && 0 <= kk < 4 && b[i] != 0 && g.inside(neighbour(g.pos_of(i), kk))
                && #[trigger] plot_of(g, neighbour(g.pos_of(i), kk)) == plot_of(g, g.pos_of(i))
                implies #[trigger] b[g.index_of(neighbour(g.pos_of(i), kk))] != 0 by {
            g.lemma_pos_of(i);
            let q = neighbour(g.pos_of(i), kk);
            g.lemma_inside_index(q);
            if a[i] != 0 {
                assert(plot_of(g, q) == plot_of(g, g.pos_of(i)));
                assert(a[g.index_of(q)] != 0);
            } else {
                assert(is_new(a, b, i));
                assert(plot_of(g, g.pos_of(i)) == plot);
            }
        }
        // The new cells are exactly the region of `p`.
        assert forall|j: int| 0 <= j < n implies (joined(g, p, g.pos_of(j)) <==> #[trigger] is_new(a, b, j)) by {
            if joined(g, p, g.pos_of(j)) {
                g.lemma_pos_of(j);
                let path = choose|path: Seq<Point>| #[trigger] walk_ok(g, path) && path[0] == p && path.last() == g.pos_of(j);
                lemma_closed_joined(g, b, path);
                if a[j] != 0 {
                    lemma_joined_sym(g, p, g.pos_of(j));
                    let back = choose|path: Seq<Point>| #[trigger] walk_ok(g, path) && path[0] == g.pos_of(j) && path.last() == p;
                    lemma_closed_joined(g, a, back);
                }
            }
        }
        let area = new_count(a, b, n);
        lemma_region_new(g, p, a, b, n);
        assert forall|j: int| 0 <= j < n && #[trigger] is_new(a, b, j) implies region_area(g, j) == area by {
            lemma_region_same(g, p, g.pos_of(j), n);
        }
        lemma_price_new(g, a, b, n, area);
        assert forall|j: int| 0 <= j < n && #[trigger] is_new(a, b, j) implies region_area(g, j) == area
            && side_starts(g, j) == new_starts(g, a, b, j) by {
            lemma_region_same(g, p, g.pos_of(j), n);
            lemma_prev_fenced(g, a, b, j, 0, plot, 4);
            lemma_prev_fenced(g, a, b, j, 0, plot, 8);
            lemma_prev_fenced(g, a, b, j, 3, plot, 1);
            lemma_prev_fenced(g, a, b, j, 3, plot, 2);
        }
        lemma_price2_new(g, a, b, n, area);
        assert forall|i: int| 0 <= i < a.len() && a[i] != 0 implies #[trigger] b[i] != 0 by {
            assert(b[i] == a[i]);
        }
    }
}

/// The fence price of every region of the garden: the sum of area times perimeter, and
/// the sum of area times the number of sides.
pub fn fence_cost(garden: &Grid<u16>) -> (r: (usize, usize))
    requires
        garden.wf(),
        garden.height() < i32::MAX - 1,
        16 * garden.cells().len() * garden.cells().len() <= usize::MAX,
    ensures
        r.0 == price1(*garden),
        r.1 == price2(*garden),
        r.0 <= 8 * garden.cells().len() * garden.cells().len(),
        r.1 <= 4 * garden.cells().len() * garden.cells().len(),
{
    let ghost n = garden.cells().len() as int;
    let mut vis: Grid<u8> = Grid::new(garden.dimensions(), 0u8);
    let ps = garden.positions();
    let mut al: usize = 0;
    let mut ar: usize = 0;
    let mut k: usize = 0;
    proof {
        lemma_marked_zero(vis.cells(), n);
        lemma_price_marks(*garden, vis.cells(), Seq::new(n as nat, |i: int| 0u8), n);
        assert(price1_upto(*garden, Seq::new(n as nat, |i: int| 0u8), n) == 0) by {
            lemma_price_zero(*garden, Seq::new(n as nat, |i: int| 0u8), n);
        }
        lemma_price2_marks(*garden, vis.cells(), Seq::new(n as nat, |i: int| 0u8), n);
        assert(price2_upto(*garden, Seq::new(n as nat, |i: int| 0u8), n) == 0) by {
            lemma_price2_zero(*garden, Seq::new(n as nat, |i: int| 0u8), n);
        }
    }
    while k < ps.len()
        invariant
            garden.wf(),
            garden.height() < i32::MAX - 1,
            16 * n * n <= usize::MAX,
            n == garden.cells().len(),
            vis.wf(),
            vis.width() == garden.width() && vis.height() == garden.height(),
            vis.cells().len() == n,
            forall|i: int| 0 <= i < n ==> #[trigger] vis.cells()[i] == 0 || vis.cells()[i] == 1,
            k <= ps@.len(),
            al <= 8 * n * marked(vis.cells(), n),
            ar <= 4 * n * marked(vis.cells(), n),
            ps@.len() == n,
            forall|j: int| 0 <= j < n ==> #[trigger] ps@[j] == garden.pos_of(j),
            marks_closed(*garden, vis.cells()),
            al == price1_upto(*garden, vis.cells(), n),
            ar == price2_upto(*garden, vis.cells(), n),
            forall|j: int| 0 <= j < k ==> #[trigger] vis.cells()[j] != 0,
        decreases ps@.len() - k,
    {
        let ghost before = vis.cells();
        let ghost fresh = vis.inside(ps@[k as int]) && vis.at(ps@[k as int]) == 0;
        let (l, r) = flood_step(garden, &mut vis, ps[k]);
        proof {
            let after = vis.cells();
            lemma_fence_region(*garden, before, after, ps@[k as int], k as int, l as int, r as int);
            if fresh {
                lemma_marked_grow(before, after, n);
                assert(l <= 8 * n * new_count(before, after, n));
                assert(r <= 4 * n * new_count(before, after, n));
            } else {
                lemma_no_new(garden.cells(), before, n);
                lemma_marked_grow(before, after, n);
                assert(l == 0 && r == 0);
            }
            assert(8 * n * n <= usize::MAX) by (nonlinear_arith)
                requires 16 * n * n <= usize::MAX;
            assert(4 * n * n <= usize::MAX) by (nonlinear_arith)
                requires 16 * n * n <= usize::MAX;
            lemma_marked_bound(after, n);
            assert(al + l <= 8 * n * marked(after, n)) by (nonlinear_arith)
                requires al <= 8 * n * marked(before, n), l <= 8 * n * new_count(before, after, n),
                    marked(after, n) == marked(before, n) + new_count(before, after, n), n >= 0;
            assert(ar + r <= 4 * n * marked(after, n)) by (nonlinear_arith)
                requires ar <= 4 * n * marked(before, n), r <= 4 * n * new_count(before, after, n),
                    marked(after, n) == marked(before, n) + new_count(before, after, n), n >= 0;
            assert(8 * n * marked(after, n) <= 8 * n * n) by (nonlinear_arith)
                requires marked(after, n) <= n, n >= 0;
            assert(4 * n * marked(after, n) <= 4 * n * n) by (nonlinear_arith)
                requires marked(after, n) <= n, n >= 0;
        }
        al = al + l;
        ar = ar + r;
        k += 1;
    }
    proof {
        lemma_marked_bound(vis.cells(), n);
        assert(8 * n * marked(vis.cells(), n) <= 8 * n * n) by (nonlinear_arith)
            requires marked(vis.cells(), n) <= n, n >= 0;
        assert(4 * n * marked(vis.cells(), n) <= 4 * n * n) by (nonlinear_arith)
            requires marked(vis.cells(), n) <= n, n >= 0;
    }
    proof {
        lemma_price_marks(*garden, vis.cells(), Seq::new(n as nat, |i: int| 1u8), n);
        lemma_price2_marks(*garden, vis.cells(), Seq::new(n as nat, |i: int| 1u8), n);
    }
    (al, ar)
}


/// The garden is small enough for the prices to fit in a `usize`.
pub open spec fn garden_fits(s: Seq<u8>) -> bool {
    grid_of(s) matches Some((w, cells)) ==> 16 * cells.len() * cells.len() <= usize::MAX && cells.len()
        < i32::MAX - 1
}

/// `gr` is the garden read from the text `s`: each plot of the grid `s` holds, with the
/// mask of its fenced sides.
pub open spec fn garden_read(s: Seq<u8>, gr: Grid<u16>) -> bool {
    exists|g: Grid<u8>|
        {
            &&& grid_of(s) == Some((g.width(), g.cells()))
            &&& g.wf()
            &&& gr.wf()
            &&& gr.width() == g.width()
            &&& gr.height() == g.height()
            &&& forall|p: Point| g.inside(p) ==> #[trigger] gr.at(p) == garden_cell(g, p)
        }
}

/// The two fence prices for the garden text, separated by a space.
pub fn run(input: &str) -> (r: Result<String, AocError>)
    requires
        has_content(lines_of(input.spec_bytes())),
        garden_fits(input.spec_bytes()),
    ensures
        match r {
            Ok(out) => grid_of(input.spec_bytes()) is Some && exists|gr: Grid<u16>|
                garden_read(input.spec_bytes(), gr) && out@ == dec(price1(gr)) + " "@ + dec(price2(gr)),
            Err(e) => grid_of(input.spec_bytes()) is None && e == AocError::InvalidInput,
        },
{
    let garden = parse_garden(input)?;
    assert(garden_read(input.spec_bytes(), garden));
    proof {
        let g = choose|g: Grid<u8>|
            {
                &&& grid_of(input.spec_bytes()) == Some((g.width(), g.cells()))
                &&& g.wf()
                &&& garden.wf()
                &&& garden.width() == g.width()
                &&& garden.height() == g.height()
                &&& forall|p: Point| g.inside(p) ==> #[trigger] garden.at(p) == garden_cell(g, p)
            };
        assert(garden.height() <= garden.cells().len()) by (nonlinear_arith)
            requires garden.cells().len() == garden.width() * garden.height(), garden.width() >= 1,
                garden.height() >= 0;
        assert(garden.width() >= 1) by {
            assert(garden.cells().len() > 0 || garden.cells().len() == 0);
        }
    }
    let (s1, s2) = fence_cost(&garden);
    let mut out = String::new();
    push_dec(&mut out, s1 as u64);
    proof { reveal_strlit(" "); }
    push_str(&mut out, " ");
    push_dec(&mut out, s2 as u64);
    proof {
        assert(out@ =~= dec(price1(garden)) + " "@ + dec(price2(garden)));
    }
    Ok(out)
}

} // verus!
