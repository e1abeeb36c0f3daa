//! An unbounded two-dimensional map of cells, stored in blocks of 16 by 16 cells that
//! are made when first written, and the bounding box of the cells written.

use vstd::prelude::*;
use std::collections::HashMap;

verus! {

broadcast use vstd::std_specs::hash::group_hash_axioms;

/// A rectangle of cells, `min` included and `max` excluded; empty while it has no width
/// or no height.
#[derive(Debug, Clone, Copy)]
pub struct Bounds {
    pub min: (i32, i32),
    pub max: (i32, i32),
}

pub open spec fn spec_min(a: i32, b: i32) -> i32 {
    if a <= b { a } else { b }
}

pub open spec fn spec_max(a: i32, b: i32) -> i32 {
    if a >= b { a } else { b }
}

impl Bounds {
    pub open spec fn empty(&self) -> bool {
        self.min.0 == self.max.0 || self.min.1 == self.max.1
    }

    /// The bounds once the cell `p` is in them.
    pub open spec fn extended(self, p: (i32, i32)) -> Bounds {
        if self.empty() {
            Bounds { min: p, max: ((p.0 + 1) as i32, (p.1 + 1) as i32) }
        } else {
            Bounds {
                min: (spec_min(self.min.0, p.0), spec_min(self.min.1, p.1)),
                max: (spec_max(self.max.0, (p.0 + 1) as i32), spec_max(self.max.1, (p.1 + 1) as i32)),
            }
        }
    }

    /// Empty bounds at the origin.
    pub fn new() -> (r: Bounds)
        ensures
            r == (Bounds { min: (0i32, 0i32), max: (0i32, 0i32) }),
    {
        Bounds { min: (0, 0), max: (0, 0) }
    }

    /// Whether the bounds hold no cell.
    pub fn is_empty(&self) -> (r: bool)
        ensures
            r == self.empty(),
    {
        self.min.0 == self.max.0 || self.min.1 == self.max.1
    }

    /// Grows the bounds to take in the cell `p`; empty bounds become that one cell.
    pub fn extend_one(&mut self, p: (i32, i32))
        requires
            p.0 < i32::MAX,
            p.1 < i32::MAX,
        ensures
            *final(self) == old(self).extended(p),
    {
        if self.is_empty() {
            self.min = p;
            self.max = (p.0 + 1, p.1 + 1);
        } else {
            self.min.0 = if self.min.0 <= p.0 { self.min.0 } else { p.0 };
            self.min.1 = if self.min.1 <= p.1 { self.min.1 } else { p.1 };
            self.max.0 = if self.max.0 >= p.0 + 1 { self.max.0 } else { p.0 + 1 };
            self.max.1 = if self.max.1 >= p.1 + 1 { self.max.1 } else { p.1 + 1 };
        }
    }
}

/// The key of the block with block coordinates `bx`, `by`.
pub open spec fn block_key(bx: int, by: int) -> u64 {
    ((bx + 0x800_0000) * 0x1000_0000 + (by + 0x800_0000)) as u64
}

/// The place of cell `(x, y)` in its block.
pub open spec fn offset(x: int, y: int) -> int {
    x % 16 + 16 * (y % 16)
}

/// The block coordinates and the place in the block of cell `p`.
fn mpos(p: (i32, i32)) -> (r: (u64, usize))
    ensures
        r.0 == block_key(p.0 / 16, p.1 / 16),
        r.1 == offset(p.0 as int, p.1 as int),
        r.1 < 256,
{
    let bx = div16(p.0);
    let by = div16(p.1);
    let ox = (p.0 as i64 - 16 * bx) as usize;
    let oy = (p.1 as i64 - 16 * by) as usize;
    let key = ((bx + 0x800_0000) as u64) * 0x1000_0000u64 + ((by + 0x800_0000) as u64);
    (key, ox + 16 * oy)
}

/// `x` divided by 16, rounded down.
fn div16(x: i32) -> (r: i64)
    ensures
        r == x / 16,
        -0x800_0000 <= r < 0x800_0000,
        0 <= x - 16 * r < 16,
{
    if x >= 0 {
        (x / 16) as i64
    } else {
        let q = (-(x as i64 + 1)) / 16;
        proof {
            assert(-q - 1 == x / 16 && 0 <= x - 16 * (-q - 1) < 16) by (nonlinear_arith)
                requires x < 0, q == (-(x + 1)) / 16;
        }
        -q - 1
    }
}

pub proof fn lemma_key_inj(a: int, b: int, c: int, d: int)
    requires
        -0x800_0000 <= a < 0x800_0000,
        -0x800_0000 <= b < 0x800_0000,
        -0x800_0000 <= c < 0x800_0000,
        -0x800_0000 <= d < 0x800_0000,
        block_key(a, b) == block_key(c, d),
    ensures
        a == c && b == d,
{
    assert(a == c && b == d) by (nonlinear_arith)
        requires
            -0x800_0000 <= a < 0x800_0000,
            -0x800_0000 <= b < 0x800_0000,
            -0x800_0000 <= c < 0x800_0000,
            -0x800_0000 <= d < 0x800_0000,
            (a + 0x800_0000) * 0x1000_0000 + (b + 0x800_0000) == (c + 0x800_0000) * 0x1000_0000 + (d
                + 0x800_0000);
}

/// The cells `region` of `after` hold `v` and the others what `before` held: what a
/// write by `at_mut`, `hline` or `vline` makes of the map.
pub open spec fn write_done<T: Copy>(before: QuadMap<T>, region: spec_fn(int, int) -> bool, v: T, after: QuadMap<T>) -> bool {
    forall|x: int, y: int|
        i32::MIN <= x <= i32::MAX && i32::MIN <= y <= i32::MAX ==> #[trigger] after.cell(x, y) == (if region(x, y) {
            v
        } else {
            before.cell(x, y)
        })
}

/// The region that `at_mut` at `p` writes.
pub open spec fn cell_region(p: (i32, i32)) -> spec_fn(int, int) -> bool {
    |x: int, y: int| x == p.0 && y == p.1
}

/// The region that `hline(x0, x1, y, ..)` writes.
pub open spec fn row_region(x0: i32, x1: i32, y: i32) -> spec_fn(int, int) -> bool {
    |x: int, yy: int| yy == y && spec_min(x0, x1) <= x <= spec_max(x0, x1)
}

/// The region that `vline(x, y0, y1, ..)` writes.
pub open spec fn col_region(x: i32, y0: i32, y1: i32) -> spec_fn(int, int) -> bool {
    |xx: int, y: int| xx == x && spec_min(y0, y1) <= y <= spec_max(y0, y1)
}

/// An unbounded map of cells, each `zero` until written.
pub struct QuadMap<T> {
    zero: T,
    m: HashMap<u64, Vec<T>>,
    bounds: Bounds,
}

impl<T: Copy> QuadMap<T> {
    pub closed spec fn wf(&self) -> bool {
        forall|k: u64| #[trigger] self.m@.contains_key(k) ==> self.m@[k]@.len() == 256
    }

    /// The cell at `(x, y)`.
    pub closed spec fn cell(&self, x: int, y: int) -> T {
        let k = block_key(x / 16, y / 16);
        if self.m@.contains_key(k) {
            self.m@[k]@[offset(x, y)]
        } else {
            self.zero
        }
    }

    /// The bounding box of the cells written.
    pub closed spec fn spec_bounds(&self) -> Bounds {
        self.bounds
    }

    /// A map with every cell `zero` and empty bounds.
    pub fn new(zero: T) -> (r: QuadMap<T>)
        ensures
            r.wf(),
            forall|x: int, y: int| #[trigger] r.cell(x, y) == zero,
            r.spec_bounds() == Bounds::new_spec(),
    {
        QuadMap { zero, m: HashMap::new(), bounds: Bounds::new() }
    }

    /// The cell at `p`.
    pub fn at(&self, p: (i32, i32)) -> (r: T)
        requires
            self.wf(),
        ensures
            r == self.cell(p.0 as int, p.1 as int),
    {
        let (k, o) = mpos(p);
        match self.m.get(&k) {
            Some(v) => v[o],
            None => self.zero,
        }
    }

    /// Writes `v` into the cell at `p`, and takes it into the bounds.
    pub fn at_mut(&mut self, p: (i32, i32), v: T)
        requires
            old(self).wf(),
            p.0 < i32::MAX,
            p.1 < i32::MAX,
        ensures
            final(self).wf(),
            forall|x: int, y: int|
                i32::MIN <= x <= i32::MAX && i32::MIN <= y <= i32::MAX ==> #[trigger] final(self).cell(x, y) == (
                if x == p.0 && y == p.1 {
                    v
                } else {
                    old(self).cell(x, y)
                }),
            final(self).spec_bounds() == old(self).spec_bounds().extended(p),
            write_done(*old(self), cell_region(p), v, *final(self)),
    {
        self.bounds.extend_one(p);
        let (k, o) = mpos(p);
        let ghost old_m = self.m@;
        let mut block = match self.m.remove(&k) {
            Some(b) => b,
            None => {
                let mut b: Vec<T> = Vec::new();
                let mut i: usize = 0;
                while i < 256
                    invariant
                        i <= 256,
                        b@.len() == i,
                        forall|j: int| 0 <= j < i ==> b@[j] == self.zero,
                    decreases 256 - i,
                {
                    b.push(self.zero);
                    i += 1;
                }
                b
            },
        };
        proof {
            assert(block@.len() == 256);
        }
        let ghost before = block@;
        block.set(o, v);
        self.m.insert(k, block);
        proof {
            assert forall|x: int, y: int|
                i32::MIN <= x <= i32::MAX && i32::MIN <= y <= i32::MAX implies #[trigger] self.cell(x, y) == (
                if x == p.0 && y == p.1 {
                    v
                } else {
                    old(self).cell(x, y)
                }) by {
                let kk = block_key(x / 16, y / 16);
                {
                    assert(-0x800_0000 <= x / 16 < 0x800_0000 && -0x800_0000 <= y / 16 < 0x800_0000) by (nonlinear_arith)
                        requires i32::MIN <= x <= i32::MAX, i32::MIN <= y <= i32::MAX;
                    assert(-0x800_0000 <= p.0 / 16 < 0x800_0000 && -0x800_0000 <= p.1 / 16 < 0x800_0000) by (nonlinear_arith)
                        requires i32::MIN <= p.0 <= i32::MAX, i32::MIN <= p.1 <= i32::MAX;
                    if kk == k {
                        lemma_key_inj(x / 16, y / 16, p.0 / 16, p.1 / 16);
                        assert(0 <= offset(x, y) < 256) by (nonlinear_arith);
                        if offset(x, y) == offset(p.0 as int, p.1 as int) {
                            assert(x == p.0 && y == p.1) by (nonlinear_arith)
                                requires x / 16 == p.0 / 16, y / 16 == p.1 / 16, x % 16 + 16 * (y % 16) == p.0 % 16 + 16 * (p.1 % 16);
                        }
                    }
                }
            }
        }
    }

    /// The bounding box of the cells written.
    pub fn bounds(&self) -> (r: Bounds)
        ensures
            r == self.spec_bounds(),
    {
        self.bounds
    }
}

/// The two values, the smaller first.
fn lohi(a: i32, b: i32) -> (r: (i32, i32))
    ensures
        r == (if a <= b { (a, b) } else { (b, a) }),
{
    if a <= b {
        (a, b)
    } else {
        (b, a)
    }
}

/// The bounds after taking in the cells of row `y` from column `lo` to `hi`, in order.
pub open spec fn hline_bounds(b: Bounds, lo: int, hi: int, y: i32) -> Bounds
    decreases hi - lo + 1,
{
    if hi < lo {
        b
    } else {
        hline_bounds(b, lo, hi - 1, y).extended((hi as i32, y))
    }
}

/// The bounds after taking in the cells of column `x` from row `lo` to `hi`, in order.
pub open spec fn vline_bounds(b: Bounds, x: i32, lo: int, hi: int) -> Bounds
    decreases hi - lo + 1,
{
    if hi < lo {
        b
    } else {
        vline_bounds(b, x, lo, hi - 1).extended((x, hi as i32))
    }
}

impl<T: Copy> QuadMap<T> {
    /// Writes `item` into the cells of row `y` between columns `x0` and `x1`, both included.
    pub fn hline(&mut self, x0: i32, x1: i32, y: i32, item: &T)
        requires
            old(self).wf(),
            x0 < i32::MAX,
            x1 < i32::MAX,
            y < i32::MAX,
        ensures
            final(self).wf(),
            forall|x: int, yy: int|
                i32::MIN <= x <= i32::MAX && i32::MIN <= yy <= i32::MAX ==> #[trigger] final(self).cell(x, yy)
                    == (if yy == y && spec_min(x0, x1) <= x <= spec_max(x0, x1) {
                    *item
                } else {
                    old(self).cell(x, yy)
                }),
            final(self).spec_bounds() == hline_bounds(old(self).spec_bounds(), spec_min(x0, x1) as int, spec_max(x0, x1) as int, y),
            write_done(*old(self), row_region(x0, x1, y), *item, *final(self)),
    {
        let (lo, hi) = lohi(x0, x1);
        let mut x = lo;
        while x <= hi
            invariant
                self.wf(),
                lo <= x <= hi + 1,
                hi < i32::MAX,
                y < i32::MAX,
                lo == spec_min(x0, x1) && hi == spec_max(x0, x1),
                forall|xx: int, yy: int|
                    i32::MIN <= xx <= i32::MAX && i32::MIN <= yy <= i32::MAX ==> #[trigger] self.cell(xx, yy)
                        == (if yy == y && lo <= xx < x {
                        *item
                    } else {
                        old(self).cell(xx, yy)
                    }),
                self.spec_bounds() == hline_bounds(old(self).spec_bounds(), lo as int, x - 1, y),
            decreases hi - x + 1,
        {
            self.at_mut((x, y), *item);
            x += 1;
        }
    }

    /// Writes `item` into the cells of column `x` between rows `y0` and `y1`, both included.
    pub fn vline(&mut self, x: i32, y0: i32, y1: i32, item: &T)
        requires
            old(self).wf(),
            x < i32::MAX,
            y0 < i32::MAX,
            y1 < i32::MAX,
        ensures
            final(self).wf(),
            forall|xx: int, y: int|
                i32::MIN <= xx <= i32::MAX && i32::MIN <= y <= i32::MAX ==> #[trigger] final(self).cell(xx, y)
                    == (if xx == x && spec_min(y0, y1) <= y <= spec_max(y0, y1) {
                    *item
                } else {
                    old(self).cell(xx, y)
                }),
            final(self).spec_bounds() == vline_bounds(old(self).spec_bounds(), x, spec_min(y0, y1) as int, spec_max(y0, y1) as int),
            write_done(*old(self), col_region(x, y0, y1), *item, *final(self)),
    {
        let (lo, hi) = lohi(y0, y1);
        let mut y = lo;
        while y <= hi
            invariant
                self.wf(),
                lo <= y <= hi + 1,
                hi < i32::MAX,
                x < i32::MAX,
                lo == spec_min(y0, y1) && hi == spec_max(y0, y1),
                forall|xx: int, yy: int|
                    i32::MIN <= xx <= i32::MAX && i32::MIN <= yy <= i32::MAX ==> #[trigger] self.cell(xx, yy)
                        == (if xx == x && lo <= yy < y {
                        *item
                    } else {
                        old(self).cell(xx, yy)
                    }),
                self.spec_bounds() == vline_bounds(old(self).spec_bounds(), x, lo as int, y - 1),
            decreases hi - y + 1,
        {
            self.at_mut((x, y), *item);
            y += 1;
        }
    }
}

impl Bounds {
    pub open spec fn new_spec() -> Bounds {
        Bounds { min: (0i32, 0i32), max: (0i32, 0i32) }
    }
}

} // verus!
