//! Code chronicle: locks and keys drawn as columns of `#`, and the pairs of a key and a lock
//! whose pins do not overlap.

use vstd::prelude::*;
use vstd::string::*;
use crate::error::AocError;
use crate::grid::{grid_of, has_content, Grid, Point};
use crate::text::{lines_of, push_dec, split_pair, split_two, trim, trim_bytes, views};

verus! {

/// A schematic is a key (its top row is empty) or a lock.
#[derive(Debug, Clone, Copy, PartialEq, Eq, Structural)]
pub enum Subj {
    Key,
    Lock,
}

/// The height of the space that pins may fill.
pub const PIN_HEIGHT: u8 = 7;

/// A schematic: whether it is a key or a lock, and the number of `#` in each of its five
/// columns.
#[derive(Debug, Clone, Copy)]
pub struct Schem {
    pub subj: Subj,
    pub pins: [u8; 5],
}

/// The number of cells equal to `c` in column `x` among the first `n` rows.
pub open spec fn column_count(cells: Seq<u8>, w: int, x: int, n: int, c: u8) -> nat
    decreases n,
{
    if n <= 0 {
        0
    } else {
        column_count(cells, w, x, n - 1, c) + if cells[x + (n - 1) * w] == c {
            1nat
        } else {
            0nat
        }
    }
}

/// The schematic a block of text draws: its grid must be five columns wide; each pin is
/// the column's count of `#`, kept modulo 256.
pub open spec fn schem_of(block: Seq<u8>) -> Result<(Subj, Seq<u8>), AocError> {
    match grid_of(block) {
        None => Err(AocError::InvalidInput),
        Some((w, cells)) => if w != 5 {
            Err(AocError::InvalidInput)
        } else {
            Ok(
                (
                    if cells[0] == 46u8 {
                        Subj::Key
                    } else {
                        Subj::Lock
                    },
                    Seq::new(5, |x: int| (column_count(cells, 5, x, (cells.len() / 5) as int, 35u8) % 256) as u8),
                ),
            )
        },
    }
}

impl Schem {
    /// Whether every pin of `self` and of `other` fit together in the height.
    pub fn fits(&self, other: &Self) -> (r: bool)
        requires
            forall|i: int|
                0 <= i < 5 && (forall|j: int| 0 <= j < i ==> self.pins@[j] + other.pins@[j] <= 7) ==> #[trigger] (
                self.pins@[i] + other.pins@[i]) <= 255,
        ensures
            r == forall|i: int| 0 <= i < 5 ==> #[trigger] (self.pins@[i] + other.pins@[i]) <= 7,
    {
        let mut i: usize = 0;
        while i < 5
            invariant
                i <= 5,
                forall|j: int| 0 <= j < i ==> self.pins@[j] + other.pins@[j] <= 7,
                forall|i: int|
                    0 <= i < 5 && (forall|j: int| 0 <= j < i ==> self.pins@[j] + other.pins@[j] <= 7) ==> #[trigger] (
                    self.pins@[i] + other.pins@[i]) <= 255,
            decreases 5 - i,
        {
            assert((self.pins@[i as int] + other.pins@[i as int]) <= 255);
            if self.pins[i] + other.pins[i] > PIN_HEIGHT {
                assert(!((self.pins@[i as int] + other.pins@[i as int]) <= 7));
                return false;
            }
            i += 1;
        }
        true
    }

    /// The schematic a block of text draws.
    pub fn from_str(s: &str) -> (r: Result<Schem, AocError>)
        requires
            has_content(lines_of(s.spec_bytes())),
        ensures
            match r {
                Ok(sc) => schem_of(s.spec_bytes()) == Ok::<(Subj, Seq<u8>), AocError>((sc.subj, sc.pins@)),
                Err(e) => schem_of(s.spec_bytes()) == Err::<(Subj, Seq<u8>), AocError>(e),
            },
    {
        Self::from_bytes(s.as_bytes())
    }

    /// The schematic that the bytes of a block of text draw.
    pub fn from_bytes(s: &[u8]) -> (r: Result<Schem, AocError>)
        requires
            has_content(lines_of(s@)),
        ensures
            match r {
                Ok(sc) => schem_of(s@) == Ok::<(Subj, Seq<u8>), AocError>((sc.subj, sc.pins@)),
                Err(e) => schem_of(s@) == Err::<(Subj, Seq<u8>), AocError>(e),
            },
    {
        let grid = Grid::from_bytes(s)?;
        let (dx, dy) = grid.dimensions();
        if dx != 5 {
            return Err(AocError::InvalidInput);
        }
        let ghost cells = grid.cells();
        proof {
            grid.lemma_inside_index(Point { x: 0, y: 0 });
            assert(grid.height() >= 1) by {
                assert(cells.len() == 5 * grid.height());
                if grid.height() == 0 {
                    assert(cells.len() == 0);
                }
            }
        }
        let first = grid.get(Point::new(0, 0)).unwrap();
        let subj = if first == 46u8 {
            Subj::Key
        } else {
            Subj::Lock
        };
        let mut pins: [u8; 5] = [0u8; 5];
        let mut x: i32 = 0;
        while x < 5
            invariant
                grid.wf(),
                grid.width() == 5,
                dy == grid.height(),
                cells == grid.cells(),
                0 <= x <= 5,
                pins@.len() == 5,
                forall|k: int| 0 <= k < x ==> pins@[k] == (column_count(cells, 5, k, dy as int, 35u8) % 256) as u8,
            decreases 5 - x,
        {
            let mut count: u8 = 0;
            let mut y: i32 = 0;
            while y < dy
                invariant
                    grid.wf(),
                    grid.width() == 5,
                    dy == grid.height(),
                    cells == grid.cells(),
                    0 <= x < 5,
                    0 <= y <= dy,
                    count == column_count(cells, 5, x as int, y as int, 35u8) % 256,
                decreases dy - y,
            {
                let p = Point::new(x, y);
                proof {
                    grid.lemma_inside_index(p);
                }
                let c = grid.get(p).unwrap();
                if c == 35u8 {
                    count = if count == 255 {
                        0
                    } else {
                        count + 1
                    };
                }
                y += 1;
            }
            pins[x as usize] = count;
            x += 1;
        }
        proof {
            assert(cells.len() / 5 == dy as int) by {
                assert(cells.len() == 5 * dy);
            }
            assert(pins@ =~= Seq::new(5, |k: int| (column_count(cells, 5, k, (cells.len() / 5) as int, 35u8) % 256) as u8));
        }
        Ok(Schem { subj: subj, pins: pins })
    }
}

/// The pins of `a` and `b` fit together.
pub open spec fn pins_fit(a: Seq<u8>, b: Seq<u8>) -> bool {
    forall|i: int| 0 <= i < 5 ==> #[trigger] (a[i] + b[i]) <= 7
}

/// Comparing the pins of `a` and `b` in order stays within `u8` until a pair overflows the
/// height.
pub open spec fn pins_comparable(a: Seq<u8>, b: Seq<u8>) -> bool {
    forall|i: int|
        0 <= i < 5 && (forall|j: int| 0 <= j < i ==> a[j] + b[j] <= 7) ==> #[trigger] (a[i] + b[i]) <= 255
}

/// The locks among the first `n` schematics that the key `k` fits.
pub open spec fn locks_fitting(ss: Seq<(Subj, Seq<u8>)>, k: Seq<u8>, n: int) -> nat
    decreases n,
{
    if n <= 0 {
        0
    } else {
        locks_fitting(ss, k, n - 1) + if ss[n - 1].0 == Subj::Lock && pins_fit(k, ss[n - 1].1) {
            1nat
        } else {
            0nat
        }
    }
}

/// The pairs of a key among the first `n` schematics and a lock that it fits.
pub open spec fn fitting_pairs(ss: Seq<(Subj, Seq<u8>)>, n: int) -> nat
    decreases n,
{
    if n <= 0 {
        0
    } else {
        fitting_pairs(ss, n - 1) + if ss[n - 1].0 == Subj::Key {
            locks_fitting(ss, ss[n - 1].1, ss.len() as int)
        } else {
            0nat
        }
    }
}

/// The schematics can be compared, and their pairs counted within `usize`.
pub open spec fn schems_fit(ss: Seq<(Subj, Seq<u8>)>) -> bool {
    &&& forall|i: int, j: int|
        0 <= i < ss.len() && 0 <= j < ss.len() ==> pins_comparable(#[trigger] ss[i].1, #[trigger] ss[j].1)
    &&& ss.len() * ss.len() <= usize::MAX
}

/// The schematics as pairs of plain values.
pub open spec fn schem_views(v: Seq<Schem>) -> Seq<(Subj, Seq<u8>)> {
    Seq::new(v.len(), |i: int| (v[i].subj, v[i].pins@))
}

proof fn lemma_locks_bound(ss: Seq<(Subj, Seq<u8>)>, k: Seq<u8>, n: int)
    requires
        0 <= n,
    ensures
        locks_fitting(ss, k, n) <= n,
    decreases n,
{
    if n > 0 {
        lemma_locks_bound(ss, k, n - 1);
    }
}

proof fn lemma_pairs_bound(ss: Seq<(Subj, Seq<u8>)>, n: int)
    requires
        0 <= n,
    ensures
        fitting_pairs(ss, n) <= n * ss.len(),
    decreases n,
{
    if n > 0 {
        lemma_pairs_bound(ss, n - 1);
        lemma_locks_bound(ss, ss[n - 1].1, ss.len() as int);
        assert((n - 1) * ss.len() + ss.len() == n * ss.len()) by (nonlinear_arith);
    }
}

/// The pairs of a key and a lock that it fits.
pub fn star1(schems: &[Schem]) -> (r: usize)
    requires
        schems_fit(schem_views(schems@)),
    ensures
        r == fitting_pairs(schem_views(schems@), schems@.len() as int),
{
    let ghost ss = schem_views(schems@);
    let n = schems.len();
    let mut sum: usize = 0;
    let mut i: usize = 0;
    while i < n
        invariant
            n == ss.len() == schems@.len(),
            ss == schem_views(schems@),
            schems_fit(ss),
            i <= n,
            sum == fitting_pairs(ss, i as int),
        decreases n - i,
    {
        proof {
            lemma_pairs_bound(ss, i + 1);
            assert((i + 1) * n <= n * n) by (nonlinear_arith)
                requires i + 1 <= n;
        }
        if schems[i].subj == Subj::Key {
            let mut count: usize = 0;
            let mut j: usize = 0;
            while j < n
                invariant
                    n == ss.len() == schems@.len(),
                    ss == schem_views(schems@),
                    schems_fit(ss),
                    i < n,
                    j <= n,
                    count == locks_fitting(ss, ss[i as int].1, j as int),
                    count <= j,
                decreases n - j,
            {
                assert(pins_comparable(ss[i as int].1, ss[j as int].1));
                if schems[j].subj == Subj::Lock && schems[i].fits(&schems[j]) {
                    count += 1;
                }
                j += 1;
            }
            sum = sum + count;
        }
        i += 1;
    }
    sum
}

/// The schematics of the first `k` blocks, or the error of the first block that is not one.
pub open spec fn schems_upto(bs: Seq<Seq<u8>>, k: int) -> Result<Seq<(Subj, Seq<u8>)>, AocError>
    decreases k,
{
    if k <= 0 {
        Ok(seq![])
    } else {
        match schems_upto(bs, k - 1) {
            Err(e) => Err(e),
            Ok(v) => match schem_of(trim(bs[k - 1])) {
                Err(e) => Err(e),
                Ok(x) => Ok(v.push(x)),
            },
        }
    }
}

/// The schematics of the input: blocks separated by an empty line.
pub open spec fn schems_of(input: Seq<u8>) -> Result<Seq<(Subj, Seq<u8>)>, AocError> {
    let bs = split_pair(input, 10u8, 10u8);
    schems_upto(bs, bs.len() as int)
}

/// Every block holds a character once trimmed.
pub open spec fn blocks_ok(input: Seq<u8>) -> bool {
    let bs = split_pair(input, 10u8, 10u8);
    forall|i: int| 0 <= i < bs.len() ==> has_content(lines_of(trim(#[trigger] bs[i])))
}

proof fn lemma_schems_err(bs: Seq<Seq<u8>>, a: int, b: int)
    requires
        0 <= a <= b,
        schems_upto(bs, a) is Err,
    ensures
        schems_upto(bs, b) == schems_upto(bs, a),
    decreases b - a,
{
    if b > a {
        lemma_schems_err(bs, a, b - 1);
    }
}

/// The schematics of the input; the error of the first block that is not one.
pub fn parse_schems(input: &str) -> (r: Result<Vec<Schem>, AocError>)
    requires
        blocks_ok(input.spec_bytes()),
    ensures
        match r {
            Ok(v) => schems_of(input.spec_bytes()) == Ok::<Seq<(Subj, Seq<u8>)>, AocError>(schem_views(v@)),
            Err(e) => schems_of(input.spec_bytes()) == Err::<Seq<(Subj, Seq<u8>)>, AocError>(e),
        },
{
    let bs = split_two(input.as_bytes(), 10u8, 10u8);
    let ghost sb = split_pair(input.spec_bytes(), 10u8, 10u8);
    let mut out: Vec<Schem> = Vec::new();
    let mut i: usize = 0;
    assert(schem_views(out@) =~= Seq::<(Subj, Seq<u8>)>::empty());
    while i < bs.len()
        invariant
            sb == split_pair(input.spec_bytes(), 10u8, 10u8),
            views(bs@) == sb,
            blocks_ok(input.spec_bytes()),
            i <= sb.len(),
            schems_upto(sb, i as int) == Ok::<Seq<(Subj, Seq<u8>)>, AocError>(schem_views(out@)),
        decreases sb.len() - i,
    {
        assert(bs@[i as int]@ == sb[i as int]);
        let t = trim_bytes(bs[i].as_slice());
        assert(has_content(lines_of(trim(sb[i as int]))));
        match Schem::from_bytes(t.as_slice()) {
            Ok(sc) => {
                let ghost before = schem_views(out@);
                out.push(sc);
                assert(schem_views(out@) =~= before.push((sc.subj, sc.pins@)));
            },
            Err(e) => {
                proof {
                    lemma_schems_err(sb, i + 1, sb.len() as int);
                }
                return Err(e);
            },
        }
        i += 1;
    }
    Ok(out)
}

/// The pairs of a key and a lock that it fits.
pub fn run(input: &str) -> (r: Result<String, AocError>)
    requires
        blocks_ok(input.spec_bytes()),
        schems_of(input.spec_bytes()) matches Ok(ss) ==> schems_fit(ss),
    ensures
        match schems_of(input.spec_bytes()) {
            Ok(ss) => r matches Ok(out) && out@ == crate::text::dec(fitting_pairs(ss, ss.len() as int)),
            Err(e) => r == Err::<String, AocError>(e),
        },
{
    let schems = parse_schems(input)?;
    let s1 = star1(schems.as_slice());
    let mut out = String::new();
    push_dec(&mut out, s1 as u64);
    Ok(out)
}

} // verus!
