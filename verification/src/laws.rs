//! Properties that hold across the library's operations.

use vstd::prelude::*;
use vstd::relations::{sorted_by, total_ordering};
use crate::day08::{antinode, antinode1, antinode2, ray};
use crate::day11::{blinks, total_blinks};
use crate::day22::{secret, step};
use crate::day25::pins_fit;
use crate::grid::{dir_of, Dir, Grid, Point};
use crate::quadmap::{write_done, QuadMap};
use crate::sorting::leq_usize;

verus! {

/// Four quarter turns to the right face the way one started.
pub proof fn law_four_rights(d: Dir)
    ensures
        d.spec_right().spec_right().spec_right().spec_right() == d,
{
}

/// A turn to the left undoes a turn to the right, and the other way round.
pub proof fn law_left_undoes_right(d: Dir)
    ensures
        d.spec_right().spec_left() == d,
        d.spec_left().spec_right() == d,
{
}

/// The opposite direction is two turns to the right, and facing about twice changes nothing.
pub proof fn law_opposite(d: Dir)
    ensures
        d.spec_opposite() == d.spec_right().spec_right(),
        d.spec_opposite().spec_opposite() == d,
{
}

/// A step and the step in the opposite direction cancel.
pub proof fn law_opposite_step(d: Dir, x: int)
    ensures
        d.spec_step(x).0 + d.spec_opposite().spec_step(x).0 == 0,
        d.spec_step(x).1 + d.spec_opposite().spec_step(x).1 == 0,
{
}

/// Steps along a direction add up, no step goes nowhere, and a step of a positive count
/// points the way of its direction, one of a negative count the opposite way.
pub proof fn law_step(d: Dir, a: int, b: int)
    ensures
        d.spec_step(a).0 + d.spec_step(b).0 == d.spec_step(a + b).0,
        d.spec_step(a).1 + d.spec_step(b).1 == d.spec_step(a + b).1,
        d.spec_step(0) == (0int, 0int),
        a > 0 ==> dir_of(d.spec_step(a).0, d.spec_step(a).1) == Some(d),
        a < 0 ==> dir_of(d.spec_step(a).0, d.spec_step(a).1) == Some(d.spec_opposite()),
{
}

/// The value of cell `(x, y)` after the writes `ops`, in turn, over cells all `zero`: that
/// of the last write whose region holds the cell, else `zero`.
pub open spec fn last_written<T>(ops: Seq<(spec_fn(int, int) -> bool, T)>, zero: T, x: int, y: int) -> T
    decreases ops.len(),
{
    if ops.len() == 0 {
        zero
    } else if (ops.last().0)(x, y) {
        ops.last().1
    } else {
        last_written(ops.drop_last(), zero, x, y)
    }
}

/// A read gives back the last write: after a new map and any writes, in turn, each cell
/// holds the value most recently written into it, or `zero` where none was, negative
/// coordinates included. `QuadMap::new` gives the first map, each of `at_mut`, `hline` and
/// `vline` ensures `write_done` from one map to the next for the region it writes, and
/// `at` reads `cell` and changes nothing.
pub proof fn law_read_after_writes<T: Copy>(
    ms: Seq<QuadMap<T>>,
    ops: Seq<(spec_fn(int, int) -> bool, T)>,
    zero: T,
    x: int,
    y: int,
)
    requires
        ms.len() == ops.len() + 1,
        forall|a: int, b: int| #[trigger] ms[0].cell(a, b) == zero,
        forall|i: int| 0 <= i < ops.len() ==> write_done(ms[i], (#[trigger] ops[i]).0, ops[i].1, ms[i + 1]),
        i32::MIN <= x <= i32::MAX,
        i32::MIN <= y <= i32::MAX,
    ensures
        ms.last().cell(x, y) == last_written(ops, zero, x, y),
    decreases ops.len(),
{
    if ops.len() > 0 {
        let n = ops.len() - 1;
        let ms2 = ms.drop_last();
        let ops2 = ops.drop_last();
        assert forall|i: int| 0 <= i < ops2.len() implies write_done(ms2[i], (#[trigger] ops2[i]).0, ops2[i].1, ms2[i + 1]) by {
            assert(ops2[i] == ops[i]);
            assert(write_done(ms[i], ops[i].0, ops[i].1, ms[i + 1]));
        }
        assert(ms2[0] == ms[0]);
        law_read_after_writes(ms2, ops2, zero, x, y);
        assert(write_done(ms[n], ops[n].0, ops[n].1, ms[n + 1]));
        assert(ms.last() == ms[n + 1]);
    }
}

/// The cell index of a point on the grid and the point of an index undo each other.
pub proof fn law_index_roundtrip<T>(g: Grid<T>, p: Point, i: int)
    requires
        g.wf(),
    ensures
        g.inside(p) ==> g.pos_of(g.index_of(p)) == p && 0 <= g.index_of(p) < g.cells().len(),
        0 <= i < g.cells().len() ==> g.inside(g.pos_of(i)) && g.index_of(g.pos_of(i)) == i,
{
    if g.inside(p) {
        g.lemma_pos_index(p);
    }
    if 0 <= i < g.cells().len() {
        g.lemma_pos_of(i);
    }
}

/// Sorting a sorted list changes nothing.
pub proof fn law_sort_sorted(s: Seq<usize>)
    requires
        sorted_by(s, leq_usize()),
    ensures
        s.sort_by(leq_usize()) == s,
{
    assert(total_ordering(leq_usize()));
    s.lemma_sort_by_ensures(leq_usize());
    vstd::seq_lib::lemma_sorted_unique(s.sort_by(leq_usize()), s, leq_usize());
}

/// Sorting twice sorts once.
pub proof fn law_sort_idempotent(s: Seq<usize>)
    ensures
        s.sort_by(leq_usize()).sort_by(leq_usize()) == s.sort_by(leq_usize()),
{
    assert(total_ordering(leq_usize()));
    s.lemma_sort_by_ensures(leq_usize());
    law_sort_sorted(s.sort_by(leq_usize()));
}

/// Stones change independently: the stones that two rows side by side become are those
/// of each row, added.
pub proof fn law_rows_add(a: Seq<u64>, b: Seq<u64>, n: nat)
    ensures
        total_blinks(a + b, n, (a + b).len() as int) == total_blinks(a, n, a.len() as int) + total_blinks(
            b,
            n,
            b.len() as int,
        ),
    decreases b.len(),
{
    if b.len() > 0 {
        let b1 = b.drop_last();
        law_rows_add(a, b1, n);
        assert((a + b).drop_last() =~= a + b1);
        lemma_total_prefix(a + b, n, (a + b).len() - 1);
        lemma_total_prefix(b, n, b.len() - 1);
    }
}

proof fn lemma_total_prefix(s: Seq<u64>, n: nat, k: int)
    requires
        0 <= k <= s.len(),
    ensures
        total_blinks(s, n, k) == total_blinks(s.take(k), n, k),
    decreases k,
{
    if k > 0 {
        lemma_total_prefix(s, n, k - 1);
        lemma_total_prefix(s.take(k), n, k - 1);
        assert(s.take(k).take(k - 1) =~= s.take(k - 1));
    }
}

/// Every secret after the first is below `2^24`.
pub proof fn law_secret_pruned(s0: u32, n: nat)
    requires
        n >= 1,
    ensures
        secret(s0, n) < 0x1000000,
{
    let s = secret(s0, (n - 1) as nat);
    let a = (s ^ (s << 6u32)) & 0xffffffu32;
    let b = (a ^ (a >> 5u32)) & 0xffffffu32;
    assert((b ^ (b << 11u32)) & 0xffffffu32 < 0x1000000) by (bit_vector);
}

/// A key fits a lock exactly when the lock fits the key.
pub proof fn law_fit_symmetric(a: Seq<u8>, b: Seq<u8>)
    ensures
        pins_fit(a, b) == pins_fit(b, a),
{
    assert(pins_fit(a, b) ==> pins_fit(b, a)) by {
        if pins_fit(a, b) {
            assert forall|i: int| 0 <= i < 5 implies #[trigger] (b[i] + a[i]) <= 7 by {
                assert(a[i] + b[i] <= 7);
            }
        }
    }
    assert(pins_fit(b, a) ==> pins_fit(a, b)) by {
        if pins_fit(b, a) {
            assert forall|i: int| 0 <= i < 5 implies #[trigger] (a[i] + b[i]) <= 7 by {
                assert(b[i] + a[i] <= 7);
            }
        }
    }
}

/// The antinodes of a pair of antennas do not depend on the order of the pair.
pub proof fn law_antinode_symmetric(a: (int, int), b: (int, int), q: (int, int), second: bool)
    ensures
        antinode(a, b, q, second) == antinode(b, a, q, second),
{
    if second {
        if antinode2(a, b, q) {
            let k = choose|k: nat| #![trigger ray(a, b, k as int)] #![trigger ray(b, a, k as int)]
                q == ray(a, b, k as int) || q == ray(b, a, k as int);
            assert(q == ray(b, a, k as int) || q == ray(a, b, k as int));
        }
        if antinode2(b, a, q) {
            let k = choose|k: nat| #![trigger ray(b, a, k as int)] #![trigger ray(a, b, k as int)]
                q == ray(b, a, k as int) || q == ray(a, b, k as int);
            assert(q == ray(a, b, k as int) || q == ray(b, a, k as int));
        }
    }
}

/// The second kind of antinode includes both antennas and the first kind.
pub proof fn law_antinode_kinds(a: (int, int), b: (int, int), q: (int, int))
    ensures
        antinode2(a, b, a),
        antinode2(a, b, b),
        antinode1(a, b, q) ==> antinode2(a, b, q),
{
    assert(ray(a, b, 0) == a);
    assert(ray(b, a, 0) == b);
    if antinode1(a, b, q) {
        assert(ray(a, b, 1) == (2 * a.0 - b.0, 2 * a.1 - b.1));
        assert(ray(b, a, 1) == (2 * b.0 - a.0, 2 * b.1 - a.1));
    }
}

} // verus!
