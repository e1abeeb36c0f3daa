//! Print queue: page ordering rules `x|y` (page `x` goes before page `y`), the updates
//! already in order, and the middle page of each other update once reordered.

use vstd::prelude::*;
use vstd::string::*;
use crate::bits::{bit_set, lemma_bit, lemma_disjoint, lemma_zero_bit};
use crate::error::AocError;
use crate::text::{
    lines, lines_of, parse_i32, parse_i64, push_dec, push_str, signed_in, split, split_on, split_once,
    split_once_byte, trim, trim_bytes, views,
};

verus! {

/// The ordering rules and the updates.
pub struct PrintJob {
    pub ord: Vec<(i32, i32)>,
    pub upd: Vec<Vec<i32>>,
}

/// A rule says that page `x` goes before page `y`.
pub open spec fn rule(ord: Seq<(i32, i32)>, x: int, y: int) -> bool {
    exists|i: int| 0 <= i < ord.len() && #[trigger] ord[i] == (x as i32, y as i32) && -0x8000_0000 <= x
        < 0x8000_0000 && -0x8000_0000 <= y < 0x8000_0000
}

/// No page comes after a page that a rule puts after it.
pub open spec fn in_order(ord: Seq<(i32, i32)>, pr: Seq<i32>) -> bool {
    forall|i: int, j: int| 0 <= i < j < pr.len() ==> !rule(ord, #[trigger] pr[j] as int, #[trigger] pr[i] as int)
}

/// The pages of `pr` that a rule puts after `m`.
pub open spec fn later(ord: Seq<(i32, i32)>, pr: Seq<i32>, m: i32) -> Set<i32> {
    pr.to_set().filter(|p: i32| rule(ord, m as int, p as int))
}

/// The page of `pr` that the sorting leaves in the middle: the one with as many pages that
/// the rules put after it as half the length of the update.
pub open spec fn reordered_middle(ord: Seq<(i32, i32)>, pr: Seq<i32>) -> i32 {
    choose|m: i32| pr.contains(m) && later(ord, pr, m).len() == pr.len() / 2
}

/// The rules name pages below 100 before pages below 128.
pub open spec fn rules_ok(ord: Seq<(i32, i32)>) -> bool {
    forall|i: int| 0 <= i < ord.len() ==> 0 <= (#[trigger] ord[i]).0 < 100 && 0 <= ord[i].1 < 128
}

/// An update that can be judged: pages below 100, and, where it is out of order, distinct
/// pages with one rule between every two of them, none for a page and itself, and rules that
/// chain.
pub open spec fn update_ok(ord: Seq<(i32, i32)>, pr: Seq<i32>) -> bool {
    &&& pr.len() >= 1
    &&& forall|i: int| 0 <= i < pr.len() ==> 0 <= #[trigger] pr[i] < 100
    &&& !in_order(ord, pr) ==> tournament(ord, pr)
}

/// The pages of `pr` are distinct, every two of them have exactly one rule between them,
/// no page has a rule with itself, and the rules chain.
pub open spec fn tournament(ord: Seq<(i32, i32)>, pr: Seq<i32>) -> bool {
    &&& pr.no_duplicates()
    &&& forall|x: i32, y: i32|
        #[trigger] pr.contains(x) && #[trigger] pr.contains(y) && x != y ==> rule(ord, x as int, y as int) != rule(
            ord,
            y as int,
            x as int,
        )
    &&& forall|x: i32| #[trigger] pr.contains(x) ==> !rule(ord, x as int, x as int)
    &&& forall|a: i32, b: i32, c: i32|
        pr.contains(a) && pr.contains(b) && pr.contains(c) && #[trigger] rule(ord, a as int, b as int)
            && #[trigger] rule(ord, b as int, c as int) ==> rule(ord, a as int, c as int)
}

/// The middle pages of the first `k` updates that are in order, and of the others once
/// reordered, summed.
pub open spec fn sums(ord: Seq<(i32, i32)>, upd: Seq<Seq<i32>>, k: int) -> (int, int)
    decreases k,
{
    if k <= 0 {
        (0, 0)
    } else {
        let (a, b) = sums(ord, upd, k - 1);
        let pr = upd[k - 1];
        if in_order(ord, pr) {
            (a + pr[(pr.len() / 2) as int], b)
        } else {
            (a, b + reordered_middle(ord, pr))
        }
    }
}

/// The job can be worked: rules and updates as `rules_ok` and `update_ok` say, and not more
/// updates than the sums can hold.
pub open spec fn job_ok(ord: Seq<(i32, i32)>, upd: Seq<Seq<i32>>) -> bool {
    &&& rules_ok(ord)
    &&& forall|i: int| 0 <= i < upd.len() ==> update_ok(ord, #[trigger] upd[i])
    &&& upd.len() <= usize::MAX / 100
}

/// For each page below 100, the set of pages that rules put after it.
fn pages_after_of(ord: &Vec<(i32, i32)>) -> (pa: Vec<u128>)
    requires
        rules_ok(ord@),
    ensures
        pa@.len() == 100,
        forall|x: int, y: int| 0 <= x < 100 && 0 <= y < 128 ==> #[trigger] bit_set(pa@[x], y) == rule(ord@, x, y),
{
    let mut pa: Vec<u128> = Vec::new();
    while pa.len() < 100
        invariant
            pa@.len() <= 100,
            forall|x: int| 0 <= x < pa@.len() ==> pa@[x] == 0,
        decreases 100 - pa@.len(),
    {
        pa.push(0);
    }
    proof {
        assert forall|x: int, y: int| 0 <= x < 100 && 0 <= y < 128 implies !#[trigger] bit_set(pa@[x], y) by {
            lemma_zero_bit(y as u128);
        }
    }
    let mut i: usize = 0;
    while i < ord.len()
        invariant
            rules_ok(ord@),
            pa@.len() == 100,
            i <= ord@.len(),
            forall|x: int, y: int|
                0 <= x < 100 && 0 <= y < 128 ==> #[trigger] bit_set(pa@[x], y) == exists|k: int|
                    0 <= k < i && #[trigger] ord@[k] == (x as i32, y as i32),
        decreases ord@.len() - i,
    {
        let (x, y) = ord[i];
        assert(0 <= ord@[i as int].0 < 100 && 0 <= ord@[i as int].1 < 128);
        let xi = x as usize;
        let v = pa[xi] | (1u128 << (y as u128));
        let ghost before = pa@;
        pa.set(xi, v);
        proof {
            assert forall|a: int, b: int| 0 <= a < 100 && 0 <= b < 128 implies #[trigger] bit_set(pa@[a], b)
                == exists|k: int| 0 <= k < i + 1 && #[trigger] ord@[k] == (a as i32, b as i32) by {
                assert(bit_set(before[a], b) == exists|k: int| 0 <= k < i && #[trigger] ord@[k] == (a as i32, b as i32));
                if a == xi {
                    lemma_bit(before[a], y as u128, b as u128);
                    if b == y {
                        assert(ord@[i as int] == (a as i32, b as i32));
                    } else {
                        if exists|k: int| 0 <= k < i + 1 && #[trigger] ord@[k] == (a as i32, b as i32) {
                            let k = choose|k: int| 0 <= k < i + 1 && #[trigger] ord@[k] == (a as i32, b as i32);
                            assert(k != i);
                        }
                    }
                } else {
                    if exists|k: int| 0 <= k < i + 1 && #[trigger] ord@[k] == (a as i32, b as i32) {
                        let k = choose|k: int| 0 <= k < i + 1 && #[trigger] ord@[k] == (a as i32, b as i32);
                        assert(k != i);
                    }
                }
            }
        }
        i += 1;
    }
    proof {
        assert forall|x: int, y: int| 0 <= x < 100 && 0 <= y < 128 implies #[trigger] bit_set(pa@[x], y) == rule(
            ord@,
            x,
            y,
        ) by {
            if bit_set(pa@[x], y) {
                let k = choose|k: int| 0 <= k < ord@.len() && #[trigger] ord@[k] == (x as i32, y as i32);
                assert(rule(ord@, x, y));
            }
            if rule(ord@, x, y) {
                let k = choose|k: int|
                    0 <= k < ord@.len() && #[trigger] ord@[k] == (x as i32, y as i32) && -0x8000_0000 <= x
                        < 0x8000_0000 && -0x8000_0000 <= y < 0x8000_0000;
                assert(ord@[k] == (x as i32, y as i32));
            }
        }
    }
    pa
}

/// Whether no page of `pr` comes after a page that a rule puts after it.
fn order_ok(pa: &Vec<u128>, pr: &Vec<i32>, Ghost(ord): Ghost<Seq<(i32, i32)>>) -> (r: bool)
    requires
        pa@.len() == 100,
        forall|x: int, y: int| 0 <= x < 100 && 0 <= y < 128 ==> #[trigger] bit_set(pa@[x], y) == rule(ord, x, y),
        forall|i: int| 0 <= i < pr@.len() ==> 0 <= #[trigger] pr@[i] < 100,
    ensures
        r == in_order(ord, pr@),
{
    let mut preds: u128 = 0;
    let mut j: usize = 0;
    proof {
        assert forall|p: int| 0 <= p < 128 implies !#[trigger] bit_set(preds, p) by {
            lemma_zero_bit(p as u128);
        }
    }
    while j < pr.len()
        invariant
            pa@.len() == 100,
            forall|x: int, y: int| 0 <= x < 100 && 0 <= y < 128 ==> #[trigger] bit_set(pa@[x], y) == rule(ord, x, y),
            forall|i: int| 0 <= i < pr@.len() ==> 0 <= #[trigger] pr@[i] < 100,
            j <= pr@.len(),
            forall|p: int| 0 <= p < 128 ==> #[trigger] bit_set(preds, p) == exists|i: int| 0 <= i < j && pr@[i] == p,
            forall|i: int, k: int| 0 <= i < k < j ==> !rule(ord, #[trigger] pr@[k] as int, #[trigger] pr@[i] as int),
        decreases pr@.len() - j,
    {
        let n = pr[j];
        let after = pa[n as usize];
        proof {
            lemma_disjoint(after, preds);
        }
        if after & preds != 0 {
            proof {
                let p = choose|p: int| 0 <= p < 128 && !!(#[trigger] bit_set(after, p) && bit_set(preds, p));
                let i = choose|i: int| 0 <= i < j && pr@[i] == p;
                assert(rule(ord, pr@[j as int] as int, pr@[i] as int));
            }
            return false;
        }
        let ghost before = preds;
        preds = preds | (1u128 << (n as u128));
        proof {
            assert forall|p: int| 0 <= p < 128 implies #[trigger] bit_set(preds, p) == exists|i: int|
                0 <= i < j + 1 && pr@[i] == p by {
                assert(bit_set(before, p) == exists|i: int| 0 <= i < j && pr@[i] == p);
                lemma_bit(before, n as u128, p as u128);
                if p == n {
                    assert(pr@[j as int] == p);
                } else if exists|i: int| 0 <= i < j + 1 && pr@[i] == p {
                    let i = choose|i: int| 0 <= i < j + 1 && pr@[i] == p;
                    assert(i != j);
                }
            }
            assert forall|i: int, k: int| 0 <= i < k < j + 1 implies !rule(ord, #[trigger] pr@[k] as int, #[trigger] pr@[i] as int) by {
                if k == j {
                    assert(bit_set(preds, pr@[i] as int) || true);
                    assert(bit_set(before, pr@[i] as int));
                    assert(!(bit_set(after, pr@[i] as int) && bit_set(before, pr@[i] as int)));
                }
            }
        }
        j += 1;
    }
    true
}

broadcast use vstd::seq_lib::group_to_multiset_ensures, vstd::multiset::group_multiset_axioms;

/// `v` is in the order that the sorting gives: each page after one that a rule puts after it.
pub open spec fn reversed(ord: Seq<(i32, i32)>, v: Seq<i32>, lo: int, hi: int) -> bool {
    forall|a: int, b: int| lo <= a < b < hi ==> rule(ord, #[trigger] v[b] as int, #[trigger] v[a] as int)
}

/// Compares two pages as the sorting does: `-1` where a rule puts `y` before `x`, `1` where
/// one puts `x` before `y`, `0` where rules go both ways.
fn page_order(pa: &Vec<u128>, x: i32, y: i32, Ghost(ord): Ghost<Seq<(i32, i32)>>) -> (r: i8)
    requires
        pa@.len() == 100,
        forall|a: int, b: int| 0 <= a < 100 && 0 <= b < 128 ==> #[trigger] bit_set(pa@[a], b) == rule(ord, a, b),
        0 <= x < 100,
        0 <= y < 100,
        rule(ord, x as int, y as int) || rule(ord, y as int, x as int),
    ensures
        r == -1 <==> !rule(ord, x as int, y as int) && rule(ord, y as int, x as int),
        r == 1 <==> rule(ord, x as int, y as int) && !rule(ord, y as int, x as int),
        r == 0 <==> rule(ord, x as int, y as int) && rule(ord, y as int, x as int),
{
    let x_less = pa[x as usize] & (1u128 << (y as u128)) == 0;
    let y_less = pa[y as usize] & (1u128 << (x as u128)) == 0;
    assert(bit_set(pa@[x as int], y as int) == rule(ord, x as int, y as int));
    assert(bit_set(pa@[y as int], x as int) == rule(ord, y as int, x as int));
    if !x_less && !y_less {
        0
    } else if x_less && !y_less {
        -1
    } else {
        1
    }
}

/// The pages of `pr`, sorted so that a page that a rule puts after another comes first.
fn reorder(pa: &Vec<u128>, pr: &Vec<i32>, Ghost(ord): Ghost<Seq<(i32, i32)>>) -> (v: Vec<i32>)
    requires
        pa@.len() == 100,
        forall|a: int, b: int| 0 <= a < 100 && 0 <= b < 128 ==> #[trigger] bit_set(pa@[a], b) == rule(ord, a, b),
        forall|i: int| 0 <= i < pr@.len() ==> 0 <= #[trigger] pr@[i] < 100,
        tournament(ord, pr@),
    ensures
        v@.to_multiset() == pr@.to_multiset(),
        reversed(ord, v@, 0, v@.len() as int),
{
    let mut v: Vec<i32> = Vec::new();
    let mut k: usize = 0;
    while k < pr.len()
        invariant
            k <= pr@.len(),
            v@ == pr@.take(k as int),
        decreases pr@.len() - k,
    {
        v.push(pr[k]);
        assert(pr@.take(k + 1) =~= pr@.take(k as int).push(pr@[k as int]));
        k += 1;
    }
    assert(pr@.take(pr@.len() as int) =~= pr@);
    let n = v.len();
    let mut i: usize = 0;
    while i < n
        invariant
            n == v@.len(),
            i <= n,
            pa@.len() == 100,
            forall|a: int, b: int| 0 <= a < 100 && 0 <= b < 128 ==> #[trigger] bit_set(pa@[a], b) == rule(ord, a, b),
            tournament(ord, pr@),
            v@.to_multiset() == pr@.to_multiset(),
            forall|x: i32| #[trigger] v@.contains(x) ==> pr@.contains(x) && 0 <= x < 100,
            v@.no_duplicates(),
            reversed(ord, v@, 0, i as int),
        decreases n - i,
    {
        let mut j: usize = i;
        loop
            invariant
                n == v@.len(),
                j <= i < n,
                pa@.len() == 100,
                forall|a: int, b: int| 0 <= a < 100 && 0 <= b < 128 ==> #[trigger] bit_set(pa@[a], b) == rule(ord, a, b),
                tournament(ord, pr@),
                v@.to_multiset() == pr@.to_multiset(),
                forall|x: i32| #[trigger] v@.contains(x) ==> pr@.contains(x) && 0 <= x < 100,
                v@.no_duplicates(),
                reversed(ord, v@, 0, j as int),
                reversed(ord, v@, j as int, i + 1),
                forall|a: int, b: int| 0 <= a < j && j < b <= i ==> rule(ord, #[trigger] v@[b] as int, #[trigger] v@[a] as int),
            ensures
                n == v@.len(),
                v@.to_multiset() == pr@.to_multiset(),
                forall|x: i32| #[trigger] v@.contains(x) ==> pr@.contains(x) && 0 <= x < 100,
                v@.no_duplicates(),
                reversed(ord, v@, 0, i + 1),
            decreases j,
        {
            if j == 0 {
                break;
            }
            let x = v[j - 1];
            let y = v[j];
            assert(v@.contains(x) && v@.contains(y));
            assert(x != y);
            let c = page_order(pa, x, y, Ghost(ord));
            if c != 1 {
                proof {
                    assert(rule(ord, y as int, x as int));
                    assert forall|a: int, b: int| 0 <= a < b < i + 1 implies rule(ord, #[trigger] v@[b] as int, #[trigger] v@[a] as int) by {
                        if a < j && b == j {
                            if a < j - 1 {
                                assert(rule(ord, x as int, v@[a] as int));
                                assert(v@.contains(v@[a]));
                            }
                        }
                    }
                }
                break;
            }
            let ghost before = v@;
            v.set(j - 1, y);
            v.set(j, x);
            proof {
                assert(v@ == before.update(j - 1, y).update(j as int, x));
                assert(before.update(j - 1, y).to_multiset() == before.to_multiset().insert(y).remove(x));
                assert(v@.to_multiset() =~= before.to_multiset());
                assert forall|z: i32| #[trigger] v@.contains(z) implies pr@.contains(z) && 0 <= z < 100 by {
                    assert(v@.to_multiset().count(z) > 0);
                    assert(before.contains(z));
                }
                assert(v@.no_duplicates()) by {
                    assert forall|a: int, b: int| 0 <= a < v@.len() && 0 <= b < v@.len() && a != b implies v@[a] != v@[b] by {
                        let pa_ = if a == j - 1 { j as int } else if a == j { j - 1 } else { a };
                        let pb_ = if b == j - 1 { j as int } else if b == j { j - 1 } else { b };
                        assert(v@[a] == before[pa_] && v@[b] == before[pb_]);
                    }
                }
                assert forall|a: int, b: int| j - 1 <= a < b < i + 1 implies rule(ord, #[trigger] v@[b] as int, #[trigger] v@[a] as int) by {
                    if a == j - 1 && b > j {
                        assert(rule(ord, before[b] as int, before[j as int] as int));
                    } else if a == j && b > j {
                        assert(rule(ord, before[b] as int, before[j - 1] as int));
                    }
                }
                assert forall|a: int, b: int| 0 <= a < j - 1 && j - 1 < b <= i implies rule(ord, #[trigger] v@[b] as int, #[trigger] v@[a] as int) by {
                    if b == j {
                        assert(rule(ord, before[j - 1] as int, before[a] as int));
                    } else {
                        assert(rule(ord, before[b] as int, before[a] as int));
                    }
                }
            }
            j -= 1;
        }
        i += 1;
    }
    v
}

/// In the sorted pages, the pages that rules put after the page at `k` are the `k` pages
/// before it.
proof fn lemma_rank(ord: Seq<(i32, i32)>, pr: Seq<i32>, v: Seq<i32>, k: int)
    requires
        tournament(ord, pr),
        v.to_multiset() == pr.to_multiset(),
        reversed(ord, v, 0, v.len() as int),
        0 <= k < v.len(),
    ensures
        later(ord, pr, v[k]).len() == k,
        pr.contains(v[k]),
{
    pr.lemma_multiset_has_no_duplicates();
    assert forall|x: i32| #[trigger] v.to_multiset().contains(x) implies v.to_multiset().count(x) == 1 by {
        assert(pr.to_multiset().contains(x));
    }
    v.lemma_multiset_has_no_duplicates_conv();
    assert(v.to_multiset().count(v[k]) > 0);
    let m = v[k];
    let t = v.take(k);
    assert forall|p: i32| later(ord, pr, m).contains(p) <==> #[trigger] t.to_set().contains(p) by {
        if later(ord, pr, m).contains(p) {
            assert(pr.to_multiset().count(p) > 0);
            assert(v.contains(p));
            let a = choose|a: int| 0 <= a < v.len() && v[a] == p;
            if a > k {
                assert(rule(ord, v[a] as int, v[k] as int));
                assert(pr.contains(v[a]) && pr.contains(v[k]));
            } else if a == k {
                assert(pr.contains(m));
            }
            assert(t[a] == p);
        }
        if t.to_set().contains(p) {
            let a = choose|a: int| 0 <= a < t.len() && t[a] == p;
            assert(v[a] == p);
            assert(rule(ord, v[k] as int, v[a] as int));
            assert(v.to_multiset().count(p) > 0);
            assert(pr.contains(p));
        }
    }
    assert(later(ord, pr, m) =~= t.to_set());
    assert(t.no_duplicates());
    t.unique_seq_to_set();
}

/// The page that the sorting leaves in the middle of an out-of-order update.
fn reordered_mid(pa: &Vec<u128>, pr: &Vec<i32>, Ghost(ord): Ghost<Seq<(i32, i32)>>) -> (m: i32)
    requires
        pa@.len() == 100,
        forall|a: int, b: int| 0 <= a < 100 && 0 <= b < 128 ==> #[trigger] bit_set(pa@[a], b) == rule(ord, a, b),
        forall|i: int| 0 <= i < pr@.len() ==> 0 <= #[trigger] pr@[i] < 100,
        pr@.len() >= 1,
        tournament(ord, pr@),
    ensures
        m == reordered_middle(ord, pr@),
        0 <= m < 100,
{
    let v = reorder(pa, pr, Ghost(ord));
    proof {
        assert(v@.len() == pr@.len()) by {
            assert(v@.to_multiset().len() == v@.len());
            assert(pr@.to_multiset().len() == pr@.len());
        }
    }
    let m = v[v.len() / 2];
    proof {
        let k = (v@.len() / 2) as int;
        lemma_rank(ord, pr@, v@, k);
        let c = reordered_middle(ord, pr@);
        assert(pr@.contains(c) && later(ord, pr@, c).len() == pr@.len() / 2);
        assert(pr@.to_multiset().count(c) > 0);
        assert(v@.contains(c));
        let a = choose|a: int| 0 <= a < v@.len() && v@[a] == c;
        lemma_rank(ord, pr@, v@, a);
        let i = choose|i: int| 0 <= i < pr@.len() && pr@[i] == m;
    }
    m
}

/// The middle pages of the updates in order, and of the others once reordered, each summed.
pub fn stars(pj: &PrintJob) -> (r: (usize, usize))
    requires
        job_ok(pj.ord@, views_i32(pj.upd@)),
    ensures
        r.0 == sums(pj.ord@, views_i32(pj.upd@), pj.upd@.len() as int).0,
        r.1 == sums(pj.ord@, views_i32(pj.upd@), pj.upd@.len() as int).1,
{
    let ghost ord = pj.ord@;
    let ghost ups = views_i32(pj.upd@);
    let pa = pages_after_of(&pj.ord);
    let mut s1: usize = 0;
    let mut s2: usize = 0;
    let mut i: usize = 0;
    while i < pj.upd.len()
        invariant
            ord == pj.ord@,
            ups == views_i32(pj.upd@),
            job_ok(ord, ups),
            pa@.len() == 100,
            forall|a: int, b: int| 0 <= a < 100 && 0 <= b < 128 ==> #[trigger] bit_set(pa@[a], b) == rule(ord, a, b),
            i <= ups.len(),
            s1 == sums(ord, ups, i as int).0,
            s2 == sums(ord, ups, i as int).1,
            s1 + s2 <= 100 * i,
        decreases ups.len() - i,
    {
        let pr = &pj.upd[i];
        assert(pr@ == ups[i as int]);
        assert(update_ok(ord, ups[i as int]));
        if order_ok(&pa, pr, Ghost(ord)) {
            let m = pr[pr.len() / 2];
            s1 = s1 + m as usize;
        } else {
            let m = reordered_mid(&pa, pr, Ghost(ord));
            s2 = s2 + m as usize;
        }
        i += 1;
    }
    (s1, s2)
}

/// The contents of each update.
pub open spec fn views_i32(v: Seq<Vec<i32>>) -> Seq<Seq<i32>> {
    Seq::new(v.len(), |i: int| v[i]@)
}

/// The rule on a line `x|y`.
pub open spec fn rule_line(l: Seq<u8>) -> Result<(i32, i32), AocError> {
    match split_once(trim(l), 124u8) {
        None => Err(AocError::InvalidInput),
        Some((a, b)) => match (signed_in(a, i32::MIN as int, i32::MAX as int), signed_in(b, i32::MIN as int, i32::MAX as int)) {
            (Some(x), Some(y)) => Ok((x as i32, y as i32)),
            _ => Err(AocError::InvalidNumber),
        },
    }
}

/// The pages on a line `a,b,c`.
pub open spec fn update_line(l: Seq<u8>) -> Result<Seq<i32>, AocError> {
    let parts = split_on(trim(l), 44u8);
    if forall|i: int| 0 <= i < parts.len() ==> #[trigger] signed_in(parts[i], i32::MIN as int, i32::MAX as int) is Some {
        Ok(Seq::new(parts.len(), |i: int| signed_in(parts[i], i32::MIN as int, i32::MAX as int).unwrap() as i32))
    } else {
        Err(AocError::InvalidNumber)
    }
}

/// The first line from `i` on that is blank once trimmed, or the number of lines.
pub open spec fn first_blank(ls: Seq<Seq<u8>>, i: int) -> int
    decreases ls.len() - i,
{
    if i < 0 || i >= ls.len() {
        ls.len() as int
    } else if trim(ls[i]).len() == 0 {
        i
    } else {
        first_blank(ls, i + 1)
    }
}

/// The rules of the first `k` lines.
pub open spec fn rules_upto(ls: Seq<Seq<u8>>, k: int) -> Result<Seq<(i32, i32)>, AocError>
    decreases k,
{
    if k <= 0 {
        Ok(seq![])
    } else {
        match rules_upto(ls, k - 1) {
            Err(e) => Err(e),
            Ok(v) => match rule_line(ls[k - 1]) {
                Err(e) => Err(e),
                Ok(x) => Ok(v.push(x)),
            },
        }
    }
}

/// The updates of the lines from `s` to `k`.
pub open spec fn updates_range(ls: Seq<Seq<u8>>, s: int, k: int) -> Result<Seq<Seq<i32>>, AocError>
    decreases k - s,
{
    if k <= s {
        Ok(seq![])
    } else {
        match updates_range(ls, s, k - 1) {
            Err(e) => Err(e),
            Ok(v) => match update_line(ls[k - 1]) {
                Err(e) => Err(e),
                Ok(x) => Ok(v.push(x)),
            },
        }
    }
}

/// The rules up to the first blank line, and the updates after it.
pub open spec fn job_of(input: Seq<u8>) -> Result<(Seq<(i32, i32)>, Seq<Seq<i32>>), AocError> {
    let ls = lines_of(input);
    let b = first_blank(ls, 0);
    match rules_upto(ls, b) {
        Err(e) => Err(e),
        Ok(o) => match updates_range(ls, b + 1, ls.len() as int) {
            Err(e) => Err(e),
            Ok(u) => Ok((o, u)),
        },
    }
}

proof fn lemma_first_blank(ls: Seq<Seq<u8>>, j: int, i: int)
    requires
        0 <= j <= i <= ls.len(),
        forall|k: int| 0 <= k < i ==> trim(#[trigger] ls[k]).len() > 0,
        i == ls.len() || trim(ls[i]).len() == 0,
    ensures
        first_blank(ls, j) == i,
    decreases i - j,
{
    if j < i {
        lemma_first_blank(ls, j + 1, i);
    }
}

proof fn lemma_blank_skip(ls: Seq<Seq<u8>>, j: int, i: int)
    requires
        0 <= j <= i < ls.len(),
        forall|k: int| j <= k <= i ==> trim(#[trigger] ls[k]).len() > 0,
    ensures
        first_blank(ls, j) == first_blank(ls, i + 1),
        first_blank(ls, j) >= i + 1,
    decreases i - j,
{
    if j < i {
        lemma_blank_skip(ls, j + 1, i);
    } else {
        lemma_blank_ge(ls, i + 1);
    }
}

proof fn lemma_blank_ge(ls: Seq<Seq<u8>>, m: int)
    requires
        0 <= m <= ls.len(),
    ensures
        m <= first_blank(ls, m) <= ls.len(),
    decreases ls.len() - m,
{
    if m < ls.len() {
        lemma_blank_ge(ls, m + 1);
    }
}

/// Where line `i` is a rule line that fails, the job fails with it.
proof fn lemma_rules_stop(ls: Seq<Seq<u8>>, i: int)
    requires
        0 <= i < ls.len(),
        forall|k: int| 0 <= k <= i ==> trim(#[trigger] ls[k]).len() > 0,
        rules_upto(ls, i + 1) is Err,
    ensures
        rules_upto(ls, first_blank(ls, 0)) == rules_upto(ls, i + 1),
{
    lemma_blank_skip(ls, 0, i);
    lemma_rules_err(ls, i + 1, first_blank(ls, 0));
}

proof fn lemma_updates_err(ls: Seq<Seq<u8>>, s: int, a: int, b: int)
    requires
        s <= a <= b,
        updates_range(ls, s, a) is Err,
    ensures
        updates_range(ls, s, b) == updates_range(ls, s, a),
    decreases b - a,
{
    if b > a {
        lemma_updates_err(ls, s, a, b - 1);
    }
}

proof fn lemma_rules_err(ls: Seq<Seq<u8>>, a: int, b: int)
    requires
        0 <= a <= b,
        rules_upto(ls, a) is Err,
    ensures
        rules_upto(ls, b) == rules_upto(ls, a),
    decreases b - a,
{
    if b > a {
        lemma_rules_err(ls, a, b - 1);
    }
}


/// The rules up to the first blank line, and the updates after it; the error of the first
/// line that is neither.
pub fn parse_print_job(input: &str) -> (r: Result<PrintJob, AocError>)
    ensures
        match r {
            Ok(pj) => job_of(input.spec_bytes()) == Ok::<(Seq<(i32, i32)>, Seq<Seq<i32>>), AocError>(
                (pj.ord@, views_i32(pj.upd@)),
            ),
            Err(e) => job_of(input.spec_bytes()) == Err::<(Seq<(i32, i32)>, Seq<Seq<i32>>), AocError>(e),
        },
{
    let ls = lines(input.as_bytes());
    let ghost sl = lines_of(input.spec_bytes());
    let mut ord: Vec<(i32, i32)> = Vec::new();
    let mut i: usize = 0;
    while i < ls.len()
        invariant
            sl == lines_of(input.spec_bytes()),
            views(ls@) == sl,
            i <= sl.len(),
            forall|k: int| 0 <= k < i ==> trim(#[trigger] sl[k]).len() > 0,
            rules_upto(sl, i as int) == Ok::<Seq<(i32, i32)>, AocError>(ord@),
        ensures
            i <= sl.len(),
            forall|k: int| 0 <= k < i ==> trim(#[trigger] sl[k]).len() > 0,
            rules_upto(sl, i as int) == Ok::<Seq<(i32, i32)>, AocError>(ord@),
            i == sl.len() || trim(sl[i as int]).len() == 0,
        decreases sl.len() - i,
    {
        assert(ls@[i as int]@ == sl[i as int]);
        let line = trim_bytes(ls[i].as_slice());
        if line.len() == 0 {
            break;
        }
        let (a, b) = match split_once_byte(line.as_slice(), 124u8) {
            Some(x) => x,
            None => {
                proof {
                    lemma_rules_stop(sl, i as int);
                }
                return Err(AocError::InvalidInput);
            },
        };
        let x = match parse_i32(a.as_slice()) {
            Some(v) => v,
            None => {
                proof {
                    lemma_rules_stop(sl, i as int);
                }
                return Err(AocError::InvalidNumber);
            },
        };
        let y = match parse_i32(b.as_slice()) {
            Some(v) => v,
            None => {
                proof {
                    lemma_rules_stop(sl, i as int);
                }
                return Err(AocError::InvalidNumber);
            },
        };
        ord.push((x, y));
        i += 1;
    }
    proof {
        lemma_first_blank(sl, 0, i as int);
    }
    let mut upd: Vec<Vec<i32>> = Vec::new();
    let mut k: usize = if i < ls.len() {
        i + 1
    } else {
        ls.len()
    };
    let ghost start = i + 1;
    assert(views_i32(upd@) =~= Seq::<Seq<i32>>::empty());
    while k < ls.len()
        invariant
            first_blank(sl, 0) == start - 1,
            rules_upto(sl, start - 1) == Ok::<Seq<(i32, i32)>, AocError>(ord@),
            sl == lines_of(input.spec_bytes()),
            views(ls@) == sl,
            start <= k + 1,
            k <= sl.len(),
            k == sl.len() || start <= k,
            updates_range(sl, start, k as int) == Ok::<Seq<Seq<i32>>, AocError>(views_i32(upd@)),
        decreases sl.len() - k,
    {
        assert(ls@[k as int]@ == sl[k as int]);
        let line = trim_bytes(ls[k].as_slice());
        let parts = split(line.as_slice(), 44u8);
        let ghost sp = split_on(line@, 44u8);
        let mut pr: Vec<i32> = Vec::new();
        let mut j: usize = 0;
        while j < parts.len()
            invariant
                sl == lines_of(input.spec_bytes()),
                first_blank(sl, 0) == start - 1,
                rules_upto(sl, start - 1) == Ok::<Seq<(i32, i32)>, AocError>(ord@),
                k < sl.len(),
                start <= k,
                line@ == trim(sl[k as int]),
                sp == split_on(line@, 44u8),
                updates_range(sl, start, k as int) == Ok::<Seq<Seq<i32>>, AocError>(views_i32(upd@)),
                views(parts@) == sp,
                j <= sp.len(),
                pr@.len() == j,
                forall|q: int| 0 <= q < j ==> #[trigger] signed_in(sp[q], i32::MIN as int, i32::MAX as int) is Some,
                forall|q: int| 0 <= q < j ==> pr@[q] == signed_in(#[trigger] sp[q], i32::MIN as int, i32::MAX as int).unwrap(),
            decreases sp.len() - j,
        {
            assert(parts@[j as int]@ == sp[j as int]);
            match parse_i32(parts[j].as_slice()) {
                Some(v) => pr.push(v),
                None => {
                    proof {
                        assert(update_line(sl[k as int]) == Err::<Seq<i32>, AocError>(AocError::InvalidNumber));
                        lemma_updates_err(sl, start, k + 1, sl.len() as int);
                    }
                    return Err(AocError::InvalidNumber);
                },
            }
            j += 1;
        }
        assert(pr@ =~= Seq::new(sp.len(), |q: int| signed_in(sp[q], i32::MIN as int, i32::MAX as int).unwrap() as i32));
        let ghost before = views_i32(upd@);
        upd.push(pr);
        assert(views_i32(upd@) =~= before.push(pr@));
        k += 1;
    }
    proof {
        if start > sl.len() {
            assert(updates_range(sl, start, sl.len() as int) == Ok::<Seq<Seq<i32>>, AocError>(seq![]));
        }
    }
    Ok(PrintJob { ord: ord, upd: upd })
}

/// The middle pages of the updates in order, and of the others once reordered, each summed.
pub fn run(input: &str) -> (r: Result<String, AocError>)
    requires
        job_of(input.spec_bytes()) matches Ok((o, u)) ==> job_ok(o, u),
    ensures
        match job_of(input.spec_bytes()) {
            Ok((o, u)) => r matches Ok(out) && out@ == crate::text::dec(sums(o, u, u.len() as int).0 as nat)
                + " "@ + crate::text::dec(sums(o, u, u.len() as int).1 as nat),
            Err(e) => r == Err::<String, AocError>(e),
        },
{
    let pj = match parse_print_job(input) {
        Ok(pj) => pj,
        Err(e) => return Err(e),
    };
    let (s1, s2) = stars(&pj);
    let mut out = String::new();
    push_dec(&mut out, s1 as u64);
    push_str(&mut out, " ");
    push_dec(&mut out, s2 as u64);
    Ok(out)
}

} // verus!
