//! Historian hysteria: two lists of location ids, their total distance once both are
//! sorted, and their similarity score.

use vstd::prelude::*;
use vstd::string::*;
use vstd::multiset::Multiset;
use std::collections::HashMap;
use crate::sorting::{leq_usize, sort_usize};
use crate::text::{
    lines, lines_of, parse_u64, push_dec, push_str, split_once, split_once_byte, trim, trim_bytes,
    unsigned_in, views,
};

verus! {

broadcast use vstd::std_specs::hash::group_hash_axioms, vstd::seq_lib::group_to_multiset_ensures,
    vstd::multiset::group_multiset_axioms;

/// The pair of ids on each of the first `k` lines that holds a space: the number before the
/// first space, and the trimmed rest.
pub open spec fn pairs(ls: Seq<Seq<u8>>, k: int) -> Seq<(usize, usize)>
    decreases k,
{
    if k <= 0 {
        seq![]
    } else {
        let prev = pairs(ls, k - 1);
        match split_once(ls[k - 1], 32u8) {
            Some((x, y)) => prev.push(
                (
                    unsigned_in(x, usize::MAX as int).unwrap() as usize,
                    unsigned_in(trim(y), usize::MAX as int).unwrap() as usize,
                ),
            ),
            None => prev,
        }
    }
}

/// Every line with a space holds two ids.
pub open spec fn lists_ok(input: Seq<u8>) -> bool {
    let ls = lines_of(input);
    forall|i: int|
        0 <= i < ls.len() ==> (#[trigger] split_once(ls[i], 32u8) matches Some((x, y)) ==> unsigned_in(
            x,
            usize::MAX as int,
        ) is Some && unsigned_in(trim(y), usize::MAX as int) is Some)
}

/// The left list, as read.
pub open spec fn left_of(input: Seq<u8>) -> Seq<usize> {
    let ps = pairs(lines_of(input), lines_of(input).len() as int);
    Seq::new(ps.len(), |i: int| ps[i].0)
}

/// The right list, as read.
pub open spec fn right_of(input: Seq<u8>) -> Seq<usize> {
    let ps = pairs(lines_of(input), lines_of(input).len() as int);
    Seq::new(ps.len(), |i: int| ps[i].1)
}

/// The two lists, each sorted.
pub fn get_lists(input: &str) -> (r: (Vec<usize>, Vec<usize>))
    requires
        lists_ok(input.spec_bytes()),
    ensures
        r.0@ == left_of(input.spec_bytes()).sort_by(leq_usize()),
        r.1@ == right_of(input.spec_bytes()).sort_by(leq_usize()),
{
    let ls = lines(input.as_bytes());
    let ghost sl = lines_of(input.spec_bytes());
    let mut v0: Vec<usize> = Vec::new();
    let mut v1: Vec<usize> = Vec::new();
    let mut i: usize = 0;
    while i < ls.len()
        invariant
            sl == lines_of(input.spec_bytes()),
            views(ls@) == sl,
            lists_ok(input.spec_bytes()),
            i <= sl.len(),
            v0@.len() == pairs(sl, i as int).len(),
            v1@.len() == pairs(sl, i as int).len(),
            forall|k: int| 0 <= k < v0@.len() ==> #[trigger] v0@[k] == pairs(sl, i as int)[k].0,
            forall|k: int| 0 <= k < v1@.len() ==> #[trigger] v1@[k] == pairs(sl, i as int)[k].1,
        decreases sl.len() - i,
    {
        assert(ls@[i as int]@ == sl[i as int]);
        match split_once_byte(ls[i].as_slice(), 32u8) {
            Some((x, y)) => {
                assert(split_once(sl[i as int], 32u8) == Some((x@, y@)));
                let a = parse_u64(x.as_slice()).unwrap();
                let yt = trim_bytes(y.as_slice());
                let b = parse_u64(yt.as_slice()).unwrap();
                v0.push(a as usize);
                v1.push(b as usize);
            },
            None => {},
        }
        i += 1;
    }
    let ghost ps = pairs(sl, sl.len() as int);
    assert(v0@ =~= left_of(input.spec_bytes()));
    assert(v1@ =~= right_of(input.spec_bytes()));
    sort_usize(&mut v0);
    sort_usize(&mut v1);
    (v0, v1)
}

/// The distances between the first `k` pairs of `a` and `b`, summed.
pub open spec fn dist_sum(a: Seq<usize>, b: Seq<usize>, k: int) -> int
    decreases k,
{
    if k <= 0 {
        0
    } else {
        dist_sum(a, b, k - 1) + if a[k - 1] < b[k - 1] {
            b[k - 1] - a[k - 1]
        } else {
            a[k - 1] - b[k - 1]
        }
    }
}

/// The first `k` ids of `a`, each times the number of times it occurs in `right`, summed.
pub open spec fn sim_sum(a: Seq<usize>, right: Multiset<usize>, k: int) -> int
    decreases k,
{
    if k <= 0 {
        0
    } else {
        sim_sum(a, right, k - 1) + a[k - 1] * right.count(a[k - 1])
    }
}

/// The lists parse, and neither answer passes `usize::MAX` along the way.
pub open spec fn sums_fit(input: Seq<u8>) -> bool {
    let l = left_of(input).sort_by(leq_usize());
    let r = right_of(input).sort_by(leq_usize());
    &&& lists_ok(input)
    &&& forall|k: int| 0 <= k <= l.len() ==> #[trigger] dist_sum(l, r, k) <= usize::MAX
    &&& forall|k: int|
        0 <= k <= l.len() ==> #[trigger] sim_sum(l, right_of(input).to_multiset(), k) <= usize::MAX
}

proof fn lemma_sum_parts(a: Seq<usize>, b: Seq<usize>, rm: Multiset<usize>, k: int)
    ensures
        dist_sum(a, b, k) >= 0,
        sim_sum(a, rm, k) >= 0,
    decreases k,
{
    if k > 0 {
        lemma_sum_parts(a, b, rm, k - 1);
        assert(a[k - 1] * rm.count(a[k - 1]) >= 0) by (nonlinear_arith);
    }
}

proof fn lemma_sorted_len(s: Seq<usize>)
    ensures
        s.sort_by(leq_usize()).len() == s.len(),
        s.sort_by(leq_usize()).to_multiset() == s.to_multiset(),
{
    assert(vstd::relations::total_ordering(leq_usize()));
    s.lemma_sort_by_ensures(leq_usize());
    assert(s.to_multiset().len() == s.len());
    assert(s.sort_by(leq_usize()).to_multiset().len() == s.sort_by(leq_usize()).len());
}

/// The total distance between the sorted lists.
pub fn star1(input: &str) -> (r: usize)
    requires
        sums_fit(input.spec_bytes()),
    ensures
        r == dist_sum(
            left_of(input.spec_bytes()).sort_by(leq_usize()),
            right_of(input.spec_bytes()).sort_by(leq_usize()),
            left_of(input.spec_bytes()).len() as int,
        ),
{
    let (v0, v1) = get_lists(input);
    proof {
        lemma_sorted_len(left_of(input.spec_bytes()));
        lemma_sorted_len(right_of(input.spec_bytes()));
    }
    let mut sum: usize = 0;
    let mut i: usize = 0;
    while i < v0.len() && i < v1.len()
        invariant
            v0@ == left_of(input.spec_bytes()).sort_by(leq_usize()),
            v1@ == right_of(input.spec_bytes()).sort_by(leq_usize()),
            v0@.len() == v1@.len(),
            sums_fit(input.spec_bytes()),
            i <= v0@.len(),
            sum == dist_sum(v0@, v1@, i as int),
        decreases v0@.len() - i,
    {
        assert(dist_sum(v0@, v1@, i + 1) <= usize::MAX);
        let l = v0[i];
        let r = v1[i];
        sum = sum + if l < r {
            r - l
        } else {
            l - r
        };
        i += 1;
    }
    sum
}

/// Each id of the left list times the number of times it occurs in the right list, summed.
pub fn star2(input: &str) -> (r: usize)
    requires
        sums_fit(input.spec_bytes()),
    ensures
        r == sim_sum(
            left_of(input.spec_bytes()).sort_by(leq_usize()),
            right_of(input.spec_bytes()).to_multiset(),
            left_of(input.spec_bytes()).len() as int,
        ),
{
    let (v0, v1) = get_lists(input);
    let ghost rm = right_of(input.spec_bytes()).to_multiset();
    proof {
        lemma_sorted_len(left_of(input.spec_bytes()));
        lemma_sorted_len(right_of(input.spec_bytes()));
    }
    let mut occurrences: HashMap<usize, usize> = HashMap::new();
    let mut j: usize = 0;
    while j < v1.len()
        invariant
            v1@.to_multiset() == rm,
            j <= v1@.len(),
            forall|k: usize| #[trigger] occurrences@.contains_key(k) ==> occurrences@[k] == v1@.take(j as int).to_multiset().count(k),
            forall|k: usize| #[trigger] occurrences@.contains_key(k) ==> occurrences@[k] <= j,
            forall|k: usize| !#[trigger] occurrences@.contains_key(k) ==> v1@.take(j as int).to_multiset().count(k) == 0,
        decreases v1@.len() - j,
    {
        let y = v1[j];
        assert(v1@.take(j + 1) =~= v1@.take(j as int).push(y));
        let c = match occurrences.get(&y) {
            Some(n) => *n,
            None => 0,
        };
        occurrences.insert(y, c + 1);
        j += 1;
    }
    assert(v1@.take(v1@.len() as int) =~= v1@);
    let mut sum: usize = 0;
    let mut i: usize = 0;
    while i < v0.len()
        invariant
            v0@ == left_of(input.spec_bytes()).sort_by(leq_usize()),
            v0@.len() == left_of(input.spec_bytes()).len(),
            sums_fit(input.spec_bytes()),
            rm == right_of(input.spec_bytes()).to_multiset(),
            forall|k: usize| #[trigger] occurrences@.contains_key(k) ==> occurrences@[k] == rm.count(k),
            forall|k: usize| !#[trigger] occurrences@.contains_key(k) ==> rm.count(k) == 0,
            i <= v0@.len(),
            sum == sim_sum(v0@, rm, i as int),
        decreases v0@.len() - i,
    {
        let x = v0[i];
        let n = match occurrences.get(&x) {
            Some(n) => *n,
            None => 0,
        };
        assert(sim_sum(v0@, rm, i + 1) <= usize::MAX);
        proof {
            lemma_sum_parts(v0@, v0@, rm, i as int);
        }
        assert(x * n <= usize::MAX);
        sum = sum + x * n;
        i += 1;
    }
    sum
}

/// The total distance and the similarity score.
pub fn run(input: &str) -> (r: String)
    requires
        sums_fit(input.spec_bytes()),
    ensures
        r@ == crate::text::dec(
            dist_sum(
                left_of(input.spec_bytes()).sort_by(leq_usize()),
                right_of(input.spec_bytes()).sort_by(leq_usize()),
                left_of(input.spec_bytes()).len() as int,
            ) as nat,
        ) + " "@ + crate::text::dec(
            sim_sum(
                left_of(input.spec_bytes()).sort_by(leq_usize()),
                right_of(input.spec_bytes()).to_multiset(),
                left_of(input.spec_bytes()).len() as int,
            ) as nat,
        ),
{
    let s1 = star1(input);
    let s2 = star2(input);
    let mut out = String::new();
    push_dec(&mut out, s1 as u64);
    push_str(&mut out, " ");
    push_dec(&mut out, s2 as u64);
    out
}

/// Whether the lists parse and neither answer passes `usize::MAX` along the way.
pub fn sums_fit_check(input: &str) -> (r: bool)
    ensures
        r == sums_fit(input.spec_bytes()),
{
    let ls = lines(input.as_bytes());
    let ghost sl = lines_of(input.spec_bytes());
    let mut i: usize = 0;
    while i < ls.len()
        invariant
            sl == lines_of(input.spec_bytes()),
            views(ls@) == sl,
            i <= sl.len(),
            forall|j: int|
                0 <= j < i ==> (#[trigger] split_once(sl[j], 32u8) matches Some((x, y)) ==> unsigned_in(
                    x,
                    usize::MAX as int,
                ) is Some && unsigned_in(trim(y), usize::MAX as int) is Some),
        decreases sl.len() - i,
    {
        assert(ls@[i as int]@ == sl[i as int]);
        match split_once_byte(ls[i].as_slice(), 32u8) {
            Some((x, y)) => {
                let yt = trim_bytes(y.as_slice());
                let a = parse_u64(x.as_slice());
                let b = parse_u64(yt.as_slice());
                let fits = match (a, b) {
                    (Some(a), Some(b)) => a as u128 <= usize::MAX as u128 && b as u128 <= usize::MAX as u128,
                    _ => false,
                };
                if !fits {
                    assert(!lists_ok(input.spec_bytes())) by {
                        assert(split_once(sl[i as int], 32u8) == Some((x@, y@)));
                    }
                    return false;
                }
            },
            None => {},
        }
        i += 1;
    }
    assert(lists_ok(input.spec_bytes()));
    let (v0, v1) = get_lists(input);
    let ghost rm = right_of(input.spec_bytes()).to_multiset();
    proof {
        lemma_sorted_len(left_of(input.spec_bytes()));
        lemma_sorted_len(right_of(input.spec_bytes()));
    }
    let mut sum: usize = 0;
    let mut k: usize = 0;
    while k < v0.len()
        invariant
            v0@ == left_of(input.spec_bytes()).sort_by(leq_usize()),
            v1@ == right_of(input.spec_bytes()).sort_by(leq_usize()),
            v0@.len() == v1@.len(),
            k <= v0@.len(),
            sum == dist_sum(v0@, v1@, k as int),
            forall|m: int| 0 <= m <= k ==> #[trigger] dist_sum(v0@, v1@, m) <= usize::MAX,
        decreases v0@.len() - k,
    {
        let l = v0[k];
        let r = v1[k];
        let d = if l < r { r - l } else { l - r };
        match sum.checked_add(d) {
            Some(t) => {
                sum = t;
            },
            None => {
                assert(dist_sum(v0@, v1@, k + 1) > usize::MAX);
                return false;
            },
        }
        k += 1;
    }
    let mut sim: usize = 0;
    let mut k: usize = 0;
    while k < v0.len()
        invariant
            v0@ == left_of(input.spec_bytes()).sort_by(leq_usize()),
            v0@.len() == left_of(input.spec_bytes()).len(),
            v1@.to_multiset() == rm,
            rm == right_of(input.spec_bytes()).to_multiset(),
            forall|m: int| 0 <= m <= v0@.len() ==> #[trigger] dist_sum(v0@, v1@, m) <= usize::MAX,
            v1@ == right_of(input.spec_bytes()).sort_by(leq_usize()),
            k <= v0@.len(),
            sim == sim_sum(v0@, rm, k as int),
            forall|m: int| 0 <= m <= k ==> #[trigger] sim_sum(v0@, rm, m) <= usize::MAX,
        decreases v0@.len() - k,
    {
        let x = v0[k];
        let mut c: usize = 0;
        let mut j: usize = 0;
        while j < v1.len()
            invariant
                j <= v1@.len(),
                c == v1@.take(j as int).to_multiset().count(x),
                c <= j,
            decreases v1@.len() - j,
        {
            assert(v1@.take(j + 1) =~= v1@.take(j as int).push(v1@[j as int]));
            if v1[j] == x {
                c += 1;
            }
            j += 1;
        }
        assert(v1@.take(v1@.len() as int) =~= v1@);
        proof {
            lemma_sum_parts(v0@, v0@, rm, k as int);
        }
        match x.checked_mul(c) {
            Some(p) => match sim.checked_add(p) {
                Some(t) => {
                    sim = t;
                },
                None => {
                    assert(sim_sum(v0@, rm, k + 1) > usize::MAX);
                    return false;
                },
            },
            None => {
                assert(sim_sum(v0@, rm, k + 1) > usize::MAX);
                return false;
            },
        }
        k += 1;
    }
    true
}

} // verus!
