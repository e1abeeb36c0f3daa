//! Sorting a vector of numbers into ascending order.

use vstd::prelude::*;
use vstd::relations::{sorted_by, total_ordering};

verus! {

broadcast use vstd::seq_lib::group_to_multiset_ensures, vstd::multiset::group_multiset_axioms;

/// `a` is at most `b`.
pub open spec fn leq_usize() -> spec_fn(usize, usize) -> bool {
    |a: usize, b: usize| a <= b
}

/// `v[lo..hi]` is in ascending order.
pub open spec fn ascending(v: Seq<usize>, lo: int, hi: int) -> bool {
    forall|a: int, b: int| lo <= a < b < hi ==> #[trigger] v[a] <= #[trigger] v[b]
}

proof fn lemma_leq_total()
    ensures
        total_ordering(leq_usize()),
{
}

/// Sorts `v` into ascending order, by insertion.
pub fn sort_usize(v: &mut Vec<usize>)
    ensures
        final(v)@ == old(v)@.sort_by(leq_usize()),
{
    let n = v.len();
    let mut i: usize = 0;
    while i < n
        invariant
            n == v@.len(),
            i <= n,
            ascending(v@, 0, i as int),
            v@.to_multiset() == old(v)@.to_multiset(),
        decreases n - i,
    {
        let mut j: usize = i;
        while j > 0 && v[j - 1] > v[j]
            invariant
                n == v@.len(),
                j <= i < n,
                ascending(v@, 0, j as int),
                ascending(v@, j as int, i + 1),
                forall|a: int, b: int| 0 <= a < j && j < b <= i ==> #[trigger] v@[a] <= #[trigger] v@[b],
                v@.to_multiset() == old(v)@.to_multiset(),
            decreases j,
        {
            let x = v[j];
            let y = v[j - 1];
            let ghost before = v@;
            v.set(j - 1, x);
            v.set(j, y);
            proof {
                assert(v@ == before.update(j - 1, x).update(j as int, y));
                assert(before.update(j - 1, x).to_multiset() == before.to_multiset().insert(x).remove(y));
                assert(v@.to_multiset() =~= before.to_multiset());
                assert forall|a: int, b: int| j - 1 <= a < b < i + 1 implies #[trigger] v@[a] <= #[trigger] v@[b] by {
                    if a == j - 1 && b > j {
                        assert(before[j as int] <= before[b]);
                    } else if a == j && b > j {
                        assert(before[j - 1] <= before[b]);
                    }
                }
                assert forall|a: int, b: int| 0 <= a < j - 1 && j - 1 < b <= i implies #[trigger] v@[a] <= #[trigger] v@[b] by {
                    if b == j {
                        assert(before[a] <= before[j - 1]);
                    } else {
                        assert(before[a] <= before[b]);
                    }
                }
            }
            j -= 1;
        }
        proof {
            assert forall|a: int, b: int| 0 <= a < b < i + 1 implies #[trigger] v@[a] <= #[trigger] v@[b] by {
                if a < j && b == j {
                    if a < j - 1 {
                        assert(v@[a] <= v@[j - 1]);
                    }
                }
            }
        }
        i += 1;
    }
    proof {
        lemma_leq_total();
        old(v)@.lemma_sort_by_ensures(leq_usize());
        assert(sorted_by(v@, leq_usize())) by {
            assert forall|a: int, b: int| 0 <= a < b < v@.len() implies #[trigger] (leq_usize())(v@[a], v@[b]) by {
                assert(v@[a] <= v@[b]);
            }
        }
        vstd::seq_lib::lemma_sorted_unique(v@, old(v)@.sort_by(leq_usize()), leq_usize());
    }
}

} // verus!
