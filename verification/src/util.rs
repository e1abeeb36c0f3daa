//! Small helpers over sequences.

use vstd::prelude::*;

verus! {

/// The items of `v` without the one at index `skip`; all of them where there is none there.
pub fn skip_nth<T: Copy>(v: &[T], skip: usize) -> (r: Vec<T>)
    ensures
        r@ == (if skip < v@.len() { v@.remove(skip as int) } else { v@ }),
{
    let mut r: Vec<T> = Vec::new();
    let mut i: usize = 0;
    while i < v.len()
        invariant
            i <= v@.len(),
            r@ == (if skip < i { v@.take(i as int).remove(skip as int) } else { v@.take(i as int) }),
        decreases v@.len() - i,
    {
        if i != skip {
            r.push(v[i]);
        }
        i += 1;
        proof {
            if skip < i {
                assert(r@ =~= v@.take(i as int).remove(skip as int));
            } else {
                assert(r@ =~= v@.take(i as int));
            }
        }
    }
    assert(v@.take(v@.len() as int) =~= v@);
    r
}

} // verus!
