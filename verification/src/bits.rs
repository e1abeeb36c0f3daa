//! Sets of small numbers held as the bits of a `u128`.

use vstd::prelude::*;

verus! {

/// Bit `x` of `v` is set.
pub open spec fn bit_set(v: u128, x: int) -> bool {
    (v & (1u128 << (x as u128))) != 0
}

/// Setting bit `x` sets that bit and keeps the others.
pub proof fn lemma_bit(v: u128, x: u128, y: u128)
    requires
        x < 128,
        y < 128,
    ensures
        ((v | (1u128 << x)) & (1u128 << y) != 0) == ((v & (1u128 << y) != 0) || x == y),
{
    assert(((v | (1u128 << x)) & (1u128 << y) != 0) == ((v & (1u128 << y) != 0) || x == y))
        by (bit_vector)
        requires x < 128, y < 128;
}

/// No bit of zero is set.
pub proof fn lemma_zero_bit(y: u128)
    requires
        y < 128,
    ensures
        (0u128 & (1u128 << y)) == 0,
{
    assert((0u128 & (1u128 << y)) == 0) by (bit_vector);
}

/// The bits below `k`.
pub open spec fn low(k: u128) -> u128 {
    if k >= 128 {
        0xffff_ffff_ffff_ffff_ffff_ffff_ffff_ffffu128
    } else {
        ((1u128 << k) - 1) as u128
    }
}

proof fn lemma_low_clear(v: u128, w: u128, k: u128)
    requires
        k <= 128,
        forall|j: int| 0 <= j < k ==> !(#[trigger] bit_set(v, j) && bit_set(w, j)),
    ensures
        (v & w) & low(k) == 0,
    decreases k,
{
    if k == 0 {
        assert((v & w) & low(0) == 0) by (bit_vector);
    } else {
        let j = (k - 1) as u128;
        lemma_low_clear(v, w, j);
        assert(!(bit_set(v, j as int) && bit_set(w, j as int)));
        assert(((v & w) & low(j)) == 0 && !((v & (1u128 << j)) != 0 && (w & (1u128 << j)) != 0) && j < 128
            ==> ((v & w) & low((j + 1) as u128)) == 0) by (bit_vector);
    }
}

/// Two sets are disjoint exactly when they share no bit.
pub proof fn lemma_disjoint(v: u128, w: u128)
    ensures
        (v & w == 0) <==> forall|k: int| 0 <= k < 128 ==> !(#[trigger] bit_set(v, k) && bit_set(w, k)),
{
    if forall|k: int| 0 <= k < 128 ==> !(#[trigger] bit_set(v, k) && bit_set(w, k)) {
        lemma_low_clear(v, w, 128);
        assert((v & w) & low(128) == v & w) by (bit_vector);
    }
    if v & w == 0 {
        assert forall|k: int| 0 <= k < 128 implies !(#[trigger] bit_set(v, k) && bit_set(w, k)) by {
            let kk = k as u128;
            assert((v & w == 0) && kk < 128 ==> !((v & (1u128 << kk)) != 0 && (w & (1u128 << kk)) != 0))
                by (bit_vector);
        }
    }
}

} // verus!
