//! Extrapolating a sequence that grows polynomially: Newton's formula on the table of
//! backward differences, built until a difference vanishes.

use vstd::prelude::*;

verus! {

/// The new table of backward differences after the value `x` follows the table `v`: entry
/// `i + 1` is entry `i` less the old entry `i`. `None` where a difference is negative.
pub open spec fn chain_diffs(v: Seq<int>, x: int) -> Option<Seq<int>>
    decreases v.len(),
{
    if v.len() == 0 {
        Some(seq![x])
    } else if x < v[0] {
        None
    } else {
        match chain_diffs(v.drop_first(), x - v[0]) {
            Some(r) => Some(seq![x] + r),
            None => None,
        }
    }
}

/// How reading the values goes: they run out, the wanted value is read, or the table is
/// complete and the value is extrapolated `m` steps past the last one read.
pub enum Outcome {
    Absent,
    Direct(int),
    Extrap(Seq<int>, int),
}

/// Reading goes on from the value `j`, the table so far being `v`.
pub open spec fn run_from(xs: Seq<int>, n: int, j: int, v: Seq<int>) -> Outcome
    decreases xs.len() - j,
{
    if j < 0 || j >= xs.len() {
        Outcome::Absent
    } else if n == v.len() {
        Outcome::Direct(xs[j])
    } else {
        match chain_diffs(v, xs[j]) {
            None => Outcome::Absent,
            Some(w) => if w.last() == 0 && w.len() > 1 {
                Outcome::Extrap(w, n - w.len() + 1)
            } else {
                run_from(xs, n, j + 1, w)
            },
        }
    }
}

/// The multiplier of the `i`-th difference, `m (m + 1) .. (m + i - 1) / i!`, each step
/// dividing as it goes.
pub open spec fn mult(m: int, i: int) -> int
    decreases i,
{
    if i <= 0 {
        1
    } else {
        mult(m, i - 1) * (m + i - 1) / i
    }
}

/// The length of `w` without its trailing zeros.
pub open spec fn strip_len(w: Seq<int>) -> int
    decreases w.len(),
{
    if w.len() > 0 && w.last() == 0 {
        strip_len(w.drop_last())
    } else {
        w.len() as int
    }
}

/// The first `k` differences, each times its multiplier, summed.
pub open spec fn psum(w: Seq<int>, m: int, k: int) -> int
    decreases k,
{
    if k <= 0 {
        0
    } else {
        psum(w, m, k - 1) + w[k - 1] * mult(m, k - 1)
    }
}

/// No product or sum on the way passes `usize::MAX`.
pub open spec fn diffv_fits(w: Seq<int>, m: int) -> bool {
    let l = strip_len(w);
    &&& forall|k: int| 0 <= k < l - 1 ==> #[trigger] mult(m, k) * (m + k) <= usize::MAX
    &&& forall|k: int| 1 <= k <= l ==> #[trigger] psum(w, m, k) <= usize::MAX && w[k - 1] * mult(m, k - 1) <= usize::MAX
}

/// The values of a slice as integers.
pub open spec fn ints(v: Seq<usize>) -> Seq<int> {
    Seq::new(v.len(), |i: int| v[i] as int)
}

/// The value `n` of the sequence whose values begin with `xs`.
pub open spec fn nth_value(xs: Seq<int>, n: int) -> Option<int> {
    match run_from(xs, n, 0, seq![]) {
        Outcome::Absent => None,
        Outcome::Direct(x) => Some(x),
        Outcome::Extrap(w, m) => Some(psum(w, m, strip_len(w))),
    }
}

proof fn lemma_strip_len(w: Seq<int>)
    ensures
        0 <= strip_len(w) <= w.len(),
        forall|i: int| strip_len(w) <= i < w.len() ==> w[i] == 0,
        strip_len(w) > 0 ==> w[strip_len(w) - 1] != 0,
    decreases w.len(),
{
    if w.len() > 0 && w.last() == 0 {
        lemma_strip_len(w.drop_last());
        assert forall|i: int| strip_len(w) <= i < w.len() implies w[i] == 0 by {
            if i < w.len() - 1 {
                assert(w[i] == w.drop_last()[i]);
            }
        }
        if strip_len(w) > 0 {
            assert(w[strip_len(w) - 1] == w.drop_last()[strip_len(w) - 1]);
        }
    }
}

proof fn lemma_mult_pos(m: int, i: int)
    requires
        m >= 1,
    ensures
        mult(m, i) >= 1,
    decreases i,
{
    if i > 0 {
        lemma_mult_pos(m, i - 1);
        assert(mult(m, i - 1) * (m + i - 1) / i >= 1) by (nonlinear_arith)
            requires mult(m, i - 1) >= 1, m + i - 1 >= i, i > 0;
    }
}

proof fn lemma_chain_len(v: Seq<int>, x: int)
    ensures
        chain_diffs(v, x) matches Some(w) ==> w.len() == v.len() + 1,
    decreases v.len(),
{
    if v.len() > 0 && x >= v[0] {
        lemma_chain_len(v.drop_first(), x - v[0]);
    }
}

proof fn lemma_mult_nonneg(m: int, i: int)
    requires
        m >= 0,
    ensures
        mult(m, i) >= 0,
    decreases i,
{
    if i > 0 {
        lemma_mult_nonneg(m, i - 1);
        assert(mult(m, i - 1) * (m + i - 1) >= 0) by (nonlinear_arith)
            requires mult(m, i - 1) >= 0, m + i - 1 >= 0;
        assert(mult(m, i - 1) * (m + i - 1) / i >= 0) by (nonlinear_arith)
            requires mult(m, i - 1) * (m + i - 1) >= 0, i > 0;
    }
}

/// Newton's formula: the differences `v`, each times its multiplier for `n` steps ahead,
/// summed; the trailing zero differences are left out, so that their multipliers are never
/// computed.
pub fn from_diffv(v: &[usize], n: usize) -> (r: usize)
    requires
        diffv_fits(ints(v@), n as int),
    ensures
        r == psum(ints(v@), n as int, strip_len(ints(v@))),
{
    let ghost w = ints(v@);
    let mut len = v.len();
    proof {
        assert(w.take(len as int) =~= w);
    }
    while len > 0 && v[len - 1] == 0
        invariant
            w == ints(v@),
            len <= v@.len(),
            strip_len(w) == strip_len(w.take(len as int)),
        decreases len,
    {
        assert(w.take(len as int).drop_last() =~= w.take(len - 1));
        len -= 1;
    }
    proof {
        lemma_strip_len(w);
        assert(strip_len(w.take(len as int)) == len as int);
    }
    let mut sum: usize = 0;
    let mut m: usize = 1;
    let mut i: usize = 0;
    while i < len
        invariant
            w == ints(v@),
            len == strip_len(w),
            len <= v@.len(),
            diffv_fits(w, n as int),
            i <= len,
            i < len ==> m == mult(n as int, i as int),
            sum == psum(w, n as int, i as int),
        decreases len - i,
    {
        assert(w[i as int] == v@[i as int]);
        assert(psum(w, n as int, i + 1) <= usize::MAX && w[i as int] * mult(n as int, i as int) <= usize::MAX);
        sum = sum + v[i] * m;
        if i + 1 < len {
            assert(mult(n as int, i as int) * (n + i) <= usize::MAX);
            proof {
                if n >= 1 {
                    lemma_mult_pos(n as int, i as int);
                    assert(n + i <= mult(n as int, i as int) * (n + i)) by (nonlinear_arith)
                        requires mult(n as int, i as int) >= 1, n + i >= 0;
                }
            }
            m = m * (n + i) / (i + 1);
        }
        i += 1;
    }
    sum
}

/// The new table after `x`, written over `v`; `false` where a difference is negative.
fn push_value(v: &mut Vec<usize>, x: usize) -> (ok: bool)
    ensures
        ok ==> chain_diffs(ints(old(v)@), x as int) == Some(ints(final(v)@)),
        !ok ==> chain_diffs(ints(old(v)@), x as int) is None,
{
    let ghost ov = ints(v@);
    let mut x1 = x;
    let mut i: usize = 0;
    proof {
        assert(ov.skip(0) =~= ov);
        match chain_diffs(ov, x as int) {
            Some(r) => { assert(ints(v@).take(0) + r =~= r); },
            None => {},
        }
    }
    while i < v.len()
        invariant
            ov == ints(old(v)@),
            ov.len() == v@.len(),
            i <= v@.len(),
            forall|k: int| i <= k < v@.len() ==> #[trigger] v@[k] as int == ov[k],
            chain_diffs(ov, x as int) == match chain_diffs(ov.skip(i as int), x1 as int) {
                Some(r) => Some(ints(v@).take(i as int) + r),
                None => None,
            },
        decreases v@.len() - i,
    {
        let x0 = v[i];
        assert(ov.skip(i as int).drop_first() =~= ov.skip(i + 1));
        if x1 < x0 {
            assert(ov.skip(i as int)[0] == ov[i as int]);
            return false;
        }
        let d = x1 - x0;
        let ghost before = v@;
        v.set(i, x1);
        proof {
            match chain_diffs(ov.skip(i + 1), d as int) {
                Some(r) => {
                    assert(ints(v@).take(i + 1) =~= ints(before).take(i as int) + seq![x1 as int]);
                    assert(ints(before).take(i as int) + (seq![x1 as int] + r) =~= ints(v@).take(i + 1) + r);
                },
                None => {},
            }
        }
        x1 = d;
        i += 1;
    }
    let ghost before = v@;
    v.push(x1);
    proof {
        assert(ov.skip(i as int) =~= Seq::<int>::empty());
        assert(ints(v@) =~= ints(before).take(i as int) + seq![x1 as int]);
    }
    true
}

/// Where every extrapolation stays within `usize`.
pub open spec fn nth_fits(xs: Seq<int>, n: int) -> bool {
    run_from(xs, n, 0, seq![]) matches Outcome::Extrap(w, m) ==> m >= 0 && diffv_fits(w, m)
}

/// The value `n` of the sequence that begins with `xs`, read directly or extrapolated from
/// the differences once one of them is zero. `None` where the values run out first or a
/// value is smaller than the one before it on some level of differences.
pub fn nth(xs: &[usize], n: usize) -> (r: Option<usize>)
    requires
        nth_fits(ints(xs@), n as int),
    ensures
        match r {
            Some(x) => nth_value(ints(xs@), n as int) == Some(x as int),
            None => nth_value(ints(xs@), n as int) is None,
        },
{
    let ghost s = ints(xs@);
    let mut v: Vec<usize> = Vec::new();
    let mut j: usize = 0;
    loop
        invariant
            s == ints(xs@),
            j == v@.len(),
            j <= xs@.len(),
            j <= n,
            run_from(s, n as int, 0, seq![]) == run_from(s, n as int, j as int, ints(v@)),
            nth_fits(s, n as int),
        decreases xs@.len() - j,
    {
        if j >= xs.len() {
            return None;
        }
        let x1 = xs[j];
        assert(s[j as int] == x1);
        if n == v.len() {
            return Some(x1);
        }
        let ghost before = ints(v@);
        if !push_value(&mut v, x1) {
            return None;
        }
        proof {
            lemma_chain_len(before, x1 as int);
        }
        let last = v[v.len() - 1];
        assert(ints(v@).last() == last);
        if last == 0 && v.len() > 1 {
            let nfwd = n - v.len() + 1;
            return Some(from_diffv(v.as_slice(), nfwd));
        }
        j += 1;
    }
}

} // verus!
