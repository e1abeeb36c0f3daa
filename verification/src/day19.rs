//! Towel designs: the number of ways to lay out each design from the available patterns.

use vstd::prelude::*;
use vstd::string::*;
use crate::error::AocError;
use crate::text::{copy_range, lines, lines_of, push_dec, push_str, split_pair, split_two, views};

verus! {

/// `s.split(", ")`.
pub fn split_comma_space(s: &[u8]) -> (r: Vec<Vec<u8>>)
    ensures
        views(r@) == split_pair(s@, 44u8, 32u8),
{
    split_two(s, 44u8, 32u8)
}

/// The number of ways to lay out `d` as a row of pieces, each one of the patterns
/// `pats` (pieces are not empty).
pub open spec fn ways(d: Seq<u8>, pats: Set<Seq<u8>>) -> nat
    decreases d.len(), d.len() + 1,
{
    ways_last(d, pats, d.len() as int)
}

/// The ways to lay out `d` whose last piece is at most `l` long.
pub open spec fn ways_last(d: Seq<u8>, pats: Set<Seq<u8>>, l: int) -> nat
    decreases d.len(), l,
{
    if d.len() == 0 {
        1
    } else if l <= 0 || l > d.len() {
        0
    } else {
        ways_last(d, pats, l - 1) + if pats.contains(d.skip(d.len() - l)) {
            ways(d.take(d.len() - l), pats)
        } else {
            0nat
        }
    }
}


/// The ways to lay out `d[..q]` whose last piece starts before `k`: the sum over
/// `p < min(k, q)` with `d[p..q]` a pattern of the ways to lay out `d[..p]`.
pub open spec fn ways_before(d: Seq<u8>, pats: Set<Seq<u8>>, q: int, k: int) -> nat
    decreases k,
{
    if k <= 0 {
        0
    } else {
        ways_before(d, pats, q, k - 1) + if k - 1 < q && pats.contains(d.subrange(k - 1, q)) {
            ways(d.take(k - 1), pats)
        } else {
            0nat
        }
    }
}

proof fn lemma_ways_last_before(d: Seq<u8>, pats: Set<Seq<u8>>, q: int, l: int)
    requires
        1 <= q <= d.len(),
        0 <= l <= q,
    ensures
        ways_last(d.take(q), pats, l) + ways_before(d, pats, q, q - l) == ways_before(d, pats, q, q),
    decreases l,
{
    if l > 0 {
        lemma_ways_last_before(d, pats, q, l - 1);
        assert(d.take(q).skip(q - l) =~= d.subrange(q - l, q));
        assert(d.take(q).take(q - l) =~= d.take(q - l));
    }
}

proof fn lemma_ways_is_before(d: Seq<u8>, pats: Set<Seq<u8>>, q: int)
    requires
        1 <= q <= d.len(),
    ensures
        ways(d.take(q), pats) == ways_before(d, pats, q, q),
{
    lemma_ways_last_before(d, pats, q, q);
}

proof fn lemma_before_mono(d: Seq<u8>, pats: Set<Seq<u8>>, q: int, k1: int, k2: int)
    requires
        0 <= k1 <= k2,
    ensures
        ways_before(d, pats, q, k1) <= ways_before(d, pats, q, k2),
    decreases k2,
{
    if k2 > k1 {
        lemma_before_mono(d, pats, q, k1, k2 - 1);
    }
}

/// Whether `pat` occurs in `d` at `p`.
fn matches_at(d: &[u8], p: usize, pat: &[u8]) -> (r: bool)
    requires
        p <= d@.len(),
    ensures
        r == (pat@.len() <= d@.len() - p && d@.subrange(p as int, p + pat@.len()) == pat@),
{
    let n = pat.len();
    if n > d.len() - p {
        return false;
    }
    let mut i: usize = 0;
    while i < n
        invariant
            n == pat@.len() <= d@.len() - p,
            p + n <= d.len(),
            i <= n,
            forall|k: int| 0 <= k < i ==> d@[p + k] == pat@[k],
        decreases n - i,
    {
        if d[p + i] != pat[i] {
            assert(d@.subrange(p as int, p + n)[i as int] != pat@[i as int]);
            return false;
        }
        i += 1;
    }
    assert(d@.subrange(p as int, p + n) =~= pat@);
    true
}

/// The patterns are not empty and none occurs twice.
pub open spec fn patterns_ok(pats: Seq<Seq<u8>>) -> bool {
    &&& forall|i: int| 0 <= i < pats.len() ==> (#[trigger] pats[i]).len() > 0
    &&& forall|i: int, j: int| 0 <= i < j < pats.len() ==> #[trigger] pats[i] != #[trigger] pats[j]
}

/// Some pattern among the first `j` is `x`.
pub open spec fn among(pats: Seq<Seq<u8>>, j: int, x: Seq<u8>) -> bool {
    exists|k: int| 0 <= k < j && pats[k] == x
}

/// The number of ways to lay out `design` from the patterns; where no count along the way
/// passes `usize::MAX`.
pub fn arrangements(design: &[u8], pats: &Vec<Vec<u8>>) -> (r: usize)
    requires
        patterns_ok(views(pats@)),
        forall|q: int|
            0 <= q <= design@.len() ==> #[trigger] ways(design@.take(q), views(pats@).to_set()) <= usize::MAX,
    ensures
        r == ways(design@, views(pats@).to_set()),
{
    let ghost d = design@;
    let ghost ps = views(pats@);
    let ghost pset = ps.to_set();
    let n = design.len();
    let mut counts: Vec<usize> = Vec::new();
    counts.push(1);
    while counts.len() <= n
        invariant
            1 <= counts@.len() <= n + 1,
            counts@[0] == 1,
            forall|q: int| 1 <= q < counts@.len() ==> counts@[q] == 0,
        decreases n + 1 - counts@.len(),
    {
        counts.push(0);
    }
    proof {
        assert(d.take(0) =~= Seq::<u8>::empty());
    }
    let mut p: usize = 0;
    while p < n
        invariant
            d == design@,
            ps == views(pats@),
            pset == ps.to_set(),
            n == d.len(),
            patterns_ok(ps),
            forall|q: int| 0 <= q <= n ==> #[trigger] ways(d.take(q), pset) <= usize::MAX,
            counts@.len() == n + 1,
            p <= n,
            counts@[0] == 1,
            forall|q: int| 1 <= q <= p ==> #[trigger] counts@[q] == ways_before(d, pset, q, q),
            forall|q: int| p < q <= n ==> #[trigger] counts@[q] == ways_before(d, pset, q, p as int),
        decreases n - p,
    {
        let nfrom = counts[p];
        proof {
            if p == 0 {
                assert(ways(d.take(0), pset) == 1);
            } else {
                lemma_ways_is_before(d, pset, p as int);
            }
            assert(nfrom == ways(d.take(p as int), pset));
        }
        let mut j: usize = 0;
        while j < pats.len()
            invariant
                d == design@,
                ps == views(pats@),
                pset == ps.to_set(),
                n == d.len(),
                patterns_ok(ps),
                forall|q: int| 0 <= q <= n ==> #[trigger] ways(d.take(q), pset) <= usize::MAX,
                counts@.len() == n + 1,
                p < n,
                j <= ps.len(),
                nfrom == ways(d.take(p as int), pset),
                counts@[0] == 1,
                forall|q: int| 1 <= q <= p ==> #[trigger] counts@[q] == ways_before(d, pset, q, q),
                forall|q: int|
                    p < q <= n ==> #[trigger] counts@[q] == ways_before(d, pset, q, p as int) + if among(
                        ps,
                        j as int,
                        d.subrange(p as int, q),
                    ) {
                        nfrom as nat
                    } else {
                        0nat
                    },
            decreases ps.len() - j,
        {
            let pat = &pats[j];
            assert(pat@ == ps[j as int]);
            if matches_at(design, p, pat.as_slice()) {
                let q = p + pat.len();
                proof {
                    assert(pat@.len() > 0);
                    assert(d.subrange(p as int, q as int) == ps[j as int]);
                    assert(!among(ps, j as int, d.subrange(p as int, q as int))) by {
                        if among(ps, j as int, d.subrange(p as int, q as int)) {
                            let k = choose|k: int| 0 <= k < j && ps[k] == d.subrange(p as int, q as int);
                            assert(ps[k] != ps[j as int]);
                        }
                    }
                    assert(pset.contains(ps[j as int]));
                    lemma_before_mono(d, pset, q as int, p + 1, q as int);
                    lemma_ways_is_before(d, pset, q as int);
                    assert(ways_before(d, pset, q as int, p + 1) == ways_before(d, pset, q as int, p as int) + nfrom);
                }
                counts.set(q, counts[q] + nfrom);
                proof {
                    assert forall|qq: int|
                        p < qq <= n implies #[trigger] counts@[qq] == ways_before(d, pset, qq, p as int) + if among(
                            ps,
                            j + 1,
                            d.subrange(p as int, qq),
                        ) {
                            nfrom as nat
                        } else {
                            0nat
                        } by {
                        if qq == q {
                            assert(among(ps, j + 1, d.subrange(p as int, qq)));
                        } else {
                            if among(ps, j + 1, d.subrange(p as int, qq)) {
                                let k = choose|k: int| 0 <= k < j + 1 && ps[k] == d.subrange(p as int, qq);
                                if k == j {
                                    assert(d.subrange(p as int, qq).len() != d.subrange(p as int, q as int).len());
                                }
                                assert(among(ps, j as int, d.subrange(p as int, qq)));
                            }
                        }
                    }
                }
            } else {
                proof {
                    assert forall|qq: int|
                        p < qq <= n implies #[trigger] counts@[qq] == ways_before(d, pset, qq, p as int) + if among(
                            ps,
                            j + 1,
                            d.subrange(p as int, qq),
                        ) {
                            nfrom as nat
                        } else {
                            0nat
                        } by {
                        if among(ps, j + 1, d.subrange(p as int, qq)) {
                            let k = choose|k: int| 0 <= k < j + 1 && ps[k] == d.subrange(p as int, qq);
                            if k == j {
                                assert(d.subrange(p as int, p + ps[j as int].len()) == ps[j as int]);
                            }
                            assert(among(ps, j as int, d.subrange(p as int, qq)));
                        }
                    }
                }
            }
            j += 1;
        }
        proof {
            assert forall|q: int| p + 1 < q <= n implies #[trigger] counts@[q] == ways_before(d, pset, q, p + 1) by {
                if among(ps, ps.len() as int, d.subrange(p as int, q)) {
                    let k = choose|k: int| 0 <= k < ps.len() && ps[k] == d.subrange(p as int, q);
                    assert(pset.contains(d.subrange(p as int, q)));
                } else {
                    if pset.contains(d.subrange(p as int, q)) {
                        let k = choose|k: int| 0 <= k < ps.len() && ps[k] == d.subrange(p as int, q);
                        assert(among(ps, ps.len() as int, d.subrange(p as int, q)));
                    }
                }
            }
            let q = p + 1;
            if among(ps, ps.len() as int, d.subrange(p as int, q)) {
                let k = choose|k: int| 0 <= k < ps.len() && ps[k] == d.subrange(p as int, q);
                assert(pset.contains(d.subrange(p as int, q)));
            } else {
                if pset.contains(d.subrange(p as int, q)) {
                    let k = choose|k: int| 0 <= k < ps.len() && ps[k] == d.subrange(p as int, q);
                    assert(among(ps, ps.len() as int, d.subrange(p as int, q)));
                }
            }
            assert(counts@[q] == ways_before(d, pset, q, q));
        }
        p += 1;
    }
    proof {
        assert(d.take(n as int) =~= d);
        if n == 0 {
            assert(ways(d, pset) == 1);
        } else {
            lemma_ways_is_before(d, pset, n as int);
        }
    }
    counts[n]
}

/// Whether two byte strings are equal.
fn same_bytes(a: &[u8], b: &[u8]) -> (r: bool)
    ensures
        r == (a@ == b@),
{
    if a.len() != b.len() {
        return false;
    }
    let r = matches_at(a, 0, b);
    assert(a@.subrange(0, b@.len() as int) =~= a@);
    r
}

/// The patterns named on the first line: the pieces between `", "`, the empty one left out.
pub open spec fn pattern_set(line: Seq<u8>) -> Set<Seq<u8>> {
    split_pair(line, 44u8, 32u8).to_set().remove(Seq::<u8>::empty())
}

/// The distinct non-empty patterns `out` are those among the first `i` pieces `sp`.
#[verifier::opaque]
spec fn covers(out: Seq<Seq<u8>>, sp: Seq<Seq<u8>>, i: int) -> bool {
    &&& patterns_ok(out)
    &&& forall|k: int| 0 <= k < out.len() ==> exists|j: int| 0 <= j < i && sp[j] == #[trigger] out[k]
    &&& forall|j: int|
        0 <= j < i && (#[trigger] sp[j]).len() > 0 ==> exists|k: int| 0 <= k < out.len() && out[k] == sp[j]
}

proof fn lemma_covers_skip(out: Seq<Seq<u8>>, sp: Seq<Seq<u8>>, i: int)
    requires
        covers(out, sp, i),
        0 <= i < sp.len(),
        sp[i].len() == 0 || out.contains(sp[i]),
    ensures
        covers(out, sp, i + 1),
{
    reveal(covers);
    assert forall|k: int| 0 <= k < out.len() implies exists|j: int|
        0 <= j < i + 1 && sp[j] == #[trigger] out[k] by {
        let j = choose|j: int| 0 <= j < i && sp[j] == #[trigger] out[k];
        assert(0 <= j < i + 1 && sp[j] == out[k]);
    }
}

proof fn lemma_covers_add(out: Seq<Seq<u8>>, sp: Seq<Seq<u8>>, i: int)
    requires
        covers(out, sp, i),
        0 <= i < sp.len(),
        sp[i].len() > 0,
        !out.contains(sp[i]),
    ensures
        covers(out.push(sp[i]), sp, i + 1),
{
    reveal(covers);
    let o = out.push(sp[i]);
    assert forall|a: int, b: int| 0 <= a < b < o.len() implies #[trigger] o[a] != #[trigger] o[b] by {
        if b == out.len() {
            assert(o[a] == out[a]);
        }
    }
    assert forall|m: int| 0 <= m < o.len() implies (#[trigger] o[m]).len() > 0 by {
        if m < out.len() {
            assert(o[m] == out[m]);
        }
    }
    assert forall|m: int| 0 <= m < o.len() implies exists|j: int| 0 <= j < i + 1 && sp[j] == #[trigger] o[m] by {
        if m == out.len() {
            assert(sp[i] == o[m]);
        } else {
            let j = choose|j: int| 0 <= j < i && sp[j] == #[trigger] out[m];
            assert(0 <= j < i + 1 && sp[j] == o[m]);
        }
    }
    assert forall|j: int| 0 <= j < i + 1 && (#[trigger] sp[j]).len() > 0 implies exists|m: int|
        0 <= m < o.len() && o[m] == sp[j] by {
        if j == i {
            assert(o[out.len() as int] == sp[j]);
        } else {
            let m = choose|m: int| 0 <= m < out.len() && out[m] == sp[j];
            assert(o[m] == sp[j]);
        }
    }
}

proof fn lemma_covers_all(out: Seq<Seq<u8>>, sp: Seq<Seq<u8>>)
    requires
        covers(out, sp, sp.len() as int),
    ensures
        patterns_ok(out),
        out.to_set() == sp.to_set().remove(Seq::<u8>::empty()),
{
    reveal(covers);
    assert forall|x: Seq<u8>| out.to_set().contains(x) <==> sp.to_set().remove(Seq::<u8>::empty()).contains(x) by {
        if out.to_set().contains(x) {
            let k = choose|k: int| 0 <= k < out.len() && out[k] == x;
            let j = choose|j: int| 0 <= j < sp.len() && sp[j] == #[trigger] out[k];
            assert(sp.contains(x));
            assert(out[k].len() > 0);
            assert(x != Seq::<u8>::empty());
        }
        if sp.to_set().remove(Seq::<u8>::empty()).contains(x) {
            let j = choose|j: int| 0 <= j < sp.len() && sp[j] == x;
            if x.len() == 0 {
                assert(x =~= Seq::<u8>::empty());
            }
            assert(sp[j].len() > 0);
            let k = choose|k: int| 0 <= k < out.len() && out[k] == sp[j];
            assert(out.contains(x));
        }
    }
    assert(out.to_set() =~= sp.to_set().remove(Seq::<u8>::empty()));
}

/// The patterns of the first line, each once and none empty.
pub fn len_to_pats(line: &[u8]) -> (r: Vec<Vec<u8>>)
    ensures
        patterns_ok(views(r@)),
        views(r@).to_set() == pattern_set(line@),
{
    let parts = split_comma_space(line);
    let ghost sp = split_pair(line@, 44u8, 32u8);
    let mut out: Vec<Vec<u8>> = Vec::new();
    let mut i: usize = 0;
    proof {
        reveal(covers);
    }
    while i < parts.len()
        invariant
            views(parts@) == sp,
            i <= sp.len(),
            covers(views(out@), sp, i as int),
        decreases sp.len() - i,
    {
        let piece = &parts[i];
        assert(piece@ == sp[i as int]);
        if piece.len() > 0 {
            let mut seen = false;
            let mut k: usize = 0;
            while k < out.len()
                invariant
                    k <= out@.len(),
                    seen == exists|m: int| 0 <= m < k && views(out@)[m] == piece@,
                decreases out@.len() - k,
            {
                assert(views(out@)[k as int] == out@[k as int]@);
                if same_bytes(out[k].as_slice(), piece.as_slice()) {
                    seen = true;
                }
                k += 1;
            }
            if !seen {
                let ghost before = views(out@);
                let copy = copy_range(piece.as_slice(), 0, piece.len());
                assert(copy@ =~= piece@);
                out.push(copy);
                proof {
                    assert(views(out@) =~= before.push(sp[i as int]));
                    lemma_covers_add(before, sp, i as int);
                }
            } else {
                proof {
                    let m = choose|m: int| 0 <= m < k && views(out@)[m] == piece@;
                    assert(views(out@).contains(sp[i as int]));
                    lemma_covers_skip(views(out@), sp, i as int);
                }
            }
        } else {
            proof {
                lemma_covers_skip(views(out@), sp, i as int);
            }
        }
        i += 1;
    }
    proof {
        lemma_covers_all(views(out@), sp);
    }
    out
}

/// How many of the first `k` designs can be laid out.
pub open spec fn possible_upto(ds: Seq<Seq<u8>>, pats: Set<Seq<u8>>, k: int) -> nat
    decreases k,
{
    if k <= 0 {
        0
    } else {
        possible_upto(ds, pats, k - 1) + if ways(ds[k - 1], pats) > 0 {
            1nat
        } else {
            0nat
        }
    }
}

/// The ways to lay out the first `k` designs, summed.
pub open spec fn ways_upto(ds: Seq<Seq<u8>>, pats: Set<Seq<u8>>, k: int) -> nat
    decreases k,
{
    if k <= 0 {
        0
    } else {
        ways_upto(ds, pats, k - 1) + ways(ds[k - 1], pats)
    }
}

/// The designs: the lines after the pattern line and the line that follows it.
pub open spec fn designs(input: Seq<u8>) -> Seq<Seq<u8>> {
    lines_of(input).skip(2)
}

/// The patterns of the input.
pub open spec fn patterns(input: Seq<u8>) -> Set<Seq<u8>> {
    pattern_set(lines_of(input)[0])
}

/// No count, for a design, one of its beginnings or the sum, passes `usize::MAX`.
pub open spec fn counts_fit(input: Seq<u8>) -> bool {
    let ds = designs(input);
    let pats = patterns(input);
    lines_of(input).len() >= 2 ==> {
        &&& ways_upto(ds, pats, ds.len() as int) <= usize::MAX
        &&& forall|i: int, q: int|
            0 <= i < ds.len() && 0 <= q <= ds[i].len() ==> #[trigger] ways(ds[i].take(q), pats) <= usize::MAX
    }
}

proof fn lemma_ways_upto_mono(ds: Seq<Seq<u8>>, pats: Set<Seq<u8>>, a: int, b: int)
    requires
        0 <= a <= b,
    ensures
        ways_upto(ds, pats, a) <= ways_upto(ds, pats, b),
        possible_upto(ds, pats, a) <= a,
    decreases b,
{
    if b > a {
        lemma_ways_upto_mono(ds, pats, a, b - 1);
    } else if a > 0 {
        lemma_ways_upto_mono(ds, pats, a - 1, a - 1);
    }
}

/// The number of designs that can be laid out, and the number of ways to lay them all out;
/// an error where the pattern line or the blank line after it is missing.
pub fn stars(input: &[u8]) -> (r: Result<(usize, usize), AocError>)
    requires
        counts_fit(input@),
    ensures
        lines_of(input@).len() < 2 <==> r is Err,
        r matches Ok((a, b)) ==> a == possible_upto(designs(input@), patterns(input@), designs(input@).len() as int)
            && b == ways_upto(designs(input@), patterns(input@), designs(input@).len() as int),
        r matches Err(e) ==> e == AocError::InvalidInput,
{
    let ls = lines(input);
    if ls.len() < 2 {
        return Err(AocError::InvalidInput);
    }
    let ghost sl = lines_of(input@);
    let ghost ds = designs(input@);
    let ghost pset = patterns(input@);
    assert(ls@[0]@ == sl[0]);
    let pats = len_to_pats(ls[0].as_slice());
    let mut nok: usize = 0;
    let mut narr: usize = 0;
    let mut i: usize = 2;
    while i < ls.len()
        invariant
            sl == lines_of(input@),
            views(ls@) == sl,
            sl.len() >= 2,
            ds == sl.skip(2),
            pset == pattern_set(sl[0]),
            counts_fit(input@),
            patterns_ok(views(pats@)),
            views(pats@).to_set() == pset,
            2 <= i <= sl.len(),
            nok == possible_upto(ds, pset, i - 2),
            narr == ways_upto(ds, pset, i - 2),
        decreases sl.len() - i,
    {
        let design = &ls[i];
        assert(design@ == ds[i - 2]);
        proof {
            assert forall|q: int| 0 <= q <= design@.len() implies #[trigger] ways(design@.take(q), views(pats@).to_set())
                <= usize::MAX by {
                assert(ways(ds[i - 2].take(q), pset) <= usize::MAX);
            }
            lemma_ways_upto_mono(ds, pset, i - 1, ds.len() as int);
            lemma_ways_upto_mono(ds, pset, i - 2, i - 2);
        }
        let n = arrangements(design.as_slice(), &pats);
        if n > 0 {
            nok = nok + 1;
        }
        narr = narr + n;
        i += 1;
    }
    Ok((nok, narr))
}

/// The two answers, separated by a space.
pub fn run(input: &str) -> (r: Result<String, AocError>)
    requires
        counts_fit(input.spec_bytes()),
    ensures
        lines_of(input.spec_bytes()).len() < 2 <==> r is Err,
        r matches Ok(out) ==> out@ == crate::text::dec(
            possible_upto(designs(input.spec_bytes()), patterns(input.spec_bytes()), designs(input.spec_bytes()).len() as int),
        ) + " "@ + crate::text::dec(
            ways_upto(designs(input.spec_bytes()), patterns(input.spec_bytes()), designs(input.spec_bytes()).len() as int),
        ),
        r matches Err(e) ==> e == AocError::InvalidInput,
{
    let (s1, s2) = match stars(input.as_bytes()) {
        Ok(v) => v,
        Err(e) => return Err(e),
    };
    let mut out = String::new();
    push_dec(&mut out, s1 as u64);
    push_str(&mut out, " ");
    push_dec(&mut out, s2 as u64);
    Ok(out)
}

} // verus!
