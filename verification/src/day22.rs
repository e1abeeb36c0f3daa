//! Monkey market: pseudo-random secret numbers, their prices, and the run of four price
//! changes that sells for the most bananas.

use vstd::prelude::*;
use vstd::string::*;
use crate::error::AocError;
use crate::text::{lines, lines_of, parse_u64, push_dec, push_str, unsigned_in, views};

verus! {

/// How many new secrets each buyer makes in a day.
pub const SECRETS_PER_DAY: usize = 2000;

/// The mask that keeps a secret below `2^24`.
pub const PRUNE: u32 = 0xffffff;

/// The next secret after `s`: mix in `s * 64`, prune, mix in `s / 32`, prune, mix in
/// `s * 2048`, prune.
pub open spec fn step(s: u32) -> u32 {
    let a = (s ^ (s << 6u32)) & 0xffffffu32;
    let b = (a ^ (a >> 5u32)) & 0xffffffu32;
    (b ^ (b << 11u32)) & 0xffffffu32
}

/// The secret after `n` steps from `s0`.
pub open spec fn secret(s0: u32, n: nat) -> u32
    decreases n,
{
    if n == 0 {
        s0
    } else {
        step(secret(s0, (n - 1) as nat))
    }
}

/// The next secret.
pub fn step_secret(s: u32) -> (r: u32)
    ensures
        r == step(s),
{
    let mut s = s;
    s ^= s << 6u32;
    s &= PRUNE;
    s ^= s >> 5u32;
    s &= PRUNE;
    s ^= s << 11u32;
    s &= PRUNE;
    s
}

/// The secret after `n` steps.
pub fn secret_after(s0: u32, n: usize) -> (r: u32)
    ensures
        r == secret(s0, n as nat),
{
    let mut s = s0;
    let mut i: usize = 0;
    while i < n
        invariant
            i <= n,
            s == secret(s0, i as nat),
        decreases n - i,
    {
        s = step_secret(s);
        i += 1;
    }
    s
}

/// The first `n` secrets from `s0`, `s0` first.
pub fn secret_iter(s0: u32, n: usize) -> (r: Vec<u32>)
    ensures
        r@.len() == n,
        forall|i: int| 0 <= i < n ==> #[trigger] r@[i] == secret(s0, i as nat),
{
    let mut r: Vec<u32> = Vec::new();
    let mut s = s0;
    let mut i: usize = 0;
    while i < n
        invariant
            i <= n,
            r@.len() == i,
            s == secret(s0, i as nat),
            forall|k: int| 0 <= k < i ==> #[trigger] r@[k] == secret(s0, k as nat),
        decreases n - i,
    {
        r.push(s);
        s = step_secret(s);
        i += 1;
    }
    r
}

/// The price on the `i`-th secret: its last decimal digit.
pub open spec fn price(s0: u32, i: int) -> int {
    (secret(s0, i as nat) % 10) as int
}

/// The change of price at `i`, the price before the first being taken as zero; zero before
/// the start.
pub open spec fn diff(s0: u32, i: int) -> int {
    if i < 0 {
        0
    } else if i == 0 {
        price(s0, 0)
    } else {
        price(s0, i) - price(s0, i - 1)
    }
}

/// The last four changes of price at `i`.
pub open spec fn window(s0: u32, i: int) -> (int, int, int, int) {
    (diff(s0, i - 3), diff(s0, i - 2), diff(s0, i - 1), diff(s0, i))
}

/// The last four changes of price, oldest first.
#[derive(Debug, Clone, Copy, PartialEq, Eq)]
pub struct Changes(pub [i8; 4]);

impl Changes {
    /// No changes yet.
    pub fn new() -> (r: Self)
        ensures
            r.0@ == seq![0i8, 0i8, 0i8, 0i8],
    {
        Changes([0i8; 4])
    }

    /// Adds the newest change, dropping the oldest.
    pub fn push(&mut self, d: i8)
        ensures
            final(self).0@ == seq![old(self).0@[1], old(self).0@[2], old(self).0@[3], d],
    {
        let a = self.0[1];
        let b = self.0[2];
        let c = self.0[3];
        self.0 = [a, b, c, d];
    }
}

/// The first `n` pairs of the last four changes and the price, one per secret from `s0`.
pub fn price_changes_iter(s0: u32, n: usize) -> (r: Vec<(Changes, usize)>)
    ensures
        r@.len() == n,
        forall|i: int|
            0 <= i < n ==> {
                let (c, p) = #[trigger] r@[i];
                &&& c.0@.len() == 4
                &&& (c.0@[0] as int, c.0@[1] as int, c.0@[2] as int, c.0@[3] as int) == window(s0, i)
                &&& p as int == price(s0, i)
            },
{
    let mut r: Vec<(Changes, usize)> = Vec::new();
    let mut ch = Changes::new();
    let mut s = s0;
    let mut prev: i8 = 0;
    let mut i: usize = 0;
    while i < n
        invariant
            i <= n,
            r@.len() == i,
            s == secret(s0, i as nat),
            prev as int == (if i == 0 { 0 } else { price(s0, i - 1) }),
            ch.0@.len() == 4,
            (ch.0@[0] as int, ch.0@[1] as int, ch.0@[2] as int, ch.0@[3] as int) == window(s0, i - 1),
            forall|k: int|
                0 <= k < i ==> {
                    let (c, p) = #[trigger] r@[k];
                    &&& c.0@.len() == 4
                    &&& (c.0@[0] as int, c.0@[1] as int, c.0@[2] as int, c.0@[3] as int) == window(s0, k)
                    &&& p as int == price(s0, k)
                },
        decreases n - i,
    {
        let p = (s % 10) as i8;
        let d = p - prev;
        ch.push(d);
        r.push((ch, p as usize));
        prev = p;
        s = step_secret(s);
        i += 1;
    }
    r
}

/// The four changes packed into one number below `19^4`.
pub open spec fn pack(w: (int, int, int, int)) -> int {
    (w.0 + 9) * 6859 + (w.1 + 9) * 361 + (w.2 + 9) * 19 + (w.3 + 9)
}

/// Every change is between -9 and 9.
pub open spec fn in_range(w: (int, int, int, int)) -> bool {
    -9 <= w.0 <= 9 && -9 <= w.1 <= 9 && -9 <= w.2 <= 9 && -9 <= w.3 <= 9
}

/// The price when the changes `w` first show among the secrets `4..n` of `s0`.
pub open spec fn first_upto(s0: u32, w: (int, int, int, int), n: int) -> Option<int>
    decreases n,
{
    if n <= 4 {
        None
    } else {
        match first_upto(s0, w, n - 1) {
            Some(p) => Some(p),
            None => if window(s0, n - 1) == w {
                Some(price(s0, n - 1))
            } else {
                None
            },
        }
    }
}

/// The bananas that the changes `w` buy from the first `b` buyers.
pub open spec fn bananas(ss: Seq<u32>, w: (int, int, int, int), b: int) -> int
    decreases b,
{
    if b <= 0 {
        0
    } else {
        bananas(ss, w, b - 1) + match first_upto(ss[b - 1], w, SECRETS_PER_DAY as int) {
            Some(p) => p,
            None => 0,
        }
    }
}

proof fn lemma_diff_range(s0: u32, i: int)
    requires
        i >= 1,
    ensures
        -9 <= diff(s0, i) <= 9,
{
}

proof fn lemma_first_upto(s0: u32, w: (int, int, int, int), n: int)
    ensures
        first_upto(s0, w, n) matches Some(p) ==> in_range(w) && 0 <= p <= 9,
    decreases n,
{
    if n > 4 {
        lemma_first_upto(s0, w, n - 1);
        if first_upto(s0, w, n - 1) is None && window(s0, n - 1) == w {
            lemma_diff_range(s0, n - 4);
            lemma_diff_range(s0, n - 3);
            lemma_diff_range(s0, n - 2);
            lemma_diff_range(s0, n - 1);
        }
    }
}

proof fn lemma_bananas(ss: Seq<u32>, w: (int, int, int, int), b: int)
    requires
        0 <= b <= ss.len(),
    ensures
        0 <= bananas(ss, w, b) <= 9 * b,
        !in_range(w) ==> bananas(ss, w, b) == 0,
    decreases b,
{
    if b > 0 {
        lemma_bananas(ss, w, b - 1);
        lemma_first_upto(ss[b - 1], w, SECRETS_PER_DAY as int);
    }
}

proof fn lemma_pack(w: (int, int, int, int), v: (int, int, int, int))
    requires
        in_range(w),
        in_range(v),
    ensures
        0 <= pack(w) < 130321,
        pack(w) == pack(v) ==> w == v,
{
}

/// The window of changes for the secret `i`, given the window before it and the prices.
fn pack_exec(w: (i8, i8, i8, i8)) -> (r: usize)
    requires
        in_range((w.0 as int, w.1 as int, w.2 as int, w.3 as int)),
    ensures
        r as int == pack((w.0 as int, w.1 as int, w.2 as int, w.3 as int)),
        r < 130321,
{
    let a = (w.0 + 9) as usize;
    let b = (w.1 + 9) as usize;
    let c = (w.2 + 9) as usize;
    let d = (w.3 + 9) as usize;
    a * 6859 + b * 361 + c * 19 + d
}

/// The most bananas that one run of four changes buys over all buyers.
pub fn star2(secrets: &[u32]) -> (r: usize)
    requires
        secrets@.len() <= usize::MAX / 9,
    ensures
        forall|w: (int, int, int, int)| #[trigger] bananas(secrets@, w, secrets@.len() as int) <= r,
        exists|w: (int, int, int, int)| #[trigger] bananas(secrets@, w, secrets@.len() as int) == r,
{
    let ghost ss = secrets@;
    let mut totals: Vec<usize> = Vec::new();
    let mut stamp: Vec<usize> = Vec::new();
    let mut c: usize = 0;
    while c < 130321
        invariant
            c <= 130321,
            totals@.len() == c,
            stamp@.len() == c,
            forall|k: int| 0 <= k < c ==> totals@[k] == 0 && stamp@[k] == 0,
        decreases 130321 - c,
    {
        totals.push(0);
        stamp.push(0);
        c += 1;
    }
    let mut best: usize = 0;
    let mut b: usize = 0;
    while b < secrets.len()
        invariant
            ss == secrets@,
            ss.len() <= usize::MAX / 9,
            b <= ss.len(),
            totals@.len() == 130321,
            stamp@.len() == 130321,
            forall|k: int| 0 <= k < 130321 ==> stamp@[k] <= b,
            forall|w: (int, int, int, int)|
                in_range(w) ==> totals@[pack(w)] == #[trigger] bananas(ss, w, b as int),
            forall|w: (int, int, int, int)| in_range(w) ==> #[trigger] bananas(ss, w, b as int) <= best,
            best == 0 || exists|w: (int, int, int, int)|
                in_range(w) && #[trigger] bananas(ss, w, b as int) == best,
        decreases ss.len() - b,
    {
        let s0 = secrets[b];
        let stamp_b = b + 1;
        let mut s = s0;
        let mut prev: i8 = 0;
        let mut win: (i8, i8, i8, i8) = (0, 0, 0, 0);
        let mut i: usize = 0;
        proof {
            assert forall|w: (int, int, int, int)| in_range(w) implies totals@[pack(w)] <= best by {
                assert(totals@[pack(w)] == bananas(ss, w, b as int));
            }
            if best != 0 {
                let w = choose|w: (int, int, int, int)| in_range(w) && #[trigger] bananas(ss, w, b as int) == best;
                assert(totals@[pack(w)] == bananas(ss, w, b as int));
            }
        }
        while i < SECRETS_PER_DAY
            invariant
                ss == secrets@,
                ss.len() <= usize::MAX / 9,
                b < ss.len(),
                s0 == ss[b as int],
                stamp_b == b + 1,
                i <= SECRETS_PER_DAY,
                s == secret(s0, i as nat),
                prev as int == (if i == 0 { 0 } else { price(s0, i - 1) }),
                (win.0 as int, win.1 as int, win.2 as int, win.3 as int) == window(s0, i - 1),
                totals@.len() == 130321,
                stamp@.len() == 130321,
                forall|k: int| 0 <= k < 130321 ==> stamp@[k] <= stamp_b,
                forall|w: (int, int, int, int)|
                    in_range(w) ==> (stamp@[pack(w)] == stamp_b <==> #[trigger] first_upto(s0, w, i as int) is Some),
                forall|w: (int, int, int, int)|
                    in_range(w) ==> totals@[pack(w)] == bananas(ss, w, b as int) + match #[trigger] first_upto(
                        s0,
                        w,
                        i as int,
                    ) {
                        Some(p) => p,
                        None => 0,
                    },
                forall|w: (int, int, int, int)|
                    in_range(w) ==> totals@[pack(w)] <= best,
                best == 0 || exists|w: (int, int, int, int)| in_range(w) && totals@[pack(w)] == best,
            decreases SECRETS_PER_DAY - i,
        {
            let p = (s % 10) as i8;
            let d = p - prev;
            win = (win.1, win.2, win.3, d);
            let ghost wi = (win.0 as int, win.1 as int, win.2 as int, win.3 as int);
            assert(wi == window(s0, i as int));
            assert(p as int == price(s0, i as int));
            if i >= 4 {
                proof {
                    lemma_diff_range(s0, i - 3);
                    lemma_diff_range(s0, i - 2);
                    lemma_diff_range(s0, i - 1);
                    lemma_diff_range(s0, i as int);
                }
                let code = pack_exec(win);
                if stamp[code] != stamp_b {
                    proof {
                        lemma_bananas(ss, wi, b as int);
                        lemma_first_upto(s0, wi, i as int);
                        assert(first_upto(s0, wi, i as int) is None);
                        assert(totals@[code as int] == bananas(ss, wi, b as int));
                    }
                    let ghost wit = if best == 0 {
                        wi
                    } else {
                        choose|w: (int, int, int, int)| in_range(w) && totals@[pack(w)] == best
                    };
                    let v = totals[code] + p as usize;
                    stamp.set(code, stamp_b);
                    totals.set(code, v);
                    if v > best {
                        best = v;
                    }
                    proof {
                        assert forall|w: (int, int, int, int)| in_range(w) implies (stamp@[pack(w)] == stamp_b
                            <==> #[trigger] first_upto(s0, w, i + 1) is Some) by {
                            lemma_pack(w, wi);
                            assert(first_upto(s0, w, i as int) == first_upto(s0, w, i as int));
                        }
                        assert forall|w: (int, int, int, int)| in_range(w) implies totals@[pack(w)] == bananas(
                            ss,
                            w,
                            b as int,
                        ) + match #[trigger] first_upto(s0, w, i + 1) {
                            Some(p) => p,
                            None => 0,
                        } by {
                            lemma_pack(w, wi);
                            assert(first_upto(s0, w, i as int) == first_upto(s0, w, i as int));
                        }
                        assert forall|w: (int, int, int, int)| in_range(w) implies totals@[pack(w)] <= best by {
                            lemma_pack(w, wi);
                        }
                        if best != 0 {
                            if best == v {
                                assert(in_range(wi) && totals@[pack(wi)] == best);
                            } else {
                                lemma_pack(wit, wi);
                                assert(in_range(wit) && totals@[pack(wit)] == best);
                            }
                        }
                    }
                } else {
                    proof {
                        assert forall|w: (int, int, int, int)| in_range(w) implies (stamp@[pack(w)] == stamp_b
                            <==> #[trigger] first_upto(s0, w, i + 1) is Some) by {
                            lemma_pack(w, wi);
                            assert(first_upto(s0, w, i as int) == first_upto(s0, w, i as int));
                        }
                        assert forall|w: (int, int, int, int)| in_range(w) implies totals@[pack(w)] == bananas(
                            ss,
                            w,
                            b as int,
                        ) + match #[trigger] first_upto(s0, w, i + 1) {
                            Some(p) => p,
                            None => 0,
                        } by {
                            lemma_pack(w, wi);
                            assert(first_upto(s0, w, i as int) == first_upto(s0, w, i as int));
                        }
                    }
                }
            }
            if i < 4 {
                proof {
                    assert forall|w: (int, int, int, int)| in_range(w) implies (stamp@[pack(w)] == stamp_b
                        <==> #[trigger] first_upto(s0, w, i + 1) is Some) by {
                        assert(first_upto(s0, w, i as int) == first_upto(s0, w, i as int));
                    }
                    assert forall|w: (int, int, int, int)| in_range(w) implies totals@[pack(w)] == bananas(
                        ss,
                        w,
                        b as int,
                    ) + match #[trigger] first_upto(s0, w, i + 1) {
                        Some(p) => p,
                        None => 0,
                    } by {
                        assert(first_upto(s0, w, i as int) == first_upto(s0, w, i as int));
                    }
                }
            }
            prev = p;
            s = step_secret(s);
            i += 1;
        }
        proof {
            assert forall|w: (int, int, int, int)| in_range(w) implies totals@[pack(w)] == #[trigger] bananas(
                ss,
                w,
                b + 1,
            ) by {
                assert(first_upto(s0, w, SECRETS_PER_DAY as int) == first_upto(s0, w, i as int));
            }
            assert forall|w: (int, int, int, int)| in_range(w) implies #[trigger] bananas(ss, w, b + 1) <= best by {
                assert(totals@[pack(w)] == bananas(ss, w, b + 1));
            }
            if best != 0 {
                let w = choose|w: (int, int, int, int)| in_range(w) && totals@[pack(w)] == best;
                assert(totals@[pack(w)] == bananas(ss, w, b + 1));
            }
        }
        b += 1;
    }
    proof {
        let n = ss.len() as int;
        assert forall|w: (int, int, int, int)| #[trigger] bananas(ss, w, n) <= best by {
            lemma_bananas(ss, w, n);
        }
        if best == 0 {
            let w = (100int, 100int, 100int, 100int);
            lemma_bananas(ss, w, n);
            assert(bananas(ss, w, n) == best);
        } else {
            let w = choose|w: (int, int, int, int)| in_range(w) && #[trigger] bananas(ss, w, n) == best;
            assert(bananas(ss, w, n) == best);
        }
    }
    best
}

/// The secrets of the first `n` buyers at the end of the day, summed.
pub open spec fn day_sum(ss: Seq<u32>, n: int) -> int
    decreases n,
{
    if n <= 0 {
        0
    } else {
        day_sum(ss, n - 1) + secret(ss[n - 1], SECRETS_PER_DAY as nat)
    }
}

proof fn lemma_day_sum_mono(ss: Seq<u32>, a: int, b: int)
    requires
        0 <= a <= b,
    ensures
        day_sum(ss, a) <= day_sum(ss, b),
    decreases b,
{
    if b > a {
        lemma_day_sum_mono(ss, a, b - 1);
    }
}

/// The sum of every buyer's secret at the end of the day.
pub fn star1(secrets: &[u32]) -> (r: usize)
    requires
        day_sum(secrets@, secrets@.len() as int) <= usize::MAX,
    ensures
        r == day_sum(secrets@, secrets@.len() as int),
{
    let mut sum: usize = 0;
    let mut i: usize = 0;
    while i < secrets.len()
        invariant
            i <= secrets@.len(),
            day_sum(secrets@, secrets@.len() as int) <= usize::MAX,
            sum == day_sum(secrets@, i as int),
        decreases secrets@.len() - i,
    {
        let s = secret_after(secrets[i], SECRETS_PER_DAY);
        proof {
            lemma_day_sum_mono(secrets@, i + 1, secrets@.len() as int);
        }
        sum = sum + s as usize;
        i += 1;
    }
    sum
}

/// The starting secrets, one number per line.
pub open spec fn secrets_of(input: Seq<u8>) -> Option<Seq<u32>> {
    let ls = lines_of(input);
    if forall|i: int| 0 <= i < ls.len() ==> #[trigger] unsigned_in(ls[i], u32::MAX as int) is Some {
        Some(Seq::new(ls.len(), |i: int| unsigned_in(ls[i], u32::MAX as int).unwrap() as u32))
    } else {
        None
    }
}

/// The starting secrets; an error where a line is not a number below `2^32`.
pub fn parse_input(input: &str) -> (r: Result<Vec<u32>, AocError>)
    ensures
        match r {
            Ok(v) => secrets_of(input.spec_bytes()) == Some(v@),
            Err(e) => secrets_of(input.spec_bytes()) is None && e == AocError::InvalidNumber,
        },
{
    let ls = lines(input.as_bytes());
    let ghost sl = lines_of(input.spec_bytes());
    let mut out: Vec<u32> = Vec::new();
    let mut i: usize = 0;
    while i < ls.len()
        invariant
            sl == lines_of(input.spec_bytes()),
            views(ls@) == sl,
            i <= sl.len(),
            out@.len() == i,
            forall|k: int| 0 <= k < i ==> #[trigger] unsigned_in(sl[k], u32::MAX as int) is Some,
            forall|k: int| 0 <= k < i ==> out@[k] == unsigned_in(#[trigger] sl[k], u32::MAX as int).unwrap(),
        decreases sl.len() - i,
    {
        assert(ls@[i as int]@ == sl[i as int]);
        match parse_u64(ls[i].as_slice()) {
            Some(v) => {
                if v > 4294967295u64 {
                    assert(unsigned_in(sl[i as int], u32::MAX as int) is None);
                    return Err(AocError::InvalidNumber);
                }
                out.push(v as u32);
            },
            None => {
                assert(unsigned_in(sl[i as int], u32::MAX as int) is None);
                return Err(AocError::InvalidNumber);
            },
        }
        i += 1;
    }
    assert(out@ =~= Seq::new(sl.len(), |k: int| unsigned_in(sl[k], u32::MAX as int).unwrap() as u32));
    Ok(out)
}

/// The sum of the end-of-day secrets and the most bananas one run of changes buys.
pub fn run(input: &str) -> (r: Result<String, AocError>)
    requires
        secrets_of(input.spec_bytes()) matches Some(ss) ==> ss.len() <= usize::MAX / 9 && day_sum(
            ss,
            ss.len() as int,
        ) <= usize::MAX,
    ensures
        match secrets_of(input.spec_bytes()) {
            Some(ss) => r matches Ok(out) && exists|w: (int, int, int, int)|
                (forall|v: (int, int, int, int)| #[trigger] bananas(ss, v, ss.len() as int) <= bananas(ss, w, ss.len() as int))
                && out@ == crate::text::dec(day_sum(ss, ss.len() as int) as nat) + " "@ + crate::text::dec(
                    bananas(ss, w, ss.len() as int) as nat,
                ),
            None => r == Err::<String, AocError>(AocError::InvalidNumber),
        },
{
    let secrets = match parse_input(input) {
        Ok(v) => v,
        Err(e) => return Err(e),
    };
    let s1 = star1(secrets.as_slice());
    let s2 = star2(secrets.as_slice());
    let mut out = String::new();
    push_dec(&mut out, s1 as u64);
    push_str(&mut out, " ");
    push_dec(&mut out, s2 as u64);
    proof {
        let w = choose|w: (int, int, int, int)| #[trigger] bananas(secrets@, w, secrets@.len() as int) == s2;
        assert(forall|v: (int, int, int, int)| #[trigger] bananas(secrets@, v, secrets@.len() as int) <= bananas(secrets@, w, secrets@.len() as int));
    }
    Ok(out)
}

} // verus!
