//! Plutonian pebbles: how many stones a row becomes after blinking, where each blink turns
//! a 0 into a 1, splits a stone with an even number of digits in two halves, and multiplies
//! any other stone by 2024.

use vstd::prelude::*;
use vstd::string::*;
use std::collections::HashMap;
use crate::error::AocError;
use crate::text::{parse_u64, push_dec, push_str, unsigned_in, views, words, words_of};

verus! {

broadcast use vstd::std_specs::hash::group_hash_axioms;

/// `10^k`.
pub open spec fn pow10(k: nat) -> nat
    decreases k,
{
    if k == 0 {
        1
    } else {
        10 * pow10((k - 1) as nat)
    }
}

/// The number of decimal digits of `s`.
pub open spec fn ndigits(s: nat) -> nat
    decreases s,
{
    if s < 10 {
        1
    } else {
        1 + ndigits(s / 10)
    }
}

/// The two halves of the digits of `s`, where it has an even number of them.
pub open spec fn split(s: nat) -> Option<(nat, nat)> {
    let d = ndigits(s);
    if d % 2 == 0 {
        Some((s / pow10(d / 2), s % pow10(d / 2)))
    } else {
        None
    }
}

/// The number of stones that `s` becomes after `n` blinks.
pub open spec fn blinks(s: nat, n: nat) -> nat
    decreases n,
{
    if n == 0 {
        1
    } else if s == 0 {
        blinks(1, (n - 1) as nat)
    } else {
        match split(s) {
            Some((l, r)) => blinks(l, (n - 1) as nat) + blinks(r, (n - 1) as nat),
            None => blinks(s * 2024, (n - 1) as nat),
        }
    }
}

/// Blinking `n` times at `s` keeps every stone below `10^18` and the count within `usize`.
pub open spec fn fits(s: nat, n: nat) -> bool
    decreases n,
{
    &&& s < 1000000000000000000
    &&& blinks(s, n) <= usize::MAX
    &&& n > 0 ==> if s == 0 {
        fits(1, (n - 1) as nat)
    } else {
        match split(s) {
            Some((l, r)) => fits(l, (n - 1) as nat) && fits(r, (n - 1) as nat),
            None => fits(s * 2024, (n - 1) as nat),
        }
    }
}

pub proof fn lemma_pow10_add(a: nat, b: nat)
    ensures
        pow10(a + b) == pow10(a) * pow10(b),
    decreases a,
{
    if a > 0 {
        let a1 = (a - 1) as nat;
        lemma_pow10_add(a1, b);
        assert(pow10(a) == 10 * pow10(a1));
        assert(pow10(a1 + b + 1) == 10 * pow10(a1 + b));
        assert(a1 + b + 1 == a + b);
        assert(10 * (pow10(a1) * pow10(b)) == (10 * pow10(a1)) * pow10(b)) by (nonlinear_arith);
        assert(pow10(a + b) == pow10(a1 + b + 1));
    } else {
        assert(pow10(0) == 1);
        assert(a + b == b);
    }
}

proof fn lemma_ndigits(s: nat, d: nat)
    requires
        d >= 1,
        pow10((d - 1) as nat) <= s < pow10(d),
    ensures
        ndigits(s) == d,
    decreases d,
{
    if d > 1 {
        assert(pow10((d - 1) as nat) == 10 * pow10((d - 2) as nat));
        lemma_ndigits(s / 10, (d - 1) as nat);
    } else {
        assert(pow10(1) == 10 * pow10(0));
    }
}

/// The two halves of the digits of `stone`, where it has an even number of them.
pub fn split_stone(stone: u64) -> (r: Option<(u64, u64)>)
    requires
        stone < 1000000000000000000,
    ensures
        match r {
            Some((l, h)) => split(stone as nat) == Some((l as nat, h as nat)),
            None => split(stone as nat) is None,
        },
{
    let mut n: u64 = 1;
    let ghost mut k: nat = 0;
    loop
        invariant
            stone < 1000000000000000000,
            n >= 1,
            n == pow10(k),
            n * n < 1000000000000000000,
            k == 0 || stone >= n * n,
        decreases 1000000000000000000 - n * n,
    {
        proof {
            lemma_pow10_add(k, k);
            lemma_pow10_add(2 * k, 1);
            lemma_pow10_add(2 * k, 2);
            assert(pow10(1) == 10) by {
                assert(pow10(1) == 10 * pow10(0));
            }
            assert(pow10(2) == 100) by {
                assert(pow10(2) == 10 * pow10(1));
                assert(pow10(1) == 10 * pow10(0));
            }
        }
        assert(n < 1000000000) by (nonlinear_arith)
            requires n * n < 1000000000000000000, n >= 1;
        let nn = n * n;
        let lo = nn * 10;
        if lo > stone {
            proof {
                if stone > 0 {
                    if k == 0 {
                        lemma_ndigits(stone as nat, 1);
                    } else {
                        lemma_ndigits(stone as nat, 2 * k + 1);
                    }
                }
            }
            return None;
        }
        let hi = nn * 100;
        if stone < hi {
            let dm = n * 10;
            proof {
                lemma_ndigits(stone as nat, 2 * k + 2);
                lemma_pow10_add(k, 1);
                assert((2 * k + 2) / 2 == k + 1);
            }
            return Some((stone / dm, stone % dm));
        }
        proof {
            assert(pow10(k + 1) == 10 * pow10(k));
            k = k + 1;
        }
        let ghost n0 = n;
        n = n * 10;
        assert(n * n == nn * 100) by (nonlinear_arith)
            requires nn == n0 * n0, n == n0 * 10;
        assert(nn >= 1) by (nonlinear_arith)
            requires nn == n0 * n0, n0 >= 1;
    }
}

/// Every table `levels[c]` maps stones to their count after `c` blinks.
pub open spec fn memo_ok(levels: Seq<HashMap<u64, usize>>) -> bool {
    forall|c: int, s: u64|
        0 <= c < levels.len() && #[trigger] levels[c]@.contains_key(s) ==> levels[c]@[s] as nat == blinks(
            s as nat,
            c as nat,
        )
}

/// An empty table for each blink count below `levels`.
pub fn new_memo(levels: usize) -> (r: Vec<HashMap<u64, usize>>)
    ensures
        r@.len() == levels,
        memo_ok(r@),
{
    let mut r: Vec<HashMap<u64, usize>> = Vec::new();
    let mut i: usize = 0;
    while i < levels
        invariant
            i <= levels,
            r@.len() == i,
            memo_ok(r@),
        decreases levels - i,
    {
        let ghost before = r@;
        r.push(HashMap::new());
        proof {
            assert forall|c: int, s: u64|
                0 <= c < r@.len() && #[trigger] r@[c]@.contains_key(s) implies r@[c]@[s] as nat == blinks(
                s as nat,
                c as nat,
            ) by {
                if c < before.len() {
                    assert(r@[c] == before[c]);
                }
            }
        }
        i += 1;
    }
    r
}

/// The number of stones that `stone` becomes after `count` blinks, remembering each count
/// that it works out in `m`.
pub fn blink_cached(m: &mut Vec<HashMap<u64, usize>>, stone: u64, count: usize) -> (r: usize)
    requires
        memo_ok(old(m)@),
        count < old(m)@.len(),
        fits(stone as nat, count as nat),
    ensures
        memo_ok(final(m)@),
        final(m)@.len() == old(m)@.len(),
        r == blinks(stone as nat, count as nat),
    decreases count,
{
    if count == 0 {
        return 1;
    }
    match m[count].get(&stone) {
        Some(n) => {
            return *n;
        },
        None => {},
    }
    let n = if stone == 0 {
        blink_cached(m, 1, count - 1)
    } else {
        match split_stone(stone) {
            Some((l, r)) => {
                let a = blink_cached(m, l, count - 1);
                let b = blink_cached(m, r, count - 1);
                a + b
            },
            None => {
                assert(fits(stone as nat * 2024, (count - 1) as nat));
                blink_cached(m, stone * 2024, count - 1)
            },
        }
    };
    let ghost before = m@;
    m[count].insert(stone, n);
    proof {
        assert forall|c: int, s: u64|
            0 <= c < m@.len() && #[trigger] m@[c]@.contains_key(s) implies m@[c]@[s] as nat == blinks(
            s as nat,
            c as nat,
        ) by {
            if c != count {
                assert(m@[c] == before[c]);
            } else if s != stone {
                assert(before[c]@.contains_key(s));
            }
        }
    }
    n
}

/// The stones after `blink` blinks, summed over the row.
pub open spec fn total_blinks(stones: Seq<u64>, blink: nat, k: int) -> nat
    decreases k,
{
    if k <= 0 {
        0
    } else {
        total_blinks(stones, blink, k - 1) + blinks(stones[k - 1] as nat, blink)
    }
}

proof fn lemma_total_mono(stones: Seq<u64>, blink: nat, a: int, b: int)
    requires
        0 <= a <= b,
    ensures
        total_blinks(stones, blink, a) <= total_blinks(stones, blink, b),
    decreases b,
{
    if b > a {
        lemma_total_mono(stones, blink, a, b - 1);
    }
}

/// The number of stones the row becomes after `blink` blinks.
pub fn blink_stones(stones: &[u64], blink: usize) -> (r: usize)
    requires
        blink < usize::MAX,
        forall|i: int| 0 <= i < stones@.len() ==> fits(#[trigger] stones@[i] as nat, blink as nat),
        total_blinks(stones@, blink as nat, stones@.len() as int) <= usize::MAX,
    ensures
        r == total_blinks(stones@, blink as nat, stones@.len() as int),
{
    let mut m = new_memo(blink + 1);
    let mut sum: usize = 0;
    let mut i: usize = 0;
    while i < stones.len()
        invariant
            blink < usize::MAX,
            m@.len() == blink + 1,
            memo_ok(m@),
            i <= stones@.len(),
            forall|j: int| 0 <= j < stones@.len() ==> fits(#[trigger] stones@[j] as nat, blink as nat),
            total_blinks(stones@, blink as nat, stones@.len() as int) <= usize::MAX,
            sum == total_blinks(stones@, blink as nat, i as int),
        decreases stones@.len() - i,
    {
        let n = blink_cached(&mut m, stones[i], blink);
        proof {
            lemma_total_mono(stones@, blink as nat, i + 1, stones@.len() as int);
        }
        sum = sum + n;
        i += 1;
    }
    sum
}

/// The stones of the input: its words, each a number below `2^64`.
pub open spec fn stones_of(input: Seq<u8>) -> Option<Seq<u64>> {
    let ws = words_of(input);
    if forall|i: int| 0 <= i < ws.len() ==> #[trigger] unsigned_in(ws[i], u64::MAX as int) is Some {
        Some(Seq::new(ws.len(), |i: int| unsigned_in(ws[i], u64::MAX as int).unwrap() as u64))
    } else {
        None
    }
}

/// The stones of the input; an error where a word is not a number below `2^64`.
pub fn parse_stones(input: &str) -> (r: Result<Vec<u64>, AocError>)
    ensures
        match r {
            Ok(v) => stones_of(input.spec_bytes()) == Some(v@),
            Err(e) => stones_of(input.spec_bytes()) is None && e == AocError::InvalidNumber,
        },
{
    let ws = words(input.as_bytes());
    let ghost sw = words_of(input.spec_bytes());
    let mut out: Vec<u64> = Vec::new();
    let mut i: usize = 0;
    while i < ws.len()
        invariant
            sw == words_of(input.spec_bytes()),
            views(ws@) == sw,
            i <= sw.len(),
            out@.len() == i,
            forall|k: int| 0 <= k < i ==> #[trigger] unsigned_in(sw[k], u64::MAX as int) is Some,
            forall|k: int| 0 <= k < i ==> out@[k] == unsigned_in(#[trigger] sw[k], u64::MAX as int).unwrap(),
        decreases sw.len() - i,
    {
        assert(ws@[i as int]@ == sw[i as int]);
        match parse_u64(ws[i].as_slice()) {
            Some(v) => {
                out.push(v);
            },
            None => {
                assert(unsigned_in(sw[i as int], u64::MAX as int) is None);
                return Err(AocError::InvalidNumber);
            },
        }
        i += 1;
    }
    assert(out@ =~= Seq::new(sw.len(), |k: int| unsigned_in(sw[k], u64::MAX as int).unwrap() as u64));
    Ok(out)
}

/// The row fits the counting for both 25 and 75 blinks.
pub open spec fn stones_fit(stones: Seq<u64>) -> bool {
    &&& forall|i: int| 0 <= i < stones.len() ==> fits(#[trigger] stones[i] as nat, 25)
    &&& forall|i: int| 0 <= i < stones.len() ==> fits(#[trigger] stones[i] as nat, 75)
    &&& total_blinks(stones, 25, stones.len() as int) <= usize::MAX
    &&& total_blinks(stones, 75, stones.len() as int) <= usize::MAX
}

/// The number of stones after 25 and after 75 blinks.
pub fn run(input: &str) -> (r: Result<String, AocError>)
    requires
        stones_of(input.spec_bytes()) matches Some(ss) ==> stones_fit(ss),
    ensures
        match stones_of(input.spec_bytes()) {
            Some(ss) => r matches Ok(out) && out@ == crate::text::dec(total_blinks(ss, 25, ss.len() as int))
                + " "@ + crate::text::dec(total_blinks(ss, 75, ss.len() as int)),
            None => r == Err::<String, AocError>(AocError::InvalidNumber),
        },
{
    let stones = match parse_stones(input) {
        Ok(v) => v,
        Err(e) => return Err(e),
    };
    let s1 = blink_stones(stones.as_slice(), 25);
    let s2 = blink_stones(stones.as_slice(), 75);
    let mut out = String::new();
    push_dec(&mut out, s1 as u64);
    push_str(&mut out, " ");
    push_dec(&mut out, s2 as u64);
    Ok(out)
}

} // verus!
