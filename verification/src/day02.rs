//! Reactor reports: a report is safe when its levels all rise or all fall by one to three.

use vstd::prelude::*;
use vstd::string::*;
use crate::error::AocError;
use crate::text::{lines, lines_of, parse_i64, push_dec, signed_in, views, words, words_of};

verus! {

/// The levels of a report line, where each word is a number.
pub open spec fn levels_of(l: Seq<u8>) -> Option<Seq<int>> {
    let ws = words_of(l);
    if forall|i: int| 0 <= i < ws.len() ==> signed_in(#[trigger] ws[i], i64::MIN as int, i64::MAX as int) is Some {
        Some(Seq::new(ws.len(), |i: int| signed_in(ws[i], i64::MIN as int, i64::MAX as int).unwrap()))
    } else {
        None
    }
}

/// The step from level `i` to the next.
pub open spec fn rise(v: Seq<int>, i: int) -> int {
    v[i + 1] - v[i]
}

/// Every step from one level to the next rises by one to three, or every step falls by one
/// to three.
pub open spec fn report_safe(v: Seq<int>) -> bool {
    (forall|i: int| 0 <= i < v.len() - 1 ==> 1 <= #[trigger] rise(v, i) <= 3) || (forall|i: int|
        0 <= i < v.len() - 1 ==> -3 <= #[trigger] rise(v, i) <= -1)
}

/// A line that can be judged: at least two numbers, and no step outside the `i64` range.
pub open spec fn line_ok(l: Seq<u8>) -> bool {
    levels_of(l) matches Some(v) && v.len() >= 2 && forall|i: int|
        0 <= i < v.len() - 1 ==> i64::MIN < #[trigger] rise(v, i) <= i64::MAX
}

/// Whether the report on the line is safe.
pub fn line_safe(line: &[u8]) -> (r: bool)
    requires
        line_ok(line@),
    ensures
        r == report_safe(levels_of(line@).unwrap()),
{
    let ws = words(line);
    let ghost v = levels_of(line@).unwrap();
    let ghost sw = words_of(line@);
    let mut nums: Vec<i64> = Vec::new();
    let mut i: usize = 0;
    while i < ws.len()
        invariant
            views(ws@) == sw,
            sw == words_of(line@),
            v == levels_of(line@).unwrap(),
            line_ok(line@),
            i <= sw.len(),
            nums@.len() == i,
            forall|k: int| 0 <= k < i ==> #[trigger] nums@[k] as int == v[k],
        decreases sw.len() - i,
    {
        assert(ws@[i as int]@ == sw[i as int]);
        assert(signed_in(sw[i as int], i64::MIN as int, i64::MAX as int) is Some);
        let x = parse_i64(ws[i].as_slice()).unwrap();
        nums.push(x);
        i += 1;
    }
    assert(v[1] - v[0] == nums@[1] - nums@[0]);
    assert(i64::MIN < rise(v, 0) <= i64::MAX);
    let first = nums[1] - nums[0];
    if first == 0 || !(first >= -3 && first <= 3) {
        assert(!(1 <= rise(v, 0) <= 3) && !(-3 <= rise(v, 0) <= -1));
        return false;
    }
    let up = first > 0;
    let mut k: usize = 2;
    while k < nums.len()
        invariant
            v == levels_of(line@).unwrap(),
            nums@.len() == v.len() >= 2,
            forall|j: int| 0 <= j < v.len() ==> #[trigger] nums@[j] as int == v[j],
            forall|j: int| 0 <= j < v.len() - 1 ==> i64::MIN < #[trigger] rise(v, j) <= i64::MAX,
            2 <= k <= v.len(),
            up == (v[1] - v[0] > 0),
            up ==> forall|j: int| 0 <= j < k - 1 ==> 1 <= #[trigger] rise(v, j) <= 3,
            !up ==> forall|j: int| 0 <= j < k - 1 ==> -3 <= #[trigger] rise(v, j) <= -1,
        decreases v.len() - k,
    {
        assert(v[k as int] - v[k - 1] == nums@[k as int] - nums@[k - 1]);
        assert(i64::MIN < rise(v, k - 1) <= i64::MAX);
        let d = nums[k] - nums[k - 1];
        if up {
            if !(d >= 1 && d <= 3) {
                assert(!(1 <= rise(v, k - 1) <= 3));
                assert(rise(v, 0) >= 1);
                return false;
            }
        } else {
            if !(d >= -3 && d <= -1) {
                assert(!(-3 <= rise(v, k - 1) <= -1));
                assert(rise(v, 0) <= -1);
                return false;
            }
        }
        k += 1;
    }
    true
}

/// The number of the first `n` lines that hold safe reports.
pub open spec fn safe_count(ls: Seq<Seq<u8>>, n: int) -> nat
    decreases n,
{
    if n <= 0 {
        0
    } else {
        safe_count(ls, n - 1) + if report_safe(levels_of(ls[n - 1]).unwrap()) { 1nat } else { 0nat }
    }
}

/// The number of safe reports.
pub fn count_safe(input: &[u8]) -> (r: usize)
    requires
        forall|i: int| 0 <= i < lines_of(input@).len() ==> line_ok(#[trigger] lines_of(input@)[i]),
    ensures
        r == safe_count(lines_of(input@), lines_of(input@).len() as int),
{
    let ls = lines(input);
    let ghost sl = lines_of(input@);
    let mut n: usize = 0;
    let mut i: usize = 0;
    while i < ls.len()
        invariant
            sl == lines_of(input@),
            views(ls@) == sl,
            forall|k: int| 0 <= k < sl.len() ==> line_ok(#[trigger] sl[k]),
            i <= sl.len(),
            n == safe_count(sl, i as int),
            n <= i,
        decreases sl.len() - i,
    {
        assert(ls@[i as int]@ == sl[i as int]);
        assert(line_ok(sl[i as int]));
        if line_safe(ls[i].as_slice()) {
            n += 1;
        }
        i += 1;
    }
    n
}

/// The number of safe reports, as text; where every line holds two or more numbers.
pub fn run(input: &str) -> (r: Result<String, AocError>)
    requires
        forall|i: int|
            0 <= i < lines_of(input.spec_bytes()).len() ==> line_ok(#[trigger] lines_of(input.spec_bytes())[i]),
    ensures
        r matches Ok(out) && out@ == crate::text::dec(
            safe_count(lines_of(input.spec_bytes()), lines_of(input.spec_bytes()).len() as int),
        ),
{
    let s1 = count_safe(input.as_bytes());
    let mut out = String::new();
    push_dec(&mut out, s1 as u64);
    Ok(out)
}

} // verus!
