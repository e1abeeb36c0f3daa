//! Mull it over: the `mul(x,y)` instructions in corrupted memory, found with a regular
//! expression, their products summed; and the same with `do()` and `don't()` switching them
//! on and off.

use vstd::prelude::*;
use vstd::string::*;
use crate::error::AocError;
use crate::text::{parse_u64, push_dec, push_str, unsigned_in};

verus! {

/// The matches of the regular expression `pattern` in `hay`, as `regex::Regex::captures_iter`
/// yields them, each as the UTF-8 bytes of every capture group (group 0 the whole match,
/// `None` for a group that took no part); `None` where `pattern` does not compile.
pub uninterp spec fn regex_captures(pattern: Seq<char>, hay: Seq<char>) -> Option<Seq<Seq<Option<Seq<u8>>>>>;

/// The groups of one match as plain values.
pub open spec fn cap_view(c: Seq<Option<Vec<u8>>>) -> Seq<Option<Seq<u8>>> {
    Seq::new(
        c.len(),
        |j: int|
            match c[j] {
                Some(b) => Some(b@),
                None => None,
            },
    )
}

/// The groups of each match as plain values.
pub open spec fn cap_views(v: Seq<Vec<Option<Vec<u8>>>>) -> Seq<Seq<Option<Seq<u8>>>> {
    Seq::new(v.len(), |i: int| cap_view(v[i]@))
}

/// Compiles `pattern` with `regex::Regex::new` and runs `captures_iter` over `hay`,
/// copying out the text of each capture group. The contract claims only that the result is
/// what `regex_captures` names for these arguments: the matching itself is the regex crate's.
#[verifier::external_body]
fn captures(pattern: &str, hay: &str) -> (r: Option<Vec<Vec<Option<Vec<u8>>>>>)
    ensures
        match r {
            Some(v) => regex_captures(pattern@, hay@) == Some(cap_views(v@)),
            None => regex_captures(pattern@, hay@) is None,
        },
{
    let re = regex::Regex::new(pattern).ok()?;
    Some(
        re.captures_iter(hay).map(|c| c.iter().map(|m| m.map(|m| m.as_str().as_bytes().to_vec())).collect()).collect(),
    )
}

/// Group `i` of a match, `None` where it took no part or does not exist.
pub open spec fn group(c: Seq<Option<Seq<u8>>>, i: int) -> Option<Seq<u8>> {
    if 0 <= i < c.len() {
        c[i]
    } else {
        None
    }
}

/// A group's text read as a number.
pub open spec fn num(o: Option<Seq<u8>>) -> Option<nat> {
    match o {
        Some(s) => unsigned_in(s, usize::MAX as int),
        None => None,
    }
}

/// The product of the two numbers of a `mul` match, where both read as numbers.
pub open spec fn mul_value(c: Seq<Option<Seq<u8>>>) -> Option<int> {
    match (num(group(c, 1)), num(group(c, 2))) {
        (Some(x), Some(y)) => Some((x * y) as int),
        _ => None,
    }
}

/// The products of the first `k` matches, summed.
pub open spec fn mul_total(caps: Seq<Seq<Option<Seq<u8>>>>, k: int) -> int
    decreases k,
{
    if k <= 0 {
        0
    } else {
        mul_total(caps, k - 1) + match mul_value(caps[k - 1]) {
            Some(v) => v,
            None => 0,
        }
    }
}

/// Every match has its two groups, and no product or sum passes `usize::MAX`.
pub open spec fn mul_fits(caps: Seq<Seq<Option<Seq<u8>>>>) -> bool {
    &&& forall|i: int|
        0 <= i < caps.len() ==> (#[trigger] caps[i]).len() == 3 && caps[i][1] is Some && caps[i][2] is Some
    &&& forall|i: int| 0 <= i < caps.len() ==> (#[trigger] mul_value(caps[i]) matches Some(v) ==> v <= usize::MAX)
    &&& forall|k: int| 0 <= k <= caps.len() ==> #[trigger] mul_total(caps, k) <= usize::MAX
}

/// The number in a group, where it reads as one.
fn group_num(c: &Vec<Option<Vec<u8>>>, i: usize) -> (r: Option<usize>)
    ensures
        match r {
            Some(v) => num(group(cap_view(c@), i as int)) == Some(v as nat),
            None => num(group(cap_view(c@), i as int)) is None,
        },
{
    if i >= c.len() {
        return None;
    }
    match &c[i] {
        Some(b) => match parse_u64(b.as_slice()) {
            Some(v) => if v <= usize::MAX as u64 {
                Some(v as usize)
            } else {
                None
            },
            None => None,
        },
        None => None,
    }
}

/// The products of the `mul` matches, summed.
pub fn mul_sum(caps: &Vec<Vec<Option<Vec<u8>>>>) -> (r: usize)
    requires
        mul_fits(cap_views(caps@)),
    ensures
        r == mul_total(cap_views(caps@), caps@.len() as int),
{
    let ghost cv = cap_views(caps@);
    let mut sum: usize = 0;
    let mut i: usize = 0;
    while i < caps.len()
        invariant
            cv == cap_views(caps@),
            mul_fits(cv),
            i <= caps@.len(),
            sum == mul_total(cv, i as int),
        decreases caps@.len() - i,
    {
        let c = &caps[i];
        assert(cv[i as int] == cap_view(c@));
        assert(mul_total(cv, i + 1) <= usize::MAX);
        match (group_num(c, 1), group_num(c, 2)) {
            (Some(x), Some(y)) => {
                assert(mul_value(cv[i as int]) == Some(x * y));
                sum = sum + x * y;
            },
            _ => {},
        }
        i += 1;
    }
    sum
}

/// The products of the `mul(x,y)` instructions, summed; `None` where the pattern does not
/// compile.
pub fn star1(input: &str) -> (r: Option<usize>)
    requires
        regex_captures("mul\\(([0-9]{1,3}),([0-9]{1,3})\\)"@, input@) matches Some(c) ==> mul_fits(c),
    ensures
        match regex_captures("mul\\(([0-9]{1,3}),([0-9]{1,3})\\)"@, input@) {
            Some(c) => r matches Some(v) && v == mul_total(c, c.len() as int),
            None => r is None,
        },
{
    let caps = captures("mul\\(([0-9]{1,3}),([0-9]{1,3})\\)", input)?;
    Some(mul_sum(&caps))
}

/// `do()`.
pub open spec fn do_text() -> Seq<u8> {
    seq![100u8, 111u8, 40u8, 41u8]
}

/// `don't()`.
pub open spec fn dont_text() -> Seq<u8> {
    seq![100u8, 111u8, 110u8, 39u8, 116u8, 40u8, 41u8]
}

/// The whole text of a match, empty where it has none.
pub open spec fn whole(c: Seq<Option<Seq<u8>>>) -> Seq<u8> {
    match group(c, 0) {
        Some(s) => s,
        None => seq![],
    }
}

/// After the first `k` matches: whether `mul` is switched on, and the enabled products so far.
pub open spec fn cond_state(caps: Seq<Seq<Option<Seq<u8>>>>, k: int) -> (bool, int)
    decreases k,
{
    if k <= 0 {
        (true, 0)
    } else {
        let (on, sum) = cond_state(caps, k - 1);
        let c = caps[k - 1];
        if whole(c) == do_text() {
            (true, sum)
        } else if whole(c) == dont_text() {
            (false, sum)
        } else if on {
            (on, sum + match mul_value(c) {
                Some(v) => v,
                None => 0,
            })
        } else {
            (on, sum)
        }
    }
}

/// No product or sum of the switched-on instructions passes `usize::MAX`.
pub open spec fn cond_fits(caps: Seq<Seq<Option<Seq<u8>>>>) -> bool {
    &&& forall|i: int| 0 <= i < caps.len() ==> (#[trigger] mul_value(caps[i]) matches Some(v) ==> v <= usize::MAX)
    &&& forall|k: int| 0 <= k <= caps.len() ==> (#[trigger] cond_state(caps, k)).1 <= usize::MAX
}

/// Whether the bytes `b` equal `t`.
fn bytes_are(b: &Vec<u8>, t: &[u8]) -> (r: bool)
    ensures
        r == (b@ == t@),
{
    if b.len() != t.len() {
        return false;
    }
    let mut i: usize = 0;
    while i < t.len()
        invariant
            b@.len() == t@.len(),
            i <= t@.len(),
            forall|j: int| 0 <= j < i ==> b@[j] == t@[j],
        decreases t@.len() - i,
    {
        if b[i] != t[i] {
            return false;
        }
        i += 1;
    }
    assert(b@ =~= t@);
    true
}

/// Whether a match is `do()`, and whether it is `don't()`.
fn switch_of(c: &Vec<Option<Vec<u8>>>) -> (r: (bool, bool))
    ensures
        r.0 == (whole(cap_view(c@)) == do_text()),
        r.1 == (whole(cap_view(c@)) == dont_text()),
{
    let dot: Vec<u8> = vec![100u8, 111u8, 40u8, 41u8];
    let dont: Vec<u8> = vec![100u8, 111u8, 110u8, 39u8, 116u8, 40u8, 41u8];
    assert(dot@ =~= do_text() && dont@ =~= dont_text());
    if c.len() > 0 {
        match &c[0] {
            Some(b) => (bytes_are(b, dot.as_slice()), bytes_are(b, dont.as_slice())),
            None => {
                assert(whole(cap_view(c@)) =~= Seq::<u8>::empty());
                (false, false)
            },
        }
    } else {
        assert(whole(cap_view(c@)) =~= Seq::<u8>::empty());
        (false, false)
    }
}

/// The products of the `mul` matches that `do()` and `don't()` leave switched on, summed.
pub fn cond_sum(caps: &Vec<Vec<Option<Vec<u8>>>>) -> (r: usize)
    requires
        cond_fits(cap_views(caps@)),
    ensures
        r == cond_state(cap_views(caps@), caps@.len() as int).1,
{
    let ghost cv = cap_views(caps@);
    let mut enable = true;
    let mut sum: usize = 0;
    let mut i: usize = 0;
    while i < caps.len()
        invariant
            cv == cap_views(caps@),
            cond_fits(cv),
            i <= caps@.len(),
            (enable, sum as int) == cond_state(cv, i as int),
        decreases caps@.len() - i,
    {
        let c = &caps[i];
        assert(cv[i as int] == cap_view(c@));
        let (is_do, is_dont) = switch_of(c);
        assert((cond_state(cv, i + 1)).1 <= usize::MAX);
        if is_do {
            enable = true;
        } else if is_dont {
            enable = false;
        } else if enable {
            match (group_num(c, 1), group_num(c, 2)) {
                (Some(x), Some(y)) => {
                    assert(mul_value(cv[i as int]) == Some(x * y));
                    sum = sum + x * y;
                },
                _ => {},
            }
        }
        i += 1;
    }
    sum
}

/// The products of the `mul` instructions that `do()` and `don't()` leave switched on,
/// summed; `None` where the pattern does not compile.
pub fn star2(input: &str) -> (r: Option<usize>)
    requires
        regex_captures("do\\(\\)|don't\\(\\)|mul\\(([0-9]{1,3}),([0-9]{1,3})\\)"@, input@) matches Some(c) ==> cond_fits(c),
    ensures
        match regex_captures("do\\(\\)|don't\\(\\)|mul\\(([0-9]{1,3}),([0-9]{1,3})\\)"@, input@) {
            Some(c) => r matches Some(v) && v == cond_state(c, c.len() as int).1,
            None => r is None,
        },
{
    let caps = captures("do\\(\\)|don't\\(\\)|mul\\(([0-9]{1,3}),([0-9]{1,3})\\)", input)?;
    Some(cond_sum(&caps))
}

/// Whether every match has its two groups and no product or sum passes `usize::MAX`.
pub fn mul_fits_check(caps: &Vec<Vec<Option<Vec<u8>>>>) -> (r: bool)
    ensures
        r == mul_fits(cap_views(caps@)),
{
    let ghost cv = cap_views(caps@);
    let mut sum: usize = 0;
    let mut i: usize = 0;
    while i < caps.len()
        invariant
            cv == cap_views(caps@),
            i <= caps@.len(),
            forall|j: int| 0 <= j < i ==> (#[trigger] cv[j]).len() == 3 && cv[j][1] is Some && cv[j][2] is Some,
            forall|j: int| 0 <= j < i ==> (#[trigger] mul_value(cv[j]) matches Some(v) ==> v <= usize::MAX),
            forall|k: int| 0 <= k <= i ==> #[trigger] mul_total(cv, k) <= usize::MAX,
            sum == mul_total(cv, i as int),
        decreases caps@.len() - i,
    {
        let c = &caps[i];
        assert(cv[i as int] == cap_view(c@));
        if c.len() != 3 || c[1].is_none() || c[2].is_none() {
            return false;
        }
        match (group_num(c, 1), group_num(c, 2)) {
            (Some(x), Some(y)) => {
                assert(mul_value(cv[i as int]) == Some(x * y));
                match x.checked_mul(y) {
                    Some(p) => match sum.checked_add(p) {
                        Some(t) => {
                            sum = t;
                        },
                        None => {
                            assert(mul_total(cv, i + 1) > usize::MAX);
                            return false;
                        },
                    },
                    None => {
                        return false;
                    },
                }
            },
            _ => {},
        }
        assert(mul_total(cv, i + 1) == sum);
        i += 1;
    }
    true
}

/// Whether no switched-on product or sum passes `usize::MAX`.
pub fn cond_fits_check(caps: &Vec<Vec<Option<Vec<u8>>>>) -> (r: bool)
    ensures
        r == cond_fits(cap_views(caps@)),
{
    let ghost cv = cap_views(caps@);
    let mut enable = true;
    let mut sum: usize = 0;
    let mut i: usize = 0;
    while i < caps.len()
        invariant
            cv == cap_views(caps@),
            i <= caps@.len(),
            forall|j: int| 0 <= j < i ==> (#[trigger] mul_value(cv[j]) matches Some(v) ==> v <= usize::MAX),
            forall|k: int| 0 <= k <= i ==> (#[trigger] cond_state(cv, k)).1 <= usize::MAX,
            (enable, sum as int) == cond_state(cv, i as int),
        decreases caps@.len() - i,
    {
        let c = &caps[i];
        assert(cv[i as int] == cap_view(c@));
        let prod = match (group_num(c, 1), group_num(c, 2)) {
            (Some(x), Some(y)) => {
                assert(mul_value(cv[i as int]) == Some(x * y));
                match x.checked_mul(y) {
                    Some(p) => p,
                    None => {
                        return false;
                    },
                }
            },
            _ => 0,
        };
        let (is_do, is_dont) = switch_of(c);
        if is_do {
            enable = true;
        } else if is_dont {
            enable = false;
        } else if enable {
            match sum.checked_add(prod) {
                Some(t) => {
                    sum = t;
                },
                None => {
                    assert((cond_state(cv, i + 1)).1 > usize::MAX);
                    return false;
                },
            }
        }
        i += 1;
    }
    true
}

/// The two sums, the second counting only switched-on instructions; an error where a `mul`
/// match lacks a group or a sum passes `usize::MAX`.
pub fn run(input: &str) -> (r: Result<String, AocError>)
    ensures
        r is Ok ==> exists|c1: Seq<Seq<Option<Seq<u8>>>>, c2: Seq<Seq<Option<Seq<u8>>>>|
            {
                &&& regex_captures("mul\\(([0-9]{1,3}),([0-9]{1,3})\\)"@, input@) == Some(c1)
                &&& regex_captures("do\\(\\)|don't\\(\\)|mul\\(([0-9]{1,3}),([0-9]{1,3})\\)"@, input@) == Some(c2)
                &&& r->Ok_0@ == crate::text::dec(mul_total(c1, c1.len() as int) as nat) + " "@ + crate::text::dec(
                    cond_state(c2, c2.len() as int).1 as nat,
                )
            },
        (regex_captures("mul\\(([0-9]{1,3}),([0-9]{1,3})\\)"@, input@) matches Some(c1) && mul_fits(c1))
            && (regex_captures("do\\(\\)|don't\\(\\)|mul\\(([0-9]{1,3}),([0-9]{1,3})\\)"@, input@) matches Some(c2)
            && cond_fits(c2)) ==> r is Ok,
{
    let c1 = match captures("mul\\(([0-9]{1,3}),([0-9]{1,3})\\)", input) {
        Some(c) => c,
        None => return Err(AocError::InvalidInput),
    };
    let c2 = match captures("do\\(\\)|don't\\(\\)|mul\\(([0-9]{1,3}),([0-9]{1,3})\\)", input) {
        Some(c) => c,
        None => return Err(AocError::InvalidInput),
    };
    if !mul_fits_check(&c1) || !cond_fits_check(&c2) {
        return Err(AocError::Overflow);
    }
    let s1 = match star1(input) {
        Some(v) => v,
        None => return Err(AocError::InvalidInput),
    };
    let s2 = match star2(input) {
        Some(v) => v,
        None => return Err(AocError::InvalidInput),
    };
    let mut out = String::new();
    push_dec(&mut out, s1 as u64);
    push_str(&mut out, " ");
    push_dec(&mut out, s2 as u64);
    proof {
        let v1 = cap_views(c1@);
        let v2 = cap_views(c2@);
        assert(out@ == crate::text::dec(mul_total(v1, v1.len() as int) as nat) + " "@ + crate::text::dec(
            cond_state(v2, v2.len() as int).1 as nat,
        ));
    }
    Ok(out)
}

/// The `mul` instructions are switched on before match `j`: every `don't()` before it is
/// followed, still before it, by a `do()`.
pub open spec fn switched_on(caps: Seq<Seq<Option<Seq<u8>>>>, j: int) -> bool {
    forall|k: int|
        0 <= k < j && #[trigger] whole(caps[k]) == dont_text() ==> exists|m: int| k < m < j && #[trigger] whole(caps[m]) == do_text()
}

/// The products of the `mul` matches among the first `n` that are switched on, summed.
pub open spec fn switched_on_total(caps: Seq<Seq<Option<Seq<u8>>>>, n: int) -> int
    decreases n,
{
    if n <= 0 {
        0
    } else {
        let c = caps[n - 1];
        switched_on_total(caps, n - 1) + if switched_on(caps, n - 1) && whole(c) != do_text() && whole(c) != dont_text() {
            match mul_value(c) {
                Some(v) => v,
                None => 0,
            }
        } else {
            0
        }
    }
}

/// `do()` switches the `mul` instructions on and `don't()` off, whatever came before: the
/// state after the first `n` matches is on just when every `don't()` among them is followed
/// by a `do()`, and the sum is that of the products of the matches switched on.
pub proof fn law_switches(caps: Seq<Seq<Option<Seq<u8>>>>, n: int)
    requires
        0 <= n <= caps.len(),
    ensures
        cond_state(caps, n).0 == switched_on(caps, n),
        cond_state(caps, n).1 == switched_on_total(caps, n),
    decreases n,
{
    if n > 0 {
        law_switches(caps, n - 1);
        let c = caps[n - 1];
        if whole(c) == do_text() {
            assert forall|k: int| 0 <= k < n && #[trigger] whole(caps[k]) == dont_text() implies exists|m: int| k < m < n && #[trigger] whole(caps[m]) == do_text() by {
                assert(k < n - 1) by {
                    if k == n - 1 {
                        assert(do_text() != dont_text()) by {
                            assert(do_text().len() != dont_text().len());
                        }
                    }
                }
                assert(whole(caps[n - 1]) == do_text());
            }
        } else if whole(c) == dont_text() {
            assert(whole(caps[n - 1]) == dont_text());
            if switched_on(caps, n) {
                let m = choose|m: int| n - 1 < m < n && #[trigger] whole(caps[m]) == do_text();
            }
        } else {
            assert(switched_on(caps, n) == switched_on(caps, n - 1)) by {
                if switched_on(caps, n - 1) {
                    assert forall|k: int| 0 <= k < n && #[trigger] whole(caps[k]) == dont_text() implies exists|m: int| k < m < n && #[trigger] whole(caps[m]) == do_text() by {
                        assert(k < n - 1);
                        let m = choose|m: int| k < m < n - 1 && #[trigger] whole(caps[m]) == do_text();
                    }
                }
                if switched_on(caps, n) {
                    assert forall|k: int| 0 <= k < n - 1 && #[trigger] whole(caps[k]) == dont_text() implies exists|m: int| k < m < n - 1 && #[trigger] whole(caps[m]) == do_text() by {
                        let m = choose|m: int| k < m < n && #[trigger] whole(caps[m]) == do_text();
                        assert(m != n - 1);
                    }
                }
            }
        }
    }
}

} // verus!
