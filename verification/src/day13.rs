//! Claw machines: the fewest tokens that win each prize, pressing button A (three
//! tokens) and button B (one token).

use vstd::prelude::*;
use vstd::string::*;
use crate::error::AocError;
use crate::grid::Point;
use crate::text::{
    copy_range, is_ws, lines, lines_of, parse_i64, push_dec, push_str, signed_in, split_once,
    split_once_byte, trim, trim_bytes, views,
};

verus! {

/// A machine: the moves of its two buttons and where its prize lies.
#[derive(Debug, Clone, Copy)]
pub struct Machine {
    pub a: Point,
    pub b: Point,
    pub prize: Point,
}

/// After `k` presses of A the claw is no longer below and left of the prize.
pub open spec fn stops(m: Machine, k: int) -> bool {
    !(k * m.a.x < m.prize.x && k * m.a.y < m.prize.y)
}

/// The walk along button A reaches `k` presses: it did not stop before.
pub open spec fn reached(m: Machine, k: int) -> bool {
    k >= 0 && forall|j: int| 0 <= j < k ==> !#[trigger] stops(m, j)
}

/// The number of A presses where the walk stops.
pub open spec fn last_step(m: Machine) -> int {
    choose|k: int| reached(m, k) && stops(m, k)
}

/// What is left after `k` presses of A, in x and in y.
pub open spec fn rest_x(m: Machine, k: int) -> int {
    m.prize.x - k * m.a.x
}

pub open spec fn rest_y(m: Machine, k: int) -> int {
    m.prize.y - k * m.a.y
}

/// The tokens for `k` presses of A and then as many presses of B as reach the prize exactly.
pub open spec fn cost_at(m: Machine, k: int) -> Option<int> {
    let dx = rest_x(m, k);
    let dy = rest_y(m, k);
    if dx >= 0 && dy >= 0 && dx % (m.b.x as int) == 0 && dy % (m.b.y as int) == 0 && dx / (
    m.b.x as int) == dy / (m.b.y as int) {
        Some(3 * k + dx / (m.b.x as int))
    } else {
        None
    }
}

/// The smaller of two optional costs.
pub open spec fn opt_min(a: Option<int>, b: Option<int>) -> Option<int> {
    match (a, b) {
        (Some(x), Some(y)) => Some(if x <= y { x } else { y }),
        (Some(x), None) => Some(x),
        (None, y) => y,
    }
}

/// The least cost for fewer than `n` presses of A.
pub open spec fn min_upto(m: Machine, n: int) -> Option<int>
    decreases n,
{
    if n <= 0 {
        None
    } else {
        opt_min(min_upto(m, n - 1), cost_at(m, n - 1))
    }
}

/// The fewest tokens that win the prize, over the presses of A that the walk reaches.
pub open spec fn best_cost(m: Machine) -> Option<int> {
    min_upto(m, last_step(m) + 1)
}

/// The claw passes the prize in both directions by whole presses of B.
pub open spec fn overshoot_hit(m: Machine, k: int) -> bool {
    let dx = rest_x(m, k);
    let dy = rest_y(m, k);
    dx < 0 && dy < 0 && dx % (m.b.x as int) == 0 && dy % (m.b.y as int) == 0 && dx / (m.b.x as int)
        == dy / (m.b.y as int)
}

/// The buttons move up and right, the walk stays in `i32` range, and it never passes the
/// prize by a whole number of B presses in both directions at once.
pub open spec fn machine_ok(m: Machine) -> bool {
    &&& m.a.x > 0 && m.a.y > 0 && m.b.x > 0 && m.b.y > 0
    &&& m.prize.x + m.a.x <= i32::MAX && m.prize.y + m.a.y <= i32::MAX
    &&& forall|k: int| #[trigger] reached(m, k) ==> !overshoot_hit(m, k)
}

proof fn lemma_last_step(m: Machine, k: int)
    requires
        reached(m, k),
        stops(m, k),
    ensures
        last_step(m) == k,
{
    let l = last_step(m);
    assert(reached(m, l) && stops(m, l));
    if l < k {
        assert(!stops(m, l));
    } else if l > k {
        assert(!stops(m, k));
    }
}

/// The fewest tokens that win the prize of `m`, if any press count reaches it.
pub fn find_min_tokens(m: &Machine) -> (r: Option<u64>)
    requires
        machine_ok(*m),
    ensures
        r matches Some(c) ==> best_cost(*m) == Some(c as int),
        r is None ==> best_cost(*m) is None,
{
    let ax = m.a.x as i64;
    let ay = m.a.y as i64;
    let bx = m.b.x as u64;
    let by = m.b.y as u64;
    let tx = m.prize.x as i64;
    let ty = m.prize.y as i64;
    let mut k: u64 = 0;
    let mut px: i64 = 0;
    let mut py: i64 = 0;
    let mut best: Option<u64> = None;
    loop
        invariant_except_break
            match best {
                Some(c) => min_upto(*m, k as int) == Some(c as int),
                None => min_upto(*m, k as int) is None,
            },
        invariant
            machine_ok(*m),
            ax == m.a.x && ay == m.a.y && bx == m.b.x && by == m.b.y,
            tx == m.prize.x && ty == m.prize.y,
            px == k * ax,
            py == k * ay,
            k <= px,
            k == 0 || (px < tx + ax && py < ty + ay),
            0 <= px && 0 <= py,
            reached(*m, k as int),
        ensures
            reached(*m, k as int),
            stops(*m, k as int),
            match best {
                Some(c) => min_upto(*m, k + 1) == Some(c as int),
                None => min_upto(*m, k + 1) is None,
            },
        decreases tx + ax - px,
    {
        let dx = tx - px;
        let dy = ty - py;
        assert(dx == rest_x(*m, k as int) && dy == rest_y(*m, k as int));
        let c: Option<u64> = if dx >= 0 && dy >= 0 {
            let ux = dx as u64;
            let uy = dy as u64;
            if ux % bx == 0 && uy % by == 0 && ux / bx == uy / by {
                Some(3 * k + ux / bx)
            } else {
                None
            }
        } else {
            None
        };
        assert(match c {
            Some(v) => cost_at(*m, k as int) == Some(v as int),
            None => cost_at(*m, k as int) is None,
        });
        best = match (best, c) {
            (Some(x), Some(y)) => Some(if x <= y { x } else { y }),
            (Some(x), None) => Some(x),
            (None, y) => y,
        };
        if px < tx && py < ty {
            assert(!stops(*m, k as int));
            assert(px + ax == (k + 1) * ax) by (nonlinear_arith)
                requires px == k * ax;
            assert(py + ay == (k + 1) * ay) by (nonlinear_arith)
                requires py == k * ay;
            px = px + ax;
            py = py + ay;
            k = k + 1;
            assert(reached(*m, k as int)) by {
                assert forall|j: int| 0 <= j < k implies !#[trigger] stops(*m, j) by {
                    if j < k - 1 {
                        assert(reached(*m, k - 1));
                    }
                }
            }
        } else {
            break;
        }
    }
    proof {
        lemma_last_step(*m, k as int);
    }
    best
}

/// The tokens of all machines whose prize can be won, summed.
pub open spec fn total_upto(ms: Seq<Machine>, n: int) -> int
    decreases n,
{
    if n <= 0 {
        0
    } else {
        total_upto(ms, n - 1) + match best_cost(ms[n - 1]) {
            Some(c) => c,
            None => 0,
        }
    }
}

proof fn lemma_best_cost_nonneg(m: Machine)
    requires
        machine_ok(m),
    ensures
        best_cost(m) matches Some(c) ==> c >= 0,
{
    lemma_min_upto_nonneg(m, last_step(m) + 1);
}

proof fn lemma_min_upto_nonneg(m: Machine, n: int)
    requires
        m.b.x > 0,
    ensures
        min_upto(m, n) matches Some(c) ==> c >= 0,
    decreases n,
{
    if n > 0 {
        lemma_min_upto_nonneg(m, n - 1);
        let k = n - 1;
        if cost_at(m, k) is Some && k >= 0 {
            assert(rest_x(m, k) / (m.b.x as int) >= 0) by (nonlinear_arith)
                requires rest_x(m, k) >= 0, m.b.x > 0;
        }
    }
}

proof fn lemma_total_mono(ms: Seq<Machine>, a: int, b: int)
    requires
        0 <= a <= b <= ms.len(),
        forall|i: int| 0 <= i < ms.len() ==> machine_ok(#[trigger] ms[i]),
    ensures
        0 <= total_upto(ms, a) <= total_upto(ms, b),
    decreases b,
{
    if b > a {
        lemma_total_mono(ms, a, b - 1);
        lemma_best_cost_nonneg(ms[b - 1]);
    } else if a > 0 {
        lemma_total_mono(ms, a - 1, a - 1);
        lemma_best_cost_nonneg(ms[a - 1]);
    }
}

/// The fewest tokens that win every prize that can be won.
pub fn min_tokens(ms: &[Machine]) -> (r: usize)
    requires
        forall|i: int| 0 <= i < ms@.len() ==> machine_ok(#[trigger] ms@[i]),
        total_upto(ms@, ms@.len() as int) <= usize::MAX,
    ensures
        r == total_upto(ms@, ms@.len() as int),
{
    let mut sum: usize = 0;
    let mut i: usize = 0;
    while i < ms.len()
        invariant
            i <= ms@.len(),
            forall|j: int| 0 <= j < ms@.len() ==> machine_ok(#[trigger] ms@[j]),
            total_upto(ms@, ms@.len() as int) <= usize::MAX,
            sum == total_upto(ms@, i as int),
        decreases ms@.len() - i,
    {
        proof {
            lemma_total_mono(ms@, i + 1, ms@.len() as int);
        }
        match find_min_tokens(&ms[i]) {
            Some(c) => {
                sum = sum + c as usize;
            },
            None => {},
        }
        i += 1;
    }
    sum
}

/// `s` without the bytes at its front that `skip` picks.
pub open spec fn skip_lead(s: Seq<u8>, skip: spec_fn(u8) -> bool) -> Seq<u8>
    decreases s.len(),
{
    if s.len() > 0 && skip(s[0]) {
        skip_lead(s.drop_first(), skip)
    } else {
        s
    }
}

/// The bytes before a coordinate's number: its axis letter, blanks, `=` and `+`.
pub open spec fn num_lead(what: u8) -> spec_fn(u8) -> bool {
    |c: u8| c == what || c == 32u8 || c == 61u8 || c == 43u8
}

/// The colons after a line's label.
pub open spec fn colon_lead() -> spec_fn(u8) -> bool {
    |c: u8| c == 58u8
}

/// The number of a coordinate such as `X+94` or `Y=5400`.
pub open spec fn num_of(s: Seq<u8>, what: u8) -> Result<i32, AocError> {
    match signed_in(trim(skip_lead(s, num_lead(what))), i32::MIN as int, i32::MAX as int) {
        Some(v) => Ok(v as i32),
        None => Err(AocError::InvalidNumber),
    }
}

/// The point on a line `<prefix>: X.., Y..`.
pub open spec fn def_of(line: Seq<u8>, prefix: Seq<u8>) -> Result<Point, AocError> {
    if line.len() < prefix.len() || line.take(prefix.len() as int) != prefix {
        Err(AocError::InvalidInput)
    } else {
        let zs = trim(skip_lead(line.skip(prefix.len() as int), colon_lead()));
        match split_once(zs, 44u8) {
            None => Err(AocError::InvalidInput),
            Some((xs, ys)) => match num_of(xs, 88u8) {
                Err(e) => Err(e),
                Ok(x) => match num_of(ys, 89u8) {
                    Err(e) => Err(e),
                    Ok(y) => Ok(Point { x: x, y: y }),
                },
            },
        }
    }
}

/// `Button A`.
pub open spec fn label_a() -> Seq<u8> {
    seq![66u8, 117u8, 116u8, 116u8, 111u8, 110u8, 32u8, 65u8]
}

/// `Button B`.
pub open spec fn label_b() -> Seq<u8> {
    seq![66u8, 117u8, 116u8, 116u8, 111u8, 110u8, 32u8, 66u8]
}

/// `Prize`.
pub open spec fn label_prize() -> Seq<u8> {
    seq![80u8, 114u8, 105u8, 122u8, 101u8]
}

/// `done` followed by what `rest` holds, or the error of `rest`.
pub open spec fn chain(done: Seq<Machine>, rest: Result<Seq<Machine>, AocError>) -> Result<
    Seq<Machine>,
    AocError,
> {
    match rest {
        Ok(r) => Ok(done + r),
        Err(e) => Err(e),
    }
}

/// The machine described by lines `i`, `i + 1` and `i + 2`.
pub open spec fn machine_at(ls: Seq<Seq<u8>>, i: int) -> Result<Machine, AocError> {
    match def_of(ls[i], label_a()) {
        Err(e) => Err(e),
        Ok(a) => if i + 1 >= ls.len() {
            Err(AocError::InvalidInput)
        } else {
            match def_of(ls[i + 1], label_b()) {
                Err(e) => Err(e),
                Ok(b) => if i + 2 >= ls.len() {
                    Err(AocError::InvalidInput)
                } else {
                    match def_of(ls[i + 2], label_prize()) {
                        Err(e) => Err(e),
                        Ok(p) => Ok(Machine { a: a, b: b, prize: p }),
                    }
                },
            }
        },
    }
}

/// The machines described from line `i` on: three lines each, separated by empty lines.
#[verifier::opaque]
pub open spec fn machines_from(ls: Seq<Seq<u8>>, i: int) -> Result<Seq<Machine>, AocError>
    decreases ls.len() - i,
{
    if i < 0 || i >= ls.len() {
        Ok(seq![])
    } else {
        match machine_at(ls, i) {
            Err(e) => Err(e),
            Ok(m) => if i + 3 >= ls.len() {
                Ok(seq![m])
            } else if ls[i + 3].len() == 0 {
                chain(seq![m], machines_from(ls, i + 4))
            } else {
                Err(AocError::InvalidInput)
            },
        }
    }
}

/// The machine described by lines `i` to `i + 2`.
fn parse_machine_at(ls: &Vec<Vec<u8>>, i: usize) -> (r: Result<Machine, AocError>)
    requires
        i < ls@.len(),
    ensures
        r == machine_at(views(ls@), i as int),
{
    let ghost sl = views(ls@);
    let pa: Vec<u8> = vec![66u8, 117u8, 116u8, 116u8, 111u8, 110u8, 32u8, 65u8];
    let pb: Vec<u8> = vec![66u8, 117u8, 116u8, 116u8, 111u8, 110u8, 32u8, 66u8];
    let pp: Vec<u8> = vec![80u8, 114u8, 105u8, 122u8, 101u8];
    assert(pa@ =~= label_a());
    assert(pb@ =~= label_b());
    assert(pp@ =~= label_prize());
    assert(ls@[i as int]@ == sl[i as int]);
    let a = match parse_def(ls[i].as_slice(), pa.as_slice()) {
        Ok(p) => p,
        Err(e) => return Err(e),
    };
    if ls.len() - i < 2 {
        return Err(AocError::InvalidInput);
    }
    assert(ls@[i + 1]@ == sl[i + 1]);
    let b = match parse_def(ls[i + 1].as_slice(), pb.as_slice()) {
        Ok(p) => p,
        Err(e) => return Err(e),
    };
    if ls.len() - i < 3 {
        return Err(AocError::InvalidInput);
    }
    assert(ls@[i + 2]@ == sl[i + 2]);
    let prize = match parse_def(ls[i + 2].as_slice(), pp.as_slice()) {
        Ok(p) => p,
        Err(e) => return Err(e),
    };
    Ok(Machine { a: a, b: b, prize: prize })
}

/// One of four bytes.
pub open spec fn one_of(a: u8, b: u8, c: u8, d: u8) -> spec_fn(u8) -> bool {
    |x: u8| x == a || x == b || x == c || x == d
}

/// Drops the front bytes that are `a`, `b`, `c` or `d`.
fn skip_lead_exec(s: &[u8], a: u8, b: u8, c: u8, d: u8) -> (r: Vec<u8>)
    ensures
        r@ == skip_lead(s@, one_of(a, b, c, d)),
{
    let ghost f = one_of(a, b, c, d);
    let n = s.len();
    let mut i: usize = 0;
    assert(s@.skip(0) =~= s@);
    while i < n && (s[i] == a || s[i] == b || s[i] == c || s[i] == d)
        invariant
            f == one_of(a, b, c, d),
            i <= n == s@.len(),
            skip_lead(s@, f) == skip_lead(s@.skip(i as int), f),
        decreases n - i,
    {
        assert(s@.skip(i as int).drop_first() =~= s@.skip(i + 1));
        assert(f(s@.skip(i as int)[0]));
        i += 1;
    }
    let r = copy_range(s, i, n);
    assert(r@ =~= s@.skip(i as int));
    r
}

/// The number of a coordinate, `what` being its axis letter.
fn parse_num(s: &[u8], what: u8) -> (r: Result<i32, AocError>)
    ensures
        r == num_of(s@, what),
{
    let lead = skip_lead_exec(s, what, 32u8, 61u8, 43u8);
    assert(num_lead(what) =~= one_of(what, 32u8, 61u8, 43u8));
    let t = trim_bytes(lead.as_slice());
    match parse_i64(t.as_slice()) {
        Some(v) => {
            if v >= -2147483648i64 && v <= 2147483647i64 {
                Ok(v as i32)
            } else {
                Err(AocError::InvalidNumber)
            }
        },
        None => Err(AocError::InvalidNumber),
    }
}

/// Whether `line` begins with `prefix`.
fn starts_with(line: &[u8], prefix: &[u8]) -> (r: bool)
    ensures
        r == (line@.len() >= prefix@.len() && line@.take(prefix@.len() as int) == prefix@),
{
    if line.len() < prefix.len() {
        return false;
    }
    let mut i: usize = 0;
    while i < prefix.len()
        invariant
            prefix@.len() <= line@.len(),
            i <= prefix@.len(),
            forall|j: int| 0 <= j < i ==> line@[j] == prefix@[j],
        decreases prefix@.len() - i,
    {
        if line[i] != prefix[i] {
            assert(line@.take(prefix@.len() as int)[i as int] != prefix@[i as int]);
            return false;
        }
        i += 1;
    }
    assert(line@.take(prefix@.len() as int) =~= prefix@);
    true
}

/// The point on a line `<prefix>: X.., Y..`.
pub fn parse_def(line: &[u8], prefix: &[u8]) -> (r: Result<Point, AocError>)
    ensures
        r == def_of(line@, prefix@),
{
    if !starts_with(line, prefix) {
        return Err(AocError::InvalidInput);
    }
    let rest = copy_range(line, prefix.len(), line.len());
    assert(rest@ =~= line@.skip(prefix@.len() as int));
    let after = skip_lead_exec(rest.as_slice(), 58u8, 58u8, 58u8, 58u8);
    assert(colon_lead() =~= one_of(58u8, 58u8, 58u8, 58u8));
    let zs = trim_bytes(after.as_slice());
    match split_once_byte(zs.as_slice(), 44u8) {
        None => Err(AocError::InvalidInput),
        Some((xs, ys)) => {
            let x = match parse_num(xs.as_slice(), 88u8) {
                Ok(v) => v,
                Err(e) => return Err(e),
            };
            let y = match parse_num(ys.as_slice(), 89u8) {
                Ok(v) => v,
                Err(e) => return Err(e),
            };
            Ok(Point::new(x, y))
        },
    }
}

/// The machines of the input.
pub fn parse_machines(input: &str) -> (r: Result<Vec<Machine>, AocError>)
    ensures
        match r {
            Ok(v) => machines_from(lines_of(input.spec_bytes()), 0) == Ok::<Seq<Machine>, AocError>(v@),
            Err(e) => machines_from(lines_of(input.spec_bytes()), 0) == Err::<Seq<Machine>, AocError>(e),
        },
{
    let ls = lines(input.as_bytes());
    let ghost sl = lines_of(input.spec_bytes());
    let mut r: Vec<Machine> = Vec::new();
    let mut i: usize = 0;
    assert(chain(r@, machines_from(sl, 0)) =~~= machines_from(sl, 0)) by {
        match machines_from(sl, 0) {
            Ok(v) => { assert(r@ + v =~= v); },
            Err(_) => {},
        }
    }
    while i < ls.len()
        invariant
            sl == lines_of(input.spec_bytes()),
            views(ls@) == sl,
            i <= sl.len(),
            chain(r@, machines_from(sl, i as int)) == machines_from(sl, 0),
        decreases sl.len() - i,
    {
        let m = match parse_machine_at(&ls, i) {
            Ok(m) => m,
            Err(e) => {
                proof {
                    reveal_with_fuel(machines_from, 1);
                }
                return Err(e);
            },
        };
        let ghost before = r@;
        r.push(m);
        assert(r@ =~= before + seq![m]);
        if ls.len() - i <= 3 {
            proof {
                reveal_with_fuel(machines_from, 1);
            }
            return Ok(r);
        }
        assert(ls@[i + 3]@ == sl[i + 3]);
        if ls[i + 3].len() != 0 {
            proof {
                reveal_with_fuel(machines_from, 1);
            }
            return Err(AocError::InvalidInput);
        }
        proof {
            reveal_with_fuel(machines_from, 1);
            assert(machines_from(sl, i as int) == chain(seq![m], machines_from(sl, i + 4)));
            match machines_from(sl, i + 4) {
                Ok(v) => {
                    assert(before + (seq![m] + v) =~= r@ + v);
                },
                Err(_) => {},
            }
        }
        i = i + 4;
    }
    proof {
        reveal_with_fuel(machines_from, 1);
        assert(r@ + seq![] =~= r@);
    }
    Ok(r)
}

/// Every machine is in the domain of `machine_ok` and the fewest tokens sum to at most
/// `usize::MAX`.
pub open spec fn machines_fit(input: Seq<u8>) -> bool {
    machines_from(lines_of(input), 0) matches Ok(ms) ==> {
        &&& forall|i: int| 0 <= i < ms.len() ==> machine_ok(#[trigger] ms[i])
        &&& total_upto(ms, ms.len() as int) <= usize::MAX
    }
}

/// The fewest tokens that win all prizes that can be won, as text followed by a space.
pub fn run(input: &str) -> (r: Result<String, AocError>)
    requires
        machines_fit(input.spec_bytes()),
    ensures
        match machines_from(lines_of(input.spec_bytes()), 0) {
            Ok(ms) => r matches Ok(out) && out@ == crate::text::dec(total_upto(ms, ms.len() as int) as nat)
                + " "@,
            Err(e) => r == Err::<String, AocError>(e),
        },
{
    let ms = match parse_machines(input) {
        Ok(v) => v,
        Err(e) => return Err(e),
    };
    let s1 = min_tokens(ms.as_slice());
    let mut out = String::new();
    push_dec(&mut out, s1 as u64);
    push_str(&mut out, " ");
    Ok(out)
}

} // verus!
