//! Bridge repair: whether the operators `+`, `*` (and concatenation of digits), placed
//! between the numbers of an equation and applied left to right, give its test value.

use vstd::prelude::*;
use vstd::string::*;
use crate::day11::{lemma_pow10_add, pow10};
use crate::error::AocError;
use crate::text::{
    lines, lines_of, parse_i64, push_dec_signed, push_str, signed_in, split_once, split_once_byte,
    views, words, words_of,
};

verus! {

/// An equation: the test value and the numbers.
#[derive(Debug, Clone)]
pub struct Line {
    pub l: i64,
    pub r: Vec<i64>,
}

/// `b^n`.
pub open spec fn pw(b: nat, n: nat) -> nat
    decreases n,
{
    if n == 0 {
        1
    } else {
        b * pw(b, (n - 1) as nat)
    }
}

/// Digit `j` of `c` in base `b`, least significant first.
pub open spec fn digit(c: nat, b: nat, j: nat) -> nat
    decreases j,
{
    if j == 0 {
        c % b
    } else {
        digit(c / b, b, (j - 1) as nat)
    }
}

/// The least power of ten from `10^k` on that is greater than `x`.
pub open spec fn p10_from(x: int, k: nat) -> int
    decreases 18 - k,
{
    if k >= 18 || pow10(k) > x {
        pow10(k) as int
    } else {
        p10_from(x, k + 1)
    }
}

/// `a` with the digits of `b` written after it.
pub open spec fn cat(a: int, b: int) -> int {
    a * p10_from(b, 0) + b
}

/// Operator 0 adds, 1 multiplies, 2 concatenates.
pub open spec fn apply(op: nat, a: int, b: int) -> int {
    if op == 0 {
        a + b
    } else if op == 1 {
        a * b
    } else {
        cat(a, b)
    }
}

/// The value of the first `k + 1` numbers with the operators that the digits of `c` in base
/// `base` name.
pub open spec fn eval(r: Seq<i64>, c: nat, base: nat, k: nat) -> int
    decreases k,
{
    if k == 0 {
        r[0] as int
    } else {
        apply(digit(c, base, (k - 1) as nat), eval(r, c, base, (k - 1) as nat), r[k as int] as int)
    }
}

pub open spec fn in_i64(v: int) -> bool {
    i64::MIN <= v <= i64::MAX
}

/// One step stays within `i64`, and a concatenated number is below `10^18`.
pub open spec fn step_ok(op: nat, a: int, b: int) -> bool {
    if op == 0 {
        in_i64(a + b)
    } else if op == 1 {
        in_i64(a * b)
    } else {
        b < 1000000000000000000 && in_i64(a * p10_from(b, 0)) && in_i64(cat(a, b))
    }
}

/// Evaluating the operators `c` stays within `i64` at every step.
pub open spec fn eval_ok(r: Seq<i64>, c: nat, base: nat) -> bool {
    forall|k: nat|
        1 <= k < r.len() ==> #[trigger] step_ok(
            digit(c, base, (k - 1) as nat),
            eval(r, c, base, (k - 1) as nat),
            r[k as int] as int,
        )
}

/// Every choice of operators before `c` evaluates within `i64` and misses `l`.
pub open spec fn clean_before(r: Seq<i64>, l: int, base: nat, c: nat) -> bool {
    forall|d: nat| d < c ==> #[trigger] eval_ok(r, d, base) && eval(r, d, base, (r.len() - 1) as nat) != l
}

/// Every choice of operators that the search reaches, in counting order, evaluates within
/// `i64`.
pub open spec fn tried_ok(r: Seq<i64>, l: int, base: nat) -> bool {
    forall|c: nat|
        c < pw(base, (r.len() - 1) as nat) && #[trigger] clean_before(r, l, base, c) ==> eval_ok(r, c, base)
}

/// Some choice of operators gives `l`.
pub open spec fn solvable(r: Seq<i64>, l: int, base: nat) -> bool {
    exists|c: nat| c < pw(base, (r.len() - 1) as nat) && #[trigger] eval(r, c, base, (r.len() - 1) as nat) == l
}

proof fn lemma_pw_pos(b: nat, n: nat)
    requires
        b >= 1,
    ensures
        pw(b, n) >= 1,
    decreases n,
{
    if n > 0 {
        lemma_pw_pos(b, (n - 1) as nat);
        assert(b * pw(b, (n - 1) as nat) >= 1) by (nonlinear_arith)
            requires b >= 1, pw(b, (n - 1) as nat) >= 1;
    }
}

proof fn lemma_p10(x: int, k: nat)
    requires
        x < 1000000000000000000,
        k <= 18,
    ensures
        p10_from(x, k) > x,
        p10_from(x, k) >= 1,
        p10_from(x, k) <= 1000000000000000000,
    decreases 18 - k,
{
    lemma_pow10_bound(k);
    if !(k >= 18 || pow10(k) > x) {
        lemma_p10(x, k + 1);
    } else if k >= 18 {
        lemma_pow10_18();
    }
}

proof fn lemma_pow10_18()
    ensures
        pow10(18) == 1000000000000000000,
{
    reveal_with_fuel(pow10, 19);
}

proof fn lemma_pow10_bound(k: nat)
    requires
        k <= 18,
    ensures
        1 <= pow10(k) <= 1000000000000000000,
        k < 18 ==> pow10(k) <= 100000000000000000,
{
    let j = (18 - k) as nat;
    lemma_pow10_add(k, j);
    lemma_pow10_18();
    lemma_pow10_pos(k);
    lemma_pow10_pos(j);
    if k < 18 {
        assert(pow10(j) == 10 * pow10((j - 1) as nat));
        lemma_pow10_pos((j - 1) as nat);
        assert(pow10(k) <= 100000000000000000) by (nonlinear_arith)
            requires pow10(k) * pow10(j) == 1000000000000000000, pow10(j) >= 10;
    } else {
        assert(pow10(k) <= 1000000000000000000) by (nonlinear_arith)
            requires pow10(k) * pow10(j) == 1000000000000000000, pow10(j) >= 1;
    }
}

proof fn lemma_pow10_pos(k: nat)
    ensures
        pow10(k) >= 1,
    decreases k,
{
    if k > 0 {
        lemma_pow10_pos((k - 1) as nat);
    }
}

/// `l` with the digits of `r` written after it.
pub fn concat(l: i64, r: i64) -> (v: i64)
    requires
        r < 1000000000000000000,
        in_i64(l * p10_from(r as int, 0)),
        in_i64(cat(l as int, r as int)),
    ensures
        v == cat(l as int, r as int),
{
    let mut m: i64 = 1;
    let ghost mut k: nat = 0;
    proof {
        assert(pow10(0) == 1);
    }
    while !(m > r)
        invariant
            r < 1000000000000000000,
            k <= 18,
            m == pow10(k),
            p10_from(r as int, 0) == p10_from(r as int, k),
        decreases 18 - k,
    {
        proof {
            lemma_pow10_bound(k);
            if k >= 18 {
                lemma_pow10_18();
            }
            assert(pow10(k + 1) == 10 * pow10(k));
        }
        m = m * 10;
        proof {
            k = k + 1;
        }
    }
    proof {
        lemma_pow10_bound(k);
    }
    l * m + r
}

/// The value of the numbers with the operators that the binary digits of `c` name.
fn eval_bits(r: &[i64], c: u64) -> (v: i64)
    requires
        r@.len() >= 1,
        eval_ok(r@, c as nat, 2),
    ensures
        v == eval(r@, c as nat, 2, (r@.len() - 1) as nat),
{
    let mut v: i64 = r[0];
    let mut bits: u64 = c;
    let mut i: usize = 1;
    while i < r.len()
        invariant
            r@.len() >= 1,
            1 <= i <= r@.len(),
            eval_ok(r@, c as nat, 2),
            v == eval(r@, c as nat, 2, (i - 1) as nat),
            forall|j: nat| #[trigger] digit(c as nat, 2, (i - 1 + j) as nat) == digit(bits as nat, 2, j),
        decreases r@.len() - i,
    {
        let op = bits % 2;
        assert(digit(c as nat, 2, (i - 1 + 0) as nat) == digit(bits as nat, 2, 0));
        assert(step_ok(digit(c as nat, 2, (i - 1) as nat), eval(r@, c as nat, 2, (i - 1) as nat), r@[i as int] as int));
        v = if op == 0 {
            v + r[i]
        } else {
            v * r[i]
        };
        proof {
            assert forall|j: nat| #[trigger] digit(c as nat, 2, (i + j) as nat) == digit((bits / 2) as nat, 2, j) by {
                assert(digit(c as nat, 2, (i - 1 + (j + 1)) as nat) == digit(bits as nat, 2, j + 1));
                assert((i - 1 + (j + 1)) as nat == (i + j) as nat);
            }
        }
        bits = bits / 2;
        i += 1;
    }
    v
}

/// `2^n`.
fn pow2(n: usize) -> (r: u64)
    requires
        n <= 31,
    ensures
        r == pw(2, n as nat),
{
    let mut r: u64 = 1;
    let mut i: usize = 0;
    proof {
        lemma_pw_mono2(0, 31);
        reveal_with_fuel(pw, 32);
    }
    while i < n
        invariant
            i <= n <= 31,
            r == pw(2, i as nat),
            r <= pw(2, 31),
            pw(2, 31) == 2147483648,
        decreases n - i,
    {
        proof {
            lemma_pw_mono2(i as nat + 1, 31);
        }
        r = r * 2;
        i += 1;
    }
    r
}

proof fn lemma_pw_mono2(a: nat, b: nat)
    requires
        a <= b,
    ensures
        pw(2, a) <= pw(2, b),
    decreases b,
{
    if b > a {
        lemma_pw_mono2(a, (b - 1) as nat);
        lemma_pw_pos(2, (b - 1) as nat);
    }
}

impl Line {
    /// Whether `+` and `*` between the numbers can give the test value; the choices are
    /// tried in counting order, bit `i` of the count choosing the operator after number `i`.
    pub fn is_add_mul(&self) -> (ok: bool)
        requires
            1 <= self.r@.len() <= 32,
            tried_ok(self.r@, self.l as int, 2),
        ensures
            ok == solvable(self.r@, self.l as int, 2),
    {
        let n_ops = self.r.len() - 1;
        let total = pow2(n_ops);
        let mut ops: u64 = 0;
        while ops < total
            invariant
                1 <= self.r@.len() <= 32,
                n_ops == self.r@.len() - 1,
                total == pw(2, n_ops as nat),
                tried_ok(self.r@, self.l as int, 2),
                ops <= total,
                clean_before(self.r@, self.l as int, 2, ops as nat),
            decreases total - ops,
        {
            assert(eval_ok(self.r@, ops as nat, 2));
            let v = eval_bits(self.r.as_slice(), ops);
            if v == self.l {
                return true;
            }
            proof {
                assert forall|d: nat| d < ops + 1 implies #[trigger] eval_ok(self.r@, d, 2) && eval(
                    self.r@,
                    d,
                    2,
                    (self.r@.len() - 1) as nat,
                ) != self.l by {
                    if d < ops {
                        assert(clean_before(self.r@, self.l as int, 2, ops as nat));
                    }
                }
            }
            ops += 1;
        }
        proof {
            if solvable(self.r@, self.l as int, 2) {
                let c = choose|c: nat|
                    c < pw(2, (self.r@.len() - 1) as nat) && #[trigger] eval(self.r@, c, 2, (self.r@.len() - 1) as nat)
                        == self.l;
                assert(eval_ok(self.r@, c, 2));
            }
        }
        false
    }

    /// Whether `+`, `*` and concatenation between the numbers can give the test value; the
    /// choices are tried in counting order, digit `i` in base three choosing the operator
    /// after number `i`.
    pub fn is_add_mul_concat(&self) -> (ok: bool)
        requires
            1 <= self.r@.len() <= 65,
            tried_ok(self.r@, self.l as int, 3),
        ensures
            ok == solvable(self.r@, self.l as int, 3),
    {
        let n_ops = self.r.len() - 1;
        let mut ops: Vec<u8> = Vec::new();
        while ops.len() < n_ops
            invariant
                ops@.len() <= n_ops,
                forall|i: int| 0 <= i < ops@.len() ==> ops@[i] == 0,
            decreases n_ops - ops@.len(),
        {
            ops.push(0);
        }
        let ghost mut c: nat = 0;
        proof {
            assert forall|j: nat| j < n_ops implies #[trigger] digit(0, 3, j) == ops@[j as int] by {
                lemma_digit_zero(j);
            }
            lemma_pw_pos(3, n_ops as nat);
        }
        loop
            invariant
                1 <= self.r@.len() <= 65,
                n_ops == self.r@.len() - 1,
                ops@.len() == n_ops,
                tried_ok(self.r@, self.l as int, 3),
                c < pw(3, n_ops as nat),
                clean_before(self.r@, self.l as int, 3, c),
                forall|j: nat| j < n_ops ==> #[trigger] digit(c, 3, j) == ops@[j as int],
            decreases pw(3, n_ops as nat) - c,
        {
            assert(eval_ok(self.r@, c, 3));
            let value = self.eval_ops(&ops, Ghost(c));
            if value == self.l {
                return true;
            }
            proof {
                assert forall|d: nat| d < c + 1 implies #[trigger] eval_ok(self.r@, d, 3) && eval(
                    self.r@,
                    d,
                    3,
                    (self.r@.len() - 1) as nat,
                ) != self.l by {
                    if d < c {
                        assert(clean_before(self.r@, self.l as int, 3, c));
                    }
                }
            }
            // the next choice: add one to the digits, the first digit least significant
            let mut carry: u8 = 1;
            let mut i: usize = 0;
            while i < n_ops
                invariant_except_break
                    carry == 1,
                    forall|j: nat| i <= j < n_ops ==> #[trigger] digit(c, 3, j) == ops@[j as int],
                invariant
                    n_ops == ops@.len(),
                    i <= n_ops,
                    c < pw(3, n_ops as nat),
                    forall|j: nat| j < i ==> #[trigger] digit(c, 3, j) == 2 && ops@[j as int] == 0,
                ensures
                    carry == 0 || carry == 1,
                    carry == 0 ==> i < n_ops && digit(c, 3, i as nat) < 2 && ops@[i as int] == digit(c, 3, i as nat) + 1
                        && (forall|j: nat| j < i ==> #[trigger] digit(c, 3, j) == 2 && ops@[j as int] == 0)
                        && (forall|j: nat| i < j < n_ops ==> #[trigger] digit(c, 3, j) == ops@[j as int]),
                    carry == 1 ==> i == n_ops && forall|j: nat| j < n_ops ==> #[trigger] digit(c, 3, j) == 2,
                decreases n_ops - i,
            {
                assert(digit(c, 3, i as nat) == ops@[i as int]);
                proof {
                    lemma_digit_lt(c, i as nat);
                }
                let v = ops[i] + carry;
                let ghost before = ops@;
                if v < 3 {
                    ops.set(i, v);
                    carry = 0;
                    assert forall|j: nat| j < i implies #[trigger] digit(c, 3, j) == 2 && ops@[j as int] == 0 by {
                        assert(ops@[j as int] == before[j as int]);
                    }
                    assert forall|j: nat| i < j < n_ops implies #[trigger] digit(c, 3, j) == ops@[j as int] by {
                        assert(ops@[j as int] == before[j as int]);
                    }
                    break;
                } else {
                    ops.set(i, 0);
                    carry = v - 2;
                }
                i += 1;
            }
            if carry != 0 {
                proof {
                    lemma_all_twos(c, n_ops as nat);
                    if solvable(self.r@, self.l as int, 3) {
                        let d = choose|d: nat|
                            d < pw(3, (self.r@.len() - 1) as nat) && #[trigger] eval(self.r@, d, 3, (self.r@.len() - 1) as nat)
                                == self.l;
                        assert(eval_ok(self.r@, d, 3));
                    }
                }
                return false;
            }
            proof {
                lemma_digit_succ(c, i as nat);
                lemma_not_all_twos(c, n_ops as nat, i as nat);
                assert forall|j: nat| j < n_ops implies #[trigger] digit(c + 1, 3, j) == ops@[j as int] by {
                    if j < i {
                        assert(digit(c, 3, j) == 2);
                    } else if j > i {
                        assert(digit(c, 3, j) == ops@[j as int]);
                    }
                }
                c = c + 1;
            }
        }
    }

    /// The value of the numbers with the operators `ops` (0 add, 1 multiply, 2 concatenate),
    /// the digits of `c` in base three.
    fn eval_ops(&self, ops: &Vec<u8>, Ghost(c): Ghost<nat>) -> (v: i64)
        requires
            1 <= self.r@.len(),
            ops@.len() == self.r@.len() - 1,
            forall|j: nat| j < ops@.len() ==> #[trigger] digit(c, 3, j) == ops@[j as int],
            eval_ok(self.r@, c, 3),
        ensures
            v == eval(self.r@, c, 3, (self.r@.len() - 1) as nat),
    {
        let mut acc: i64 = self.r[0];
        let mut i: usize = 1;
        while i < self.r.len()
            invariant
                1 <= i <= self.r@.len(),
                ops@.len() == self.r@.len() - 1,
                forall|j: nat| j < ops@.len() ==> #[trigger] digit(c, 3, j) == ops@[j as int],
                eval_ok(self.r@, c, 3),
                acc == eval(self.r@, c, 3, (i - 1) as nat),
            decreases self.r@.len() - i,
        {
            let x = self.r[i];
            let op = ops[i - 1];
            assert(digit(c, 3, (i - 1) as nat) == op);
            assert(step_ok(digit(c, 3, (i - 1) as nat), eval(self.r@, c, 3, (i - 1) as nat), self.r@[i as int] as int));
            proof {
                lemma_digit_lt(c, (i - 1) as nat);
            }
            acc = if op == 0 {
                acc + x
            } else if op == 1 {
                acc * x
            } else {
                concat(acc, x)
            };
            i += 1;
        }
        acc
    }
}

proof fn lemma_digit_zero(j: nat)
    ensures
        digit(0, 3, j) == 0,
    decreases j,
{
    if j > 0 {
        lemma_digit_zero((j - 1) as nat);
    }
}

proof fn lemma_digit_lt(c: nat, j: nat)
    ensures
        digit(c, 3, j) < 3,
    decreases j,
{
    if j > 0 {
        lemma_digit_lt(c / 3, (j - 1) as nat);
    }
}

/// Adding one to `c` clears the run of twos at its bottom and raises the next digit.
proof fn lemma_digit_succ(c: nat, i: nat)
    requires
        forall|j: nat| j < i ==> #[trigger] digit(c, 3, j) == 2,
        digit(c, 3, i) < 2,
    ensures
        forall|j: nat| j < i ==> #[trigger] digit(c + 1, 3, j) == 0,
        digit(c + 1, 3, i) == digit(c, 3, i) + 1,
        forall|j: nat| j > i ==> #[trigger] digit(c + 1, 3, j) == digit(c, 3, j),
    decreases i,
{
    if i == 0 {
        assert((c + 1) / 3 == c / 3);
        assert forall|j: nat| j > i implies #[trigger] digit(c + 1, 3, j) == digit(c, 3, j) by {
            assert(digit(c + 1, 3, j) == digit((c + 1) / 3, 3, (j - 1) as nat));
        }
    } else {
        assert(digit(c, 3, 0) == 2);
        assert((c + 1) % 3 == 0 && (c + 1) / 3 == c / 3 + 1);
        let q = c / 3;
        assert forall|j: nat| j < (i - 1) as nat implies #[trigger] digit(q, 3, j) == 2 by {
            assert(digit(c, 3, j + 1) == 2);
        }
        assert(digit(c, 3, i) == digit(q, 3, (i - 1) as nat));
        lemma_digit_succ(q, (i - 1) as nat);
        assert forall|j: nat| j < i implies #[trigger] digit(c + 1, 3, j) == 0 by {
            if j > 0 {
                assert(digit(c + 1, 3, j) == digit(q + 1, 3, (j - 1) as nat));
            }
        }
        assert(digit(c + 1, 3, i) == digit(q + 1, 3, (i - 1) as nat));
        assert forall|j: nat| j > i implies #[trigger] digit(c + 1, 3, j) == digit(c, 3, j) by {
            assert(digit(c + 1, 3, j) == digit(q + 1, 3, (j - 1) as nat));
            assert(digit(c, 3, j) == digit(q, 3, (j - 1) as nat));
        }
    }
}

/// Below `3^n`, only `3^n - 1` has all its `n` digits two.
proof fn lemma_all_twos(c: nat, n: nat)
    requires
        c < pw(3, n),
        forall|j: nat| j < n ==> #[trigger] digit(c, 3, j) == 2,
    ensures
        c + 1 == pw(3, n),
    decreases n,
{
    if n > 0 {
        let q = c / 3;
        assert(digit(c, 3, 0) == 2);
        assert forall|j: nat| j < (n - 1) as nat implies #[trigger] digit(q, 3, j) == 2 by {
            assert(digit(c, 3, j + 1) == 2);
        }
        assert(q < pw(3, (n - 1) as nat));
        lemma_all_twos(q, (n - 1) as nat);
    }
}

/// A digit below two among the first `n` leaves room to count up within `3^n`.
proof fn lemma_not_all_twos(c: nat, n: nat, i: nat)
    requires
        c < pw(3, n),
        i < n,
        digit(c, 3, i) < 2,
    ensures
        c + 1 < pw(3, n),
    decreases n,
{
    let q = c / 3;
    assert(q < pw(3, (n - 1) as nat));
    if i == 0 {
        assert(c % 3 < 2);
    } else {
        assert(digit(c, 3, i) == digit(q, 3, (i - 1) as nat));
        lemma_not_all_twos(q, (n - 1) as nat, (i - 1) as nat);
    }
}

/// The equation on a line `test: n n ..`.
pub open spec fn line_of(s: Seq<u8>) -> Result<(i64, Seq<i64>), AocError> {
    match split_once(s, 58u8) {
        None => Err(AocError::InvalidInput),
        Some((a, b)) => match signed_in(a, i64::MIN as int, i64::MAX as int) {
            None => Err(AocError::InvalidNumber),
            Some(l) => {
                let ws = words_of(b);
                if forall|i: int| 0 <= i < ws.len() ==> #[trigger] signed_in(ws[i], i64::MIN as int, i64::MAX as int) is Some {
                    Ok((l as i64, Seq::new(ws.len(), |i: int| signed_in(ws[i], i64::MIN as int, i64::MAX as int).unwrap() as i64)))
                } else {
                    Err(AocError::InvalidNumber)
                }
            },
        },
    }
}

impl Line {
    /// The equation on a line `test: n n ..`.
    pub fn parse(line: &[u8]) -> (r: Result<Line, AocError>)
        ensures
            match r {
                Ok(x) => line_of(line@) == Ok::<(i64, Seq<i64>), AocError>((x.l, x.r@)),
                Err(e) => line_of(line@) == Err::<(i64, Seq<i64>), AocError>(e),
            },
    {
        let (a, b) = match split_once_byte(line, 58u8) {
            Some(x) => x,
            None => return Err(AocError::InvalidInput),
        };
        let l = match parse_i64(a.as_slice()) {
            Some(v) => v,
            None => return Err(AocError::InvalidNumber),
        };
        let ws = words(b.as_slice());
        let ghost sw = words_of(b@);
        let mut r: Vec<i64> = Vec::new();
        let mut i: usize = 0;
        while i < ws.len()
            invariant
                split_once(line@, 58u8) == Some((a@, b@)),
                signed_in(a@, i64::MIN as int, i64::MAX as int) == Some(l as int),
                sw == words_of(b@),
                views(ws@) == sw,
                i <= sw.len(),
                r@.len() == i,
                forall|k: int| 0 <= k < i ==> #[trigger] signed_in(sw[k], i64::MIN as int, i64::MAX as int) is Some,
                forall|k: int| 0 <= k < i ==> r@[k] == signed_in(#[trigger] sw[k], i64::MIN as int, i64::MAX as int).unwrap(),
            decreases sw.len() - i,
        {
            assert(ws@[i as int]@ == sw[i as int]);
            match parse_i64(ws[i].as_slice()) {
                Some(v) => r.push(v),
                None => {
                    assert(signed_in(sw[i as int], i64::MIN as int, i64::MAX as int) is None);
                    return Err(AocError::InvalidNumber);
                },
            }
            i += 1;
        }
        assert(r@ =~= Seq::new(sw.len(), |k: int| signed_in(sw[k], i64::MIN as int, i64::MAX as int).unwrap() as i64));
        Ok(Line { l: l, r: r })
    }
}

/// The equations of the first `k` lines, or the error of the first line that is not one.
pub open spec fn lines_data(ls: Seq<Seq<u8>>, k: int) -> Result<Seq<(i64, Seq<i64>)>, AocError>
    decreases k,
{
    if k <= 0 {
        Ok(seq![])
    } else {
        match lines_data(ls, k - 1) {
            Err(e) => Err(e),
            Ok(v) => match line_of(ls[k - 1]) {
                Err(e) => Err(e),
                Ok(x) => Ok(v.push(x)),
            },
        }
    }
}

/// The equations of the input.
pub open spec fn data_of(input: Seq<u8>) -> Result<Seq<(i64, Seq<i64>)>, AocError> {
    lines_data(lines_of(input), lines_of(input).len() as int)
}

/// The equations, one per line; the error of the first line that is not one.
pub fn parse_data(input: &str) -> (r: Result<Vec<Line>, AocError>)
    ensures
        match r {
            Ok(v) => data_of(input.spec_bytes()) matches Ok(ds) && ds.len() == v@.len() && forall|i: int|
                0 <= i < ds.len() ==> #[trigger] ds[i] == (v@[i].l, v@[i].r@),
            Err(e) => data_of(input.spec_bytes()) == Err::<Seq<(i64, Seq<i64>)>, AocError>(e),
        },
{
    let ls = lines(input.as_bytes());
    let ghost sl = lines_of(input.spec_bytes());
    let mut out: Vec<Line> = Vec::new();
    let mut i: usize = 0;
    while i < ls.len()
        invariant
            sl == lines_of(input.spec_bytes()),
            views(ls@) == sl,
            i <= sl.len(),
            lines_data(sl, i as int) matches Ok(ds) && ds.len() == out@.len() && forall|k: int|
                0 <= k < ds.len() ==> #[trigger] ds[k] == (out@[k].l, out@[k].r@),
        decreases sl.len() - i,
    {
        assert(ls@[i as int]@ == sl[i as int]);
        match Line::parse(ls[i].as_slice()) {
            Ok(x) => {
                let ghost before = out@;
                out.push(x);
                proof {
                    let ds = lines_data(sl, i as int)->Ok_0;
                    assert forall|k: int| 0 <= k < ds.len() + 1 implies #[trigger] ds.push((x.l, x.r@))[k] == (
                    out@[k].l, out@[k].r@) by {
                        if k < ds.len() {
                            assert(out@[k] == before[k]);
                        }
                    }
                }
            },
            Err(e) => {
                proof {
                    lemma_lines_data_err(sl, i + 1, sl.len() as int);
                }
                return Err(e);
            },
        }
        i += 1;
    }
    Ok(out)
}

proof fn lemma_lines_data_err(ls: Seq<Seq<u8>>, a: int, b: int)
    requires
        0 <= a <= b,
        lines_data(ls, a) is Err,
    ensures
        lines_data(ls, b) == lines_data(ls, a),
    decreases b,
{
    if b > a {
        lemma_lines_data_err(ls, a, b - 1);
    }
}

/// The first `k` equations' test values that `+` and `*` can make, summed.
pub open spec fn sum_add_mul(ds: Seq<(i64, Seq<i64>)>, k: int) -> int
    decreases k,
{
    if k <= 0 {
        0
    } else {
        sum_add_mul(ds, k - 1) + if solvable(ds[k - 1].1, ds[k - 1].0 as int, 2) {
            ds[k - 1].0 as int
        } else {
            0
        }
    }
}

/// The first `k` equations' test values that `+`, `*` and concatenation can make, summed.
pub open spec fn sum_concat(ds: Seq<(i64, Seq<i64>)>, k: int) -> int
    decreases k,
{
    if k <= 0 {
        0
    } else {
        sum_concat(ds, k - 1) + if solvable(ds[k - 1].1, ds[k - 1].0 as int, 3) {
            ds[k - 1].0 as int
        } else {
            0
        }
    }
}

/// Each equation has one to 32 numbers, every search stays within `i64`, and so do the sums.
pub open spec fn data_fits(ds: Seq<(i64, Seq<i64>)>) -> bool {
    &&& forall|i: int| 0 <= i < ds.len() ==> 1 <= (#[trigger] ds[i]).1.len() <= 32
    &&& forall|i: int| 0 <= i < ds.len() ==> tried_ok((#[trigger] ds[i]).1, ds[i].0 as int, 2)
    &&& forall|i: int| 0 <= i < ds.len() ==> tried_ok((#[trigger] ds[i]).1, ds[i].0 as int, 3)
    &&& forall|k: int| 0 <= k <= ds.len() ==> in_i64(#[trigger] sum_add_mul(ds, k)) && in_i64(sum_concat(ds, k))
}

/// The test values that `+` and `*` can make, and those that concatenation also allows,
/// each summed.
pub fn run(input: &str) -> (r: Result<String, AocError>)
    requires
        data_of(input.spec_bytes()) matches Ok(ds) ==> data_fits(ds),
    ensures
        match data_of(input.spec_bytes()) {
            Ok(ds) => r matches Ok(out) && out@ == crate::text::dec_signed(sum_add_mul(ds, ds.len() as int)) + " "@
                + crate::text::dec_signed(sum_concat(ds, ds.len() as int)),
            Err(e) => r == Err::<String, AocError>(e),
        },
{
    let data = match parse_data(input) {
        Ok(v) => v,
        Err(e) => return Err(e),
    };
    let ghost ds = data_of(input.spec_bytes())->Ok_0;
    let mut s1: i64 = 0;
    let mut s2: i64 = 0;
    let mut i: usize = 0;
    while i < data.len()
        invariant
            ds.len() == data@.len(),
            forall|k: int| 0 <= k < ds.len() ==> #[trigger] ds[k] == (data@[k].l, data@[k].r@),
            data_fits(ds),
            i <= ds.len(),
            s1 == sum_add_mul(ds, i as int),
            s2 == sum_concat(ds, i as int),
        decreases ds.len() - i,
    {
        let line = &data[i];
        assert(ds[i as int] == (line.l, line.r@));
        assert(in_i64(sum_add_mul(ds, i + 1)) && in_i64(sum_concat(ds, i + 1)));
        if line.is_add_mul() {
            s1 = s1 + line.l;
        }
        if line.is_add_mul_concat() {
            s2 = s2 + line.l;
        }
        i += 1;
    }
    let mut out = String::new();
    push_dec_signed(&mut out, s1);
    push_str(&mut out, " ");
    push_dec_signed(&mut out, s2);
    Ok(out)
}

} // verus!
