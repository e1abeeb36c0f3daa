//! A circuit of logic gates meant to add two binary numbers, and the repair of its
//! crossed wires.

use vstd::prelude::*;
use vstd::string::*;
use crate::error::AocError;
use crate::text::{
    digit_val, is_digit, lines, lines_of, parse_u64, split_at_blank, split_blank, unsigned_in, views,
    words, words_of, find_pair, first_pair_at, lemma_first_pair_unique, slice_range, ascii_str, push_str,
    dec, push_dec,
};
use crate::sorting::{leq_usize, sort_usize};

verus! {

/// A wire's three-character name.
#[derive(Debug, Clone, Copy, PartialEq, Eq, Structural, Hash)]
pub struct Wire {
    pub c0: u8,
    pub c1: u8,
    pub c2: u8,
}

/// A gate's operation.
#[derive(Debug, Clone, Copy, PartialEq, Eq, Structural, Hash)]
pub enum Op {
    And,
    Or,
    Xor,
}

/// A gate: its operation and its two input wires.
#[derive(Debug, Clone, Copy, PartialEq, Eq, Structural, Hash)]
pub struct Gate {
    pub op: Op,
    pub a: Wire,
    pub b: Wire,
}

/// What looking up a wire's value gives.
#[derive(Debug, Clone, Copy, PartialEq, Eq, Structural)]
pub enum Lookup {
    Cycle,
    Invalid,
    Valid(bool),
}

pub open spec fn name_char(b: u8) -> bool {
    (97 <= b && b <= 122) || is_digit(b)
}

impl Wire {
    /// A wire's name: three lowercase ASCII letters or digits.
    pub fn parse(s: &[u8]) -> (r: Option<Wire>)
        ensures
            r == (if s@.len() == 3 && name_char(s@[0]) && name_char(s@[1]) && name_char(s@[2]) {
                Some(Wire { c0: s@[0], c1: s@[1], c2: s@[2] })
            } else {
                None
            }),
    {
        if s.len() == 3 {
            let (a, b, c) = (s[0], s[1], s[2]);
            let ok = |x: u8| -> (r: bool)
                ensures
                    r == name_char(x),
                { (x >= 97u8 && x <= 122u8) || (x >= 48u8 && x <= 57u8) };
            if ok(a) && ok(b) && ok(c) {
                return Some(Wire { c0: a, c1: b, c2: c });
            }
        }
        None
    }

    /// The wire named by `c` and the two-digit number `n`.
    pub fn from_char_num(c: u8, n: u32) -> (r: Wire)
        requires
            n < 100,
        ensures
            r == (Wire { c0: c, c1: (48 + n / 10) as u8, c2: (48 + n % 10) as u8 }),
    {
        Wire { c0: c, c1: 48u8 + (n / 10) as u8, c2: 48u8 + (n % 10) as u8 }
    }

    /// Input bit `n` of the first number.
    pub fn x(n: u32) -> (r: Wire)
        requires
            n < 100,
        ensures
            r == Wire::spec_named(120u8, n as int),
    {
        Self::from_char_num(120u8, n)
    }

    /// Input bit `n` of the second number.
    pub fn y(n: u32) -> (r: Wire)
        requires
            n < 100,
        ensures
            r == Wire::spec_named(121u8, n as int),
    {
        Self::from_char_num(121u8, n)
    }

    /// Output bit `n` of the sum.
    pub fn z(n: u32) -> (r: Wire)
        requires
            n < 100,
        ensures
            r == Wire::spec_named(122u8, n as int),
    {
        Self::from_char_num(122u8, n)
    }

    pub open spec fn spec_named(c: u8, n: int) -> Wire {
        Wire { c0: c, c1: (48 + n / 10) as u8, c2: (48 + n % 10) as u8 }
    }

    /// The wire's first character and the number its last two make, where both are digits.
    pub open spec fn spec_char_num(self) -> Option<(u8, nat)> {
        if is_digit(self.c1) && is_digit(self.c2) {
            Some((self.c0, 10 * digit_val(self.c1) + digit_val(self.c2)))
        } else {
            None
        }
    }

    /// The wire's first character and the number its last two make, where both are digits.
    pub fn char_num(&self) -> (r: Option<(u8, u32)>)
        ensures
            r == (match self.spec_char_num() {
                Some((c, n)) => Some((c, n as u32)),
                None => None,
            }),
    {
        if self.c1 >= 48u8 && self.c1 <= 57u8 && self.c2 >= 48u8 && self.c2 <= 57u8 {
            Some((self.c0, (10 * (self.c1 - 48u8) + (self.c2 - 48u8)) as u32))
        } else {
            None
        }
    }
}

impl Op {
    /// The operation named `AND`, `OR` or `XOR`.
    pub fn parse(s: &[u8]) -> (r: Option<Op>)
        ensures
            r == (if s@ == seq![65u8, 78u8, 68u8] {
                Some(Op::And)
            } else if s@ == seq![79u8, 82u8] {
                Some(Op::Or)
            } else if s@ == seq![88u8, 79u8, 82u8] {
                Some(Op::Xor)
            } else {
                None
            }),
    {
        if s.len() == 3 && s[0] == 65u8 && s[1] == 78u8 && s[2] == 68u8 {
            assert(s@ =~= seq![65u8, 78u8, 68u8]);
            Some(Op::And)
        } else if s.len() == 2 && s[0] == 79u8 && s[1] == 82u8 {
            assert(s@ =~= seq![79u8, 82u8]);
            Some(Op::Or)
        } else if s.len() == 3 && s[0] == 88u8 && s[1] == 79u8 && s[2] == 82u8 {
            assert(s@ =~= seq![88u8, 79u8, 82u8]);
            Some(Op::Xor)
        } else {
            None
        }
    }

    /// The operation's name.
    pub fn as_str(&self) -> (r: &'static str)
        ensures
            r@ == (match *self {
                Op::And => seq!['A', 'N', 'D'],
                Op::Or => seq!['O', 'R'],
                Op::Xor => seq!['X', 'O', 'R'],
            }),
    {
        proof {
            reveal_strlit("AND");
            reveal_strlit("OR");
            reveal_strlit("XOR");
        }
        match self {
            Op::And => "AND",
            Op::Or => "OR",
            Op::Xor => "XOR",
        }
    }
}

pub open spec fn apply(op: Op, a: bool, b: bool) -> bool {
    match op {
        Op::And => a && b,
        Op::Or => a || b,
        Op::Xor => a != b,
    }
}

impl Gate {
    /// What this gate outputs for the inputs `a` and `b`.
    pub fn result(&self, a: bool, b: bool) -> (r: bool)
        ensures
            r == apply(self.op, a, b),
    {
        match self.op {
            Op::And => a && b,
            Op::Or => a || b,
            Op::Xor => a != b,
        }
    }
}

/// The wire is an input bit: `x` or `y` and two digits.
pub open spec fn is_input(w: Wire) -> bool {
    (w.c0 == 120u8 || w.c0 == 121u8) && is_digit(w.c1) && is_digit(w.c2)
}

/// The number of an input wire.
pub open spec fn wnum(w: Wire) -> nat {
    10 * digit_val(w.c1) + digit_val(w.c2)
}

/// The value of input wire `w` for the numbers `x` and `y`.
pub open spec fn input_bit(w: Wire, x: u64, y: u64) -> bool {
    if w.c0 == 120u8 {
        (x >> (wnum(w) as u64)) & 1u64 == 1u64
    } else {
        (y >> (wnum(w) as u64)) & 1u64 == 1u64
    }
}

/// No two gates drive the same wire.
pub open spec fn distinct(c: Seq<(Wire, Gate)>) -> bool {
    forall|i: int, j: int| 0 <= i < j < c.len() ==> #[trigger] c[i].0 != #[trigger] c[j].0
}

/// Which gate drives wire `w`, if any does.
pub open spec fn gate_of(c: Seq<(Wire, Gate)>, w: Wire) -> Option<Gate> {
    if exists|i: int| 0 <= i < c.len() && c[i].0 == w {
        let i = choose|i: int| 0 <= i < c.len() && c[i].0 == w;
        Some(c[i].1)
    } else {
        None
    }
}

pub proof fn lemma_gate_at(c: Seq<(Wire, Gate)>, i: int)
    requires
        distinct(c),
        0 <= i < c.len(),
    ensures
        gate_of(c, c[i].0) == Some(c[i].1),
{
    let j = choose|j: int| 0 <= j < c.len() && c[j].0 == c[i].0;
    if j < i {
        assert(c[j].0 != c[i].0);
    }
    if i < j {
        assert(c[i].0 != c[j].0);
    }
}

/// The value of wire `w` for the numbers `x` and `y`, worked out through at most `n`
/// gates: `None` where that does not reach input wires only.
pub open spec fn eval(c: Seq<(Wire, Gate)>, x: u64, y: u64, w: Wire, n: nat) -> Option<bool>
    decreases n,
{
    if is_input(w) {
        Some(input_bit(w, x, y))
    } else if n == 0 {
        None
    } else {
        match gate_of(c, w) {
            None => None,
            Some(g) => match (eval(c, x, y, g.a, (n - 1) as nat), eval(c, x, y, g.b, (n - 1) as nat)) {
                (Some(p), Some(q)) => Some(apply(g.op, p, q)),
                _ => None,
            },
        }
    }
}

/// Wire `w` has value `v`, through some number of gates.
pub open spec fn value_is(c: Seq<(Wire, Gate)>, x: u64, y: u64, w: Wire, v: bool) -> bool {
    exists|n: nat| eval(c, x, y, w, n) == Some(v)
}

/// Wire `w` has no value: every way down from it meets a loop or a wire no gate drives.
pub open spec fn never(c: Seq<(Wire, Gate)>, x: u64, y: u64, w: Wire) -> bool {
    forall|n: nat| #[trigger] eval(c, x, y, w, n) is None
}

/// The value of wire `w` for the numbers `x` and `y`, if it has one.
pub open spec fn wire_value(c: Seq<(Wire, Gate)>, x: u64, y: u64, w: Wire) -> Option<bool> {
    if exists|n: nat| #[trigger] eval(c, x, y, w, n) is Some {
        eval(c, x, y, w, choose|n: nat| #[trigger] eval(c, x, y, w, n) is Some)
    } else {
        None
    }
}

/// More gates do not change a value once found.
pub proof fn lemma_eval_mono(c: Seq<(Wire, Gate)>, x: u64, y: u64, w: Wire, n: nat, m: nat)
    requires
        n <= m,
        eval(c, x, y, w, n) is Some,
    ensures
        eval(c, x, y, w, m) == eval(c, x, y, w, n),
    decreases n,
{
    if !is_input(w) && n > 0 {
        let g = gate_of(c, w)->0;
        lemma_eval_mono(c, x, y, g.a, (n - 1) as nat, (m - 1) as nat);
        lemma_eval_mono(c, x, y, g.b, (n - 1) as nat, (m - 1) as nat);
    }
}

pub proof fn lemma_value_is(c: Seq<(Wire, Gate)>, x: u64, y: u64, w: Wire, v: bool)
    requires
        value_is(c, x, y, w, v),
    ensures
        wire_value(c, x, y, w) == Some(v),
{
    let n = choose|n: nat| eval(c, x, y, w, n) == Some(v);
    assert(eval(c, x, y, w, n) is Some);
    let k = choose|k: nat| #[trigger] eval(c, x, y, w, k) is Some;
    if n <= k {
        lemma_eval_mono(c, x, y, w, n, k);
    } else {
        lemma_eval_mono(c, x, y, w, k, n);
    }
}

/// Gate `i` has the wire of gate `j` among its inputs.
pub open spec fn edge(c: Seq<(Wire, Gate)>, i: int, j: int) -> bool {
    0 <= i < c.len() && 0 <= j < c.len() && (c[i].1.a == c[j].0 || c[i].1.b == c[j].0)
}

/// Each gate of `p` feeds on the next.
pub open spec fn chain(c: Seq<(Wire, Gate)>, p: Seq<int>) -> bool {
    &&& forall|t: int| 0 <= t < p.len() - 1 ==> #[trigger] edge(c, p[t], p[t + 1])
    &&& forall|t: int| 0 <= t < p.len() ==> 0 <= #[trigger] p[t] < c.len() && !is_input(c[p[t]].0)
}

/// The wires of a loop of gates have no value.
pub proof fn lemma_cycle_never(c: Seq<(Wire, Gate)>, x: u64, y: u64, p: Seq<int>, n: nat)
    requires
        distinct(c),
        p.len() >= 1,
        chain(c, p),
        edge(c, p.last(), p[0]),
    ensures
        forall|t: int| 0 <= t < p.len() ==> (#[trigger] eval(c, x, y, c[p[t]].0, n)) is None,
    decreases n,
{
    if n > 0 {
        lemma_cycle_never(c, x, y, p, (n - 1) as nat);
        assert forall|t: int| 0 <= t < p.len() implies (#[trigger] eval(c, x, y, c[p[t]].0, n)) is None by {
            let i = p[t];
            lemma_gate_at(c, i);
            let nx = if t == p.len() - 1 { p[0] } else { p[t + 1] };
            if t < p.len() - 1 {
                assert(edge(c, p[t], p[t + 1]));
            }
            assert(eval(c, x, y, c[nx].0, (n - 1) as nat) is None);
        }
    }
}

/// How many entries of a memo are not yet filled.
pub open spec fn unvisited(v: Seq<Option<Lookup>>) -> nat
    decreases v.len(),
{
    if v.len() == 0 {
        0
    } else {
        unvisited(v.drop_last()) + (if v.last() is None { 1nat } else { 0nat })
    }
}

pub proof fn lemma_unvisited_fill(v: Seq<Option<Lookup>>, i: int, z: Lookup)
    requires
        0 <= i < v.len(),
        v[i] is None,
    ensures
        unvisited(v.update(i, Some(z))) + 1 == unvisited(v),
    decreases v.len(),
{
    let u = v.update(i, Some(z));
    if i < v.len() - 1 {
        assert(u.drop_last() =~= v.drop_last().update(i, Some(z)));
        lemma_unvisited_fill(v.drop_last(), i, z);
    } else {
        assert(u.drop_last() =~= v.drop_last());
    }
}

pub proof fn lemma_unvisited_le(v: Seq<Option<Lookup>>, u: Seq<Option<Lookup>>)
    requires
        u.len() == v.len(),
        forall|k: int| 0 <= k < v.len() && v[k] is Some ==> #[trigger] u[k] is Some,
    ensures
        unvisited(u) <= unvisited(v),
    decreases v.len(),
{
    if v.len() > 0 {
        lemma_unvisited_le(v.drop_last(), u.drop_last());
        assert(v.last() is Some ==> u[u.len() - 1] is Some);
    }
}

/// What the memo of a lookup holds: found values are the wires' values, invalid wires
/// have none, and the wires being looked up are on the stack.
pub open spec fn memo_ok(c: Seq<(Wire, Gate)>, x: u64, y: u64, vis: Seq<Option<Lookup>>, stack: Seq<int>) -> bool {
    &&& vis.len() == c.len()
    &&& forall|k: int|
        0 <= k < vis.len() ==> match #[trigger] vis[k] {
            Some(Lookup::Valid(v)) => value_is(c, x, y, c[k].0, v),
            Some(Lookup::Invalid) => never(c, x, y, c[k].0),
            Some(Lookup::Cycle) => stack.contains(k),
            None => true,
        }
    &&& forall|t: int| 0 <= t < stack.len() ==> #[trigger] vis[stack[t]] == Some(Lookup::Cycle)
    &&& chain(c, stack)
}

/// Every input wire of the circuit is numbered below 64.
pub open spec fn inputs_fit(c: Seq<(Wire, Gate)>) -> bool {
    forall|i: int|
        0 <= i < c.len() ==> (is_input(#[trigger] c[i].1.a) ==> wnum(c[i].1.a) < 64) && (is_input(
            c[i].1.b,
        ) ==> wnum(c[i].1.b) < 64)
}

/// A circuit: for each driven wire, its driving gate.
pub struct Circuit {
    pub gates: Vec<(Wire, Gate)>,
}

impl Circuit {
    pub open spec fn wf(&self) -> bool {
        distinct(self.gates@)
    }

    /// Where in the list a gate drives `w`, if any does.
    pub fn find(&self, w: Wire) -> (r: Option<usize>)
        requires
            self.wf(),
        ensures
            match r {
                Some(i) => i < self.gates@.len() && self.gates@[i as int].0 == w,
                None => forall|i: int| 0 <= i < self.gates@.len() ==> self.gates@[i].0 != w,
            },
            gate_of(self.gates@, w) == (match r {
                Some(i) => Some(self.gates@[i as int].1),
                None => None::<Gate>,
            }),
    {
        let mut i: usize = 0;
        while i < self.gates.len()
            invariant
                distinct(self.gates@),
                i <= self.gates@.len(),
                forall|k: int| 0 <= k < i ==> self.gates@[k].0 != w,
            decreases self.gates@.len() - i,
        {
            if self.gates[i].0 == w {
                proof {
                    lemma_gate_at(self.gates@, i as int);
                }
                return Some(i);
            }
            i += 1;
        }
        None
    }

    /// The value of input wire `w`.
    fn input_value(x: u64, y: u64, w: Wire) -> (r: bool)
        requires
            is_input(w),
            wnum(w) < 64,
        ensures
            r == input_bit(w, x, y),
    {
        let n = (10 * (w.c1 - 48u8) + (w.c2 - 48u8)) as u64;
        if w.c0 == 120u8 {
            (x >> n) & 1u64 == 1u64
        } else {
            (y >> n) & 1u64 == 1u64
        }
    }

    /// Looks up the value of wire `w`, with a memo of the wires looked up so far.
    fn bit_impl(&self, vis: &mut Vec<Option<Lookup>>, x: u64, y: u64, w: Wire, Ghost(stack): Ghost<Seq<int>>) -> (r: Lookup)
        requires
            self.wf(),
            inputs_fit(self.gates@),
            is_input(w) ==> wnum(w) < 64,
            memo_ok(self.gates@, x, y, old(vis)@, stack),
            stack.len() > 0 ==> (self.gates@[stack.last()].1.a == w || self.gates@[stack.last()].1.b == w),
        ensures
            memo_ok(self.gates@, x, y, final(vis)@, stack),
            final(vis)@.len() == old(vis)@.len(),
            forall|k: int| 0 <= k < old(vis)@.len() && old(vis)@[k] is Some ==> #[trigger] final(vis)@[k] == old(vis)@[k],
            forall|k: int| 0 <= k < old(vis)@.len() ==> (#[trigger] final(vis)@[k] == Some(Lookup::Cycle) <==> old(vis)@[k] == Some(Lookup::Cycle)),
            unvisited(final(vis)@) <= unvisited(old(vis)@),
            match r {
                Lookup::Valid(v) => value_is(self.gates@, x, y, w, v),
                Lookup::Invalid => never(self.gates@, x, y, w),
                Lookup::Cycle => exists|t: int| 0 <= t < stack.len() && self.gates@[stack[t]].0 == w,
            },
        decreases unvisited(old(vis)@),
    {
        let ghost c = self.gates@;
        if (w.c0 == 120u8 || w.c0 == 121u8) && w.c1 >= 48u8 && w.c1 <= 57u8 && w.c2 >= 48u8 && w.c2 <= 57u8 {
            let v = Self::input_value(x, y, w);
            proof {
                assert(eval(c, x, y, w, 0) == Some(v));
                lemma_unvisited_le(vis@, vis@);
            }
            return Lookup::Valid(v);
        }
        let i = match self.find(w) {
            None => {
                proof {
                    assert forall|n: nat| #[trigger] eval(c, x, y, w, n) is None by {}
                    lemma_unvisited_le(vis@, vis@);
                }
                return Lookup::Invalid;
            },
            Some(i) => i,
        };
        match vis[i] {
            Some(r) => {
                proof {
                    lemma_unvisited_le(vis@, vis@);
                    if r == Lookup::Cycle {
                        assert(stack.contains(i as int));
                    }
                }
                return r;
            },
            None => {},
        }
        let ghost v0 = vis@;
        vis.set(i, Some(Lookup::Cycle));
        let ghost st = stack.push(i as int);
        proof {
            lemma_unvisited_fill(v0, i as int, Lookup::Cycle);
            assert(!is_input(w));
            assert forall|t: int| 0 <= t < st.len() - 1 implies #[trigger] edge(c, st[t], st[t + 1]) by {
                if t < stack.len() - 1 {
                    assert(edge(c, stack[t], stack[t + 1]));
                }
            }
            assert(chain(c, st));
            assert forall|k: int| 0 <= k < vis@.len() implies match #[trigger] vis@[k] {
                Some(Lookup::Valid(v)) => value_is(c, x, y, c[k].0, v),
                Some(Lookup::Invalid) => never(c, x, y, c[k].0),
                Some(Lookup::Cycle) => st.contains(k),
                None => true,
            } by {
                if k == i {
                    assert(st[st.len() - 1] == k);
                } else {
                    assert(vis@[k] == v0[k]);
                    if v0[k] == Some(Lookup::Cycle) {
                        let t = choose|t: int| 0 <= t < stack.len() && stack[t] == k;
                        assert(st[t] == k);
                    }
                }
            }
            assert forall|t: int| 0 <= t < st.len() implies #[trigger] vis@[st[t]] == Some(Lookup::Cycle) by {
                if t < stack.len() {
                    assert(st[t] == stack[t]);
                    assert(v0[stack[t]] == Some(Lookup::Cycle));
                }
            }
        }
        let g = self.gates[i].1;
        proof {
            assert(c[i as int].1 == g);
        }
        let ghost v1 = vis@;
        let a = self.bit_impl(vis, x, y, g.a, Ghost(st));
        let ghost v2 = vis@;
        proof {
            lemma_unvisited_le(v1, v2);
        }
        let b = self.bit_impl(vis, x, y, g.b, Ghost(st));
        let ghost v3 = vis@;
        let r = match (a, b) {
            (Lookup::Valid(va), Lookup::Valid(vb)) => Lookup::Valid(g.result(va, vb)),
            _ => Lookup::Invalid,
        };
        proof {
            lemma_gate_at(c, i as int);
            lemma_unvisited_le(v2, v3);
            // the value, or why there is none
            match (a, b) {
                (Lookup::Valid(va), Lookup::Valid(vb)) => {
                    let na = choose|n: nat| eval(c, x, y, g.a, n) == Some(va);
                    let nb = choose|n: nat| eval(c, x, y, g.b, n) == Some(vb);
                    let n = if na < nb { nb } else { na };
                    lemma_eval_mono(c, x, y, g.a, na, n);
                    lemma_eval_mono(c, x, y, g.b, nb, n);
                    assert(eval(c, x, y, w, n + 1) == Some(apply(g.op, va, vb)));
                },
                _ => {
                    assert forall|n: nat| #[trigger] eval(c, x, y, w, n) is None by {
                        if n > 0 {
                            if a == Lookup::Invalid {
                                assert(eval(c, x, y, g.a, (n - 1) as nat) is None);
                            } else if b == Lookup::Invalid {
                                assert(eval(c, x, y, g.b, (n - 1) as nat) is None);
                            } else {
                                let cw = if a == Lookup::Cycle { g.a } else { g.b };
                                let t = choose|t: int| 0 <= t < st.len() && c[st[t]].0 == cw;
                                let p = st.subrange(t, st.len() as int);
                                assert(p.last() == i);
                                assert(edge(c, p.last(), p[0]));
                                assert forall|u: int| 0 <= u < p.len() - 1 implies #[trigger] edge(c, p[u], p[u + 1]) by {
                                    assert(edge(c, st[t + u], st[t + u + 1]));
                                }
                                assert forall|u: int| 0 <= u < p.len() implies 0 <= #[trigger] p[u] < c.len() && !is_input(c[p[u]].0) by {
                                    assert(p[u] == st[t + u]);
                                }
                                lemma_cycle_never(c, x, y, p, (n - 1) as nat);
                                assert(eval(c, x, y, c[p[0]].0, (n - 1) as nat) is None);
                            }
                        }
                    }
                },
            }
        }
        let ghost v4 = vis@;
        vis.set(i, Some(r));
        proof {
            lemma_unvisited_le(v4, vis@);
            assert forall|k: int| 0 <= k < vis@.len() implies match #[trigger] vis@[k] {
                Some(Lookup::Valid(v)) => value_is(c, x, y, c[k].0, v),
                Some(Lookup::Invalid) => never(c, x, y, c[k].0),
                Some(Lookup::Cycle) => stack.contains(k),
                None => true,
            } by {
                if k != i {
                    assert(vis@[k] == v4[k]);
                    if v4[k] == Some(Lookup::Cycle) {
                        assert(v1[k] == Some(Lookup::Cycle));
                        assert(st.contains(k));
                        let t = choose|t: int| 0 <= t < st.len() && st[t] == k;
                        assert(t < stack.len());
                        assert(stack[t] == k);
                    }
                } else {
                    match r {
                        Lookup::Valid(v) => {
                            assert(value_is(c, x, y, w, v));
                        },
                        _ => {},
                    }
                }
            }
            assert forall|t: int| 0 <= t < stack.len() implies #[trigger] vis@[stack[t]] == Some(Lookup::Cycle) by {
                assert(st[t] == stack[t]);
                assert(vis@[stack[t]] == v4[stack[t]]);
                if stack[t] == i {
                    assert(v0[stack[t]] == Some(Lookup::Cycle));
                }
            }
            assert forall|k: int| 0 <= k < v0.len() implies (#[trigger] vis@[k] == Some(Lookup::Cycle) <==> v0[k] == Some(Lookup::Cycle)) by {
                if k != i {
                    assert(v4[k] == Some(Lookup::Cycle) <==> v1[k] == Some(Lookup::Cycle));
                }
            }
        }
        r
    }

    /// The value of wire `w` for the numbers `x` and `y`.
    pub fn bit(&self, x: u64, y: u64, w: Wire) -> (r: Lookup)
        requires
            self.wf(),
            inputs_fit(self.gates@),
            is_input(w) ==> wnum(w) < 64,
        ensures
            r == (match wire_value(self.gates@, x, y, w) {
                Some(v) => Lookup::Valid(v),
                None => Lookup::Invalid,
            }),
    {
        let ghost c = self.gates@;
        let mut vis: Vec<Option<Lookup>> = Vec::new();
        let mut k: usize = 0;
        while k < self.gates.len()
            invariant
                k <= c.len(),
                c == self.gates@,
                vis@.len() == k,
                forall|t: int| 0 <= t < k ==> #[trigger] vis@[t] is None,
            decreases c.len() - k,
        {
            vis.push(None);
            k += 1;
        }
        let r = self.bit_impl(&mut vis, x, y, w, Ghost(Seq::empty()));
        proof {
            match r {
                Lookup::Valid(v) => lemma_value_is(c, x, y, w, v),
                _ => {
                    assert forall|n: nat| !(#[trigger] eval(c, x, y, w, n) is Some) by {}
                },
            }
        }
        r
    }
}

/// The name `s` as a wire, as `Wire::parse` reads it.
pub open spec fn wire_of(s: Seq<u8>) -> Option<Wire> {
    if s.len() == 3 && name_char(s[0]) && name_char(s[1]) && name_char(s[2]) {
        Some(Wire { c0: s[0], c1: s[1], c2: s[2] })
    } else {
        None
    }
}

/// The name `s` as an operation, as `Op::parse` reads it.
pub open spec fn op_of(s: Seq<u8>) -> Option<Op> {
    if s == seq![65u8, 78u8, 68u8] {
        Some(Op::And)
    } else if s == seq![79u8, 82u8] {
        Some(Op::Or)
    } else if s == seq![88u8, 79u8, 82u8] {
        Some(Op::Xor)
    } else {
        None
    }
}

/// A gate line `a OP b -> out`: the wire it drives and its gate.
pub open spec fn gate_line(l: Seq<u8>) -> Option<(Wire, Gate)> {
    let ws = words_of(l);
    if ws.len() >= 5 && wire_of(ws[0]) is Some && op_of(ws[1]) is Some && wire_of(ws[2]) is Some
        && ws[3] == seq![45u8, 62u8] && wire_of(ws[4]) is Some {
        Some((wire_of(ws[4])->0, Gate { op: op_of(ws[1])->0, a: wire_of(ws[0])->0, b: wire_of(ws[2])->0 }))
    } else {
        None
    }
}

/// The circuit with wire `w` driven by gate `g`, in place of what drove it before.
pub open spec fn insert(c: Seq<(Wire, Gate)>, w: Wire, g: Gate) -> Seq<(Wire, Gate)> {
    if exists|i: int| 0 <= i < c.len() && c[i].0 == w {
        let i = choose|i: int| 0 <= i < c.len() && c[i].0 == w;
        c.update(i, (w, g))
    } else {
        c.push((w, g))
    }
}

/// The circuit that the first `n` gate lines make, or `None` where one of them is not one.
pub open spec fn circuit_from(ls: Seq<Seq<u8>>, n: int) -> Option<Seq<(Wire, Gate)>>
    decreases n,
{
    if n <= 0 {
        Some(Seq::empty())
    } else {
        match circuit_from(ls, n - 1) {
            None => None,
            Some(c) => match gate_line(ls[n - 1]) {
                None => None,
                Some((w, g)) => Some(insert(c, w, g)),
            },
        }
    }
}

/// The number of output bits: one more than the highest `z` wire's number.
pub open spec fn out_bits(c: Seq<(Wire, Gate)>, n: int) -> nat
    decreases n,
{
    if n <= 0 {
        0
    } else {
        let rest = out_bits(c, n - 1);
        let here: nat = match c[n - 1].0.spec_char_num() {
            Some((ch, k)) => if ch == 122u8 { k + 1 } else { 0 },
            None => 0,
        };
        if here > rest { here } else { rest }
    }
}

/// The sum that the first `k` output bits make, or `None` where one of them has no value.
pub open spec fn output_upto(c: Seq<(Wire, Gate)>, x: u64, y: u64, k: nat) -> Option<u64>
    decreases k,
{
    if k == 0 {
        Some(0)
    } else {
        match output_upto(c, x, y, (k - 1) as nat) {
            None => None,
            Some(acc) => match wire_value(c, x, y, Wire::spec_named(122u8, k - 1)) {
                Some(v) => Some(acc | ((if v { 1u64 } else { 0u64 }) << ((k - 1) as u64))),
                None => None,
            },
        }
    }
}

/// The circuit with the gates driving `a` and `b` exchanged, where gates drive both.
pub open spec fn swapped(c: Seq<(Wire, Gate)>, a: Wire, b: Wire) -> Seq<(Wire, Gate)> {
    match (gate_of(c, a), gate_of(c, b)) {
        (Some(ga), Some(gb)) => {
            let ia = choose|i: int| 0 <= i < c.len() && c[i].0 == a;
            let ib = choose|i: int| 0 <= i < c.len() && c[i].0 == b;
            c.update(ib, (b, ga)).update(ia, (a, gb))
        },
        _ => c,
    }
}

pub proof fn lemma_index_unique(c: Seq<(Wire, Gate)>, w: Wire, i: int)
    requires
        distinct(c),
        0 <= i < c.len(),
        c[i].0 == w,
    ensures
        (choose|j: int| 0 <= j < c.len() && c[j].0 == w) == i,
{
    let j = choose|j: int| 0 <= j < c.len() && c[j].0 == w;
    if j < i {
        assert(c[j].0 != c[i].0);
    }
    if i < j {
        assert(c[i].0 != c[j].0);
    }
}

pub proof fn lemma_circuit_none(ls: Seq<Seq<u8>>, i: int, n: int)
    requires
        0 <= i <= n,
        circuit_from(ls, i) is None,
    ensures
        circuit_from(ls, n) is None,
    decreases n,
{
    if i < n {
        lemma_circuit_none(ls, i, n - 1);
    }
}

pub proof fn lemma_inputs_err(ls: Seq<Seq<u8>>, i: int, n: int, e: AocError)
    requires
        0 <= i <= n,
        inputs_from(ls, i) == Err::<(u64, u64), AocError>(e),
    ensures
        inputs_from(ls, n) == Err::<(u64, u64), AocError>(e),
    decreases n,
{
    if i < n {
        lemma_inputs_err(ls, i, n - 1, e);
    }
}

impl Circuit {
    /// Reads the lines that describe gates.
    pub fn parse(input: &[u8]) -> (r: Result<Circuit, AocError>)
        ensures
            match circuit_from(lines_of(input@), lines_of(input@).len() as int) {
                Some(c) => r matches Ok(circ) && circ.gates@ == c && circ.wf(),
                None => r == Err::<Circuit, AocError>(AocError::InvalidInput),
            },
    {
        let ls = lines(input);
        let ghost lv = views(ls@);
        let mut circ = Circuit { gates: Vec::new() };
        let mut k: usize = 0;
        while k < ls.len()
            invariant
                lv == views(ls@) && lv == lines_of(input@),
                k <= ls@.len(),
                circuit_from(lv, k as int) == Some(circ.gates@),
                circ.wf(),
            decreases ls@.len() - k,
        {
            let ws = words(ls[k].as_slice());
            proof {
                assert(ls@[k as int]@ == lv[k as int]);
            }
            if ws.len() < 5 {
                proof {
                    assert(gate_line(lv[k as int]) is None);
                    lemma_circuit_none(lv, k + 1, lv.len() as int);
                }
                return Err(AocError::InvalidInput);
            }
            let a = Wire::parse(ws[0].as_slice());
            let op = Op::parse(ws[1].as_slice());
            let b = Wire::parse(ws[2].as_slice());
            let out = Wire::parse(ws[4].as_slice());
            let arrow = ws[3].len() == 2 && ws[3][0] == 45u8 && ws[3][1] == 62u8;
            proof {
                assert(views(ws@)[0] == ws@[0]@);
                assert(views(ws@)[1] == ws@[1]@);
                assert(views(ws@)[2] == ws@[2]@);
                assert(views(ws@)[3] == ws@[3]@);
                assert(views(ws@)[4] == ws@[4]@);
                if arrow {
                    assert(ws@[3]@ =~= seq![45u8, 62u8]);
                }
            }
            match (a, op, b, out) {
                (Some(a), Some(op), Some(b), Some(out)) => {
                    if !arrow {
                        proof {
                            assert(ws@[3]@ != seq![45u8, 62u8]);
                            assert(gate_line(lv[k as int]) is None);
                            lemma_circuit_none(lv, k + 1, lv.len() as int);
                        }
                        return Err(AocError::InvalidInput);
                    }
                    let g = Gate { op, a, b };
                    match circ.find(out) {
                        Some(i) => {
                            proof {
                                lemma_index_unique(circ.gates@, out, i as int);
                            }
                            circ.gates.set(i, (out, g));
                            proof {
                                assert forall|p: int, q: int| 0 <= p < q < circ.gates@.len() implies #[trigger] circ.gates@[p].0 != #[trigger] circ.gates@[q].0 by {
                                }
                            }
                        },
                        None => {
                            circ.gates.push((out, g));
                        },
                    }
                },
                _ => {
                    proof {
                        assert(gate_line(lv[k as int]) is None);
                        lemma_circuit_none(lv, k + 1, lv.len() as int);
                    }
                    return Err(AocError::InvalidInput);
                },
            }
            k += 1;
        }
        Ok(circ)
    }

    /// The number of output bits: one more than the highest `z` wire's number.
    pub fn output_bits(&self) -> (r: u32)
        ensures
            r == out_bits(self.gates@, self.gates@.len() as int),
            r <= 100,
    {
        let mut best: u32 = 0;
        let mut i: usize = 0;
        while i < self.gates.len()
            invariant
                i <= self.gates@.len(),
                best == out_bits(self.gates@, i as int),
                best <= 100,
            decreases self.gates@.len() - i,
        {
            let here: u32 = match self.gates[i].0.char_num() {
                Some((ch, k)) => if ch == 122u8 { k + 1 } else { 0 },
                None => 0,
            };
            if here > best {
                best = here;
            }
            i += 1;
        }
        best
    }

    /// The sum that the first `nbits` output bits make, or `None` where one of them has
    /// no value.
    pub fn output(&self, x: u64, y: u64, nbits: u32) -> (r: Option<u64>)
        requires
            self.wf(),
            inputs_fit(self.gates@),
            nbits <= 64,
        ensures
            r == output_upto(self.gates@, x, y, nbits as nat),
    {
        let mut acc: u64 = 0;
        let mut i: u32 = 0;
        while i < nbits
            invariant
                self.wf(),
                inputs_fit(self.gates@),
                nbits <= 64,
                i <= nbits,
                output_upto(self.gates@, x, y, i as nat) == Some(acc),
            decreases nbits - i,
        {
            let w = Wire::z(i);
            match self.bit(x, y, w) {
                Lookup::Valid(v) => {
                    let b: u64 = if v { 1 } else { 0 };
                    acc = acc | (b << (i as u64));
                },
                _ => {
                    proof {
                        assert(output_upto(self.gates@, x, y, (i + 1) as nat) is None);
                        assert forall|k: nat| k > i implies #[trigger] output_upto(self.gates@, x, y, k) is None by {
                            lemma_output_none(self.gates@, x, y, (i + 1) as nat, k);
                        }
                    }
                    return None;
                },
            }
            i += 1;
        }
        Some(acc)
    }

    /// Exchanges the gates driving `a` and `b`, where gates drive both; tells whether they do.
    pub fn swap(&mut self, a: Wire, b: Wire) -> (r: bool)
        requires
            old(self).wf(),
        ensures
            final(self).wf(),
            r == (gate_of(old(self).gates@, a) is Some && gate_of(old(self).gates@, b) is Some),
            final(self).gates@ == swapped(old(self).gates@, a, b),
    {
        match (self.find(a), self.find(b)) {
            (Some(ia), Some(ib)) => {
                proof {
                    lemma_index_unique(self.gates@, a, ia as int);
                    lemma_index_unique(self.gates@, b, ib as int);
                }
                let ga = self.gates[ia].1;
                let gb = self.gates[ib].1;
                self.gates.set(ib, (b, ga));
                self.gates.set(ia, (a, gb));
                true
            },
            _ => false,
        }
    }
}

pub proof fn lemma_output_none(c: Seq<(Wire, Gate)>, x: u64, y: u64, i: nat, k: nat)
    requires
        i <= k,
        output_upto(c, x, y, i) is None,
    ensures
        output_upto(c, x, y, k) is None,
    decreases k,
{
    if i < k {
        lemma_output_none(c, x, y, i, (k - 1) as nat);
    }
}

/// The values of the input wires in a line `x00: 1`: the wire's letter, number and value.
#[verifier::opaque]
pub open spec fn init_line(l: Seq<u8>) -> Result<(u8, nat, u64), AocError> {
    if exists|i: int| first_pair_at(l, 58u8, 32u8, i) {
        let i = choose|i: int| first_pair_at(l, 58u8, 32u8, i);
        match wire_of(l.take(i)) {
            None => Err(AocError::InvalidInput),
            Some(w) => match unsigned_in(l.skip(i + 2), u64::MAX as int) {
                None => Err(AocError::InvalidNumber),
                Some(v) => match w.spec_char_num() {
                    Some((ch, n)) => if ch == 120u8 || ch == 121u8 {
                        Ok((ch, n, v as u64))
                    } else {
                        Err(AocError::InvalidInput)
                    },
                    None => Err(AocError::InvalidInput),
                },
            },
        }
    } else {
        Err(AocError::InvalidInput)
    }
}

/// The two numbers that the first `k` input lines set, each bit by its line.
pub open spec fn inputs_from(ls: Seq<Seq<u8>>, k: int) -> Result<(u64, u64), AocError>
    decreases k,
{
    if k <= 0 {
        Ok((0u64, 0u64))
    } else {
        match inputs_from(ls, k - 1) {
            Err(e) => Err(e),
            Ok((x, y)) => match init_line(ls[k - 1]) {
                Err(e) => Err(e),
                Ok((ch, n, v)) => if ch == 120u8 {
                    Ok((x | (v << (n as u64)), y))
                } else {
                    Ok((x, y | (v << (n as u64))))
                },
            },
        }
    }
}

/// Each input line that is read numbers a bit below 64.
pub open spec fn inputs_shift_ok(ls: Seq<Seq<u8>>) -> bool {
    forall|k: int|
        0 <= k < ls.len() && inputs_from(ls, k) is Ok ==> (#[trigger] init_line(ls[k]) matches Ok((_, n, _)) ==> n < 64)
}

pub proof fn lemma_shift_ok(ls: Seq<Seq<u8>>, k: int)
    requires
        inputs_shift_ok(ls),
        0 <= k < ls.len(),
        inputs_from(ls, k) is Ok,
    ensures
        init_line(ls[k]) matches Ok((_, n, _)) ==> n < 64,
{
}

pub proof fn lemma_inputs_step(ls: Seq<Seq<u8>>, k: int, x: u64, y: u64)
    requires
        0 <= k < ls.len(),
        inputs_from(ls, k) == Ok::<(u64, u64), AocError>((x, y)),
        init_line(ls[k]) is Ok,
    ensures
        ({
            let (ch, n, v) = init_line(ls[k])->Ok_0;
            inputs_from(ls, k + 1) == Ok::<(u64, u64), AocError>(
                if ch == 120u8 {
                    (x | (v << (n as u64)), y)
                } else {
                    (x, y | (v << (n as u64)))
                },
            )
        }),
{
}

/// The puzzle: the two numbers and the circuit.
pub struct Problem {
    pub x: u64,
    pub y: u64,
    pub circuit: Circuit,
}

/// The two numbers and the circuit that the text describes: input lines, a blank line,
/// gate lines.
pub open spec fn problem_of(s: Seq<u8>) -> Result<(u64, u64, Seq<(Wire, Gate)>), AocError> {
    match split_blank(s) {
        None => Err(AocError::InvalidInput),
        Some((l, r)) => match inputs_from(lines_of(l), lines_of(l).len() as int) {
            Err(e) => Err(e),
            Ok((x, y)) => match circuit_from(lines_of(r), lines_of(r).len() as int) {
                None => Err(AocError::InvalidInput),
                Some(c) => Ok((x, y, c)),
            },
        },
    }
}

/// What the text must hold: shifts by input bit numbers stay below 64.
pub open spec fn problem_ok(s: Seq<u8>) -> bool {
    match split_blank(s) {
        None => true,
        Some((l, r)) => inputs_shift_ok(lines_of(l)),
    }
}

/// Reads one input line.
fn parse_init_line(l: &[u8]) -> (r: Result<(u8, u32, u64), AocError>)
    ensures
        match init_line(l@) {
            Ok((ch, n, v)) => r == Ok::<(u8, u32, u64), AocError>((ch, n as u32, v)) && n < 100,
            Err(e) => r == Err::<(u8, u32, u64), AocError>(e),
        },
{
    proof {
        reveal(init_line);
    }
    let i = match find_pair(l, 58u8, 32u8) {
        Some(i) => i,
        None => return Err(AocError::InvalidInput),
    };
    proof {
        let c = choose|c: int| first_pair_at(l@, 58u8, 32u8, c);
        lemma_first_pair_unique(l@, 58u8, 32u8, i as int, c);
    }
    let n = l.len();
    let left = slice_range(l, 0, i);
    let right = slice_range(l, i + 2, n);
    assert(left@ =~= l@.take(i as int));
    assert(right@ =~= l@.skip(i + 2));
    let w = match Wire::parse(left) {
        Some(w) => w,
        None => return Err(AocError::InvalidInput),
    };
    let v = match parse_u64(right) {
        Some(v) => v,
        None => return Err(AocError::InvalidNumber),
    };
    match w.char_num() {
        Some((ch, num)) => {
            if ch == 120u8 || ch == 121u8 {
                Ok((ch, num, v))
            } else {
                Err(AocError::InvalidInput)
            }
        },
        None => Err(AocError::InvalidInput),
    }
}

impl Problem {
    /// Reads the puzzle.
    pub fn parse(input: &str) -> (r: Result<Problem, AocError>)
        requires
            problem_ok(input.spec_bytes()),
        ensures
            match problem_of(input.spec_bytes()) {
                Ok((x, y, c)) => r matches Ok(p) && p.x == x && p.y == y && p.circuit.gates@ == c && p.circuit.wf(),
                Err(e) => r matches Err(f) && f == e,
            },
    {
        let (l, r) = match split_at_blank(input.as_bytes()) {
            Some(parts) => parts,
            None => return Err(AocError::InvalidInput),
        };
        let ls = lines(l);
        let ghost lv = views(ls@);
        let mut x: u64 = 0;
        let mut y: u64 = 0;
        let mut k: usize = 0;
        while k < ls.len()
            invariant
                lv == views(ls@) && lv == lines_of(l@),
                split_blank(input.spec_bytes()) == Some((l@, r@)),
                inputs_shift_ok(lv),
                k <= ls@.len(),
                inputs_from(lv, k as int) == Ok::<(u64, u64), AocError>((x, y)),
            decreases ls@.len() - k,
        {
            proof {
                assert(ls@[k as int]@ == lv[k as int]);
            }
            match parse_init_line(ls[k].as_slice()) {
                Err(e) => {
                    proof {
                        lemma_inputs_err(lv, k + 1, lv.len() as int, e);
                    }
                    return Err(e);
                },
                Ok((ch, n, v)) => {
                    proof {
                        lemma_shift_ok(lv, k as int);
                        lemma_inputs_step(lv, k as int, x, y);
                    }
                    let sh = n as u64;
                    if ch == 120u8 {
                        x = x | (v << sh);
                    } else {
                        y = y | (v << sh);
                    }
                },
            }
            k += 1;
        }
        proof {
            assert(inputs_from(lv, lv.len() as int) == Ok::<(u64, u64), AocError>((x, y)));
        }
        let circuit = match Circuit::parse(r) {
            Ok(c) => c,
            Err(e) => return Err(e),
        };
        Ok(Problem { x, y, circuit })
    }
}

/// The sum the circuit outputs for the puzzle's numbers, or zero where an output bit has
/// no value.
pub fn star1(p: &Problem) -> (r: u64)
    requires
        p.circuit.wf(),
        inputs_fit(p.circuit.gates@),
        out_bits(p.circuit.gates@, p.circuit.gates@.len() as int) <= 64,
    ensures
        r == (match output_upto(p.circuit.gates@, p.x, p.y, out_bits(p.circuit.gates@, p.circuit.gates@.len() as int)) {
            Some(v) => v,
            None => 0,
        }),
{
    let nbits = p.circuit.output_bits();
    match p.circuit.output(p.x, p.y, nbits) {
        Some(v) => v,
        None => 0,
    }
}

/// The first gate, in the circuit's order, that is `g`.
pub open spec fn first_with(c: Seq<(Wire, Gate)>, g: Gate, i: int) -> bool {
    0 <= i < c.len() && c[i].1 == g && forall|j: int| 0 <= j < i ==> c[j].1 != g
}

/// The wire driven by a gate `a op b` or `b op a`, the first in the circuit's order; a
/// gate with the inputs in the order asked comes first.
pub open spec fn find_gate_in(c: Seq<(Wire, Gate)>, op: Op, a: Wire, b: Wire) -> Option<Wire> {
    if exists|i: int| first_with(c, Gate { op, a, b }, i) {
        Some(c[choose|i: int| first_with(c, Gate { op, a, b }, i)].0)
    } else if exists|i: int| first_with(c, Gate { op, a: b, b: a }, i) {
        Some(c[choose|i: int| first_with(c, Gate { op, a: b, b: a }, i)].0)
    } else {
        None
    }
}

/// The analysis state after swapping the gates of `a` and `b`, where gates drive both:
/// the circuit with them exchanged and the two wires noted.
pub open spec fn swap_st(st: (Seq<(Wire, Gate)>, Seq<Wire>), a: Wire, b: Wire) -> (Seq<(Wire, Gate)>, Seq<Wire>) {
    if gate_of(st.0, a) is Some && gate_of(st.0, b) is Some {
        (swapped(st.0, a, b), st.1.push(a).push(b))
    } else {
        st
    }
}

/// The wires of one bit of a ripple-carry adder.
#[derive(Debug, Clone, Copy, PartialEq, Eq, Structural)]
pub struct FullAdder {
    pub s0: Wire,
    pub c0: Wire,
    pub c1: Wire,
    pub si: Wire,
    pub ci: Wire,
}

/// The second step of finding bit `bit`'s adder, from its half sum `s0`, its first carry
/// `c0` and the carry in: the sum gate, whose wire is swapped with the output bit where
/// they differ, the second carry and the carry out.
pub open spec fn step2(st: (Seq<(Wire, Gate)>, Seq<Wire>), bit: int, carry: Wire, s0: Wire, c0: Wire) -> ((Seq<(Wire, Gate)>, Seq<Wire>), Option<FullAdder>) {
    let zi = Wire::spec_named(122u8, bit);
    match find_gate_in(st.0, Op::Xor, s0, carry) {
        None => (st, None),
        Some(si) => {
            let st1 = if si != zi { swap_st(st, si, zi) } else { st };
            match find_gate_in(st1.0, Op::And, s0, carry) {
                None => (st1, None),
                Some(c1) => match find_gate_in(st1.0, Op::Or, c0, c1) {
                    None => (st1, None),
                    Some(ci) => (st1, Some(FullAdder { s0, c0, c1, si: zi, ci })),
                },
            }
        },
    }
}

/// The second step tried with `s0` and `c0` as found, then exchanged.
pub open spec fn adder_rest(st: (Seq<(Wire, Gate)>, Seq<Wire>), bit: int, carry: Wire, s0: Wire, c0: Wire) -> ((Seq<(Wire, Gate)>, Seq<Wire>), Option<FullAdder>) {
    let (st1, r1) = step2(st, bit, carry, s0, c0);
    match r1 {
        Some(a) => (st1, Some(a)),
        None => {
            let (st2, r2) = step2(st1, bit, carry, c0, s0);
            match r2 {
                Some(a) => (swap_st(st2, s0, c0), Some(FullAdder { s0: c0, c0: s0, c1: a.c1, si: a.si, ci: a.ci })),
                None => (st2, None),
            }
        },
    }
}

/// Finding bit `bit`'s adder from the carry in: the half sum and first carry of its input
/// bits; a first carry driving the output bit is swapped with the sum gate.
pub open spec fn full_adder(st: (Seq<(Wire, Gate)>, Seq<Wire>), bit: int, carry: Wire) -> ((Seq<(Wire, Gate)>, Seq<Wire>), Option<FullAdder>) {
    let zi = Wire::spec_named(122u8, bit);
    let xi = Wire::spec_named(120u8, bit);
    let yi = Wire::spec_named(121u8, bit);
    match find_gate_in(st.0, Op::Xor, xi, yi) {
        None => (st, None),
        Some(s0) => match find_gate_in(st.0, Op::And, xi, yi) {
            None => (st, None),
            Some(c0) => if c0 == zi {
                match find_gate_in(st.0, Op::Xor, s0, carry) {
                    None => (st, None),
                    Some(si) => adder_rest(swap_st(st, si, zi), bit, carry, s0, si),
                }
            } else {
                adder_rest(st, bit, carry, s0, c0)
            },
        },
    }
}

/// The analysis of bits `i` to `hi - 1`: the state at the end, or `None` where a bit's
/// adder is not found.
pub open spec fn analyze_from(st: (Seq<(Wire, Gate)>, Seq<Wire>), i: int, hi: int, carry: Wire) -> Option<(Seq<(Wire, Gate)>, Seq<Wire>)>
    decreases hi - i,
{
    if i >= hi {
        Some(st)
    } else {
        let (st1, r) = full_adder(st, i, carry);
        match r {
            None => None,
            Some(fa) => analyze_from(st1, i + 1, hi, fa.ci),
        }
    }
}

/// Every wire's name is made of lowercase letters and digits.
pub open spec fn names_ok(c: Seq<(Wire, Gate)>) -> bool {
    forall|i: int| 0 <= i < c.len() ==> name_char((#[trigger] c[i]).0.c0) && name_char(c[i].0.c1) && name_char(c[i].0.c2)
}

pub open spec fn wire_name_ok(w: Wire) -> bool {
    name_char(w.c0) && name_char(w.c1) && name_char(w.c2)
}

/// The key that orders wires as their names do.
pub open spec fn wire_key(w: Wire) -> usize {
    (w.c0 as int * 65536 + w.c1 as int * 256 + w.c2 as int) as usize
}

/// The names of the wires with keys `ks`, joined by commas.
pub open spec fn names(ks: Seq<usize>) -> Seq<char>
    decreases ks.len(),
{
    if ks.len() == 0 {
        Seq::empty()
    } else {
        let k = ks.last();
        let name = seq![(k / 65536) as u8 as char, ((k / 256) % 256) as u8 as char, (k % 256) as u8 as char];
        if ks.len() == 1 {
            name
        } else {
            names(ks.drop_last()) + seq![','] + name
        }
    }
}

/// The answer: the swapped wires in order of their names, joined by commas.
pub open spec fn swaps_text(swaps: Seq<Wire>) -> Seq<char> {
    names(swaps.map_values(|w: Wire| wire_key(w)).sort_by(leq_usize()))
}

/// The analysis of an adder circuit: its gates, with the swaps so far, and the wires swapped.
pub struct AddAnalyzer {
    pub wg: Circuit,
    pub swaps: Vec<Wire>,
}

impl AddAnalyzer {
    pub open spec fn st(&self) -> (Seq<(Wire, Gate)>, Seq<Wire>) {
        (self.wg.gates@, self.swaps@)
    }

    pub open spec fn wf(&self) -> bool {
        &&& self.wg.wf()
        &&& names_ok(self.wg.gates@)
        &&& forall|i: int| 0 <= i < self.swaps@.len() ==> wire_name_ok(#[trigger] self.swaps@[i])
    }

    /// An analysis of the circuit, with no swaps yet.
    pub fn new(c: &Circuit) -> (r: AddAnalyzer)
        requires
            c.wf(),
            names_ok(c.gates@),
        ensures
            r.wf(),
            r.st() == (c.gates@, Seq::<Wire>::empty()),
    {
        let mut gates: Vec<(Wire, Gate)> = Vec::new();
        let mut i: usize = 0;
        while i < c.gates.len()
            invariant
                i <= c.gates@.len(),
                gates@ == c.gates@.take(i as int),
            decreases c.gates@.len() - i,
        {
            gates.push(c.gates[i]);
            i += 1;
            assert(gates@ =~= c.gates@.take(i as int));
        }
        assert(gates@ =~= c.gates@);
        AddAnalyzer { wg: Circuit { gates }, swaps: Vec::new() }
    }

    /// The wire driven by a gate `a op b` or `b op a`.
    pub fn find_gate(&self, op: Op, a: Wire, b: Wire) -> (r: Option<Wire>)
        requires
            self.wf(),
        ensures
            r == find_gate_in(self.wg.gates@, op, a, b),
            r matches Some(w) ==> wire_name_ok(w) && gate_of(self.wg.gates@, w) is Some,
    {
        let ghost c = self.wg.gates@;
        let g1 = Gate { op, a, b };
        let g2 = Gate { op, a: b, b: a };
        let mut i: usize = 0;
        while i < self.wg.gates.len()
            invariant
                c == self.wg.gates@,
                distinct(c),
                names_ok(c),
                g1 == (Gate { op: op, a: a, b: b }),
                i <= c.len(),
                forall|j: int| 0 <= j < i ==> c[j].1 != g1,
            decreases c.len() - i,
        {
            if self.wg.gates[i].1 == g1 {
                proof {
                    assert(first_with(c, g1, i as int));
                    let k = choose|k: int| first_with(c, g1, k);
                    if k < i {
                        assert(c[k].1 != g1);
                    }
                    if i < k {
                        assert(c[i as int].1 != g1);
                    }
                    lemma_gate_at(c, i as int);
                    assert(wire_name_ok(c[i as int].0));
                    assert(g1 == Gate { op: op, a: a, b: b });
                    assert(first_with(c, Gate { op: op, a: a, b: b }, i as int));
                    let k2 = choose|k: int| first_with(c, Gate { op: op, a: a, b: b }, k);
                    assert(first_with(c, Gate { op: op, a: a, b: b }, k2));
                    if k2 < i {
                        assert(c[k2].1 != g1);
                    }
                    if i < k2 {
                        assert(c[i as int].1 != g1);
                    }
                    assert(k2 == i);
                    assert(find_gate_in(c, op, a, b) == Some(c[i as int].0));
                }
                return Some(self.wg.gates[i].0);
            }
            i += 1;
        }
        proof {
            if exists|k: int| first_with(c, g1, k) {
                let k = choose|k: int| first_with(c, g1, k);
                assert(c[k].1 != g1);
            }
        }
        let mut i: usize = 0;
        while i < self.wg.gates.len()
            invariant
                c == self.wg.gates@,
                distinct(c),
                names_ok(c),
                forall|j: int| 0 <= j < c.len() ==> c[j].1 != g1,
                g1 == (Gate { op: op, a: a, b: b }),
                g2 == (Gate { op: op, a: b, b: a }),
                i <= c.len(),
                forall|j: int| 0 <= j < i ==> c[j].1 != g2,
            decreases c.len() - i,
        {
            if self.wg.gates[i].1 == g2 {
                proof {
                    assert(first_with(c, g2, i as int));
                    let k = choose|k: int| first_with(c, g2, k);
                    if k < i {
                        assert(c[k].1 != g2);
                    }
                    if i < k {
                        assert(c[i as int].1 != g2);
                    }
                    lemma_gate_at(c, i as int);
                    assert(wire_name_ok(c[i as int].0));
                }
                return Some(self.wg.gates[i].0);
            }
            i += 1;
        }
        proof {
            if exists|k: int| first_with(c, g2, k) {
                let k = choose|k: int| first_with(c, g2, k);
                assert(c[k].1 != g2);
            }
        }
        None
    }

    /// Swaps the gates driving `a` and `b`, where gates drive both, and notes the two wires.
    pub fn swap(&mut self, a: Wire, b: Wire) -> (r: bool)
        requires
            old(self).wf(),
        ensures
            final(self).wf(),
            r == (gate_of(old(self).st().0, a) is Some && gate_of(old(self).st().0, b) is Some),
            final(self).st() == swap_st(old(self).st(), a, b),
    {
        let ghost c = self.wg.gates@;
        let ok = self.wg.swap(a, b);
        if ok {
            proof {
                let ia = choose|i: int| 0 <= i < c.len() && c[i].0 == a;
                let ib = choose|i: int| 0 <= i < c.len() && c[i].0 == b;
                assert(wire_name_ok(c[ia].0) && wire_name_ok(c[ib].0));
                assert forall|i: int| 0 <= i < self.wg.gates@.len() implies name_char((#[trigger] self.wg.gates@[i]).0.c0) && name_char(self.wg.gates@[i].0.c1) && name_char(self.wg.gates@[i].0.c2) by {
                    if i != ia && i != ib {
                        assert(self.wg.gates@[i] == c[i]);
                    }
                }
            }
            self.swaps.push(a);
            self.swaps.push(b);
        }
        ok
    }

    fn find_full_adder_step2(&mut self, bit: u32, carry: Wire, s0: Wire, c0: Wire) -> (r: Option<FullAdder>)
        requires
            old(self).wf(),
            bit < 100,
        ensures
            final(self).wf(),
            (final(self).st(), r) == step2(old(self).st(), bit as int, carry, s0, c0),
    {
        let zi = Wire::z(bit);
        let mut si = match self.find_gate(Op::Xor, s0, carry) {
            None => return None,
            Some(w) => w,
        };
        if si != zi {
            self.swap(si, zi);
            si = zi;
        }
        let c1 = match self.find_gate(Op::And, s0, carry) {
            None => return None,
            Some(w) => w,
        };
        let ci = match self.find_gate(Op::Or, c0, c1) {
            None => return None,
            Some(w) => w,
        };
        Some(FullAdder { s0, c0, c1, si, ci })
    }

    /// Finds bit `bit`'s adder from the carry in, swapping crossed wires on the way.
    pub fn find_full_adder(&mut self, bit: u32, carry: Wire) -> (r: Option<FullAdder>)
        requires
            old(self).wf(),
            bit < 100,
        ensures
            final(self).wf(),
            (final(self).st(), r) == full_adder(old(self).st(), bit as int, carry),
    {
        let zi = Wire::z(bit);
        let xi = Wire::x(bit);
        let yi = Wire::y(bit);
        let s0 = match self.find_gate(Op::Xor, xi, yi) {
            None => return None,
            Some(w) => w,
        };
        let mut c0 = match self.find_gate(Op::And, xi, yi) {
            None => return None,
            Some(w) => w,
        };
        if c0 == zi {
            let si = match self.find_gate(Op::Xor, s0, carry) {
                None => return None,
                Some(w) => w,
            };
            self.swap(si, zi);
            c0 = si;
        }
        let ghost st1 = self.st();
        match self.find_full_adder_step2(bit, carry, s0, c0) {
            Some(a) => return Some(a),
            None => {},
        }
        match self.find_full_adder_step2(bit, carry, c0, s0) {
            Some(a) => {
                self.swap(s0, c0);
                Some(FullAdder { s0: c0, c0: s0, c1: a.c1, si: a.si, ci: a.ci })
            },
            None => None,
        }
    }

    /// The swapped wires in order of their names, joined by commas.
    pub fn into_swaps(self) -> (r: String)
        requires
            self.wf(),
        ensures
            r@ == swaps_text(self.swaps@),
    {
        names_string(&self.swaps)
    }
}

/// The names of the wires in order, joined by commas.
pub fn names_string(swaps: &Vec<Wire>) -> (r: String)
    requires
        forall|i: int| 0 <= i < swaps@.len() ==> wire_name_ok(#[trigger] swaps@[i]),
    ensures
        r@ == swaps_text(swaps@),
{
    broadcast use vstd::seq_lib::group_to_multiset_ensures;
    let mut keys: Vec<usize> = Vec::new();
    let mut i: usize = 0;
    while i < swaps.len()
        invariant
            i <= swaps@.len(),
            keys@ == swaps@.take(i as int).map_values(|w: Wire| wire_key(w)),
        decreases swaps@.len() - i,
    {
        let w = swaps[i];
        keys.push(w.c0 as usize * 65536 + w.c1 as usize * 256 + w.c2 as usize);
        i += 1;
        assert(keys@ =~= swaps@.take(i as int).map_values(|w: Wire| wire_key(w)));
    }
    assert(swaps@.take(swaps@.len() as int) =~= swaps@);
    let ghost before = keys@;
    sort_usize(&mut keys);
    proof {
        assert(vstd::relations::total_ordering(leq_usize()));
        before.lemma_sort_by_ensures(leq_usize());
    }
    let mut out = String::new();
    let mut t: usize = 0;
    while t < keys.len()
        invariant
            t <= keys@.len(),
            keys@ == before.sort_by(leq_usize()),
            before == swaps@.map_values(|w: Wire| wire_key(w)),
            forall|j: int| 0 <= j < swaps@.len() ==> wire_name_ok(#[trigger] swaps@[j]),
            forall|x: usize| !before.contains(x) ==> !(#[trigger] before.sort_by(leq_usize()).contains(x)),
            out@ == names(keys@.take(t as int)),
        decreases keys@.len() - t,
    {
        let k = keys[t];
        proof {
            assert(keys@[t as int] == k);
            assert(keys@.contains(k));
            assert(before.contains(k));
            let j = choose|j: int| 0 <= j < before.len() && before[j] == k;
            assert(before[j] == wire_key(swaps@[j]));
            assert(wire_name_ok(swaps@[j]));
            let w = swaps@[j];
            assert(k == w.c0 as int * 65536 + w.c1 as int * 256 + w.c2 as int);
            assert(k / 65536 == w.c0 && (k / 256) % 256 == w.c1 && k % 256 == w.c2) by (nonlinear_arith)
                requires k == w.c0 as int * 65536 + w.c1 as int * 256 + w.c2 as int, w.c1 < 256, w.c2 < 256;
        }
        if t > 0 {
            push_str(&mut out, ascii_str(44u8));
        }
        push_str(&mut out, ascii_str((k / 65536) as u8));
        push_str(&mut out, ascii_str(((k / 256) % 256) as u8));
        push_str(&mut out, ascii_str((k % 256) as u8));
        proof {
            assert(keys@.take(t + 1).drop_last() =~= keys@.take(t as int));
        }
        t += 1;
    }
    assert(keys@.take(keys@.len() as int) =~= keys@);
    out
}

/// Whether the circuit is an adder with crossed wires that this analysis untangles: the
/// state at the end, or `None` where an adder bit is not found.
pub open spec fn analysis(c: Seq<(Wire, Gate)>) -> Option<(Seq<(Wire, Gate)>, Seq<Wire>)> {
    let st0 = (c, Seq::<Wire>::empty());
    let x0 = Wire::spec_named(120u8, 0);
    let y0 = Wire::spec_named(121u8, 0);
    match (find_gate_in(c, Op::Xor, x0, y0), find_gate_in(c, Op::And, x0, y0)) {
        (Some(s0), Some(carry)) => analyze_from(st0, 1, out_bits(c, c.len() as int) - 1, carry),
        _ => None,
    }
}

/// Walks the circuit as a ripple-carry adder bit by bit, swapping crossed wires; gives the
/// swapped wires in order, joined by commas.
pub fn analyze_adder(c: &Circuit) -> (r: Result<String, AocError>)
    requires
        c.wf(),
        names_ok(c.gates@),
        find_gate_in(c.gates@, Op::Xor, Wire::spec_named(120u8, 0), Wire::spec_named(121u8, 0)) is Some
            && find_gate_in(c.gates@, Op::And, Wire::spec_named(120u8, 0), Wire::spec_named(121u8, 0)) is Some
            ==> out_bits(c.gates@, c.gates@.len() as int) >= 1,
    ensures
        match analysis(c.gates@) {
            Some(st) => r matches Ok(s) && s@ == swaps_text(st.1),
            None => r == Err::<String, AocError>(AocError::NotFound),
        },
{
    let mut aa = AddAnalyzer::new(c);
    let nbits = c.output_bits();
    let _s0 = match aa.find_gate(Op::Xor, Wire::x(0), Wire::y(0)) {
        Some(w) => w,
        None => return Err(AocError::NotFound),
    };
    let mut carry = match aa.find_gate(Op::And, Wire::x(0), Wire::y(0)) {
        Some(w) => w,
        None => return Err(AocError::NotFound),
    };
    let hi = nbits - 1;
    let mut i: u32 = 1;
    proof {
        assert(analysis(c.gates@) == analyze_from(aa.st(), 1, hi as int, carry));
    }
    while i < hi
        invariant
            aa.wf(),
            hi < 100,
            1 <= i,
            i <= hi || hi < 1,
            analysis(c.gates@) == analyze_from(aa.st(), i as int, hi as int, carry),
        decreases hi - i,
    {
        match aa.find_full_adder(i, carry) {
            Some(a) => {
                carry = a.ci;
            },
            None => return Err(AocError::NotFound),
        }
        i += 1;
    }
    Ok(aa.into_swaps())
}

/// Every wire the circuit names is made of lowercase letters and digits.
pub proof fn lemma_parsed_names(ls: Seq<Seq<u8>>, n: int)
    requires
        0 <= n,
        circuit_from(ls, n) is Some,
    ensures
        names_ok(circuit_from(ls, n)->0),
        inputs_named(circuit_from(ls, n)->0),
    decreases n,
{
    if n > 0 {
        lemma_parsed_names(ls, n - 1);
        let c = circuit_from(ls, n - 1)->0;
        let wg = gate_line(ls[n - 1])->0;
        let w = wg.0;
        let g = wg.1;
        let c2 = insert(c, w, g);
        assert(circuit_from(ls, n)->0 == c2);
        assert forall|t: int| 0 <= t < c2.len() implies name_char((#[trigger] c2[t]).0.c0) && name_char(c2[t].0.c1) && name_char(c2[t].0.c2) && wire_name_ok(c2[t].1.a) && wire_name_ok(c2[t].1.b) by {
            if exists|i: int| 0 <= i < c.len() && c[i].0 == w {
                assert(c2[t] == (w, g) || c2[t] == c[t]);
            } else {
                assert(c2 == c.push((w, g)));
                if t < c.len() {
                    assert(c2[t] == c[t]);
                }
            }
        }
    }
}

/// The input wires of every gate are properly named.
pub open spec fn inputs_named(c: Seq<(Wire, Gate)>) -> bool {
    forall|i: int| 0 <= i < c.len() ==> wire_name_ok((#[trigger] c[i]).1.a) && wire_name_ok(c[i].1.b)
}

/// What the puzzle text must hold: input bit numbers below 64, no more than 64 output
/// bits, and at least one where the circuit has the gates of bit 0.
pub open spec fn run_ok(s: Seq<u8>) -> bool {
    &&& problem_ok(s)
    &&& problem_of(s) matches Ok((x, y, c)) ==> {
        &&& inputs_fit(c)
        &&& out_bits(c, c.len() as int) <= 64
        &&& find_gate_in(c, Op::Xor, Wire::spec_named(120u8, 0), Wire::spec_named(121u8, 0)) is Some
            && find_gate_in(c, Op::And, Wire::spec_named(120u8, 0), Wire::spec_named(121u8, 0)) is Some
            ==> out_bits(c, c.len() as int) >= 1
    }
}

/// The sum the circuit outputs, and the wires to swap to make it an adder.
pub fn run(input: &str) -> (r: Result<String, AocError>)
    requires
        run_ok(input.spec_bytes()),
    ensures
        match problem_of(input.spec_bytes()) {
            Ok((x, y, c)) => match analysis(c) {
                Some(st) => r matches Ok(out) && out@ == dec(
                    (match output_upto(c, x, y, out_bits(c, c.len() as int)) {
                        Some(v) => v,
                        None => 0,
                    }) as nat,
                ) + " "@ + swaps_text(st.1),
                None => r == Err::<String, AocError>(AocError::NotFound),
            },
            Err(e) => r == Err::<String, AocError>(e),
        },
{
    let p = match Problem::parse(input) {
        Ok(p) => p,
        Err(e) => return Err(e),
    };
    proof {
        let (_, r) = split_blank(input.spec_bytes())->0;
        lemma_parsed_names(lines_of(r), lines_of(r).len() as int);
    }
    let s1 = star1(&p);
    let s2 = match analyze_adder(&p.circuit) {
        Ok(s) => s,
        Err(e) => return Err(e),
    };
    let mut out = String::new();
    push_dec(&mut out, s1);
    push_str(&mut out, " ");
    push_str(&mut out, s2.as_str());
    Ok(out)
}


/// The tests of the gates for an `AND` of the two numbers, bit by bit below bit `k`: for
/// each bit `m`, its sum with itself, with zero, and with all the bits below it.
pub open spec fn and_tests(k: nat) -> Seq<(u64, u64, u64)>
    decreases k,
{
    if k == 0 {
        Seq::empty()
    } else {
        let m = 1u64 << ((k - 1) as u32);
        and_tests((k - 1) as nat) + seq![(m, m, m), (m, 0u64, 0u64), (m, (m - 1) as u64, 0u64)]
    }
}

/// The tests of the gates for a sum of the two numbers, bit by bit below bit `k`.
pub open spec fn add0_tests(k: nat) -> Seq<(u64, u64, u64)>
    decreases k,
{
    if k == 0 {
        Seq::empty()
    } else {
        let m = 1u64 << ((k - 1) as u32);
        let l = (m - 1) as u64;
        add0_tests((k - 1) as nat) + seq![(m, m, (m + m) as u64), (l, l, (l + l) as u64), (l, m, (m + l) as u64)]
    }
}

/// For tests `(a, b, want)` on the first `nbits` output bits: how many tests there are,
/// how many give `want`, and how many give a value at all.
pub open spec fn tally(c: Seq<(Wire, Gate)>, nbits: nat, ts: Seq<(u64, u64, u64)>) -> (nat, nat, nat)
    decreases ts.len(),
{
    if ts.len() == 0 {
        (0, 0, 0)
    } else {
        let p = tally(c, nbits, ts.drop_last());
        let t = ts.last();
        match output_upto(c, t.0, t.1, nbits) {
            Some(o) => (p.0 + 1, p.1 + (if o == t.2 { 1nat } else { 0nat }), p.2 + 1),
            None => (p.0 + 1, p.1, p.2),
        }
    }
}

/// The score of a tally: `None` where every test gave what it wants, else the tests that
/// did, weighted, with those that gave a value.
pub open spec fn keep_going(t: (nat, nat, nat)) -> Option<usize> {
    if t.1 == t.0 {
        None
    } else {
        Some((t.1 * 100 + t.2) as usize)
    }
}

/// The score of the circuit as an `AND` of the two numbers.
pub open spec fn and_score(c: Seq<(Wire, Gate)>) -> Option<usize> {
    let nb = out_bits(c, c.len() as int);
    if nb == 0 {
        None
    } else {
        keep_going(tally(c, nb, and_tests((nb - 1) as nat)))
    }
}

/// The score of the circuit as a sum of the two numbers, by whole sums.
pub open spec fn add0_score(c: Seq<(Wire, Gate)>) -> Option<usize> {
    let nb = out_bits(c, c.len() as int);
    if nb == 0 {
        None
    } else {
        keep_going(tally(c, nb, add0_tests((nb - 1) as nat)))
    }
}

/// A running tally of tests.
#[derive(Debug, Clone, Copy)]
pub struct ScoreImpl {
    pub len: u8,
    pub match_: u8,
    pub valid: u8,
}

impl ScoreImpl {
    pub open spec fn view_t(&self) -> (nat, nat, nat) {
        (self.len as nat, self.match_ as nat, self.valid as nat)
    }

    pub open spec fn wf(&self) -> bool {
        self.match_ <= self.valid <= self.len
    }

    /// No tests yet.
    pub fn new() -> (r: ScoreImpl)
        ensures
            r.wf(),
            r.view_t() == (0nat, 0nat, 0nat),
    {
        ScoreImpl { len: 0, match_: 0, valid: 0 }
    }

    /// The tally with one more test: `a` and `b` on the first `nbits` output bits, wanting `want`.
    pub fn fold(self, c: &Circuit, nbits: u32, a: u64, b: u64, want: u64) -> (r: ScoreImpl)
        requires
            self.wf(),
            self.len < 255,
            c.wf(),
            inputs_fit(c.gates@),
            nbits <= 64,
        ensures
            r.wf(),
            r.view_t() == (match output_upto(c.gates@, a, b, nbits as nat) {
                Some(o) => (self.view_t().0 + 1, self.view_t().1 + (if o == want { 1nat } else { 0nat }), self.view_t().2 + 1),
                None => (self.view_t().0 + 1, self.view_t().1, self.view_t().2),
            }),
    {
        let mut len = self.len;
        let mut match_ = self.match_;
        let mut valid = self.valid;
        len += 1;
        match c.output(a, b, nbits) {
            Some(o) => {
                valid += 1;
                if o == want {
                    match_ += 1;
                }
            },
            None => {},
        }
        ScoreImpl { len, match_, valid }
    }

    /// `None` where every test gave what it wants, else the weighted count of those that did
    /// and of those that gave a value.
    pub fn keep_going_score(&self) -> (r: Option<usize>)
        ensures
            r == keep_going(self.view_t()),
    {
        if self.match_ == self.len {
            None
        } else {
            Some((self.match_ as usize) * 100 + (self.valid as usize))
        }
    }
}

proof fn lemma_tally3(c: Seq<(Wire, Gate)>, nbits: nat, ts: Seq<(u64, u64, u64)>, t1: (u64, u64, u64), t2: (u64, u64, u64), t3: (u64, u64, u64))
    ensures
        tally(c, nbits, ts + seq![t1, t2, t3]) == tally(c, nbits, ts.push(t1).push(t2).push(t3)),
{
    assert(ts + seq![t1, t2, t3] =~= ts.push(t1).push(t2).push(t3));
}

proof fn lemma_tally_push(c: Seq<(Wire, Gate)>, nbits: nat, ts: Seq<(u64, u64, u64)>, t: (u64, u64, u64))
    ensures
        tally(c, nbits, ts.push(t)) == (match output_upto(c, t.0, t.1, nbits) {
            Some(o) => (tally(c, nbits, ts).0 + 1, tally(c, nbits, ts).1 + (if o == t.2 { 1nat } else { 0nat }), tally(c, nbits, ts).2 + 1),
            None => (tally(c, nbits, ts).0 + 1, tally(c, nbits, ts).1, tally(c, nbits, ts).2),
        }),
{
    assert(ts.push(t).drop_last() =~= ts);
}

/// `score_and`: how near the circuit comes to the `AND` of the two numbers; `None` where
/// it computes it on every test.
pub fn score_and(c: &Circuit) -> (r: Option<usize>)
    requires
        c.wf(),
        inputs_fit(c.gates@),
        out_bits(c.gates@, c.gates@.len() as int) <= 64,
    ensures
        r == and_score(c.gates@),
        r matches Some(n) ==> n <= 20000,
{
    let nbits = c.output_bits();
    if nbits == 0 {
        return None;
    }
    let mut acc = ScoreImpl::new();
    let mut i: u32 = 0;
    while i < nbits - 1
        invariant
            c.wf(),
            inputs_fit(c.gates@),
            1 <= nbits <= 64,
            i <= nbits - 1,
            acc.wf(),
            acc.len == 3 * i,
            acc.view_t() == tally(c.gates@, nbits as nat, and_tests(i as nat)),
        decreases nbits - 1 - i,
    {
        let m: u64 = 1u64 << i;
        assert(1 <= m) by (bit_vector)
            requires m == 1u64 << i, i < 64;
        let ghost ts = and_tests(i as nat);
        let a1 = acc.fold(c, nbits, m, m, m);
        proof { lemma_tally_push(c.gates@, nbits as nat, ts, (m, m, m)); }
        let a2 = a1.fold(c, nbits, m, 0, 0);
        proof { lemma_tally_push(c.gates@, nbits as nat, ts.push((m, m, m)), (m, 0u64, 0u64)); }
        let a3 = a2.fold(c, nbits, m, m - 1, 0);
        proof {
            lemma_tally_push(c.gates@, nbits as nat, ts.push((m, m, m)).push((m, 0u64, 0u64)), (m, (m - 1) as u64, 0u64));
            lemma_tally3(c.gates@, nbits as nat, ts, (m, m, m), (m, 0u64, 0u64), (m, (m - 1) as u64, 0u64));
            assert(and_tests((i + 1) as nat) == ts + seq![(m, m, m), (m, 0u64, 0u64), (m, (m - 1) as u64, 0u64)]);
        }
        acc = a3;
        i += 1;
    }
    acc.keep_going_score()
}

/// `score_add_0`: how near the circuit comes to the sum of the two numbers, tried on whole
/// sums; `None` where it computes it on every test.
pub fn score_add_0(c: &Circuit) -> (r: Option<usize>)
    requires
        c.wf(),
        inputs_fit(c.gates@),
        out_bits(c.gates@, c.gates@.len() as int) <= 64,
    ensures
        r == add0_score(c.gates@),
        r matches Some(n) ==> n <= 20000,
{
    let nbits = c.output_bits();
    if nbits == 0 {
        return None;
    }
    let mut acc = ScoreImpl::new();
    let mut i: u32 = 0;
    while i < nbits - 1
        invariant
            c.wf(),
            inputs_fit(c.gates@),
            1 <= nbits <= 64,
            i <= nbits - 1,
            acc.wf(),
            acc.len == 3 * i,
            acc.view_t() == tally(c.gates@, nbits as nat, add0_tests(i as nat)),
        decreases nbits - 1 - i,
    {
        let m: u64 = 1u64 << i;
        assert(1 <= m && m <= 0x4000_0000_0000_0000) by (bit_vector)
            requires m == 1u64 << i, i < 63;
        let l = m - 1;
        let ghost ts = add0_tests(i as nat);
        let a1 = acc.fold(c, nbits, m, m, m + m);
        proof { lemma_tally_push(c.gates@, nbits as nat, ts, (m, m, (m + m) as u64)); }
        let a2 = a1.fold(c, nbits, l, l, l + l);
        proof { lemma_tally_push(c.gates@, nbits as nat, ts.push((m, m, (m + m) as u64)), (l, l, (l + l) as u64)); }
        let a3 = a2.fold(c, nbits, l, m, m + l);
        proof {
            lemma_tally_push(c.gates@, nbits as nat, ts.push((m, m, (m + m) as u64)).push((l, l, (l + l) as u64)), (l, m, (m + l) as u64));
            lemma_tally3(c.gates@, nbits as nat, ts, (m, m, (m + m) as u64), (l, l, (l + l) as u64), (l, m, (m + l) as u64));
            assert(add0_tests((i + 1) as nat) == ts + seq![(m, m, (m + m) as u64), (l, l, (l + l) as u64), (l, m, (m + l) as u64)]);
        }
        acc = a3;
        i += 1;
    }
    acc.keep_going_score()
}


/// The first `nbits` output bits for `a` and `b` have a value, whose bits in `m` are `eq`.
pub open spec fn out_is(c: Seq<(Wire, Gate)>, nbits: nat, a: u64, b: u64, m: u64, eq: u64) -> bool {
    match output_upto(c, a, b, nbits) {
        Some(n) => n & m == eq,
        None => false,
    }
}

/// Bit 0 of the sum is right on the four ways to set the two input bits 0.
pub open spec fn bit0_ok(c: Seq<(Wire, Gate)>, nb: nat) -> bool {
    out_is(c, nb, 0, 0, 1, 0) && out_is(c, nb, 1, 0, 1, 1) && out_is(c, nb, 0, 1, 1, 1) && out_is(c, nb, 1, 1, 1, 0)
}

/// Bit `i` of the sum is right on the tests of bit `i` and of the carry into it.
pub open spec fn bit_ok(c: Seq<(Wire, Gate)>, nb: nat, i: nat) -> bool {
    let m = 1u64 << (i as u32);
    let h = m >> 1u32;
    &&& out_is(c, nb, 0, 0, m, 0)
    &&& out_is(c, nb, 0, h, m, 0)
    &&& out_is(c, nb, h, 0, m, 0)
    &&& out_is(c, nb, 0, m, m, m)
    &&& out_is(c, nb, m, 0, m, m)
    &&& out_is(c, nb, h, h, m, m)
    &&& out_is(c, nb, m, m, m, 0)
    &&& out_is(c, nb, (m + h) as u64, h, m, 0)
    &&& out_is(c, nb, m, (m + h) as u64, m, 0)
}

/// Whether each bit of the sum is right, from bit 0 to the bit before the last.
pub open spec fn add_oks(c: Seq<(Wire, Gate)>) -> Seq<bool> {
    let nb = out_bits(c, c.len() as int);
    if nb >= 2 {
        seq![bit0_ok(c, nb)] + Seq::new((nb - 2) as nat, |k: int| bit_ok(c, nb, (k + 1) as nat))
    } else {
        seq![bit0_ok(c, nb)]
    }
}

/// How many of the flags are set.
pub open spec fn count_true(s: Seq<bool>) -> nat
    decreases s.len(),
{
    if s.len() == 0 {
        0
    } else {
        count_true(s.drop_last()) + (if s.last() { 1nat } else { 0nat })
    }
}

/// The score of the circuit as a sum, bit by bit.
pub open spec fn add_score(c: Seq<(Wire, Gate)>) -> Option<usize> {
    let oks = add_oks(c);
    if count_true(oks) == oks.len() {
        None
    } else {
        Some(count_true(oks) as usize)
    }
}

/// Whether the circuit sums the bits: `foreach_add_bit`, as the list of what it reports.
pub fn add_bits_ok(c: &Circuit) -> (r: Vec<bool>)
    requires
        c.wf(),
        inputs_fit(c.gates@),
        1 <= out_bits(c.gates@, c.gates@.len() as int) <= 64,
    ensures
        r@ == add_oks(c.gates@),
{
    let nbits = c.output_bits();
    let ghost nb = nbits as nat;
    let b0 = out_masked(c, nbits, 0, 0, 1, 0) && out_masked(c, nbits, 1, 0, 1, 1) && out_masked(c, nbits, 0, 1, 1, 1)
        && out_masked(c, nbits, 1, 1, 1, 0);
    let mut r: Vec<bool> = Vec::new();
    r.push(b0);
    let mut i: u32 = 1;
    while i < nbits - 1
        invariant
            c.wf(),
            inputs_fit(c.gates@),
            1 <= nbits <= 64,
            nb == nbits,
            nbits == out_bits(c.gates@, c.gates@.len() as int),
            1 <= i,
            i <= nbits - 1 || i == 1,
            r@.len() == i,
            r@[0] == bit0_ok(c.gates@, nb),
            forall|k: int| 1 <= k < i ==> #[trigger] r@[k] == bit_ok(c.gates@, nb, k as nat),
        decreases nbits - i,
    {
        let m: u64 = 1u64 << i;
        let h = m >> 1;
        assert(m <= 0x4000_0000_0000_0000 && h <= m) by (bit_vector)
            requires m == 1u64 << i, h == m >> 1u32, 1 <= i < 63;
        let ok = out_masked(c, nbits, 0, 0, m, 0) && out_masked(c, nbits, 0, h, m, 0) && out_masked(c, nbits, h, 0, m, 0)
            && out_masked(c, nbits, 0, m, m, m) && out_masked(c, nbits, m, 0, m, m) && out_masked(c, nbits, h, h, m, m)
            && out_masked(c, nbits, m, m, m, 0) && out_masked(c, nbits, m + h, h, m, 0) && out_masked(c, nbits, m, m + h, m, 0);
        assert(ok == bit_ok(c.gates@, nb, i as nat));
        r.push(ok);
        i += 1;
    }
    proof {
        let want = add_oks(c.gates@);
        if nb >= 2 {
            let tail = Seq::new((nb - 2) as nat, |k: int| bit_ok(c.gates@, nb, (k + 1) as nat));
            assert(want == seq![bit0_ok(c.gates@, nb)] + tail);
            assert(tail.len() == nb - 2);
            assert(i == nbits - 1);
        }
        assert(r@.len() == want.len());
        assert forall|k: int| 0 <= k < r@.len() implies r@[k] == want[k] by {
            if k >= 1 {
                assert(r@[k] == bit_ok(c.gates@, nb, k as nat));
            }
        }
        assert(r@ =~= want);
    }
    r
}

/// Whether the first `nbits` output bits for `a` and `b` have a value whose bits in `m` are `eq`.
fn out_masked(c: &Circuit, nbits: u32, a: u64, b: u64, m: u64, eq: u64) -> (r: bool)
    requires
        c.wf(),
        inputs_fit(c.gates@),
        nbits <= 64,
    ensures
        r == out_is(c.gates@, nbits as nat, a, b, m, eq),
{
    match c.output(a, b, nbits) {
        Some(n) => n & m == eq,
        None => false,
    }
}

/// `score_add`: how many bits of the sum the circuit gets right; `None` where it gets all.
pub fn score_add(c: &Circuit) -> (r: Option<usize>)
    requires
        c.wf(),
        inputs_fit(c.gates@),
        1 <= out_bits(c.gates@, c.gates@.len() as int) <= 64,
    ensures
        r == add_score(c.gates@),
        r matches Some(n) ==> n <= 20000,
{
    let oks = add_bits_ok(c);
    let mut n_ok: usize = 0;
    let mut k: usize = 0;
    while k < oks.len()
        invariant
            k <= oks@.len(),
            oks@.len() <= 64,
            n_ok == count_true(oks@.take(k as int)),
            n_ok <= k,
        decreases oks@.len() - k,
    {
        assert(oks@.take(k + 1).drop_last() =~= oks@.take(k as int));
        if oks[k] {
            n_ok += 1;
        }
        k += 1;
    }
    assert(oks@.take(oks@.len() as int) =~= oks@);
    if oks.len() != n_ok {
        Some(n_ok)
    } else {
        None
    }
}

/// The output wires of the bits of the sum that are wrong, among the first `n`.
pub open spec fn bad_wires(oks: Seq<bool>, n: int) -> Seq<Wire>
    decreases n,
{
    if n <= 0 {
        Seq::empty()
    } else if oks[n - 1] {
        bad_wires(oks, n - 1)
    } else {
        bad_wires(oks, n - 1).push(Wire::spec_named(122u8, n - 1))
    }
}

/// `bad_add_bits`: the output wires of the bits of the sum that the circuit gets wrong.
pub fn bad_add_bits(c: &Circuit) -> (r: Vec<Wire>)
    requires
        c.wf(),
        inputs_fit(c.gates@),
        1 <= out_bits(c.gates@, c.gates@.len() as int) <= 64,
    ensures
        r@ == bad_wires(add_oks(c.gates@), add_oks(c.gates@).len() as int),
{
    let oks = add_bits_ok(c);
    let mut r: Vec<Wire> = Vec::new();
    let mut k: usize = 0;
    while k < oks.len()
        invariant
            k <= oks@.len(),
            oks@.len() <= 64,
            r@ == bad_wires(oks@, k as int),
        decreases oks@.len() - k,
    {
        if !oks[k] {
            r.push(Wire::z(k as u32));
        }
        k += 1;
    }
    r
}


/// How a candidate circuit is scored in the search for its crossed wires.
#[derive(Debug, Clone, Copy, PartialEq, Eq, Structural)]
pub enum Scorer {
    /// As an `AND` of the two numbers (`score_and`).
    And,
    /// As their sum, bit by bit (`score_add`).
    Add,
    /// As their sum, by whole sums (`score_add_0`).
    Add0,
}

/// The score of circuit `c`: `None` where it does what the scorer asks.
pub open spec fn score_of(s: Scorer, c: Seq<(Wire, Gate)>) -> Option<usize> {
    match s {
        Scorer::And => and_score(c),
        Scorer::Add => add_score(c),
        Scorer::Add0 => add0_score(c),
    }
}

/// The scorer can run on circuit `c`: its input wires are numbered below 64, it has at
/// most 64 output bits, and at least one where the sum is scored bit by bit.
pub open spec fn can_score(s: Scorer, c: Seq<(Wire, Gate)>) -> bool {
    &&& inputs_fit(c)
    &&& out_bits(c, c.len() as int) <= 64
    &&& s == Scorer::Add ==> out_bits(c, c.len() as int) >= 1
}

/// The score of a circuit.
pub fn score(s: Scorer, c: &Circuit) -> (r: Option<usize>)
    requires
        c.wf(),
        can_score(s, c.gates@),
    ensures
        r == score_of(s, c.gates@),
        r matches Some(n) ==> n <= 20000,
{
    match s {
        Scorer::And => score_and(c),
        Scorer::Add => score_add(c),
        Scorer::Add0 => score_add_0(c),
    }
}

/// The wires that swaps exchange, each pair's in turn: both, or one where a wire is
/// swapped with itself.
pub open spec fn keys_of(ps: Seq<(Wire, Wire)>) -> Seq<Wire>
    decreases ps.len(),
{
    if ps.len() == 0 {
        Seq::empty()
    } else {
        let p = ps.last();
        keys_of(ps.drop_last()) + (if p.0 == p.1 { seq![p.0] } else { seq![p.0, p.1] })
    }
}

/// The circuit after the swaps, made in turn.
pub open spec fn apply_swaps(c: Seq<(Wire, Gate)>, ps: Seq<(Wire, Wire)>) -> Seq<(Wire, Gate)>
    decreases ps.len(),
{
    if ps.len() == 0 {
        c
    } else {
        let p = ps.last();
        swapped(apply_swaps(c, ps.drop_last()), p.0, p.1)
    }
}

/// Pair `x` is one of `ps`, in either order.
pub open spec fn has_pair(ps: Seq<(Wire, Wire)>, x: (Wire, Wire)) -> bool {
    exists|j: int| 0 <= j < ps.len() && (ps[j] == x || ps[j] == (x.1, x.0))
}

/// Each pair of `p`, in either order, is one of `q`.
pub open spec fn pairs_within(p: Seq<(Wire, Wire)>, q: Seq<(Wire, Wire)>) -> bool {
    forall|i: int| 0 <= i < p.len() ==> has_pair(q, #[trigger] p[i])
}

/// Two sets of swaps exchange the same wires: as many, and each pair of either, in
/// either order, among the other's.
pub open spec fn same_pairs(p: Seq<(Wire, Wire)>, q: Seq<(Wire, Wire)>) -> bool {
    &&& keys_of(p).len() == keys_of(q).len()
    &&& pairs_within(p, q)
    &&& pairs_within(q, p)
}

/// Each swap is one of the candidate pairs.
pub open spec fn pairs_from(ps: Seq<(Wire, Wire)>, wp: Seq<(Wire, Wire)>) -> bool {
    forall|k: int| 0 <= k < ps.len() ==> wp.contains(#[trigger] ps[k])
}

/// A set of swaps: the pairs of wires whose gates are exchanged.
pub struct SwapSet {
    pub pairs: Vec<(Wire, Wire)>,
}

pub proof fn lemma_keys_len(ps: Seq<(Wire, Wire)>)
    ensures
        ps.len() <= keys_of(ps).len() <= 2 * ps.len(),
    decreases ps.len(),
{
    if ps.len() > 0 {
        lemma_keys_len(ps.drop_last());
    }
}

pub proof fn lemma_keys_push(ps: Seq<(Wire, Wire)>, p: (Wire, Wire))
    ensures
        keys_of(ps.push(p)) == keys_of(ps) + (if p.0 == p.1 { seq![p.0] } else { seq![p.0, p.1] }),
{
    assert(ps.push(p).drop_last() =~= ps);
}

impl SwapSet {
    /// No swaps.
    pub fn new() -> (r: SwapSet)
        ensures
            r.pairs@ == Seq::<(Wire, Wire)>::empty(),
    {
        SwapSet { pairs: Vec::new() }
    }

    /// How many wires the swaps exchange.
    pub fn len(&self) -> (r: usize)
        requires
            self.pairs@.len() <= 1000,
        ensures
            r == keys_of(self.pairs@).len(),
    {
        let mut n: usize = 0;
        let mut k: usize = 0;
        while k < self.pairs.len()
            invariant
                k <= self.pairs@.len() <= 1000,
                n == keys_of(self.pairs@.take(k as int)).len(),
            decreases self.pairs@.len() - k,
        {
            proof {
                lemma_keys_len(self.pairs@.take(k as int));
                assert(self.pairs@.take(k + 1) =~= self.pairs@.take(k as int).push(self.pairs@[k as int]));
                lemma_keys_push(self.pairs@.take(k as int), self.pairs@[k as int]);
            }
            let p = self.pairs[k];
            if p.0 == p.1 {
                n += 1;
            } else {
                n += 2;
            }
            k += 1;
        }
        assert(self.pairs@.take(self.pairs@.len() as int) =~= self.pairs@);
        n
    }

    /// Whether the swaps exchange wire `w`.
    pub fn contains_key(&self, w: Wire) -> (r: bool)
        ensures
            r == keys_of(self.pairs@).contains(w),
    {
        let mut k: usize = 0;
        while k < self.pairs.len()
            invariant
                k <= self.pairs@.len(),
                !keys_of(self.pairs@.take(k as int)).contains(w),
            decreases self.pairs@.len() - k,
        {
            let p = self.pairs[k];
            proof {
                assert(self.pairs@.take(k + 1) =~= self.pairs@.take(k as int).push(p));
                lemma_keys_push(self.pairs@.take(k as int), p);
            }
            if p.0 == w || p.1 == w {
                proof {
                    let ks = keys_of(self.pairs@.take(k + 1));
                    let n = keys_of(self.pairs@.take(k as int)).len();
                    if p.0 == w {
                        assert(ks[n as int] == w);
                    } else if p.0 == p.1 {
                        assert(ks[n as int] == w);
                    } else {
                        assert(ks[n as int + 1] == w);
                    }
                    assert(keys_of(self.pairs@.take(k + 1)).contains(w));
                    lemma_keys_prefix(self.pairs@, k + 1, w);
                }
                return true;
            }
            proof {
                let ks = keys_of(self.pairs@.take(k + 1));
                let ko = keys_of(self.pairs@.take(k as int));
                assert forall|t: int| 0 <= t < ks.len() implies ks[t] != w by {
                    if t < ko.len() {
                        assert(ks[t] == ko[t]);
                    }
                }
            }
            k += 1;
        }
        assert(self.pairs@.take(self.pairs@.len() as int) =~= self.pairs@);
        false
    }

    /// `with`: the swaps and the pair `a`, `b`; `None` where either is swapped already.
    pub fn with(&self, a: Wire, b: Wire) -> (r: Option<SwapSet>)
        ensures
            match r {
                Some(s) => !keys_of(self.pairs@).contains(a) && !keys_of(self.pairs@).contains(b) && s.pairs@
                    == self.pairs@.push((a, b)),
                None => keys_of(self.pairs@).contains(a) || keys_of(self.pairs@).contains(b),
            },
    {
        if self.contains_key(a) || self.contains_key(b) {
            None
        } else {
            let mut m = copy_pairs(&self.pairs);
            m.push((a, b));
            Some(SwapSet { pairs: m })
        }
    }

    /// The wires the swaps exchange.
    pub fn wires(&self) -> (r: Vec<Wire>)
        ensures
            r@ == keys_of(self.pairs@),
    {
        let mut r: Vec<Wire> = Vec::new();
        let mut k: usize = 0;
        while k < self.pairs.len()
            invariant
                k <= self.pairs@.len(),
                r@ == keys_of(self.pairs@.take(k as int)),
            decreases self.pairs@.len() - k,
        {
            let p = self.pairs[k];
            proof {
                assert(self.pairs@.take(k + 1) =~= self.pairs@.take(k as int).push(p));
                lemma_keys_push(self.pairs@.take(k as int), p);
            }
            r.push(p.0);
            if p.0 != p.1 {
                r.push(p.1);
            }
            k += 1;
            assert(r@ =~= keys_of(self.pairs@.take(k as int)));
        }
        assert(self.pairs@.take(self.pairs@.len() as int) =~= self.pairs@);
        r
    }
}

pub proof fn lemma_keys_prefix(ps: Seq<(Wire, Wire)>, k: int, w: Wire)
    requires
        0 <= k <= ps.len(),
        keys_of(ps.take(k)).contains(w),
    ensures
        keys_of(ps).contains(w),
    decreases ps.len() - k,
{
    if k < ps.len() {
        assert(ps.take(k + 1) =~= ps.take(k).push(ps[k]));
        lemma_keys_push(ps.take(k), ps[k]);
        let i = choose|i: int| 0 <= i < keys_of(ps.take(k)).len() && keys_of(ps.take(k))[i] == w;
        assert(keys_of(ps.take(k + 1))[i] == w);
        lemma_keys_prefix(ps, k + 1, w);
    } else {
        assert(ps.take(k) =~= ps);
    }
}

/// A copy of a list of pairs.
fn copy_pairs(v: &Vec<(Wire, Wire)>) -> (r: Vec<(Wire, Wire)>)
    ensures
        r@ == v@,
{
    let mut r: Vec<(Wire, Wire)> = Vec::new();
    let mut i: usize = 0;
    while i < v.len()
        invariant
            i <= v@.len(),
            r@ == v@.take(i as int),
        decreases v@.len() - i,
    {
        r.push(v[i]);
        i += 1;
        assert(r@ =~= v@.take(i as int));
    }
    assert(v@.take(v@.len() as int) =~= v@);
    r
}

/// A copy of a circuit.
fn copy_circuit(c: &Circuit) -> (r: Circuit)
    ensures
        r.gates@ == c.gates@,
{
    let mut g: Vec<(Wire, Gate)> = Vec::new();
    let mut i: usize = 0;
    while i < c.gates.len()
        invariant
            i <= c.gates@.len(),
            g@ == c.gates@.take(i as int),
        decreases c.gates@.len() - i,
    {
        g.push(c.gates[i]);
        i += 1;
        assert(g@ =~= c.gates@.take(i as int));
    }
    assert(c.gates@.take(c.gates@.len() as int) =~= c.gates@);
    Circuit { gates: g }
}

/// Whether two sets of swaps exchange the same wires.
fn same_swaps(x: &SwapSet, y: &SwapSet) -> (r: bool)
    requires
        x.pairs@.len() <= 1000,
        y.pairs@.len() <= 1000,
    ensures
        r == same_pairs(x.pairs@, y.pairs@),
{
    if x.len() != y.len() {
        return false;
    }
    within(&x.pairs, &y.pairs) && within(&y.pairs, &x.pairs)
}

/// Whether each pair of `x`, in either order, is one of `y`.
fn within(x: &Vec<(Wire, Wire)>, y: &Vec<(Wire, Wire)>) -> (r: bool)
    ensures
        r == pairs_within(x@, y@),
{
    let mut i: usize = 0;
    while i < x.len()
        invariant
            i <= x@.len(),
            forall|t: int| 0 <= t < i ==> has_pair(y@, #[trigger] x@[t]),
        decreases x@.len() - i,
    {
        let p = x[i];
        let mut found = false;
        let mut j: usize = 0;
        while j < y.len()
            invariant
                j <= y@.len(),
                p == x@[i as int],
                found ==> exists|t: int| 0 <= t < y@.len() && (y@[t] == p || y@[t] == (p.1, p.0)),
                !found ==> forall|t: int| 0 <= t < j ==> !(y@[t] == p || y@[t] == (p.1, p.0)),
            decreases y@.len() - j,
        {
            let q = y[j];
            if (q.0 == p.0 && q.1 == p.1) || (q.0 == p.1 && q.1 == p.0) {
                found = true;
            }
            j += 1;
        }
        if !found {
            assert(!has_pair(y@, x@[i as int]));
            return false;
        }
        i += 1;
    }
    true
}

/// Whether an equal set of swaps was seen already.
fn seen_swaps(vis: &Vec<SwapSet>, s: &SwapSet) -> (r: bool)
    requires
        s.pairs@.len() <= 1000,
        forall|k: int| 0 <= k < vis@.len() ==> (#[trigger] vis@[k]).pairs@.len() <= 1000,
    ensures
        r == exists|k: int| 0 <= k < vis@.len() && same_pairs(s.pairs@, #[trigger] vis@[k].pairs@),
{
    let mut k: usize = 0;
    while k < vis.len()
        invariant
            k <= vis@.len(),
            s.pairs@.len() <= 1000,
            forall|t: int| 0 <= t < vis@.len() ==> (#[trigger] vis@[t]).pairs@.len() <= 1000,
            forall|t: int| 0 <= t < k ==> !same_pairs(s.pairs@, #[trigger] vis@[t].pairs@),
        decreases vis@.len() - k,
    {
        if same_swaps(s, &vis[k]) {
            return true;
        }
        k += 1;
    }
    false
}


pub proof fn lemma_out_bits_names(c1: Seq<(Wire, Gate)>, c2: Seq<(Wire, Gate)>, n: int)
    requires
        n <= c1.len(),
        n <= c2.len(),
        forall|k: int| 0 <= k < n ==> (#[trigger] c1[k]).0 == c2[k].0,
    ensures
        out_bits(c1, n) == out_bits(c2, n),
    decreases n,
{
    if n > 0 {
        lemma_out_bits_names(c1, c2, n - 1);
        assert(c1[n - 1].0 == c2[n - 1].0);
    }
}

/// The place whose gate lands at place `k` when the gates of `a` and `b` are exchanged.
pub open spec fn swap_from(c: Seq<(Wire, Gate)>, a: Wire, b: Wire, k: int) -> int {
    match (gate_of(c, a), gate_of(c, b)) {
        (Some(ga), Some(gb)) => {
            let ia = choose|i: int| 0 <= i < c.len() && c[i].0 == a;
            let ib = choose|i: int| 0 <= i < c.len() && c[i].0 == b;
            if k == ia {
                ib
            } else if k == ib {
                ia
            } else {
                k
            }
        },
        _ => k,
    }
}

/// A swap keeps each wire's place and name, and takes its gates from the circuit.
pub proof fn lemma_swapped_keeps(c: Seq<(Wire, Gate)>, a: Wire, b: Wire)
    requires
        distinct(c),
    ensures
        swapped(c, a, b).len() == c.len(),
        forall|k: int| 0 <= k < c.len() ==> (#[trigger] swapped(c, a, b)[k]).0 == c[k].0,
        forall|k: int| 0 <= k < c.len() ==> 0 <= swap_from(c, a, b, k) < c.len() && (#[trigger] swapped(c, a, b)[k]).1 == c[swap_from(c, a, b, k)].1,
{
    let s = swapped(c, a, b);
    match (gate_of(c, a), gate_of(c, b)) {
        (Some(ga), Some(gb)) => {
            let ia = choose|i: int| 0 <= i < c.len() && c[i].0 == a;
            let ib = choose|i: int| 0 <= i < c.len() && c[i].0 == b;
            lemma_gate_at(c, ia);
            lemma_gate_at(c, ib);
            lemma_index_unique(c, a, ia);
            lemma_index_unique(c, b, ib);
            assert(s == c.update(ib, (b, c[ia].1)).update(ia, (a, c[ib].1)));
        },
        _ => {
            assert(s == c);
        },
    }
}

/// Swaps keep the circuit well formed and scorable.
pub proof fn lemma_apply_keeps(c: Seq<(Wire, Gate)>, ps: Seq<(Wire, Wire)>)
    requires
        distinct(c),
    ensures
        apply_swaps(c, ps).len() == c.len(),
        forall|k: int| 0 <= k < c.len() ==> (#[trigger] apply_swaps(c, ps)[k]).0 == c[k].0,
        distinct(apply_swaps(c, ps)),
        out_bits(apply_swaps(c, ps), c.len() as int) == out_bits(c, c.len() as int),
        inputs_fit(c) ==> inputs_fit(apply_swaps(c, ps)),
    decreases ps.len(),
{
    if ps.len() > 0 {
        let q = ps.drop_last();
        let p = ps.last();
        lemma_apply_keeps(c, q);
        let d = apply_swaps(c, q);
        lemma_swapped_keeps(d, p.0, p.1);
        let e = swapped(d, p.0, p.1);
        assert(e == apply_swaps(c, ps));
        assert forall|i: int, j: int| 0 <= i < j < e.len() implies #[trigger] e[i].0 != #[trigger] e[j].0 by {
            assert(e[i].0 == d[i].0 && e[j].0 == d[j].0);
        }
        lemma_out_bits_names(e, c, c.len() as int);
        if inputs_fit(c) {
            assert forall|i: int| 0 <= i < e.len() implies (is_input(#[trigger] e[i].1.a) ==> wnum(e[i].1.a) < 64) && (is_input(e[i].1.b) ==> wnum(e[i].1.b) < 64) by {
                let j = swap_from(d, p.0, p.1, i);
                assert(inputs_fit(d));
                assert(is_input(d[j].1.a) ==> wnum(d[j].1.a) < 64);
            }
        }
    } else {
        lemma_out_bits_names(c, c, c.len() as int);
    }
}

/// `b` to the power `e`.
pub open spec fn pw(b: nat, e: nat) -> nat
    decreases e,
{
    if e == 0 {
        1
    } else {
        b * pw(b, (e - 1) as nat)
    }
}

pub proof fn lemma_pw_pos(b: nat, e: nat)
    requires
        b >= 1,
    ensures
        pw(b, e) >= 1,
    decreases e,
{
    if e > 0 {
        lemma_pw_pos(b, (e - 1) as nat);
        assert(b * pw(b, (e - 1) as nat) >= 1) by (nonlinear_arith)
            requires b >= 1, pw(b, (e - 1) as nat) >= 1;
    }
}

pub proof fn lemma_pw_mono(b: nat, e1: nat, e2: nat)
    requires
        b >= 1,
        e1 <= e2,
    ensures
        pw(b, e1) <= pw(b, e2),
    decreases e2,
{
    if e1 < e2 {
        lemma_pw_mono(b, e1, (e2 - 1) as nat);
        lemma_pw_pos(b, (e2 - 1) as nat);
        assert(pw(b, (e2 - 1) as nat) <= b * pw(b, (e2 - 1) as nat)) by (nonlinear_arith)
            requires b >= 1, pw(b, (e2 - 1) as nat) >= 1;
    }
}

/// An entry of the search: a set of swaps, its score, the circuit it makes, and where among
/// the candidate pairs the next swap to try is.
pub struct HeapEntry {
    pub score: usize,
    pub swaps: SwapSet,
    pub circuit: Circuit,
    pub wire_idx: usize,
}

/// What is left of the search from an entry: the candidate pairs still to try, each able
/// to open a search of one more swap.
pub open spec fn entry_weight(e: HeapEntry, np: nat) -> nat {
    ((np + 1 - e.wire_idx) as nat) * pw(np + 2, (8 - keys_of(e.swaps.pairs@).len()) as nat)
}

pub open spec fn heap_weight(h: Seq<HeapEntry>, np: nat) -> nat
    decreases h.len(),
{
    if h.len() == 0 {
        0
    } else {
        heap_weight(h.drop_last(), np) + entry_weight(h.last(), np)
    }
}

pub proof fn lemma_heap_remove(h: Seq<HeapEntry>, k: int, np: nat)
    requires
        0 <= k < h.len(),
    ensures
        heap_weight(h.remove(k), np) + entry_weight(h[k], np) == heap_weight(h, np),
    decreases h.len(),
{
    if k == h.len() - 1 {
        assert(h.remove(k) =~= h.drop_last());
    } else {
        let d = h.drop_last();
        lemma_heap_remove(d, k, np);
        assert(h.remove(k) =~= d.remove(k).push(h.last()));
        assert(h.remove(k).drop_last() =~= d.remove(k));
    }
}

pub proof fn lemma_heap_push(h: Seq<HeapEntry>, e: HeapEntry, np: nat)
    ensures
        heap_weight(h.push(e), np) == heap_weight(h, np) + entry_weight(e, np),
{
    assert(h.push(e).drop_last() =~= h);
}

/// The two entries that an entry's step leaves weigh less than it.
pub proof fn lemma_weight_step(np: nat, i: nat, j: nat, l: nat, l2: nat)
    requires
        i <= j < np,
        l < 8,
        l < l2 <= 8,
    ensures
        (np - j) * pw(np + 2, (8 - l) as nat) + (np + 1) * pw(np + 2, (8 - l2) as nat) < ((np + 1 - i) as nat) * pw(
            np + 2,
            (8 - l) as nat,
        ),
{
    let b = np + 2;
    let p7 = pw(b, (7 - l) as nat);
    let p8 = pw(b, (8 - l) as nat);
    let q = pw(b, (8 - l2) as nat);
    assert(p8 == b * p7);
    lemma_pw_pos(b, (7 - l) as nat);
    lemma_pw_mono(b, (8 - l2) as nat, (7 - l) as nat);
    assert((np - j) * p8 + (np + 1) * q < ((np + 1 - i) as nat) * p8) by (nonlinear_arith)
        requires
            p8 == (np + 2) * p7,
            p7 >= 1,
            q <= p7,
            i <= j < np,
    ;
}

/// The search for swaps found `ps`: candidate pairs, no wire in two of them, after which
/// the circuit does what the scorer asks.
pub open spec fn fix_found(c: Seq<(Wire, Gate)>, wp: Seq<(Wire, Wire)>, s: Scorer, ps: Seq<(Wire, Wire)>) -> bool {
    &&& ps.len() >= 1
    &&& pairs_from(ps, wp)
    &&& keys_of(ps).no_duplicates()
    &&& score_of(s, apply_swaps(c, ps)) is None
}

/// An entry of the search is sound: its circuit is the one its swaps make, from candidate
/// pairs with no wire twice, and it can be scored.
pub open spec fn entry_ok(c: Seq<(Wire, Gate)>, wp: Seq<(Wire, Wire)>, s: Scorer, e: HeapEntry) -> bool {
    &&& e.circuit.wf()
    &&& e.circuit.gates@ == apply_swaps(c, e.swaps.pairs@)
    &&& pairs_from(e.swaps.pairs@, wp)
    &&& keys_of(e.swaps.pairs@).no_duplicates()
    &&& keys_of(e.swaps.pairs@).len() < 8
    &&& e.wire_idx <= wp.len()
    &&& can_score(s, e.circuit.gates@)
}

/// The text of a string.
fn text_of(s: &str) -> (r: String)
    ensures
        r@ == s@,
{
    let mut r = String::new();
    push_str(&mut r, s);
    assert(r@ =~= s@);
    r
}

pub proof fn lemma_keys_named(ps: Seq<(Wire, Wire)>, wp: Seq<(Wire, Wire)>)
    requires
        pairs_from(ps, wp),
        forall|k: int| 0 <= k < wp.len() ==> wire_name_ok((#[trigger] wp[k]).0) && wire_name_ok(wp[k].1),
    ensures
        forall|k: int| 0 <= k < keys_of(ps).len() ==> wire_name_ok(#[trigger] keys_of(ps)[k]),
    decreases ps.len(),
{
    if ps.len() > 0 {
        let q = ps.drop_last();
        let p = ps.last();
        assert(pairs_from(q, wp)) by {
            assert forall|k: int| 0 <= k < q.len() implies wp.contains(#[trigger] q[k]) by {
                assert(q[k] == ps[k]);
            }
        }
        lemma_keys_named(q, wp);
        assert(wp.contains(ps[ps.len() - 1]));
        let t = choose|t: int| 0 <= t < wp.len() && wp[t] == p;
        assert(wire_name_ok(wp[t].0) && wire_name_ok(wp[t].1));
        assert(ps =~= q.push(p));
        lemma_keys_push(q, p);
        let kq = keys_of(q);
        assert forall|k: int| 0 <= k < keys_of(ps).len() implies wire_name_ok(#[trigger] keys_of(ps)[k]) by {
            if k < kq.len() {
                assert(keys_of(ps)[k] == kq[k]);
            }
        }
    }
}

/// A new pair of fresh wires keeps the swaps' wires distinct.
pub proof fn lemma_keys_fresh(ps: Seq<(Wire, Wire)>, a: Wire, b: Wire)
    requires
        keys_of(ps).no_duplicates(),
        !keys_of(ps).contains(a),
        !keys_of(ps).contains(b),
    ensures
        keys_of(ps.push((a, b))).no_duplicates(),
        keys_of(ps.push((a, b))).len() <= keys_of(ps).len() + 2,
        keys_of(ps.push((a, b))).len() > keys_of(ps).len(),
{
    lemma_keys_push(ps, (a, b));
    let k = keys_of(ps);
    let n = keys_of(ps.push((a, b)));
    assert forall|i: int, j: int| 0 <= i < n.len() && 0 <= j < n.len() && i != j implies n[i] != n[j] by {
        if i < k.len() && j >= k.len() {
            assert(k.contains(n[i]));
        }
        if j < k.len() && i >= k.len() {
            assert(k.contains(n[j]));
        }
        if i < k.len() && j < k.len() {
            assert(n[i] == k[i] && n[j] == k[j]);
        }
    }
}

/// Pair `p` holds wire `w`.
pub open spec fn pair_has(p: (Wire, Wire), w: Wire) -> bool {
    p.0 == w || p.1 == w
}

/// A wire is exchanged by the swaps just when one of the pairs holds it.
pub proof fn lemma_key_pair(ps: Seq<(Wire, Wire)>, w: Wire)
    ensures
        keys_of(ps).contains(w) <==> exists|j: int| 0 <= j < ps.len() && pair_has(#[trigger] ps[j], w),
    decreases ps.len(),
{
    if ps.len() > 0 {
        let q = ps.drop_last();
        let p = ps.last();
        lemma_key_pair(q, w);
        lemma_keys_push(q, p);
        assert(ps =~= q.push(p));
        let t: Seq<Wire> = if p.0 == p.1 { seq![p.0] } else { seq![p.0, p.1] };
        if keys_of(ps).contains(w) {
            let i = choose|i: int| 0 <= i < keys_of(ps).len() && keys_of(ps)[i] == w;
            if i < keys_of(q).len() {
                assert(keys_of(q)[i] == w);
                let j = choose|j: int| 0 <= j < q.len() && pair_has(#[trigger] q[j], w);
                assert(ps[j] == q[j]);
            } else {
                assert(t[i - keys_of(q).len()] == w);
                assert(pair_has(ps[ps.len() - 1], w));
            }
        }
        if exists|j: int| 0 <= j < ps.len() && pair_has(#[trigger] ps[j], w) {
            let j = choose|j: int| 0 <= j < ps.len() && pair_has(#[trigger] ps[j], w);
            if j < q.len() {
                assert(q[j] == ps[j]);
                assert(keys_of(q).contains(w));
                let i = choose|i: int| 0 <= i < keys_of(q).len() && keys_of(q)[i] == w;
                assert(keys_of(ps)[i] == w);
            } else {
                if p.0 == w {
                    assert(keys_of(ps)[keys_of(q).len() as int] == w);
                } else {
                    assert(keys_of(ps)[keys_of(ps).len() - 1] == w);
                }
            }
        }
    }
}

/// With no wire exchanged twice, one pair at most holds a wire.
pub proof fn lemma_pair_unique(ps: Seq<(Wire, Wire)>, j: int, l: int, w: Wire)
    requires
        keys_of(ps).no_duplicates(),
        0 <= j < ps.len(),
        0 <= l < ps.len(),
        pair_has(ps[j], w),
        pair_has(ps[l], w),
    ensures
        j == l,
    decreases ps.len(),
{
    let q = ps.drop_last();
    let p = ps.last();
    lemma_keys_push(q, p);
    assert(ps =~= q.push(p));
    let kq = keys_of(q);
    let t: Seq<Wire> = if p.0 == p.1 { seq![p.0] } else { seq![p.0, p.1] };
    assert(keys_of(ps) == kq + t);
    assert(kq.no_duplicates()) by {
        assert forall|x: int, y: int| 0 <= x < kq.len() && 0 <= y < kq.len() && x != y implies kq[x] != kq[y] by {
            assert(keys_of(ps)[x] == kq[x] && keys_of(ps)[y] == kq[y]);
        }
    }
    if j < q.len() && l < q.len() {
        assert(q[j] == ps[j] && q[l] == ps[l]);
        lemma_pair_unique(q, j, l, w);
    } else if j < q.len() || l < q.len() {
        let o = if j < q.len() { j } else { l };
        assert(q[o] == ps[o]);
        lemma_key_pair(q, w);
        assert(kq.contains(w));
        let x = choose|x: int| 0 <= x < kq.len() && kq[x] == w;
        let y: int = if p.0 == w { kq.len() as int } else { keys_of(ps).len() - 1 };
        assert(keys_of(ps)[y] == w);
        assert(keys_of(ps)[x] == w);
    }
}

/// A swap of `p` changes the circuit: gates drive both its wires.
pub open spec fn swap_acts(c: Seq<(Wire, Gate)>, p: (Wire, Wire)) -> bool {
    gate_of(c, p.0) is Some && gate_of(c, p.1) is Some
}

/// The wire whose gate, after the swaps, drives `w`: its partner in the last swap that
/// holds it and acts, else itself.
pub open spec fn moved(c: Seq<(Wire, Gate)>, ps: Seq<(Wire, Wire)>, w: Wire) -> Wire
    decreases ps.len(),
{
    if ps.len() == 0 {
        w
    } else {
        let p = ps.last();
        if swap_acts(c, p) && p.0 == w {
            p.1
        } else if swap_acts(c, p) && p.1 == w {
            p.0
        } else {
            moved(c, ps.drop_last(), w)
        }
    }
}

/// With no wire twice, the swaps before the last keep that property.
proof fn lemma_keys_init(ps: Seq<(Wire, Wire)>)
    requires
        keys_of(ps).no_duplicates(),
        ps.len() > 0,
    ensures
        keys_of(ps.drop_last()).no_duplicates(),
{
    let q = ps.drop_last();
    lemma_keys_push(q, ps.last());
    assert(ps =~= q.push(ps.last()));
    let kq = keys_of(q);
    assert forall|x: int, y: int| 0 <= x < kq.len() && 0 <= y < kq.len() && x != y implies kq[x] != kq[y] by {
        assert(keys_of(ps)[x] == kq[x] && keys_of(ps)[y] == kq[y]);
    }
}

/// Where no pair holds `w`, the swaps leave it.
proof fn lemma_moved_none(c: Seq<(Wire, Gate)>, ps: Seq<(Wire, Wire)>, w: Wire)
    requires
        forall|j: int| 0 <= j < ps.len() ==> !pair_has(#[trigger] ps[j], w),
    ensures
        moved(c, ps, w) == w,
    decreases ps.len(),
{
    if ps.len() > 0 {
        let q = ps.drop_last();
        assert(!pair_has(ps[ps.len() - 1], w));
        assert forall|j: int| 0 <= j < q.len() implies !pair_has(#[trigger] q[j], w) by {
            assert(q[j] == ps[j]);
        }
        lemma_moved_none(c, q, w);
    }
}

/// Where pair `j` is the one that holds `w`, the swaps move `w` as that pair does.
proof fn lemma_moved_at(c: Seq<(Wire, Gate)>, ps: Seq<(Wire, Wire)>, j: int, w: Wire)
    requires
        keys_of(ps).no_duplicates(),
        0 <= j < ps.len(),
        pair_has(ps[j], w),
    ensures
        moved(c, ps, w) == (if !swap_acts(c, ps[j]) { w } else if ps[j].0 == w { ps[j].1 } else { ps[j].0 }),
    decreases ps.len(),
{
    let q = ps.drop_last();
    let last = ps.len() - 1;
    lemma_keys_init(ps);
    if j == last {
        if !swap_acts(c, ps[j]) {
            assert forall|l: int| 0 <= l < q.len() implies !pair_has(#[trigger] q[l], w) by {
                if pair_has(q[l], w) {
                    assert(ps[l] == q[l]);
                    lemma_pair_unique(ps, l, last, w);
                }
            }
            lemma_moved_none(c, q, w);
        }
    } else {
        if pair_has(ps[last], w) {
            lemma_pair_unique(ps, j, last, w);
        }
        assert(q[j] == ps[j]);
        lemma_moved_at(c, q, j, w);
    }
}

/// Where the last pair does not hold `w`, the earlier pairs move it alone.
proof fn lemma_moved_tail(c: Seq<(Wire, Gate)>, ps: Seq<(Wire, Wire)>, w: Wire)
    requires
        ps.len() > 0,
        !pair_has(ps.last(), w),
    ensures
        moved(c, ps, w) == moved(c, ps.drop_last(), w),
{
}

/// Circuits with the same wires in the same places pick the same places to exchange.
proof fn lemma_swap_from_same(c: Seq<(Wire, Gate)>, d: Seq<(Wire, Gate)>, a: Wire, b: Wire, k: int)
    requires
        distinct(c),
        d.len() == c.len(),
        forall|i: int| 0 <= i < c.len() ==> (#[trigger] d[i]).0 == c[i].0,
    ensures
        swap_from(d, a, b, k) == swap_from(c, a, b, k),
        gate_of(d, a) is Some == gate_of(c, a) is Some,
        gate_of(d, b) is Some == gate_of(c, b) is Some,
{
    assert(distinct(d)) by {
        assert forall|i: int, j: int| 0 <= i < j < d.len() implies #[trigger] d[i].0 != #[trigger] d[j].0 by {
            assert(c[i].0 != c[j].0);
        }
    }
    if exists|i: int| 0 <= i < c.len() && c[i].0 == a {
        let i = choose|i: int| 0 <= i < c.len() && c[i].0 == a;
        assert(d[i].0 == a);
        lemma_index_unique(c, a, i);
        lemma_index_unique(d, a, i);
    } else {
        if exists|i: int| 0 <= i < d.len() && d[i].0 == a {
            let i = choose|i: int| 0 <= i < d.len() && d[i].0 == a;
            assert(c[i].0 == a);
        }
    }
    if exists|i: int| 0 <= i < c.len() && c[i].0 == b {
        let i = choose|i: int| 0 <= i < c.len() && c[i].0 == b;
        assert(d[i].0 == b);
        lemma_index_unique(c, b, i);
        lemma_index_unique(d, b, i);
    } else {
        if exists|i: int| 0 <= i < d.len() && d[i].0 == b {
            let i = choose|i: int| 0 <= i < d.len() && d[i].0 == b;
            assert(c[i].0 == b);
        }
    }
}

/// Each place after the swaps.
pub proof fn lemma_apply_moved(c: Seq<(Wire, Gate)>, ps: Seq<(Wire, Wire)>, k: int)
    requires
        distinct(c),
        keys_of(ps).no_duplicates(),
        0 <= k < c.len(),
    ensures
        gate_of(c, moved(c, ps, c[k].0)) is Some,
        apply_swaps(c, ps)[k] == (c[k].0, gate_of(c, moved(c, ps, c[k].0))->0),
    decreases ps.len(),
{
    lemma_apply_keeps(c, ps);
    lemma_gate_at(c, k);
    let w = c[k].0;
    if ps.len() == 0 {
        lemma_moved_none(c, ps, w);
    } else {
        let q = ps.drop_last();
        let p = ps.last();
        let (a, b) = p;
        lemma_keys_push(q, p);
        assert(ps =~= q.push(p));
        let kq = keys_of(q);
        assert(kq.no_duplicates()) by {
            assert forall|x: int, y: int| 0 <= x < kq.len() && 0 <= y < kq.len() && x != y implies kq[x] != kq[y] by {
                assert(keys_of(ps)[x] == kq[x] && keys_of(ps)[y] == kq[y]);
            }
        }
        let d = apply_swaps(c, q);
        lemma_apply_keeps(c, q);
        lemma_swapped_keeps(d, a, b);
        lemma_swap_from_same(c, d, a, b, k);
        let k2 = swap_from(c, a, b, k);
        lemma_apply_moved(c, q, k2);
        assert(apply_swaps(c, ps) == swapped(d, a, b));
        assert(apply_swaps(c, ps)[k].1 == d[k2].1);
        let last = ps.len() - 1;
        assert(ps[last] == p);
        if swap_acts(c, p) {
            let ia = choose|i: int| 0 <= i < c.len() && c[i].0 == a;
            let ib = choose|i: int| 0 <= i < c.len() && c[i].0 == b;
            assert(c[ia].0 == a && c[ib].0 == b);
            if w == a {
                lemma_index_unique(c, a, k);
                assert(k2 == ib);
                assert(pair_has(ps[last], w));
                lemma_moved_at(c, ps, last, w);
                assert forall|j: int| 0 <= j < q.len() implies !pair_has(#[trigger] q[j], b) by {
                    if pair_has(q[j], b) {
                        assert(ps[j] == q[j]);
                        assert(pair_has(ps[last], b));
                        lemma_pair_unique(ps, j, last, b);
                    }
                }
                lemma_moved_none(c, q, b);
            } else if w == b {
                lemma_index_unique(c, b, k);
                assert(k2 == ia);
                lemma_moved_at(c, ps, last, w);
                assert forall|j: int| 0 <= j < q.len() implies !pair_has(#[trigger] q[j], a) by {
                    if pair_has(q[j], a) {
                        assert(ps[j] == q[j]);
                        assert(pair_has(ps[last], a));
                        lemma_pair_unique(ps, j, last, a);
                    }
                }
                lemma_moved_none(c, q, a);
            } else {
                if k == ia {
                    assert(c[ia].0 == a);
                }
                if k == ib {
                    assert(c[ib].0 == b);
                }
                assert(k2 == k);
                lemma_moved_tail(c, ps, w);
            }
        } else {
            assert(k2 == k);
            if pair_has(p, w) {
                lemma_moved_at(c, ps, last, w);
                assert forall|j: int| 0 <= j < q.len() implies !pair_has(#[trigger] q[j], w) by {
                    if pair_has(q[j], w) {
                        assert(ps[j] == q[j]);
                        lemma_pair_unique(ps, j, last, w);
                    }
                }
                lemma_moved_none(c, q, w);
            } else {
                lemma_moved_tail(c, ps, w);
            }
        }
    }
}

/// Swaps that are the same pairs, each in either order and with no wire twice, make the
/// same circuit whatever their order.
pub proof fn lemma_apply_same(c: Seq<(Wire, Gate)>, p: Seq<(Wire, Wire)>, q: Seq<(Wire, Wire)>)
    requires
        distinct(c),
        keys_of(p).no_duplicates(),
        keys_of(q).no_duplicates(),
        pairs_within(p, q),
        pairs_within(q, p),
    ensures
        apply_swaps(c, p) == apply_swaps(c, q),
{
    lemma_apply_keeps(c, p);
    lemma_apply_keeps(c, q);
    assert forall|k: int| 0 <= k < c.len() implies apply_swaps(c, p)[k] == apply_swaps(c, q)[k] by {
        lemma_apply_moved(c, p, k);
        lemma_apply_moved(c, q, k);
        lemma_moved_same(c, p, q, c[k].0);
    }
    assert(apply_swaps(c, p) =~= apply_swaps(c, q));
}

proof fn lemma_moved_same(c: Seq<(Wire, Gate)>, p: Seq<(Wire, Wire)>, q: Seq<(Wire, Wire)>, w: Wire)
    requires
        keys_of(p).no_duplicates(),
        keys_of(q).no_duplicates(),
        pairs_within(p, q),
        pairs_within(q, p),
    ensures
        moved(c, p, w) == moved(c, q, w),
{
    if exists|j: int| 0 <= j < p.len() && pair_has(#[trigger] p[j], w) {
        let j = choose|j: int| 0 <= j < p.len() && pair_has(#[trigger] p[j], w);
        assert(has_pair(q, p[j]));
        let l = choose|l: int| 0 <= l < q.len() && (q[l] == p[j] || q[l] == (p[j].1, p[j].0));
        assert(pair_has(q[l], w));
        lemma_moved_at(c, p, j, w);
        lemma_moved_at(c, q, l, w);
    } else {
        assert forall|l: int| 0 <= l < q.len() implies !pair_has(#[trigger] q[l], w) by {
            if pair_has(q[l], w) {
                assert(has_pair(p, q[l]));
                let j = choose|j: int| 0 <= j < p.len() && (p[j] == q[l] || p[j] == (q[l].1, q[l].0));
                assert(pair_has(p[j], w));
            }
        }
        lemma_moved_none(c, p, w);
        lemma_moved_none(c, q, w);
    }
}

/// Each wire the swaps `p` exchange, the swaps `q` exchange too, where `p`'s pairs are
/// among `q`'s.
proof fn lemma_keys_within(p: Seq<(Wire, Wire)>, q: Seq<(Wire, Wire)>, w: Wire)
    requires
        pairs_within(p, q),
        keys_of(p).contains(w),
    ensures
        keys_of(q).contains(w),
{
    lemma_key_pair(p, w);
    let j = choose|j: int| 0 <= j < p.len() && pair_has(#[trigger] p[j], w);
    assert(has_pair(q, p[j]));
    let l = choose|l: int| 0 <= l < q.len() && (q[l] == p[j] || q[l] == (p[j].1, p[j].0));
    assert(pair_has(q[l], w));
    lemma_key_pair(q, w);
}

/// Pairs among `q`'s that exchange as many wires as `q` are all of `q`'s.
pub proof fn lemma_within_back(p: Seq<(Wire, Wire)>, q: Seq<(Wire, Wire)>)
    requires
        keys_of(p).no_duplicates(),
        keys_of(q).no_duplicates(),
        pairs_within(p, q),
        keys_of(p).len() >= keys_of(q).len(),
    ensures
        pairs_within(q, p),
{
    let kp = keys_of(p).to_set();
    let kq = keys_of(q).to_set();
    keys_of(p).unique_seq_to_set();
    keys_of(q).unique_seq_to_set();
    assert(kp.subset_of(kq)) by {
        assert forall|w: Wire| kp.contains(w) implies kq.contains(w) by {
            lemma_keys_within(p, q, w);
        }
    }
    vstd::set_lib::lemma_len_subset(kp, kq);
    vstd::set_lib::lemma_subset_equality(kp, kq);
    assert forall|l: int| 0 <= l < q.len() implies has_pair(p, #[trigger] q[l]) by {
        let w = q[l].0;
        assert(pair_has(q[l], w));
        lemma_key_pair(q, w);
        assert(kq.contains(w));
        assert(kp.contains(w));
        lemma_key_pair(p, w);
        let j = choose|j: int| 0 <= j < p.len() && pair_has(#[trigger] p[j], w);
        assert(has_pair(q, p[j]));
        let l2 = choose|l2: int| 0 <= l2 < q.len() && (q[l2] == p[j] || q[l2] == (p[j].1, p[j].0));
        assert(pair_has(q[l2], w));
        lemma_pair_unique(q, l, l2, w);
    }
}

/// The swaps the search looks for: candidate pairs, at least one, no wire twice, at most
/// eight wires.
pub open spec fn swap_choice(wp: Seq<(Wire, Wire)>, ps: Seq<(Wire, Wire)>) -> bool {
    &&& ps.len() >= 1
    &&& pairs_from(ps, wp)
    &&& keys_of(ps).no_duplicates()
    &&& keys_of(ps).len() <= 8
}

/// Entry `e` of the search can still come to the swaps `t`: its swaps are among them, and
/// each other pair of `t` is a candidate at or after the entry's place.
pub open spec fn reaches(wp: Seq<(Wire, Wire)>, e: HeapEntry, t: Seq<(Wire, Wire)>) -> bool {
    &&& pairs_within(e.swaps.pairs@, t)
    &&& forall|i: int|
        0 <= i < t.len() ==> has_pair(e.swaps.pairs@, #[trigger] t[i]) || exists|k: int|
            e.wire_idx <= k < wp.len() && wp[k] == t[i]
}

/// Some entry of `work` with at least `lvl` wires swapped can still come to `t`.
pub open spec fn reached(wp: Seq<(Wire, Wire)>, work: Seq<HeapEntry>, t: Seq<(Wire, Wire)>, lvl: nat) -> bool {
    exists|l: int| 0 <= l < work.len() && reaches(wp, #[trigger] work[l], t) && keys_of(work[l].swaps.pairs@).len() >= lvl
}

/// Nothing is lost to the search: each choice of swaps is scored already or still within
/// reach of the work list, and within reach of an entry with as many wires as a seen set
/// among its swaps.
#[verifier::opaque]
pub open spec fn search_open(
    cg: Seq<(Wire, Gate)>,
    wp: Seq<(Wire, Wire)>,
    s: Scorer,
    work: Seq<HeapEntry>,
    vis: Seq<SwapSet>,
) -> bool {
    &&& forall|t: Seq<(Wire, Wire)>|
        #[trigger] swap_choice(wp, t) ==> score_of(s, apply_swaps(cg, t)) is Some || reached(wp, work, t, 0)
    &&& forall|t: Seq<(Wire, Wire)>, v: int|
        #![trigger swap_choice(wp, t), vis[v]]
        swap_choice(wp, t) && 0 <= v < vis.len() && pairs_within(vis[v].pairs@, t) ==> score_of(
            s,
            apply_swaps(cg, t),
        ) is Some || reached(wp, work, t, keys_of(vis[v].pairs@).len())
}

/// Candidate `x` was passed over from swaps `ps`: it shares a wire with them, or the swaps
/// with it were seen already.
pub open spec fn passed_over(ps: Seq<(Wire, Wire)>, x: (Wire, Wire), vis: Seq<SwapSet>) -> bool {
    ||| keys_of(ps).contains(x.0)
    ||| keys_of(ps).contains(x.1)
    ||| exists|v: int| 0 <= v < vis.len() && same_pairs(ps.push(x), #[trigger] vis[v].pairs@)
}

proof fn lemma_within_trans(p: Seq<(Wire, Wire)>, q: Seq<(Wire, Wire)>, r: Seq<(Wire, Wire)>)
    requires
        pairs_within(p, q),
        pairs_within(q, r),
    ensures
        pairs_within(p, r),
{
    assert forall|i: int| 0 <= i < p.len() implies has_pair(r, #[trigger] p[i]) by {
        let j = choose|j: int| 0 <= j < q.len() && (q[j] == p[i] || q[j] == (p[i].1, p[i].0));
        assert(has_pair(r, q[j]));
        let l = choose|l: int| 0 <= l < r.len() && (r[l] == q[j] || r[l] == (q[j].1, q[j].0));
    }
}

/// A pair of `t` outside swaps `ps` that lie among `t` shares no wire with them.
proof fn lemma_fresh_pair(ps: Seq<(Wire, Wire)>, t: Seq<(Wire, Wire)>, i: int, w: Wire)
    requires
        keys_of(t).no_duplicates(),
        pairs_within(ps, t),
        0 <= i < t.len(),
        !has_pair(ps, t[i]),
        pair_has(t[i], w),
    ensures
        !keys_of(ps).contains(w),
{
    lemma_key_pair(ps, w);
    if keys_of(ps).contains(w) {
        let j = choose|j: int| 0 <= j < ps.len() && pair_has(#[trigger] ps[j], w);
        assert(has_pair(t, ps[j]));
        let l = choose|l: int| 0 <= l < t.len() && (t[l] == ps[j] || t[l] == (ps[j].1, ps[j].0));
        assert(pair_has(t[l], w));
        lemma_pair_unique(t, i, l, w);
        assert(has_pair(ps, t[i]));
    }
}

/// The new entry from an added pair reaches every choice that holds its swaps.
proof fn lemma_child_reaches(wp: Seq<(Wire, Wire)>, e: HeapEntry, t: Seq<(Wire, Wire)>)
    requires
        swap_choice(wp, t),
        pairs_within(e.swaps.pairs@, t),
        e.wire_idx == 0,
    ensures
        reaches(wp, e, t),
{
    assert forall|i: int| 0 <= i < t.len() implies has_pair(e.swaps.pairs@, #[trigger] t[i]) || exists|k: int|
        e.wire_idx <= k < wp.len() && wp[k] == t[i] by {
        assert(wp.contains(t[i]));
    }
}

/// Each entry of `before` but the one at `bi` is still in `after`.
pub open spec fn kept_others(before: Seq<HeapEntry>, bi: int, after: Seq<HeapEntry>) -> bool {
    forall|k: int|
        #![trigger before[k]]
        0 <= k < before.len() && k != bi ==> exists|l: int| 0 <= l < after.len() && after[l] == before[k]
}

/// One step of the search, from the entry at `bi`, keeps every choice within reach.
#[verifier::spinoff_prover]
#[verifier::rlimit(50)]
proof fn lemma_step_one(
    cg: Seq<(Wire, Gate)>,
    wp: Seq<(Wire, Wire)>,
    s: Scorer,
    before: Seq<HeapEntry>,
    bi: int,
    vis0: Seq<SwapSet>,
    jf: int,
    after: Seq<HeapEntry>,
    t: Seq<(Wire, Wire)>,
    lvl: nat,
)
    requires
        distinct(cg),
        search_open(cg, wp, s, before, vis0),
        0 <= bi < before.len(),
        forall|k: int| 0 <= k < before.len() ==> entry_ok(cg, wp, s, #[trigger] before[k]),
        forall|k: int| 0 <= k < before.len() && (#[trigger] before[k]).swaps.pairs@.len() >= 1
            ==> score_of(s, apply_swaps(cg, before[k].swaps.pairs@)) is Some,
        before[bi].wire_idx <= jf <= wp.len(),
        forall|k: int| before[bi].wire_idx <= k < jf ==> passed_over(before[bi].swaps.pairs@, #[trigger] wp[k], vis0),
        kept_others(before, bi, after),
        jf < wp.len() ==> {
            let ps = before[bi].swaps.pairs@;
            let ns = ps.push(wp[jf]);
            &&& !keys_of(ps).contains(wp[jf].0)
            &&& !keys_of(ps).contains(wp[jf].1)
            &&& score_of(s, apply_swaps(cg, ns)) is Some
            &&& keys_of(ns).len() < 8 ==> exists|l: int| 0 <= l < after.len() && (#[trigger] after[l]).swaps.pairs@ == ns && after[l].wire_idx == 0
            &&& jf + 1 < wp.len() ==> exists|l: int| 0 <= l < after.len() && (#[trigger] after[l]).swaps.pairs@ == ps && after[l].wire_idx == jf + 1
        },
        swap_choice(wp, t),
        score_of(s, apply_swaps(cg, t)) is Some || reached(wp, before, t, lvl),
    ensures
        score_of(s, apply_swaps(cg, t)) is Some || reached(wp, after, t, lvl),
{
    if score_of(s, apply_swaps(cg, t)) is None {
        let l = choose|l: int| 0 <= l < before.len() && reaches(wp, #[trigger] before[l], t) && keys_of(before[l].swaps.pairs@).len() >= lvl;
        if l != bi {
            let l2 = choose|l2: int| 0 <= l2 < after.len() && after[l2] == before[l];
            assert(reaches(wp, after[l2], t));
        } else {
            let e = before[bi];
            let ps = e.swaps.pairs@;
            let i0 = e.wire_idx as int;
            assert(entry_ok(cg, wp, s, e));
            if pairs_within(t, ps) {
                lemma_apply_same(cg, ps, t);
                assert(has_pair(ps, t[0]));
            } else {
                let ia = choose|ia: int| 0 <= ia < t.len() && !has_pair(ps, #[trigger] t[ia]);
                if exists|x: int, k: int| 0 <= x < t.len() && !has_pair(ps, #[trigger] t[x]) && i0 <= k < jf && #[trigger] wp[k] == t[x] {
                    let (x, k) = choose|x: int, k: int| 0 <= x < t.len() && !has_pair(ps, #[trigger] t[x]) && i0 <= k < jf && #[trigger] wp[k] == t[x];
                    assert(passed_over(ps, wp[k], vis0));
                    lemma_fresh_pair(ps, t, x, t[x].0);
                    lemma_fresh_pair(ps, t, x, t[x].1);
                    let v = choose|v: int| 0 <= v < vis0.len() && same_pairs(ps.push(wp[k]), #[trigger] vis0[v].pairs@);
                    let nx = ps.push(wp[k]);
                    assert(pairs_within(nx, t)) by {
                        assert forall|y: int| 0 <= y < nx.len() implies has_pair(t, #[trigger] nx[y]) by {
                            if y < ps.len() {
                                assert(nx[y] == ps[y]);
                            } else {
                                assert(nx[y] == t[x]);
                            }
                        }
                    }
                    lemma_within_trans(vis0[v].pairs@, nx, t);
                    lemma_keys_push(ps, wp[k]);
                    assert(swap_choice(wp, t));
                    assert(reached(wp, before, t, keys_of(vis0[v].pairs@).len())) by {
                        reveal(search_open);
                        assert(pairs_within(vis0[v].pairs@, t));
                    }
                    let l3 = choose|l3: int| 0 <= l3 < before.len() && reaches(wp, #[trigger] before[l3], t) && keys_of(before[l3].swaps.pairs@).len() >= keys_of(vis0[v].pairs@).len();
                    assert(l3 != bi);
                    let l4 = choose|l4: int| 0 <= l4 < after.len() && after[l4] == before[l3];
                    assert(reaches(wp, after[l4], t));
                } else {
                    // Every pair of `t` outside the swaps lies at or after `jf`.
                    assert(exists|k: int| i0 <= k < wp.len() && wp[k] == t[ia]);
                    let ka = choose|k: int| i0 <= k < wp.len() && wp[k] == t[ia];
                    assert(!(i0 <= ka < jf && wp[ka] == t[ia]));
                    assert(jf < wp.len());
                    let nx = ps.push(wp[jf]);
                    if exists|x: int| 0 <= x < t.len() && !has_pair(ps, #[trigger] t[x]) && wp[jf] == t[x] {
                        let x = choose|x: int| 0 <= x < t.len() && !has_pair(ps, #[trigger] t[x]) && wp[jf] == t[x];
                        assert(pairs_within(nx, t)) by {
                            assert forall|y: int| 0 <= y < nx.len() implies has_pair(t, #[trigger] nx[y]) by {
                                if y < ps.len() {
                                    assert(nx[y] == ps[y]);
                                } else {
                                    assert(nx[y] == t[x]);
                                }
                            }
                        }
                        lemma_keys_fresh(ps, wp[jf].0, wp[jf].1);
                        assert(wp[jf] == (wp[jf].0, wp[jf].1));
                        if keys_of(nx).len() < 8 {
                            let l5 = choose|l5: int| 0 <= l5 < after.len() && (#[trigger] after[l5]).swaps.pairs@ == nx && after[l5].wire_idx == 0;
                            lemma_child_reaches(wp, after[l5], t);
                        } else {
                            lemma_within_back(nx, t);
                            lemma_apply_same(cg, nx, t);
                        }
                    } else {
                        assert(ka != jf);
                        assert(jf + 1 < wp.len());
                        let l6 = choose|l6: int| 0 <= l6 < after.len() && (#[trigger] after[l6]).swaps.pairs@ == ps && after[l6].wire_idx == jf + 1;
                        let r = after[l6];
                        assert forall|y: int| 0 <= y < t.len() implies has_pair(r.swaps.pairs@, #[trigger] t[y]) || exists|k: int|
                            r.wire_idx <= k < wp.len() && wp[k] == t[y] by {
                            if !has_pair(ps, t[y]) {
                                assert(reaches(wp, e, t));
                                let ky = choose|k: int| i0 <= k < wp.len() && wp[k] == t[y];
                                assert(!(i0 <= ky < jf && wp[ky] == t[y]));
                                assert(ky != jf);
                            }
                        }
                        assert(reaches(wp, r, t));
                    }
                }
            }
        }
    }
}

/// One step of the search, from the entry at `bi`, keeps nothing out of reach.
proof fn lemma_search_step(
    cg: Seq<(Wire, Gate)>,
    wp: Seq<(Wire, Wire)>,
    s: Scorer,
    before: Seq<HeapEntry>,
    bi: int,
    vis0: Seq<SwapSet>,
    jf: int,
    after: Seq<HeapEntry>,
    vis1: Seq<SwapSet>,
)
    requires
        distinct(cg),
        search_open(cg, wp, s, before, vis0),
        0 <= bi < before.len(),
        forall|k: int| 0 <= k < before.len() ==> entry_ok(cg, wp, s, #[trigger] before[k]),
        forall|k: int| 0 <= k < before.len() && (#[trigger] before[k]).swaps.pairs@.len() >= 1
            ==> score_of(s, apply_swaps(cg, before[k].swaps.pairs@)) is Some,
        before[bi].wire_idx <= jf <= wp.len(),
        forall|k: int| before[bi].wire_idx <= k < jf ==> passed_over(before[bi].swaps.pairs@, #[trigger] wp[k], vis0),
        kept_others(before, bi, after),
        jf < wp.len() ==> {
            let ps = before[bi].swaps.pairs@;
            let ns = ps.push(wp[jf]);
            &&& !keys_of(ps).contains(wp[jf].0)
            &&& !keys_of(ps).contains(wp[jf].1)
            &&& score_of(s, apply_swaps(cg, ns)) is Some
            &&& keys_of(ns).len() < 8 ==> exists|l: int| 0 <= l < after.len() && (#[trigger] after[l]).swaps.pairs@ == ns && after[l].wire_idx == 0
            &&& jf + 1 < wp.len() ==> exists|l: int| 0 <= l < after.len() && (#[trigger] after[l]).swaps.pairs@ == ps && after[l].wire_idx == jf + 1
        },
        vis0.len() <= vis1.len(),
        forall|v: int| 0 <= v < vis0.len() ==> vis1[v] == vis0[v],
        forall|v: int| vis0.len() <= v < vis1.len() ==> jf < wp.len() && (#[trigger] vis1[v]).pairs@ == before[bi].swaps.pairs@.push(wp[jf])
            && keys_of(vis1[v].pairs@).len() < 8,
    ensures
        search_open(cg, wp, s, after, vis1),
{
    reveal(search_open);
    assert forall|t: Seq<(Wire, Wire)>| #[trigger] swap_choice(wp, t) implies score_of(s, apply_swaps(cg, t)) is Some
        || reached(wp, after, t, 0) by {
        lemma_step_one(cg, wp, s, before, bi, vis0, jf, after, t, 0);
    }
    assert forall|t: Seq<(Wire, Wire)>, v: int|
        #![trigger swap_choice(wp, t), vis1[v]]
        swap_choice(wp, t) && 0 <= v < vis1.len() && pairs_within(vis1[v].pairs@, t) implies score_of(
            s,
            apply_swaps(cg, t),
        ) is Some || reached(wp, after, t, keys_of(vis1[v].pairs@).len()) by {
        if v < vis0.len() {
            assert(vis1[v] == vis0[v]);
            assert(swap_choice(wp, t) && vis0[v] == vis0[v]);
            lemma_step_one(cg, wp, s, before, bi, vis0, jf, after, t, keys_of(vis0[v].pairs@).len());
        } else {
            let ns = before[bi].swaps.pairs@.push(wp[jf]);
            let l = choose|l: int| 0 <= l < after.len() && (#[trigger] after[l]).swaps.pairs@ == ns && after[l].wire_idx == 0;
            lemma_child_reaches(wp, after[l], t);
        }
    }
}

/// At the start, the one entry, with no swaps, reaches every choice.
proof fn lemma_search_start(cg: Seq<(Wire, Gate)>, wp: Seq<(Wire, Wire)>, s: Scorer, work: Seq<HeapEntry>)
    requires
        work.len() == 1,
        work[0].swaps.pairs@.len() == 0,
        work[0].wire_idx == 0,
    ensures
        search_open(cg, wp, s, work, Seq::<SwapSet>::empty()),
{
    reveal(search_open);
    assert forall|t: Seq<(Wire, Wire)>| #[trigger] swap_choice(wp, t) implies score_of(s, apply_swaps(cg, t)) is Some
        || reached(wp, work, t, 0) by {
        lemma_child_reaches(wp, work[0], t);
    }
}

/// With nothing left to do, every choice was scored.
proof fn lemma_search_done(cg: Seq<(Wire, Gate)>, wp: Seq<(Wire, Wire)>, s: Scorer, vis: Seq<SwapSet>)
    requires
        search_open(cg, wp, s, Seq::<HeapEntry>::empty(), vis),
    ensures
        forall|t: Seq<(Wire, Wire)>| #[trigger] swap_choice(wp, t) ==> score_of(s, apply_swaps(cg, t)) is Some,
{
    reveal(search_open);
}

/// Swaps of pairs from candidates of two wires each exchange two wires a pair.
pub proof fn lemma_keys_even(ps: Seq<(Wire, Wire)>, wp: Seq<(Wire, Wire)>)
    requires
        pairs_from(ps, wp),
        forall|k: int| 0 <= k < wp.len() ==> (#[trigger] wp[k]).0 != wp[k].1,
    ensures
        keys_of(ps).len() == 2 * ps.len(),
    decreases ps.len(),
{
    if ps.len() > 0 {
        let q = ps.drop_last();
        assert(pairs_from(q, wp)) by {
            assert forall|k: int| 0 <= k < q.len() implies wp.contains(#[trigger] q[k]) by {
                assert(q[k] == ps[k]);
            }
        }
        lemma_keys_even(q, wp);
        assert(wp.contains(ps[ps.len() - 1]));
        let t = choose|t: int| 0 <= t < wp.len() && wp[t] == ps[ps.len() - 1];
        assert(wp[t].0 != wp[t].1);
    }
}

/// `find_fix_impl`: a best-first search, from the circuit, for swaps of candidate pairs
/// after which the scorer is content; the wires of the first such set found, in order of
/// their names and joined by commas. At most four pairs are swapped on a path of the
/// search. `empty` where the circuit needs no swap, `invalid` where none is found.
#[verifier::rlimit(100)]
#[verifier::spinoff_prover]
pub fn find_fix_impl(c: &Circuit, wire_pairs: &Vec<(Wire, Wire)>, scorer: Scorer) -> (r: String)
    requires
        c.wf(),
        can_score(scorer, c.gates@),
        forall|k: int| 0 <= k < wire_pairs@.len() ==> wire_name_ok((#[trigger] wire_pairs@[k]).0) && wire_name_ok(wire_pairs@[k].1),
    ensures
        match score_of(scorer, c.gates@) {
            None => r@ == "empty"@,
            Some(_) => {
                ||| r@ == "invalid"@ && forall|ps: Seq<(Wire, Wire)>|
                    #[trigger] swap_choice(wire_pairs@, ps) ==> score_of(scorer, apply_swaps(c.gates@, ps)) is Some
                ||| exists|ps: Seq<(Wire, Wire)>| {
                    &&& fix_found(c.gates@, wire_pairs@, scorer, ps)
                    &&& keys_of(ps).len() <= 9
                    &&& (forall|k: int| 0 <= k < wire_pairs@.len() ==> (#[trigger] wire_pairs@[k]).0 != wire_pairs@[k].1)
                        ==> ps.len() <= 4
                    &&& r@ == swaps_text(keys_of(ps))
                }
            },
        },
{
    let s0 = match score(scorer, c) {
        None => return text_of("empty"),
        Some(n) => n,
    };
    let n_pairs = wire_pairs.len();
    let ghost np = wire_pairs@.len();
    let ghost cg = c.gates@;
    let mut vis: Vec<SwapSet> = Vec::new();
    let mut work: Vec<HeapEntry> = Vec::new();
    let start = HeapEntry { score: 3 * s0, swaps: SwapSet::new(), circuit: copy_circuit(c), wire_idx: 0 };
    proof {
        assert(start.swaps.pairs@ =~= Seq::<(Wire, Wire)>::empty());
        assert(apply_swaps(cg, start.swaps.pairs@) == cg);
    }
    work.push(start);
    proof {
        lemma_search_start(cg, wire_pairs@, scorer, work@);
    }
    while work.len() > 0
        invariant
            c.wf(),
            search_open(cg, wire_pairs@, scorer, work@, vis@),
            forall|k: int| 0 <= k < work@.len() && (#[trigger] work@[k]).swaps.pairs@.len() >= 1
                ==> score_of(scorer, apply_swaps(cg, work@[k].swaps.pairs@)) is Some,
            cg == c.gates@,
            can_score(scorer, cg),
            np == wire_pairs@.len(),
            n_pairs == np,
            forall|k: int| 0 <= k < wire_pairs@.len() ==> wire_name_ok((#[trigger] wire_pairs@[k]).0) && wire_name_ok(wire_pairs@[k].1),
            forall|k: int| 0 <= k < work@.len() ==> entry_ok(cg, wire_pairs@, scorer, #[trigger] work@[k]),
            forall|k: int| 0 <= k < vis@.len() ==> (#[trigger] vis@[k]).pairs@.len() <= 1000,
            score_of(scorer, cg) is Some,
        decreases heap_weight(work@, np),
    {
        let mut bi: usize = 0;
        let mut t: usize = 1;
        while t < work.len()
            invariant
                1 <= t <= work@.len(),
                bi < work@.len(),
            decreases work@.len() - t,
        {
            if work[t].score > work[bi].score {
                bi = t;
            }
            t += 1;
        }
        let ghost before = work@;
        let e = work.remove(bi);
        proof {
            lemma_heap_remove(before, bi as int, np);
            assert(entry_ok(cg, wire_pairs@, scorer, e));
            assert forall|k: int| 0 <= k < work@.len() implies entry_ok(cg, wire_pairs@, scorer, #[trigger] work@[k]) by {
                if k < bi {
                    assert(work@[k] == before[k]);
                } else {
                    assert(work@[k] == before[k + 1]);
                }
            }
            lemma_keys_len(e.swaps.pairs@);
        }
        let mut j: usize = e.wire_idx;
        let mut found: Option<SwapSet> = None;
        while j < wire_pairs.len()
            invariant_except_break
                found is None,
            invariant
                e.wire_idx <= j <= wire_pairs@.len(),
                e.swaps.pairs@.len() < 8,
                forall|k: int| 0 <= k < vis@.len() ==> (#[trigger] vis@[k]).pairs@.len() <= 1000,
                forall|k: int| e.wire_idx <= k < j ==> passed_over(e.swaps.pairs@, #[trigger] wire_pairs@[k], vis@),
            ensures
                found is None ==> j == wire_pairs@.len(),
                found matches Some(ns) ==> j < wire_pairs@.len() && !keys_of(e.swaps.pairs@).contains(wire_pairs@[j as int].0)
                    && !keys_of(e.swaps.pairs@).contains(wire_pairs@[j as int].1) && ns.pairs@ == e.swaps.pairs@.push(
                    wire_pairs@[j as int],
                ),
            decreases wire_pairs@.len() - j,
        {
            let (a, b) = wire_pairs[j];
            match e.swaps.with(a, b) {
                Some(ns) => {
                    if !seen_swaps(&vis, &ns) {
                        found = Some(ns);
                        break;
                    }
                    proof {
                        let v = choose|v: int| 0 <= v < vis@.len() && same_pairs(ns.pairs@, #[trigger] vis@[v].pairs@);
                        assert(wire_pairs@[j as int] == (a, b));
                        assert(same_pairs(e.swaps.pairs@.push(wire_pairs@[j as int]), vis@[v].pairs@));
                    }
                },
                None => {
                    assert(wire_pairs@[j as int] == (a, b));
                },
            }
            j += 1;
        }
        match found {
            Some(ns) => {
                assert(j < wire_pairs@.len());
                let jn = j + 1;
                let (a, b) = wire_pairs[j];
                let ghost ps = ns.pairs@;
                proof {
                    lemma_keys_fresh(e.swaps.pairs@, a, b);
                    assert(ps.drop_last() =~= e.swaps.pairs@);
                    assert(pairs_from(ps, wire_pairs@)) by {
                        assert forall|k: int| 0 <= k < ps.len() implies wire_pairs@.contains(#[trigger] ps[k]) by {
                            if k < ps.len() - 1 {
                                assert(ps[k] == e.swaps.pairs@[k]);
                            } else {
                                assert(wire_pairs@[j as int] == ps[k]);
                            }
                        }
                    }
                    lemma_apply_keeps(cg, ps);
                    lemma_keys_len(ps);
                }
                let mut cc = copy_circuit(&e.circuit);
                cc.swap(a, b);
                assert(cc.gates@ == apply_swaps(cg, ps));
                let ghost vis0 = vis@;
                match score(scorer, &cc) {
                    None => {
                        let ws = ns.wires();
                        proof {
                            lemma_keys_named(ps, wire_pairs@);
                            assert(fix_found(cg, wire_pairs@, scorer, ps));
                            lemma_keys_push(e.swaps.pairs@, (a, b));
                            if forall|k: int| 0 <= k < wire_pairs@.len() ==> (#[trigger] wire_pairs@[k]).0 != wire_pairs@[k].1 {
                                lemma_keys_even(ps, wire_pairs@);
                                lemma_keys_even(e.swaps.pairs@, wire_pairs@);
                            }
                        }
                        return names_string(&ws);
                    },
                    Some(n) => {
                        let nlen = ns.len();
                        let new_score: usize = if n > 0 {
                            if 3 * n >= nlen {
                                3 * n - nlen
                            } else {
                                0
                            }
                        } else {
                            0
                        };
                        let ghost mid = work@;
                        let ghost l = keys_of(e.swaps.pairs@).len();
                        let ghost l2 = keys_of(ps).len();
                        let ghost l3: nat = if l2 < 8 { l2 } else { 8 };
                        if nlen < 8 {
                            let ns2 = SwapSet { pairs: copy_pairs(&ns.pairs) };
                            let ne = HeapEntry { score: new_score, swaps: ns2, circuit: cc, wire_idx: 0 };
                            proof {
                                lemma_heap_push(work@, ne, np);
                            }
                            work.push(ne);
                            vis.push(ns);
                        }
                        let ghost mid2 = work@;
                        if jn < wire_pairs.len() {
                            let re = HeapEntry { score: e.score, swaps: e.swaps, circuit: e.circuit, wire_idx: jn };
                            proof {
                                lemma_heap_push(work@, re, np);
                            }
                            work.push(re);
                        }
                        proof {
                            assert(kept_others(before, bi as int, work@)) by {
                                assert forall|k: int| 0 <= k < before.len() && k != bi implies exists|l: int| 0 <= l < work@.len() && work@[l] == #[trigger] before[k] by {
                                    if k < bi {
                                        assert(mid[k] == before[k]);
                                        assert(work@[k] == mid[k]);
                                    } else {
                                        assert(mid[k - 1] == before[k]);
                                        assert(work@[k - 1] == mid[k - 1]);
                                    }
                                }
                            }
                            if nlen < 8 {
                                assert(work@[mid.len() as int].swaps.pairs@ == ps);
                                assert(vis@ == vis0.push(ns));
                            } else {
                                assert(vis@ == vis0);
                            }
                            if jn < wire_pairs.len() {
                                assert(work@[work@.len() - 1].swaps.pairs@ == e.swaps.pairs@);
                                assert(work@[work@.len() - 1].wire_idx == j + 1);
                            }
                            assert(wire_pairs@[j as int] == (a, b));
                            assert(c.wf());
                            lemma_search_step(cg, wire_pairs@, scorer, before, bi as int, vis0, j as int, work@, vis@);
                            assert forall|k: int| 0 <= k < work@.len() && (#[trigger] work@[k]).swaps.pairs@.len() >= 1
                                implies score_of(scorer, apply_swaps(cg, work@[k].swaps.pairs@)) is Some by {
                                if k < mid.len() {
                                    assert(work@[k] == mid[k]);
                                    if k < bi {
                                        assert(mid[k] == before[k]);
                                    } else {
                                        assert(mid[k] == before[k + 1]);
                                    }
                                } else if k < mid2.len() {
                                } else {
                                    assert(e == before[bi as int]);
                                }
                            }
                            lemma_weight_step(np, e.wire_idx as nat, j as nat, l, l3);
                            lemma_pw_pos(np + 2, (8 - l3) as nat);
                            lemma_pw_pos(np + 2, (8 - l) as nat);
                            assert forall|k: int| 0 <= k < work@.len() implies entry_ok(cg, wire_pairs@, scorer, #[trigger] work@[k]) by {
                                if k < mid.len() {
                                    assert(work@[k] == mid[k]);
                                } else if k < mid2.len() {
                                    assert(work@[k] == mid2[k]);
                                }
                            }
                            assert(heap_weight(work@, np) < heap_weight(before, np)) by (nonlinear_arith)
                                requires
                                    heap_weight(mid, np) + entry_weight(e, np) == heap_weight(before, np),
                                    heap_weight(mid2, np) <= heap_weight(mid, np) + (np + 1) * pw(np + 2, (8 - l3) as nat),
                                    heap_weight(work@, np) <= heap_weight(mid2, np) + (np - j) * pw(np + 2, (8 - l) as nat),
                                    entry_weight(e, np) == ((np + 1 - e.wire_idx) as nat) * pw(np + 2, (8 - l) as nat),
                                    (np - j) * pw(np + 2, (8 - l) as nat) + (np + 1) * pw(np + 2, (8 - l3) as nat) < ((np + 1 - e.wire_idx) as nat) * pw(np + 2, (8 - l) as nat),
                            ;
                        }
                    },
                }
            },
            None => {
                proof {
                    assert(kept_others(before, bi as int, work@)) by {
                        assert forall|k: int| 0 <= k < before.len() && k != bi implies exists|l: int| 0 <= l < work@.len() && work@[l] == #[trigger] before[k] by {
                            if k < bi {
                                assert(work@[k] == before[k]);
                            } else {
                                assert(work@[k - 1] == before[k]);
                            }
                        }
                    }
                    lemma_search_step(cg, wire_pairs@, scorer, before, bi as int, vis@, j as int, work@, vis@);
                    assert forall|k: int| 0 <= k < work@.len() && (#[trigger] work@[k]).swaps.pairs@.len() >= 1
                        implies score_of(scorer, apply_swaps(cg, work@[k].swaps.pairs@)) is Some by {
                        if k < bi {
                            assert(work@[k] == before[k]);
                        } else {
                            assert(work@[k] == before[k + 1]);
                        }
                    }
                    lemma_pw_pos(np + 2, (8 - keys_of(e.swaps.pairs@).len()) as nat);
                    assert(entry_weight(e, np) >= 1) by (nonlinear_arith)
                        requires
                            entry_weight(e, np) == ((np + 1 - e.wire_idx) as nat) * pw(np + 2, (8 - keys_of(e.swaps.pairs@).len()) as nat),
                            e.wire_idx <= np,
                            pw(np + 2, (8 - keys_of(e.swaps.pairs@).len()) as nat) >= 1,
                    ;
                }
            },
        }
    }
    proof {
        assert(work@ =~= Seq::<HeapEntry>::empty());
        lemma_search_done(cg, wire_pairs@, scorer, vis@);
    }
    text_of("invalid")
}


/// `p` is a pair of wires that gates drive, the first before the second in the list.
pub open spec fn driven_pair(c: Seq<(Wire, Gate)>, p: (Wire, Wire)) -> bool {
    exists|i: int, j: int| 0 <= i < j < c.len() && p == (#[trigger] c[i].0, #[trigger] c[j].0)
}

/// The pairs so far of a walk over the pairs of places, up to place pair `(a, b)`.
pub open spec fn pair_before(c: Seq<(Wire, Gate)>, p: (Wire, Wire), a: int, b: int) -> bool {
    exists|i: int, j: int| 0 <= i < j < c.len() && (i < a || (i == a && j < b)) && p == (#[trigger] c[i].0, #[trigger] c[j].0)
}

/// `wire_pairs`: every pair of wires that gates drive, each once.
pub fn wire_pairs(c: &Circuit) -> (r: Vec<(Wire, Wire)>)
    ensures
        forall|p: (Wire, Wire)| #[trigger] r@.contains(p) == driven_pair(c.gates@, p),
{
    let n = c.gates.len();
    let ghost g = c.gates@;
    let mut r: Vec<(Wire, Wire)> = Vec::new();
    let mut a: usize = 0;
    while a < n
        invariant
            n == g.len(),
            g == c.gates@,
            a <= n,
            forall|p: (Wire, Wire)| #[trigger] r@.contains(p) == pair_before(g, p, a as int, 0),
        decreases n - a,
    {
        let mut b: usize = a + 1;
        proof {
            assert forall|p: (Wire, Wire)| #[trigger] r@.contains(p) == pair_before(g, p, a as int, b as int) by {
                if pair_before(g, p, a as int, b as int) {
                    let (i, j) = choose|i: int, j: int| 0 <= i < j < g.len() && (i < a || (i == a && j < b)) && p == (#[trigger] g[i].0, #[trigger] g[j].0);
                    assert(pair_before(g, p, a as int, 0));
                }
                if pair_before(g, p, a as int, 0) {
                    let (i, j) = choose|i: int, j: int| 0 <= i < j < g.len() && (i < a || (i == a && j < 0)) && p == (#[trigger] g[i].0, #[trigger] g[j].0);
                    assert(pair_before(g, p, a as int, b as int));
                }
            }
        }
        while b < n
            invariant
                n == g.len(),
                g == c.gates@,
                a < n,
                a + 1 <= b <= n,
                forall|p: (Wire, Wire)| #[trigger] r@.contains(p) == pair_before(g, p, a as int, b as int),
            decreases n - b,
        {
            let p = (c.gates[a].0, c.gates[b].0);
            let ghost before = r@;
            r.push(p);
            proof {
                assert forall|q: (Wire, Wire)| #[trigger] r@.contains(q) == pair_before(g, q, a as int, b + 1) by {
                    if r@.contains(q) {
                        let k = choose|k: int| 0 <= k < r@.len() && r@[k] == q;
                        if k < before.len() {
                            assert(before[k] == q);
                            assert(before.contains(q));
                            let (i, j) = choose|i: int, j: int| 0 <= i < j < g.len() && (i < a || (i == a && j < b)) && q == (#[trigger] g[i].0, #[trigger] g[j].0);
                            assert(pair_before(g, q, a as int, b + 1));
                        } else {
                            assert(q == (g[a as int].0, g[b as int].0));
                            assert(pair_before(g, q, a as int, b + 1));
                        }
                    }
                    if pair_before(g, q, a as int, b + 1) {
                        let (i, j) = choose|i: int, j: int| 0 <= i < j < g.len() && (i < a || (i == a && j < b + 1)) && q == (#[trigger] g[i].0, #[trigger] g[j].0);
                        if i == a && j == b {
                            assert(r@[before.len() as int] == q);
                        } else {
                            assert(pair_before(g, q, a as int, b as int));
                            assert(before.contains(q));
                            let k = choose|k: int| 0 <= k < before.len() && before[k] == q;
                            assert(r@[k] == q);
                        }
                    }
                }
            }
            b += 1;
        }
        proof {
            assert forall|p: (Wire, Wire)| #[trigger] r@.contains(p) == pair_before(g, p, a + 1, 0) by {
                if pair_before(g, p, a as int, b as int) {
                    let (i, j) = choose|i: int, j: int| 0 <= i < j < g.len() && (i < a || (i == a && j < b)) && p == (#[trigger] g[i].0, #[trigger] g[j].0);
                    assert(pair_before(g, p, a + 1, 0));
                }
                if pair_before(g, p, a + 1, 0) {
                    let (i, j) = choose|i: int, j: int| 0 <= i < j < g.len() && (i < a + 1 || (i == a + 1 && j < 0)) && p == (#[trigger] g[i].0, #[trigger] g[j].0);
                    assert(pair_before(g, p, a as int, b as int));
                }
            }
        }
        a += 1;
    }
    proof {
        assert forall|p: (Wire, Wire)| #[trigger] r@.contains(p) == driven_pair(g, p) by {
            if driven_pair(g, p) {
                let (i, j) = choose|i: int, j: int| 0 <= i < j < g.len() && p == (#[trigger] g[i].0, #[trigger] g[j].0);
                assert(pair_before(g, p, a as int, 0));
            }
            if pair_before(g, p, a as int, 0) {
                let (i, j) = choose|i: int, j: int| 0 <= i < j < g.len() && (i < a || (i == a && j < 0)) && p == (#[trigger] g[i].0, #[trigger] g[j].0);
                assert(driven_pair(g, p));
            }
        }
    }
    r
}

/// Swaps of pairs of driven wires, no wire in two of them, after which the circuit does
/// what the scorer asks.
pub open spec fn fix_of(c: Seq<(Wire, Gate)>, s: Scorer, ps: Seq<(Wire, Wire)>) -> bool {
    &&& ps.len() >= 1
    &&& forall|k: int| 0 <= k < ps.len() ==> driven_pair(c, #[trigger] ps[k])
    &&& keys_of(ps).no_duplicates()
    &&& score_of(s, apply_swaps(c, ps)) is None
}

/// `find_fix`: a search for at most four swaps of pairs of driven wires after which the
/// scorer is content; the wires of the first set found, in order of their names and joined
/// by commas. `empty` where the circuit needs no swap, `invalid` where no such swaps exist.
pub fn find_fix(c: &Circuit, scorer: Scorer) -> (r: String)
    requires
        c.wf(),
        names_ok(c.gates@),
        can_score(scorer, c.gates@),
    ensures
        match score_of(scorer, c.gates@) {
            None => r@ == "empty"@,
            Some(_) => {
                ||| r@ == "invalid"@ && forall|ps: Seq<(Wire, Wire)>| #[trigger] fix_of(c.gates@, scorer, ps) ==> ps.len() > 4
                ||| exists|ps: Seq<(Wire, Wire)>| fix_of(c.gates@, scorer, ps) && ps.len() <= 4 && r@ == swaps_text(keys_of(ps))
            },
        },
{
    let wp = wire_pairs(c);
    proof {
        assert forall|k: int| 0 <= k < wp@.len() implies wire_name_ok((#[trigger] wp@[k]).0) && wire_name_ok(wp@[k].1) by {
            assert(wp@.contains(wp@[k]));
            let (i, j) = choose|i: int, j: int| 0 <= i < j < c.gates@.len() && wp@[k] == (#[trigger] c.gates@[i].0, #[trigger] c.gates@[j].0);
            assert(name_char(c.gates@[i].0.c0) && name_char(c.gates@[i].0.c1) && name_char(c.gates@[i].0.c2));
            assert(name_char(c.gates@[j].0.c0) && name_char(c.gates@[j].0.c1) && name_char(c.gates@[j].0.c2));
        }
    }
    let r = find_fix_impl(c, &wp, scorer);
    proof {
        assert forall|k: int| 0 <= k < wp@.len() implies (#[trigger] wp@[k]).0 != wp@[k].1 by {
            assert(wp@.contains(wp@[k]));
            let (i, j) = choose|i: int, j: int| 0 <= i < j < c.gates@.len() && wp@[k] == (#[trigger] c.gates@[i].0, #[trigger] c.gates@[j].0);
        }
        if score_of(scorer, c.gates@) is Some {
            if exists|ps: Seq<(Wire, Wire)>| {
                &&& fix_found(c.gates@, wp@, scorer, ps)
                &&& keys_of(ps).len() <= 9
                &&& (forall|k: int| 0 <= k < wp@.len() ==> (#[trigger] wp@[k]).0 != wp@[k].1) ==> ps.len() <= 4
                &&& r@ == swaps_text(keys_of(ps))
            } {
                let ps = choose|ps: Seq<(Wire, Wire)>| {
                    &&& fix_found(c.gates@, wp@, scorer, ps)
                    &&& keys_of(ps).len() <= 9
                    &&& (forall|k: int| 0 <= k < wp@.len() ==> (#[trigger] wp@[k]).0 != wp@[k].1) ==> ps.len() <= 4
                    &&& r@ == swaps_text(keys_of(ps))
                };
                assert forall|k: int| 0 <= k < ps.len() implies driven_pair(c.gates@, #[trigger] ps[k]) by {
                    assert(wp@.contains(ps[k]));
                }
                assert(fix_of(c.gates@, scorer, ps));
            } else {
                assert forall|ps: Seq<(Wire, Wire)>| #[trigger] fix_of(c.gates@, scorer, ps) implies ps.len() > 4 by {
                    assert(pairs_from(ps, wp@)) by {
                        assert forall|k: int| 0 <= k < ps.len() implies wp@.contains(#[trigger] ps[k]) by {
                            assert(driven_pair(c.gates@, ps[k]));
                        }
                    }
                    lemma_keys_len(ps);
                    if ps.len() <= 4 {
                        assert(swap_choice(wp@, ps));
                    }
                }
            }
        }
    }
    r
}

/// A wire that a gate is found for is driven.
proof fn lemma_found_driven(c: Seq<(Wire, Gate)>, op: Op, a: Wire, b: Wire)
    requires
        find_gate_in(c, op, a, b) is Some,
    ensures
        gate_of(c, find_gate_in(c, op, a, b)->0) is Some,
{
    if exists|i: int| first_with(c, Gate { op, a, b }, i) {
        let i = choose|i: int| first_with(c, Gate { op, a, b }, i);
        assert(0 <= i < c.len() && c[i].0 == find_gate_in(c, op, a, b)->0);
    } else {
        let i = choose|i: int| first_with(c, Gate { op, a: b, b: a }, i);
        assert(0 <= i < c.len() && c[i].0 == find_gate_in(c, op, a, b)->0);
    }
}

/// An output bit driven by its first carry is reported swapped with the sum gate of its
/// bit: where `x_i XOR y_i` drives `s0`, `x_i AND y_i` drives `z_i` itself, `s0 XOR carry`
/// drives another wire `w`, and once the gates of `w` and `z_i` are exchanged the rest of
/// the bit's adder is there (`s0 XOR carry` driving `z_i`, the second carry `s0 AND carry`,
/// and the carry out, the `OR` of `w` and the second carry), the analysis of bit `i`
/// exchanges `w` and `z_i`, notes both, and finds the adder, with `w` as the first carry
/// and `z_i` as the sum.
pub proof fn law_output_carry_swapped(
    st: (Seq<(Wire, Gate)>, Seq<Wire>),
    bit: int,
    carry: Wire,
    s0: Wire,
    w: Wire,
    c1: Wire,
    ci: Wire,
)
    requires
        find_gate_in(st.0, Op::Xor, Wire::spec_named(120u8, bit), Wire::spec_named(121u8, bit)) == Some(s0),
        find_gate_in(st.0, Op::And, Wire::spec_named(120u8, bit), Wire::spec_named(121u8, bit)) == Some(
            Wire::spec_named(122u8, bit),
        ),
        find_gate_in(st.0, Op::Xor, s0, carry) == Some(w),
        w != Wire::spec_named(122u8, bit),
        find_gate_in(swapped(st.0, w, Wire::spec_named(122u8, bit)), Op::Xor, s0, carry) == Some(
            Wire::spec_named(122u8, bit),
        ),
        find_gate_in(swapped(st.0, w, Wire::spec_named(122u8, bit)), Op::And, s0, carry) == Some(c1),
        find_gate_in(swapped(st.0, w, Wire::spec_named(122u8, bit)), Op::Or, w, c1) == Some(ci),
    ensures
        full_adder(st, bit, carry) == (
            (swapped(st.0, w, Wire::spec_named(122u8, bit)), st.1.push(w).push(Wire::spec_named(122u8, bit))),
            Some(FullAdder { s0, c0: w, c1, si: Wire::spec_named(122u8, bit), ci }),
        ),
{
    let zi = Wire::spec_named(122u8, bit);
    let xi = Wire::spec_named(120u8, bit);
    let yi = Wire::spec_named(121u8, bit);
    lemma_found_driven(st.0, Op::Xor, s0, carry);
    lemma_found_driven(st.0, Op::And, xi, yi);
    let st2 = (swapped(st.0, w, zi), st.1.push(w).push(zi));
    assert(swap_st(st, w, zi) == st2);
    assert(step2(st2, bit, carry, s0, w) == (st2, Some(FullAdder { s0, c0: w, c1, si: zi, ci })));
    assert(adder_rest(st2, bit, carry, s0, w) == (st2, Some(FullAdder { s0, c0: w, c1, si: zi, ci })));
}

/// A bit whose adder is whole is found as it stands: where `x_i XOR y_i` drives `s0`,
/// `x_i AND y_i` drives `c0` (not `z_i`), `s0 XOR carry` drives `z_i`, `s0 AND carry` drives
/// `c1` and `c0 OR c1` drives `ci`, the analysis of bit `i` swaps nothing and finds that
/// adder.
pub proof fn law_adder_whole(
    st: (Seq<(Wire, Gate)>, Seq<Wire>),
    bit: int,
    carry: Wire,
    s0: Wire,
    c0: Wire,
    c1: Wire,
    ci: Wire,
)
    requires
        find_gate_in(st.0, Op::Xor, Wire::spec_named(120u8, bit), Wire::spec_named(121u8, bit)) == Some(s0),
        find_gate_in(st.0, Op::And, Wire::spec_named(120u8, bit), Wire::spec_named(121u8, bit)) == Some(c0),
        c0 != Wire::spec_named(122u8, bit),
        find_gate_in(st.0, Op::Xor, s0, carry) == Some(Wire::spec_named(122u8, bit)),
        find_gate_in(st.0, Op::And, s0, carry) == Some(c1),
        find_gate_in(st.0, Op::Or, c0, c1) == Some(ci),
    ensures
        full_adder(st, bit, carry) == (st, Some(FullAdder { s0, c0, c1, si: Wire::spec_named(122u8, bit), ci })),
{
}

/// An output bit not driven by its sum gate is reported swapped with it: where `x_i XOR y_i`
/// drives `s0`, `x_i AND y_i` drives `c0` (not `z_i`), `s0 XOR carry` drives another wire
/// `w`, and once the gates of `w` and `z_i` are exchanged `s0 AND carry` drives `c1` and
/// `c0 OR c1` drives `ci`, the analysis of bit `i` exchanges `w` and `z_i`, notes both, and
/// finds the adder with `z_i` as its sum.
pub proof fn law_sum_swapped(
    st: (Seq<(Wire, Gate)>, Seq<Wire>),
    bit: int,
    carry: Wire,
    s0: Wire,
    c0: Wire,
    w: Wire,
    c1: Wire,
    ci: Wire,
)
    requires
        find_gate_in(st.0, Op::Xor, Wire::spec_named(120u8, bit), Wire::spec_named(121u8, bit)) == Some(s0),
        find_gate_in(st.0, Op::And, Wire::spec_named(120u8, bit), Wire::spec_named(121u8, bit)) == Some(c0),
        c0 != Wire::spec_named(122u8, bit),
        gate_of(st.0, Wire::spec_named(122u8, bit)) is Some,
        find_gate_in(st.0, Op::Xor, s0, carry) == Some(w),
        w != Wire::spec_named(122u8, bit),
        find_gate_in(swapped(st.0, w, Wire::spec_named(122u8, bit)), Op::And, s0, carry) == Some(c1),
        find_gate_in(swapped(st.0, w, Wire::spec_named(122u8, bit)), Op::Or, c0, c1) == Some(ci),
    ensures
        full_adder(st, bit, carry) == (
            (swapped(st.0, w, Wire::spec_named(122u8, bit)), st.1.push(w).push(Wire::spec_named(122u8, bit))),
            Some(FullAdder { s0, c0, c1, si: Wire::spec_named(122u8, bit), ci }),
        ),
{
    let zi = Wire::spec_named(122u8, bit);
    lemma_found_driven(st.0, Op::Xor, s0, carry);
    let st2 = (swapped(st.0, w, zi), st.1.push(w).push(zi));
    assert(swap_st(st, w, zi) == st2);
    assert(step2(st, bit, carry, s0, c0) == (st2, Some(FullAdder { s0, c0, c1, si: zi, ci })));
}

/// A bit whose half sum and first carry wires are crossed is reported with those two
/// swapped: where `x_i XOR y_i` drives `s0` and `x_i AND y_i` drives `c0` (not `z_i`), no
/// gate `s0 XOR carry` is there but `c0 XOR carry` drives `z_i`, `c0 AND carry` drives `c1`
/// and `s0 OR c1` drives `ci`, the analysis of bit `i` exchanges `s0` and `c0`, notes both,
/// and finds the adder with their parts exchanged.
pub proof fn law_half_sum_crossed(
    st: (Seq<(Wire, Gate)>, Seq<Wire>),
    bit: int,
    carry: Wire,
    s0: Wire,
    c0: Wire,
    c1: Wire,
    ci: Wire,
)
    requires
        find_gate_in(st.0, Op::Xor, Wire::spec_named(120u8, bit), Wire::spec_named(121u8, bit)) == Some(s0),
        find_gate_in(st.0, Op::And, Wire::spec_named(120u8, bit), Wire::spec_named(121u8, bit)) == Some(c0),
        c0 != Wire::spec_named(122u8, bit),
        find_gate_in(st.0, Op::Xor, s0, carry) is None,
        find_gate_in(st.0, Op::Xor, c0, carry) == Some(Wire::spec_named(122u8, bit)),
        find_gate_in(st.0, Op::And, c0, carry) == Some(c1),
        find_gate_in(st.0, Op::Or, s0, c1) == Some(ci),
    ensures
        full_adder(st, bit, carry) == (
            (swapped(st.0, s0, c0), st.1.push(s0).push(c0)),
            Some(FullAdder { s0: c0, c0: s0, c1, si: Wire::spec_named(122u8, bit), ci }),
        ),
{
    let xi = Wire::spec_named(120u8, bit);
    let yi = Wire::spec_named(121u8, bit);
    lemma_found_driven(st.0, Op::Xor, xi, yi);
    lemma_found_driven(st.0, Op::And, xi, yi);
    assert(swap_st(st, s0, c0) == (swapped(st.0, s0, c0), st.1.push(s0).push(c0)));
}

} // verus!
