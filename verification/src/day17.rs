//! A three-bit computer: its instructions, a run of a program, and a search for
//! the register value that makes a program print itself.

use vstd::prelude::*;
use vstd::arithmetic::power2::pow2;
use vstd::string::*;
use std::collections::VecDeque;
use crate::error::AocError;
use crate::text::{
    dec, digit_char, digit_str, lines, lines_of, parse_u64, push_dec, push_str, split, split_on,
    split_once, split_once_byte, trim, trim_bytes, unsigned_in, views,
};

verus! {

pub type Register = u64;

/// The instruction pointer and the three registers.
#[derive(Debug, Clone, Copy, PartialEq, Eq, Structural)]
pub struct CpuState {
    pub ip: usize,
    pub a: Register,
    pub b: Register,
    pub c: Register,
}

/// An instruction with its operand.
#[derive(Debug, Clone, Copy, PartialEq, Eq, Structural)]
pub enum Op {
    Adv(u8),
    Bxl(u8),
    Bst(u8),
    Jnz(u8),
    Bxc,
    Out(u8),
    Bdv(u8),
    Cdv(u8),
}

impl CpuState {
    /// A machine at the start of a program with `a` in register A.
    pub fn new_a(a: Register) -> (r: Self)
        ensures
            r == (CpuState { ip: 0, a, b: 0, c: 0 }),
    {
        CpuState { ip: 0, a, b: 0, c: 0 }
    }

    /// The instruction at the instruction pointer, if two program bytes are there and the
    /// first is an opcode.
    pub open spec fn spec_op(self, prog: Seq<u8>) -> Option<Op> {
        if prog.len() < self.ip + 2 {
            None
        } else {
            let v = prog[self.ip + 1];
            let c = prog[self.ip as int];
            if c == 0 {
                Some(Op::Adv(v))
            } else if c == 1 {
                Some(Op::Bxl(v))
            } else if c == 2 {
                Some(Op::Bst(v))
            } else if c == 3 {
                Some(Op::Jnz(v))
            } else if c == 4 {
                Some(Op::Bxc)
            } else if c == 5 {
                Some(Op::Out(v))
            } else if c == 6 {
                Some(Op::Bdv(v))
            } else if c == 7 {
                Some(Op::Cdv(v))
            } else {
                None
            }
        }
    }

    pub fn op(&self, prog: &[u8]) -> (r: Option<Op>)
        ensures
            r == self.spec_op(prog@),
    {
        if prog.len() < 2 || self.ip > prog.len() - 2 {
            return None;
        }
        let c = prog[self.ip];
        let v = prog[self.ip + 1];
        if c == 0 {
            Some(Op::Adv(v))
        } else if c == 1 {
            Some(Op::Bxl(v))
        } else if c == 2 {
            Some(Op::Bst(v))
        } else if c == 3 {
            Some(Op::Jnz(v))
        } else if c == 4 {
            Some(Op::Bxc)
        } else if c == 5 {
            Some(Op::Out(v))
        } else if c == 6 {
            Some(Op::Bdv(v))
        } else if c == 7 {
            Some(Op::Cdv(v))
        } else {
            None
        }
    }

    /// The value of a combo operand.
    pub open spec fn spec_combo(self, v: u8) -> Register {
        if v <= 3 {
            v as Register
        } else if v == 4 {
            self.a
        } else if v == 5 {
            self.b
        } else if v == 6 {
            self.c
        } else {
            0
        }
    }

    pub fn combo(self, v: u8) -> (r: Register)
        ensures
            r == self.spec_combo(v),
    {
        if v <= 3 {
            v as Register
        } else if v == 4 {
            self.a
        } else if v == 5 {
            self.b
        } else if v == 6 {
            self.c
        } else {
            0
        }
    }

    /// The instruction runs without a fault: no shift by 64 or more, and the instruction
    /// pointer does not pass `usize::MAX`.
    pub open spec fn exec_ok(self, op: Op) -> bool {
        &&& self.ip + 2 <= usize::MAX
        &&& match op {
            Op::Adv(x) => self.spec_combo(x) < 64,
            Op::Bdv(x) => self.spec_combo(x) < 64,
            Op::Cdv(x) => self.spec_combo(x) < 64,
            _ => true,
        }
    }

    /// The machine after the instruction, and the digit it prints, if any.
    pub open spec fn spec_exec(self, op: Op) -> (CpuState, Option<u8>) {
        let next = (self.ip + 2) as usize;
        match op {
            Op::Adv(x) => (CpuState { a: self.a >> self.spec_combo(x), ip: next, ..self }, None),
            Op::Bxl(x) => (CpuState { b: self.b ^ (x as Register), ip: next, ..self }, None),
            Op::Bst(x) => (CpuState { b: self.spec_combo(x) & 7, ip: next, ..self }, None),
            Op::Jnz(x) => if self.a != 0 {
                (CpuState { ip: x as usize, ..self }, None)
            } else {
                (CpuState { ip: next, ..self }, None)
            },
            Op::Bxc => (CpuState { b: self.b ^ self.c, ip: next, ..self }, None),
            Op::Out(x) => (CpuState { ip: next, ..self }, Some((self.spec_combo(x) & 7) as u8)),
            Op::Bdv(x) => (CpuState { b: self.a >> self.spec_combo(x), ip: next, ..self }, None),
            Op::Cdv(x) => (CpuState { c: self.a >> self.spec_combo(x), ip: next, ..self }, None),
        }
    }

    /// Runs one instruction; returns the digit it prints, if any.
    pub fn exec(&mut self, op: Op) -> (r: Option<u8>)
        requires
            old(self).exec_ok(op),
        ensures
            (*final(self), r) == old(self).spec_exec(op),
            r matches Some(d) ==> d < 8,
    {
        match op {
            Op::Adv(x) => {
                let s = self.combo(x);
                self.a = self.a >> s;
                self.ip += 2;
            },
            Op::Bxl(x) => {
                self.b = self.b ^ (x as Register);
                self.ip += 2;
            },
            Op::Bst(x) => {
                self.b = self.combo(x) & 7;
                self.ip += 2;
            },
            Op::Jnz(x) => {
                if self.a != 0 {
                    self.ip = x as usize;
                } else {
                    self.ip += 2;
                }
            },
            Op::Bxc => {
                self.b = self.b ^ self.c;
                self.ip += 2;
            },
            Op::Out(x) => {
                self.ip += 2;
                let d = self.combo(x) & 7;
                let ghost cv = self.spec_combo(x);
                assert(d < 8) by (bit_vector)
                    requires d == cv & 7;
                return Some(d as u8);
            },
            Op::Bdv(x) => {
                let s = self.combo(x);
                self.b = self.a >> s;
                self.ip += 2;
            },
            Op::Cdv(x) => {
                let s = self.combo(x);
                self.c = self.a >> s;
                self.ip += 2;
            },
        }
        None
    }
}

/// The printed digit as a sequence of zero or one digits.
pub open spec fn out_seq(o: Option<u8>) -> Seq<u8> {
    match o {
        Some(d) => seq![d],
        None => seq![],
    }
}

/// The machine and what it printed after `n` instructions, or fewer where it halts first;
/// `None` where an instruction faults.
pub open spec fn run_steps(cpu: CpuState, prog: Seq<u8>, n: nat) -> Option<(CpuState, Seq<u8>)>
    decreases n,
{
    if n == 0 {
        Some((cpu, seq![]))
    } else {
        match cpu.spec_op(prog) {
            None => Some((cpu, seq![])),
            Some(op) => if !cpu.exec_ok(op) {
                None
            } else {
                let (c2, o) = cpu.spec_exec(op);
                match run_steps(c2, prog, (n - 1) as nat) {
                    None => None,
                    Some((c3, outs)) => Some((c3, out_seq(o) + outs)),
                }
            },
        }
    }
}

/// The program halts without a fault within `n` instructions.
pub open spec fn halts_within(cpu: CpuState, prog: Seq<u8>, n: nat) -> bool {
    match run_steps(cpu, prog, n) {
        Some((c, _)) => c.spec_op(prog) is None,
        None => false,
    }
}

pub open spec fn halts(cpu: CpuState, prog: Seq<u8>) -> bool {
    exists|n: nat| halts_within(cpu, prog, n)
}

/// The digits a halting program prints.
pub open spec fn output(cpu: CpuState, prog: Seq<u8>) -> Seq<u8> {
    let n = choose|n: nat| halts_within(cpu, prog, n);
    run_steps(cpu, prog, n).unwrap().1
}

/// Digits separated by commas.
pub open spec fn join_digits(o: Seq<u8>) -> Seq<char>
    decreases o.len(),
{
    if o.len() == 0 {
        seq![]
    } else if o.len() == 1 {
        seq![digit_char(o[0] as nat)]
    } else {
        join_digits(o.drop_last()) + seq![','] + seq![digit_char(o.last() as nat)]
    }
}

/// A run that has halted stays where it is.
pub proof fn lemma_halted_steps(cpu: CpuState, prog: Seq<u8>, n: nat)
    requires
        cpu.spec_op(prog) is None,
    ensures
        run_steps(cpu, prog, n) == Some((cpu, Seq::<u8>::empty())),
    decreases n,
{
}

/// Runs a program to its end and returns the digits it prints, separated by commas.
pub fn run1(cpu: &CpuState, prog: &[u8]) -> (r: String)
    requires
        halts(*cpu, prog@),
    ensures
        r@ == join_digits(output(*cpu, prog@)),
{
    let ghost n = choose|n: nat| halts_within(*cpu, prog@, n);
    let mut cur = *cpu;
    let mut r = String::new();
    let mut any = false;
    let ghost mut k: nat = 0;
    let ghost mut outs: Seq<u8> = seq![];
    proof {
        assert(r@ =~= join_digits(outs));
    }
    loop
        invariant
            halts_within(*cpu, prog@, n),
            k <= n,
            run_steps(*cpu, prog@, n) == (match run_steps(cur, prog@, (n - k) as nat) {
                Some((c, o)) => Some((c, outs + o)),
                None => None,
            }),
            forall|i: int| 0 <= i < outs.len() ==> outs[i] < 8,
            r@ == join_digits(outs),
            any == (outs.len() > 0),
        ensures
            cur.spec_op(prog@) is None,
        decreases n - k,
    {
        let op = match cur.op(prog) {
            Some(op) => op,
            None => {
                break;
            },
        };
        proof {
            if k == n {
                assert(run_steps(cur, prog@, 0) == Some((cur, Seq::<u8>::empty())));
                assert(false);
            }
        }
        let ghost before = cur;
        let d = cur.exec(op);
        proof {
            let m = (n - k - 1) as nat;
            assert(run_steps(before, prog@, (n - k) as nat) == (match run_steps(cur, prog@, m) {
                Some((c3, o3)) => Some((c3, out_seq(d) + o3)),
                None => None,
            }));
        }
        if let Some(d) = d {
            proof { reveal_strlit(","); }
            if any {
                push_str(&mut r, ",");
            }
            any = true;
            push_str(&mut r, digit_str(d));
            proof {
                assert(d < 8);
                let no = outs.push(d);
                assert(no.drop_last() =~= outs);
                if outs.len() == 0 {
                    assert(r@ =~= join_digits(no));
                } else {
                    assert(r@ =~= join_digits(no));
                }
                assert(outs + out_seq(Some(d)) =~= no);
                outs = no;
            }
        } else {
            assert(outs + out_seq(None) =~= outs);
        }
        proof {
            k = k + 1;
        }
    }
    proof {
        lemma_halted_steps(cur, prog@, (n - k) as nat);
        assert(outs + Seq::<u8>::empty() =~= outs);
    }
    r
}


/// The text after the first `:` of a line, trimmed, where the line has a `:`.
pub open spec fn colon_field(l: Seq<u8>) -> Option<Seq<u8>> {
    match split_once(l, 58u8) {
        Some((_, r)) => Some(trim(r)),
        None => None,
    }
}

/// The fields after `:` of the lines that have one.
pub open spec fn colon_fields(s: Seq<u8>) -> Seq<Seq<u8>> {
    lines_of(s).filter_map(|l: Seq<u8>| colon_field(l))
}

/// The program bytes in a comma-separated field, where each is a number below 256.
pub open spec fn program_of(f: Seq<u8>) -> Option<Seq<u8>> {
    let parts = split_on(f, 44u8);
    if forall|i: int| 0 <= i < parts.len() ==> unsigned_in(#[trigger] parts[i], 255) is Some {
        Some(Seq::new(parts.len(), |i: int| unsigned_in(parts[i], 255).unwrap() as u8))
    } else {
        None
    }
}

/// The machine and program that the puzzle text describes: registers A, B and C and the
/// program, the first four lines with a `:`.
pub open spec fn puzzle_of(s: Seq<u8>) -> Option<(CpuState, Seq<u8>)> {
    let f = colon_fields(s);
    if f.len() < 4 {
        None
    } else {
        match (
            unsigned_in(f[0], u64::MAX as int),
            unsigned_in(f[1], u64::MAX as int),
            unsigned_in(f[2], u64::MAX as int),
            program_of(f[3]),
        ) {
            (Some(a), Some(b), Some(c), Some(p)) => Some(
                (CpuState { ip: 0, a: a as u64, b: b as u64, c: c as u64 }, p),
            ),
            _ => None,
        }
    }
}

fn colon_fields_exec(input: &[u8]) -> (r: Vec<Vec<u8>>)
    ensures
        views(r@) == lines_of(input@).filter_map(|l: Seq<u8>| colon_field(l)),
{
    let ls = lines(input);
    let ghost sl = lines_of(input@);
    let ghost f = |l: Seq<u8>| colon_field(l);
    let mut r: Vec<Vec<u8>> = Vec::new();
    let mut i: usize = 0;
    assert(sl.take(0).filter_map(f) =~= Seq::<Seq<u8>>::empty());
    while i < ls.len()
        invariant
            sl == lines_of(input@),
            f == (|l: Seq<u8>| colon_field(l)),
            views(ls@) == sl,
            i <= sl.len(),
            views(r@) == sl.take(i as int).filter_map(f),
        decreases sl.len() - i,
    {
        let ghost t = sl.take(i + 1);
        assert(t.drop_last() =~= sl.take(i as int));
        assert(ls@[i as int]@ == sl[i as int]);
        match split_once_byte(ls[i].as_slice(), 58u8) {
            Some((_, rest)) => {
                let v = trim_bytes(rest.as_slice());
                let ghost before = r@;
                r.push(v);
                assert(views(r@) =~= views(before) + seq![v@]);
            },
            None => {},
        }
        i += 1;
    }
    assert(sl.take(sl.len() as int) =~= sl);
    r
}

fn parse_u8_field(s: &[u8]) -> (r: Option<u8>)
    ensures
        r == (match unsigned_in(s@, 255) {
            Some(v) => Some(v as u8),
            None => None,
        }),
{
    match parse_u64(s) {
        Some(v) => if v <= 255 { Some(v as u8) } else { None },
        None => None,
    }
}

/// Reads the registers and the program.
pub fn parse_input(input: &str) -> (r: Result<(CpuState, Vec<u8>), AocError>)
    ensures
        match r {
            Ok((cpu, prog)) => puzzle_of(input.spec_bytes()) == Some((cpu, prog@)),
            Err(e) => puzzle_of(input.spec_bytes()) is None && e == AocError::InvalidInput,
        },
{
    let f = colon_fields_exec(input.as_bytes());
    if f.len() < 4 {
        return Err(AocError::InvalidInput);
    }
    assert(f@[0]@ == views(f@)[0] && f@[1]@ == views(f@)[1] && f@[2]@ == views(f@)[2]
        && f@[3]@ == views(f@)[3]);
    let a = match parse_u64(f[0].as_slice()) {
        Some(v) => v,
        None => {
            return Err(AocError::InvalidInput);
        },
    };
    let b = match parse_u64(f[1].as_slice()) {
        Some(v) => v,
        None => {
            return Err(AocError::InvalidInput);
        },
    };
    let c = match parse_u64(f[2].as_slice()) {
        Some(v) => v,
        None => {
            return Err(AocError::InvalidInput);
        },
    };
    let parts = split(f[3].as_slice(), 44u8);
    let ghost sp = split_on(f@[3]@, 44u8);
    let mut prog: Vec<u8> = Vec::new();
    let mut i: usize = 0;
    while i < parts.len()
        invariant
            views(f@) == colon_fields(input.spec_bytes()),
            f@.len() >= 4,
            sp == split_on(f@[3]@, 44u8),
            unsigned_in(f@[0]@, u64::MAX as int) == Some(a as nat),
            unsigned_in(f@[1]@, u64::MAX as int) == Some(b as nat),
            unsigned_in(f@[2]@, u64::MAX as int) == Some(c as nat),
            views(parts@) == sp,
            i <= sp.len(),
            prog@.len() == i,
            forall|k: int| 0 <= k < i ==> unsigned_in(#[trigger] sp[k], 255) is Some,
            forall|k: int| 0 <= k < i ==> #[trigger] prog@[k] == unsigned_in(sp[k], 255).unwrap() as u8,
        decreases sp.len() - i,
    {
        assert(parts@[i as int]@ == sp[i as int]);
        match parse_u8_field(parts[i].as_slice()) {
            Some(v) => {
                prog.push(v);
            },
            None => {
                assert(unsigned_in(sp[i as int], 255) is None);
                assert(program_of(f@[3]@) is None);
                return Err(AocError::InvalidInput);
            },
        }
        i += 1;
    }
    assert(prog@ =~= program_of(f@[3]@).unwrap());
    Ok((CpuState { ip: 0, a, b, c }, prog))
}


/// Printed digits packed three bits each, the first digit lowest.
pub open spec fn pack_digits(o: Seq<u8>) -> u64
    decreases o.len(),
{
    if o.len() == 0 {
        0
    } else {
        pack_digits(o.drop_last()) | ((o.last() as u64) << (((o.len() - 1) * 3) as u64))
    }
}

/// The program packed three bits per byte, the first byte lowest.
pub open spec fn prog_bits(p: Seq<u8>) -> u64
    decreases p.len(),
{
    if p.len() == 0 {
        0
    } else {
        ((prog_bits(p.drop_first()) << 3u64) | (p[0] as u64)) as u64
    }
}

/// What a run from `a` prints, packed, and how many digits it prints.
pub open spec fn oct_spec(a: Register, prog: Seq<u8>) -> (u64, nat) {
    let o = output(CpuState { ip: 0, a, b: 0, c: 0 }, prog);
    (pack_digits(o), o.len())
}

/// A run from `a` halts and prints at most 21 digits.
pub open spec fn oct_ok(a: Register, prog: Seq<u8>) -> bool {
    let cpu = CpuState { ip: 0, a, b: 0, c: 0 };
    halts(cpu, prog) && output(cpu, prog).len() <= 21
}

/// Runs the program from register A = `a` and packs what it prints.
pub fn oct(a: Register, prog: &[u8]) -> (r: (u64, usize))
    requires
        oct_ok(a, prog@),
    ensures
        r.0 == oct_spec(a, prog@).0,
        r.1 as nat == oct_spec(a, prog@).1,
{
    let ghost cpu0 = CpuState { ip: 0, a, b: 0, c: 0 };
    let ghost n = choose|n: nat| halts_within(cpu0, prog@, n);
    let mut cpu = CpuState::new_a(a);
    let mut r: u64 = 0;
    let mut digits: usize = 0;
    let ghost mut k: nat = 0;
    let ghost mut outs: Seq<u8> = seq![];
    loop
        invariant
            halts_within(cpu0, prog@, n),
            output(cpu0, prog@).len() <= 21,
            k <= n,
            run_steps(cpu0, prog@, n) == (match run_steps(cpu, prog@, (n - k) as nat) {
                Some((c, o)) => Some((c, outs + o)),
                None => None,
            }),
            digits == outs.len(),
            digits <= 21,
            r == pack_digits(outs),
        ensures
            cpu.spec_op(prog@) is None,
            run_steps(cpu0, prog@, n) == (match run_steps(cpu, prog@, (n - k) as nat) {
                Some((c, o)) => Some((c, outs + o)),
                None => None,
            }),
            digits == outs.len(),
            r == pack_digits(outs),
        decreases n - k,
    {
        let op = match cpu.op(prog) {
            Some(op) => op,
            None => {
                break;
            },
        };
        proof {
            if k == n {
                assert(run_steps(cpu, prog@, 0) == Some((cpu, Seq::<u8>::empty())));
                assert(false);
            }
        }
        let ghost before = cpu;
        let d = cpu.exec(op);
        proof {
            let m = (n - k - 1) as nat;
            assert(run_steps(before, prog@, (n - k) as nat) == (match run_steps(cpu, prog@, m) {
                Some((c3, o3)) => Some((c3, out_seq(d) + o3)),
                None => None,
            }));
        }
        if let Some(d) = d {
            proof {
                let m = (n - k - 1) as nat;
                assert(run_steps(cpu0, prog@, n) == (match run_steps(cpu, prog@, m) {
                    Some((c, o)) => Some((c, outs.push(d) + o)),
                    None => None,
                })) by {
                    match run_steps(cpu, prog@, m) {
                        Some((c3, o3)) => {
                            assert(outs + (out_seq(Some(d)) + o3) =~= outs.push(d) + o3);
                        },
                        None => {},
                    }
                }
                lemma_output_prefix(cpu, prog@, m, outs.push(d), cpu0, n);
                assert(outs + out_seq(Some(d)) =~= outs.push(d));
            }
            r = r | ((d as u64) << ((digits * 3) as u64));
            proof {
                let no = outs.push(d);
                assert(no.drop_last() =~= outs);
                outs = no;
            }
            digits += 1;
        } else {
            assert(outs + out_seq(None) =~= outs);
        }
        proof {
            k = k + 1;
        }
    }
    proof {
        lemma_halted_steps(cpu, prog@, (n - k) as nat);
        assert(outs + Seq::<u8>::empty() =~= outs);
    }
    (r, digits)
}

/// Digits printed so far are a prefix of what the whole run prints.
proof fn lemma_output_prefix(
    cpu: CpuState,
    prog: Seq<u8>,
    m: nat,
    outs: Seq<u8>,
    cpu0: CpuState,
    n: nat,
)
    requires
        run_steps(cpu0, prog, n) == (match run_steps(cpu, prog, m) {
            Some((c, o)) => Some((c, outs + o)),
            None => None,
        }),
        halts_within(cpu0, prog, n),
        output(cpu0, prog).len() <= 21,
    ensures
        outs.len() <= 21,
{
    let n2 = choose|n2: nat| halts_within(cpu0, prog, n2);
    lemma_halts_output_unique(cpu0, prog, n, n2);
}

/// Every step count at which a run has halted gives the same output.
pub proof fn lemma_halts_output_unique(cpu: CpuState, prog: Seq<u8>, n1: nat, n2: nat)
    requires
        halts_within(cpu, prog, n1),
        halts_within(cpu, prog, n2),
    ensures
        run_steps(cpu, prog, n1) == run_steps(cpu, prog, n2),
    decreases n1 + n2,
{
    if n1 == 0 || n2 == 0 {
        if n1 != 0 {
            lemma_halted_steps(cpu, prog, n1);
        }
        if n2 != 0 {
            lemma_halted_steps(cpu, prog, n2);
        }
    } else {
        match cpu.spec_op(prog) {
            None => {},
            Some(op) => {
                let (c2, o) = cpu.spec_exec(op);
                lemma_halts_output_unique(c2, prog, (n1 - 1) as nat, (n2 - 1) as nat);
            },
        }
    }
}


/// A candidate for register A in the search, with the bit it may set next and the printed
/// bits that must already match the program.
#[derive(Debug, Clone, Copy, PartialEq, Eq, Structural)]
pub struct Node {
    pub a: Register,
    pub update_mask: Register,
    pub check_mask: Register,
}

/// The mask of the bits that hold the whole program.
pub open spec fn prog_mask(p: Seq<u8>) -> u64 {
    ((1u64 << ((p.len() * 3) as u64)) - 1) as u64
}

/// The run from the candidate prints exactly the program.
pub open spec fn node_found(n: Node, p: Seq<u8>) -> bool {
    let (bits, len) = oct_spec(n.a, p);
    len == p.len() && (bits & prog_mask(p)) == prog_bits(p)
}

/// The run from the candidate prints the program on the checked bits.
pub open spec fn node_passes(n: Node, p: Seq<u8>) -> bool {
    let (bits, len) = oct_spec(n.a, p);
    ((bits ^ prog_bits(p)) & n.check_mask) == 0
}

/// The two candidates that follow one that passes: with the next bit clear and set.
pub open spec fn children(n: Node) -> Seq<Node> {
    let um = (n.update_mask << 1u64) as u64;
    let cm = ((n.check_mask << 1u64) | 1) as u64;
    seq![
        Node { a: n.a, update_mask: um, check_mask: cm },
        Node { a: n.a | n.update_mask, update_mask: um, check_mask: cm },
    ]
}

/// The breadth-first search over candidates from the queue `q`, run for at most `fuel`
/// candidates: `Some(Some(a))` where it finds `a`, `Some(None)` where the queue runs out,
/// `None` where the fuel runs out first.
pub open spec fn search(q: Seq<Node>, p: Seq<u8>, fuel: nat) -> Option<Option<Register>>
    decreases fuel,
{
    if q.len() == 0 {
        Some(None)
    } else if fuel == 0 {
        None
    } else {
        let n = q[0];
        if node_found(n, p) {
            Some(Some(n.a))
        } else if node_passes(n, p) {
            search(q.drop_first() + children(n), p, (fuel - 1) as nat)
        } else {
            search(q.drop_first(), p, (fuel - 1) as nat)
        }
    }
}

/// The first candidates: every value of the low twelve bits.
pub open spec fn initial_queue() -> Seq<Node> {
    Seq::new(4096, |i: int| Node { a: i as u64, update_mask: 4096, check_mask: 1 })
}

pub proof fn lemma_search_fuel(q: Seq<Node>, p: Seq<u8>, f1: nat, f2: nat)
    requires
        search(q, p, f1) is Some,
        f1 <= f2,
    ensures
        search(q, p, f2) == search(q, p, f1),
    decreases f1,
{
    if q.len() > 0 && f1 > 0 {
        let n = q[0];
        if !node_found(n, p) {
            if node_passes(n, p) {
                lemma_search_fuel(q.drop_first() + children(n), p, (f1 - 1) as nat, (f2 - 1) as nat);
            } else {
                lemma_search_fuel(q.drop_first(), p, (f1 - 1) as nat, (f2 - 1) as nat);
            }
        }
    }
}

/// The search ends: the program halts from every register value with at most 21 digits,
/// is at most 21 bytes long, and the search finds a value or runs out of candidates.
pub open spec fn run2_ok(p: Seq<u8>) -> bool {
    &&& p.len() <= 21
    &&& forall|a: Register| oct_ok(a, p)
    &&& exists|fuel: nat| search(initial_queue(), p, fuel) is Some
}

/// What the search ends with.
pub open spec fn run2_result(p: Seq<u8>) -> Option<Register> {
    let fuel = choose|fuel: nat| search(initial_queue(), p, fuel) is Some;
    search(initial_queue(), p, fuel).unwrap()
}

/// Every digit of `s` is below eight.
pub open spec fn octal(s: Seq<u8>) -> bool {
    forall|i: int| 0 <= i < s.len() ==> #[trigger] s[i] < 8
}

/// A run prints only digits below eight.
pub proof fn lemma_run_octal(cpu: CpuState, prog: Seq<u8>, n: nat)
    ensures
        run_steps(cpu, prog, n) matches Some((c, o)) ==> octal(o),
    decreases n,
{
    if n > 0 {
        match cpu.spec_op(prog) {
            None => {},
            Some(op) => {
                if cpu.exec_ok(op) {
                    let (c2, o) = cpu.spec_exec(op);
                    lemma_run_octal(c2, prog, (n - 1) as nat);
                    match op {
                        Op::Out(x) => {
                            let v = cpu.spec_combo(x);
                            assert((v & 7) < 8) by (bit_vector);
                        },
                        _ => {},
                    }
                    match run_steps(c2, prog, (n - 1) as nat) {
                        Some((c3, outs)) => {
                            let all = out_seq(o) + outs;
                            assert forall|i: int| 0 <= i < all.len() implies #[trigger] all[i] < 8 by {
                                if i >= out_seq(o).len() {
                                    assert(all[i] == outs[i - out_seq(o).len()]);
                                }
                            }
                        },
                        None => {},
                    }
                }
            },
        }
    }
}

/// A digit added after the others lands three bits further up for each of them.
proof fn lemma_prog_bits_push(s: Seq<u8>, x: u8)
    requires
        octal(s),
        x < 8,
        s.len() <= 20,
    ensures
        prog_bits(s) < (1u64 << ((s.len() * 3) as u64)),
        prog_bits(s.push(x)) == prog_bits(s) | ((x as u64) << ((s.len() * 3) as u64)),
    decreases s.len(),
{
    if s.len() == 0 {
        assert(s.push(x).drop_first() =~= s);
        let xx = x as u64;
        assert(((0u64 << 3u64) | xx) == (0u64 | (xx << 0u64))) by (bit_vector);
        assert(0u64 < (1u64 << 0u64)) by (bit_vector);
    } else {
        let t = s.drop_first();
        assert(octal(t)) by {
            assert forall|i: int| 0 <= i < t.len() implies #[trigger] t[i] < 8 by {
                assert(t[i] == s[i + 1]);
            }
        }
        lemma_prog_bits_push(t, x);
        assert(s.push(x).drop_first() =~= t.push(x));
        assert(s.push(x)[0] == s[0]);
        let a = prog_bits(t);
        let k = (t.len() * 3) as u64;
        let y = s[0] as u64;
        let xx = x as u64;
        assert(s[0] < 8);
        assert(k <= 57);
        assert(((a | (xx << k)) << 3u64) | y == ((a << 3u64) | y) | (xx << (k + 3) as u64)) by (bit_vector)
            requires a < (1u64 << k), xx < 8, y < 8, k <= 57;
        assert(((a << 3u64) | y) < (1u64 << (k + 3) as u64)) by (bit_vector)
            requires a < (1u64 << k), y < 8, k <= 57;
        assert((s.len() * 3) as u64 == (k + 3) as u64);
    }
}

/// The digits packed by position read the same as the program packed: three bits each, the
/// first lowest.
proof fn lemma_pack_is_prog_bits(o: Seq<u8>)
    requires
        octal(o),
        o.len() <= 21,
    ensures
        pack_digits(o) == prog_bits(o),
        prog_bits(o) < (1u64 << ((o.len() * 3) as u64)),
    decreases o.len(),
{
    if o.len() == 0 {
        assert(0u64 < (1u64 << 0u64)) by (bit_vector);
    } else {
        let s = o.drop_last();
        assert(octal(s)) by {
            assert forall|i: int| 0 <= i < s.len() implies #[trigger] s[i] < 8 by {
                assert(s[i] == o[i]);
            }
        }
        lemma_pack_is_prog_bits(s);
        assert(o == s.push(o.last()));
        assert(o[o.len() - 1] < 8);
        lemma_prog_bits_push(s, o.last());
        if o.len() < 21 {
            lemma_prog_bits_push(o, 0);
        } else {
            let a = prog_bits(o);
            assert(a < (1u64 << 63u64)) by {
                let b = prog_bits(s);
                let xx = o.last() as u64;
                assert((b | (xx << 60u64)) < (1u64 << 63u64)) by (bit_vector)
                    requires b < (1u64 << 60u64), xx < 8;
            }
        }
    }
}

/// Digits below eight are read back from their packing: equal packings of as many digits
/// are the same digits.
proof fn lemma_prog_bits_inj(s: Seq<u8>, t: Seq<u8>)
    requires
        octal(s),
        octal(t),
        s.len() == t.len(),
        s.len() <= 21,
        prog_bits(s) == prog_bits(t),
    ensures
        s == t,
    decreases s.len(),
{
    if s.len() > 0 {
        let s1 = s.drop_first();
        let t1 = t.drop_first();
        assert(octal(s1)) by {
            assert forall|i: int| 0 <= i < s1.len() implies #[trigger] s1[i] < 8 by {
                assert(s1[i] == s[i + 1]);
            }
        }
        assert(octal(t1)) by {
            assert forall|i: int| 0 <= i < t1.len() implies #[trigger] t1[i] < 8 by {
                assert(t1[i] == t[i + 1]);
            }
        }
        lemma_pack_is_prog_bits(s1);
        lemma_pack_is_prog_bits(t1);
        let a = prog_bits(s1);
        let b = prog_bits(t1);
        let x = s[0] as u64;
        let y = t[0] as u64;
        assert(s[0] < 8 && t[0] < 8);
        assert(a < (1u64 << 60u64) && b < (1u64 << 60u64)) by {
            let k = (s1.len() * 3) as u64;
            assert(k <= 60);
            assert(a < (1u64 << 60u64) && b < (1u64 << 60u64)) by (bit_vector)
                requires a < (1u64 << k), b < (1u64 << k), k <= 60;
        }
        assert(a == b && x == y) by (bit_vector)
            requires ((a << 3u64) | x) == ((b << 3u64) | y), a < (1u64 << 60u64), b < (1u64 << 60u64), x < 8, y < 8;
        lemma_prog_bits_inj(s1, t1);
        assert(s =~= seq![s[0]] + s1);
        assert(t =~= seq![t[0]] + t1);
    }
}

/// What the search finds is a register from which the program prints itself exactly.
pub proof fn lemma_search_prints_itself(q: Seq<Node>, p: Seq<u8>, fuel: nat)
    requires
        octal(p),
        p.len() <= 21,
        forall|a: Register| oct_ok(a, p),
        search(q, p, fuel) matches Some(Some(a)),
    ensures
        search(q, p, fuel) matches Some(Some(a)) && output(CpuState { ip: 0, a, b: 0, c: 0 }, p) == p,
    decreases fuel,
{
    let n = q[0];
    if node_found(n, p) {
        let cpu = CpuState { ip: 0, a: n.a, b: 0, c: 0 };
        let o = output(cpu, p);
        let m = choose|m: nat| halts_within(cpu, p, m);
        assert(oct_ok(n.a, p));
        lemma_run_octal(cpu, p, m);
        assert(octal(o));
        lemma_pack_is_prog_bits(o);
        lemma_pack_is_prog_bits(p);
        let bits = pack_digits(o);
        let sh = (p.len() * 3) as u64;
        assert(bits & (((1u64 << sh) - 1) as u64) == bits) by (bit_vector)
            requires bits < (1u64 << sh), sh <= 63;
        lemma_prog_bits_inj(o, p);
    } else if node_passes(n, p) {
        lemma_search_prints_itself(q.drop_first() + children(n), p, (fuel - 1) as nat);
    } else {
        lemma_search_prints_itself(q.drop_first(), p, (fuel - 1) as nat);
    }
}

/// The register the search ends with, where it finds one, makes a program of digits below
/// eight print itself exactly.
pub proof fn lemma_run2_prints_itself(p: Seq<u8>)
    requires
        run2_ok(p),
        octal(p),
    ensures
        run2_result(p) matches Some(a) ==> output(CpuState { ip: 0, a, b: 0, c: 0 }, p) == p,
{
    let fuel = choose|fuel: nat| search(initial_queue(), p, fuel) is Some;
    if run2_result(p) is Some {
        lemma_search_prints_itself(initial_queue(), p, fuel);
    }
}

fn prog_bits_exec(prog: &[u8]) -> (r: u64)
    ensures
        r == prog_bits(prog@),
{
    let mut acc: u64 = 0;
    let mut i = prog.len();
    assert(prog@.skip(i as int) =~= Seq::<u8>::empty());
    while i > 0
        invariant
            i <= prog@.len(),
            acc == prog_bits(prog@.skip(i as int)),
        decreases i,
    {
        i -= 1;
        assert(prog@.skip(i as int).drop_first() =~= prog@.skip(i + 1));
        acc = (acc << 3u64) | (prog[i] as u64);
    }
    assert(prog@.skip(0) =~= prog@);
    acc
}

/// Looks for the least register A value, in breadth-first order over its bits, from which
/// the program prints itself; returns it in decimal, or `failed`.
pub fn run2_impl(prog: &[u8]) -> (r: String)
    requires
        run2_ok(prog@),
    ensures
        r@ == run2_text(prog@),
        octal(prog@) ==> (run2_result(prog@) matches Some(a) ==> output(CpuState { ip: 0, a, b: 0, c: 0 }, prog@) == prog@),
{
    proof {
        if octal(prog@) {
            lemma_run2_prints_itself(prog@);
        }
    }
    let ghost fuel = choose|fuel: nat| search(initial_queue(), prog@, fuel) is Some;
    let pb = prog_bits_exec(prog);
    assert(prog@.len() <= 21);
    let sh = (prog.len() * 3) as u64;
    assert((1u64 << sh) >= 1) by (bit_vector)
        requires sh < 64;
    let mask: u64 = (1u64 << sh) - 1;
    let mut work: VecDeque<Node> = VecDeque::new();
    let mut a: u64 = 0;
    while a < 4096
        invariant
            a <= 4096,
            work@ == initial_queue().take(a as int),
        decreases 4096 - a,
    {
        work.push_back(Node { a, update_mask: 4096, check_mask: 1 });
        a += 1;
        assert(work@ =~= initial_queue().take(a as int));
    }
    assert(initial_queue().take(4096) =~= initial_queue());
    let ghost mut k: nat = 0;
    loop
        invariant
            run2_ok(prog@),
            fuel == choose|fuel: nat| search(initial_queue(), prog@, fuel) is Some,
            search(initial_queue(), prog@, fuel) is Some,
            pb == prog_bits(prog@),
            mask == prog_mask(prog@),
            k <= fuel,
            search(work@, prog@, (fuel - k) as nat) == search(initial_queue(), prog@, fuel),
        decreases fuel - k,
    {
        let ghost q = work@;
        let n = match work.pop_front() {
            Some(n) => n,
            None => {
                proof { lemma_search_fuel(initial_queue(), prog@, fuel, fuel); }
                proof { reveal_strlit("failed"); }
                return String::from_str("failed");
            },
        };
        proof {
            assert(q[0] == n && q.drop_first() =~= work@);
            if k == fuel {
                assert(false);
            }
        }
        let (bits, len) = oct(n.a, prog);
        if len == prog.len() && (bits & mask) == pb {
            let mut s = String::new();
            push_dec(&mut s, n.a);
            proof {
                if octal(prog@) {
                    lemma_run2_prints_itself(prog@);
                }
            }
            return s;
        }
        if ((bits ^ pb) & n.check_mask) == 0 {
            let a1 = n.a | n.update_mask;
            let update_mask = n.update_mask << 1u64;
            let check_mask = (n.check_mask << 1u64) | 1;
            let ghost before = work@;
            work.push_back(Node { a: n.a, update_mask, check_mask });
            work.push_back(Node { a: a1, update_mask, check_mask });
            assert(work@ =~= before + children(n));
        }
        proof {
            k = k + 1;
        }
    }
}


/// The search's answer as text.
pub open spec fn run2_text(p: Seq<u8>) -> Seq<char> {
    match run2_result(p) {
        Some(a) => dec(a as nat),
        None => "failed"@,
    }
}

/// Both answers for the puzzle text: what the program prints, and the register value
/// from which it prints itself; where the text describes a program that halts and a
/// search that ends.
pub fn run(input: &str) -> (r: Result<String, AocError>)
    requires
        puzzle_of(input.spec_bytes()) matches Some((cpu, p)) ==> halts(cpu, p) && run2_ok(p),
    ensures
        match r {
            Ok(out) => puzzle_of(input.spec_bytes()) matches Some((cpu, p)) && out@ == join_digits(
                output(cpu, p),
            ) + " "@ + run2_text(p),
            Err(e) => puzzle_of(input.spec_bytes()) is None && e == AocError::InvalidInput,
        },
{
    let (cpu, prog) = parse_input(input)?;
    let mut out = run1(&cpu, prog.as_slice());
    let s2 = run2_impl(prog.as_slice());
    proof { reveal_strlit(" "); }
    push_str(&mut out, " ");
    push_str(&mut out, s2.as_str());
    Ok(out)
}

/// What one instruction does, as the puzzle defines it, read from the program at the
/// instruction pointer, with the combo operand 0 to 3 itself, 4 register A, 5 B and 6 C:
/// `adv` (0), `bdv` (6) and `cdv` (7) put A divided by two to the power of the combo
/// operand into A, B and C respectively and leave the other registers; `bxl` (1) puts B
/// xor the literal operand into B; `bst` (2) puts the combo operand modulo 8 into B; `jnz`
/// (3) jumps to the literal operand where A is not zero; `bxc` (4) puts B xor C into B;
/// `out` (5) prints the combo operand modulo 8. Every instruction but a taken jump moves
/// on by two.
pub proof fn law_instruction(cpu: CpuState, prog: Seq<u8>)
    requires
        cpu.spec_op(prog) matches Some(op) && cpu.exec_ok(op),
    ensures
        ({
            let code = prog[cpu.ip as int];
            let v = prog[cpu.ip + 1];
            let k: u64 = if v <= 3 {
                v as u64
            } else if v == 4 {
                cpu.a
            } else if v == 5 {
                cpu.b
            } else if v == 6 {
                cpu.c
            } else {
                0
            };
            let (n, out) = cpu.spec_exec(cpu.spec_op(prog)->0);
            let same_abc = n.a == cpu.a && n.b == cpu.b && n.c == cpu.c;
            let moved_on = n.ip == cpu.ip + 2;
            &&& code == 0 ==> n.a == cpu.a as nat / pow2(k as nat) && n.b == cpu.b && n.c == cpu.c && moved_on && out is None
            &&& code == 6 ==> n.b == cpu.a as nat / pow2(k as nat) && n.a == cpu.a && n.c == cpu.c && moved_on && out is None
            &&& code == 7 ==> n.c == cpu.a as nat / pow2(k as nat) && n.a == cpu.a && n.b == cpu.b && moved_on && out is None
            &&& code == 1 ==> n.b == cpu.b ^ (v as u64) && n.a == cpu.a && n.c == cpu.c && moved_on && out is None
            &&& code == 2 ==> n.b == k % 8 && n.a == cpu.a && n.c == cpu.c && moved_on && out is None
            &&& code == 3 ==> same_abc && n.ip == (if cpu.a != 0 { v as int } else { cpu.ip + 2 }) && out is None
            &&& code == 4 ==> n.b == cpu.b ^ cpu.c && n.a == cpu.a && n.c == cpu.c && moved_on && out is None
            &&& code == 5 ==> same_abc && moved_on && out == Some((k % 8) as u8)
        }),
{
    let op = cpu.spec_op(prog)->0;
    let v = prog[cpu.ip + 1];
    let k = cpu.spec_combo(v);
    assert(k & 7 == k % 8) by (bit_vector);
    match op {
        Op::Adv(x) => {
            vstd::bits::lemma_u64_shr_is_div(cpu.a, k);
        },
        Op::Bdv(x) => {
            vstd::bits::lemma_u64_shr_is_div(cpu.a, k);
        },
        Op::Cdv(x) => {
            vstd::bits::lemma_u64_shr_is_div(cpu.a, k);
        },
        _ => {},
    }
}

} // verus!
