//! Keypad conundrum: robots type a door code on a numeric keypad, each driven through a
//! directional keypad by the next; the key presses that each level takes.

use vstd::prelude::*;
use vstd::string::*;
use crate::text::{find_byte, first_at, lines, lines_of, push_dec, push_str, unsigned_in, views};

verus! {

/// The numeric keypad, row by row, four places to a row; `.` is a gap:
/// `7 8 9` / `4 5 6` / `1 2 3` / `  0 A`.
pub open spec fn numpad_spec() -> Seq<u8> {
    seq![
        46u8, 46u8, 46u8, 46u8, 55u8, 56u8, 57u8, 46u8, 52u8, 53u8, 54u8, 46u8, 49u8, 50u8, 51u8, 46u8, 46u8,
        48u8, 65u8, 46u8, 46u8, 46u8, 46u8,
    ]
}

/// The directional keypad, laid out as the numeric one: `  ^ A` / `< v >`.
pub open spec fn dirpad_spec() -> Seq<u8> {
    seq![46u8, 46u8, 46u8, 46u8, 46u8, 94u8, 65u8, 46u8, 60u8, 118u8, 62u8, 46u8, 46u8, 46u8, 46u8]
}

/// The numeric keypad.
pub fn numpad() -> (r: Vec<u8>)
    ensures
        r@ == numpad_spec(),
{
    let r = vec![46u8, 46, 46, 46, 55, 56, 57, 46, 52, 53, 54, 46, 49, 50, 51, 46, 46, 48, 65, 46, 46, 46, 46];
    assert(r@ =~= numpad_spec());
    r
}

/// The directional keypad.
pub fn dirpad() -> (r: Vec<u8>)
    ensures
        r@ == dirpad_spec(),
{
    let r = vec![46u8, 46, 46, 46, 46, 94, 65, 46, 60, 118, 62, 46, 46, 46, 46];
    assert(r@ =~= dirpad_spec());
    r
}

/// Where key `c` first stands on keypad `k`.
pub open spec fn find_key(k: Seq<u8>, c: u8) -> Option<int> {
    if exists|i: int| first_at(k, c, i) {
        Some(choose|i: int| first_at(k, c, i))
    } else {
        None
    }
}

/// A keypad the moves can be worked out on: it has an `A`, at most six rows, and every key
/// of a last, short row is found on an earlier row too.
pub open spec fn pad_ok(k: Seq<u8>) -> bool {
    &&& k.len() <= 24
    &&& k.contains(65u8)
    &&& forall|i: int| 0 <= i < k.len() && (i / 4) * 4 + 4 > k.len() ==> exists|j: int| 0 <= j < (i / 4) * 4 && k[j] == #[trigger] k[i]
}

pub proof fn lemma_pads_ok()
    ensures
        pad_ok(numpad_spec()),
        pad_ok(dirpad_spec()),
{
    let n = numpad_spec();
    let d = dirpad_spec();
    assert(n[18] == 65u8);
    assert(d[6] == 65u8);
    assert forall|i: int| 0 <= i < n.len() && (i / 4) * 4 + 4 > n.len() implies exists|j: int| 0 <= j < (i / 4) * 4 && n[j] == #[trigger] n[i] by {
        assert(20 <= i < 23);
        assert(i / 4 == 5);
        if i == 20 {
            assert(n[0] == n[i]);
        } else if i == 21 {
            assert(n[0] == n[i]);
        } else {
            assert(n[0] == n[i]);
        }
    }
    assert forall|i: int| 0 <= i < d.len() && (i / 4) * 4 + 4 > d.len() implies exists|j: int| 0 <= j < (i / 4) * 4 && d[j] == #[trigger] d[i] by {
        assert(12 <= i < 15);
        assert(i / 4 == 3);
        if i == 12 {
            assert(d[0] == d[i]);
        } else if i == 13 {
            assert(d[0] == d[i]);
        } else {
            assert(d[0] == d[i]);
        }
    }
}

/// Where a key first stands, its row is a full one.
pub proof fn lemma_first_full_row(k: Seq<u8>, c: u8, i: int)
    requires
        pad_ok(k),
        first_at(k, c, i),
    ensures
        (i / 4) * 4 + 4 <= k.len(),
        0 <= i / 4 <= 5,
{
    if (i / 4) * 4 + 4 > k.len() {
        let j = choose|j: int| 0 <= j < (i / 4) * 4 && k[j] == #[trigger] k[i];
        assert(j < i);
    }
}

/// `n` times the key `c`.
pub open spec fn keys_run(c: u8, n: int) -> Seq<u8> {
    Seq::new(n as nat, |i: int| c)
}

/// `movement_chars`: the moves across `x` columns and `y` rows, across first where
/// `x_first`, then `A` to press the key.
pub open spec fn movement(x: int, y: int, x_first: bool) -> Seq<u8> {
    let xs = if x < 0 { keys_run(60u8, -x) } else { keys_run(62u8, x) };
    let ys = if y < 0 { keys_run(94u8, -y) } else { keys_run(118u8, y) };
    (if x_first { xs + ys } else { ys + xs }).push(65u8)
}

/// The moves from place `p` to place `q` of keypad `k`: across first where moving left
/// does not cross a gap, or where moving up or down first would.
pub open spec fn step_moves(k: Seq<u8>, p: int, q: int) -> Seq<u8> {
    let dx = q % 4 - p % 4;
    let dy = q / 4 - p / 4;
    let qxc = k[q % 4 + (p / 4) * 4];
    let qyc = k[p % 4 + (q / 4) * 4];
    movement(dx, dy, (dx < 0 && qxc != 46u8) || qyc == 46u8)
}

/// The moves that type `input` on keypad `k` from place `p`, up to a key the keypad lacks.
pub open spec fn moves_from(k: Seq<u8>, p: int, input: Seq<u8>) -> Seq<u8>
    decreases input.len(),
{
    if input.len() == 0 {
        Seq::empty()
    } else {
        match find_key(k, input[0]) {
            Some(q) => step_moves(k, p, q) + moves_from(k, q, input.drop_first()),
            None => Seq::empty(),
        }
    }
}

/// The text of a key or gap of the keypads.
pub open spec fn pad_char(b: u8) -> bool {
    b == 46u8 || b == 60u8 || b == 62u8 || b == 94u8 || b == 118u8 || b == 65u8 || (48u8 <= b && b <= 57u8)
}

/// The bytes as the characters they stand for.
pub open spec fn chars_of(s: Seq<u8>) -> Seq<char> {
    s.map_values(|b: u8| b as char)
}

/// The one-character text of a key or gap of the keypads.
pub fn pad_str(b: u8) -> (r: &'static str)
    requires
        pad_char(b),
    ensures
        r@ == seq![b as char],
{
    proof {
        reveal_strlit(".");
        reveal_strlit("<");
        reveal_strlit(">");
        reveal_strlit("^");
        reveal_strlit("v");
        reveal_strlit("A");
        reveal_strlit("0");
        reveal_strlit("1");
        reveal_strlit("2");
        reveal_strlit("3");
        reveal_strlit("4");
        reveal_strlit("5");
        reveal_strlit("6");
        reveal_strlit("7");
        reveal_strlit("8");
        reveal_strlit("9");
    }
    let r = if b == 46u8 {
        "."
    } else if b == 60u8 {
        "<"
    } else if b == 62u8 {
        ">"
    } else if b == 94u8 {
        "^"
    } else if b == 118u8 {
        "v"
    } else if b == 65u8 {
        "A"
    } else if b == 48u8 {
        "0"
    } else if b == 49u8 {
        "1"
    } else if b == 50u8 {
        "2"
    } else if b == 51u8 {
        "3"
    } else if b == 52u8 {
        "4"
    } else if b == 53u8 {
        "5"
    } else if b == 54u8 {
        "6"
    } else if b == 55u8 {
        "7"
    } else if b == 56u8 {
        "8"
    } else {
        "9"
    };
    assert(r@ =~= seq![b as char]);
    r
}

/// Appends key `b` to `out`, and to its bytes `bytes`.
fn push_key(out: &mut String, bytes: &mut Vec<u8>, b: u8)
    requires
        pad_char(b),
        old(out)@ == chars_of(old(bytes)@),
    ensures
        final(bytes)@ == old(bytes)@.push(b),
        final(out)@ == chars_of(final(bytes)@),
{
    push_str(out, pad_str(b));
    bytes.push(b);
    assert(out@ =~= chars_of(bytes@));
}

/// `movement_chars`, appended to `out` and its bytes `bytes`.
fn push_movement(out: &mut String, bytes: &mut Vec<u8>, x: i32, y: i32, x_first: bool)
    requires
        -5 <= x <= 5,
        -5 <= y <= 5,
        old(out)@ == chars_of(old(bytes)@),
    ensures
        final(bytes)@ == old(bytes)@ + movement(x as int, y as int, x_first),
        final(out)@ == chars_of(final(bytes)@),
{
    let ghost start = bytes@;
    let xc: u8 = if x < 0 { 60 } else { 62 };
    let xn: i32 = if x < 0 { -x } else { x };
    let yc: u8 = if y < 0 { 94 } else { 118 };
    let yn: i32 = if y < 0 { -y } else { y };
    let ghost xs = if x < 0 { keys_run(60u8, -x) } else { keys_run(62u8, x as int) };
    let ghost ys = if y < 0 { keys_run(94u8, -y) } else { keys_run(118u8, y as int) };
    assert(xs =~= keys_run(xc, xn as int));
    assert(ys =~= keys_run(yc, yn as int));
    let (c1, n1, c2, n2) = if x_first { (xc, xn, yc, yn) } else { (yc, yn, xc, xn) };
    let mut t: i32 = 0;
    while t < n1
        invariant
            0 <= t <= n1 <= 5,
            pad_char(c1),
            bytes@ == start + keys_run(c1, t as int),
            out@ == chars_of(bytes@),
        decreases n1 - t,
    {
        push_key(out, bytes, c1);
        t += 1;
        assert(bytes@ =~= start + keys_run(c1, t as int));
    }
    let ghost mid = bytes@;
    let mut t: i32 = 0;
    while t < n2
        invariant
            0 <= t <= n2 <= 5,
            pad_char(c2),
            bytes@ == mid + keys_run(c2, t as int),
            out@ == chars_of(bytes@),
        decreases n2 - t,
    {
        push_key(out, bytes, c2);
        t += 1;
        assert(bytes@ =~= mid + keys_run(c2, t as int));
    }
    push_key(out, bytes, 65u8);
    assert(bytes@ =~= start + movement(x as int, y as int, x_first));
}

/// The moves that type `input` on keypad `k` from its `A`: as text and as bytes.
fn moves_both(keypad: &[u8], input: &[u8]) -> (r: (String, Vec<u8>))
    requires
        pad_ok(keypad@),
    ensures
        exists|a: int| find_key(keypad@, 65u8) == Some(a) && r.1@ == moves_from(keypad@, a, input@),
        r.0@ == chars_of(r.1@),
{
    let k = keypad;
    let start = match find_byte(k, 65u8) {
        Some(i) => i,
        None => {
            proof {
                let j = choose|j: int| 0 <= j < k@.len() && k@[j] == 65u8;
            }
            0
        },
    };
    assert(first_at(k@, 65u8, start as int));
    proof {
        let a = choose|i: int| first_at(k@, 65u8, i);
        crate::text::lemma_first_at_unique(k@, 65u8, a, start as int);
    }
    let mut out = String::new();
    let mut bytes: Vec<u8> = Vec::new();
    let mut p = start;
    let mut i: usize = 0;
    assert(out@ =~= chars_of(bytes@));
    assert(input@.skip(0) =~= input@);
    assert(bytes@ + moves_from(k@, p as int, input@.skip(0)) =~= moves_from(k@, start as int, input@));
    while i < input.len()
        invariant_except_break
            bytes@ + moves_from(k@, p as int, input@.skip(i as int)) == moves_from(k@, start as int, input@),
        invariant
            pad_ok(k@),
            i <= input@.len(),
            find_key(k@, 65u8) == Some(start as int),
            exists|c: u8| first_at(k@, c, p as int),
            out@ == chars_of(bytes@),
        ensures
            bytes@ == moves_from(k@, start as int, input@),
        decreases input@.len() - i,
    {
        assert(input@.skip(i as int)[0] == input@[i as int]);
        assert(input@.skip(i as int).drop_first() =~= input@.skip(i + 1));
        let q = match find_byte(k, input[i]) {
            Some(q) => q,
            None => {
                proof {
                    assert(!exists|j: int| first_at(k@, input@[i as int], j));
                    assert(moves_from(k@, p as int, input@.skip(i as int)) == Seq::<u8>::empty());
                    assert(bytes@ + Seq::<u8>::empty() =~= bytes@);
                }
                break;
            },
        };
        proof {
            let c = choose|c: u8| first_at(k@, c, p as int);
            lemma_first_full_row(k@, c, p as int);
            lemma_first_full_row(k@, input@[i as int], q as int);
            let j = choose|j: int| first_at(k@, input@[i as int], j);
            crate::text::lemma_first_at_unique(k@, input@[i as int], j, q as int);
        }
        let px = (p % 4) as i32;
        let py = (p / 4) as i32;
        let qx = (q % 4) as i32;
        let qy = (q / 4) as i32;
        let dx = qx - px;
        let dy = qy - py;
        let qxc = k[(qx + py * 4) as usize];
        let qyc = k[(px + qy * 4) as usize];
        let x_first = (dx < 0 && qxc != 46u8) || qyc == 46u8;
        let ghost before = bytes@;
        push_movement(&mut out, &mut bytes, dx, dy, x_first);
        assert(bytes@ == before + step_moves(k@, p as int, q as int));
        p = q;
        i += 1;
    }
    proof {
        if i >= input.len() {
            assert(input@.skip(i as int) =~= Seq::<u8>::empty());
            assert(bytes@ + Seq::<u8>::empty() =~= bytes@);
        }
    }
    (out, bytes)
}


/// The moves from the `A` of keypad `k` that type `input`.
pub open spec fn moves_of(k: Seq<u8>, input: Seq<u8>) -> Seq<u8> {
    moves_from(k, find_key(k, 65u8)->0, input)
}

/// `keypad_moves`: the moves that type `input` on keypad `k`, from its `A`, up to a key the
/// keypad lacks.
pub fn keypad_moves(keypad: &[u8], input: &[u8]) -> (r: String)
    requires
        pad_ok(keypad@),
    ensures
        r@ == chars_of(moves_of(keypad@, input@)),
{
    moves_both(keypad, input).0
}

/// `numpad_moves`: the moves that type a door code on the numeric keypad.
pub fn numpad_moves(digits: &str) -> (r: String)
    ensures
        r@ == chars_of(moves_of(numpad_spec(), digits.spec_bytes())),
{
    proof {
        lemma_pads_ok();
    }
    let k = numpad();
    keypad_moves(k.as_slice(), digits.as_bytes())
}

/// `dirpad_moves`: the moves that type `input` on the directional keypad.
pub fn dirpad_moves(input: &str) -> (r: String)
    ensures
        r@ == chars_of(moves_of(dirpad_spec(), input.spec_bytes())),
{
    proof {
        lemma_pads_ok();
    }
    let k = dirpad();
    keypad_moves(k.as_slice(), input.as_bytes())
}

/// The key presses of the third robot's keypad that type a door code through two robots
/// at directional keypads and one at the numeric keypad.
pub open spec fn presses(digits: Seq<u8>) -> Seq<u8> {
    moves_of(dirpad_spec(), moves_of(dirpad_spec(), moves_of(numpad_spec(), digits)))
}

/// `star1_moves`: how many key presses type the door code through the chain of robots.
pub fn star1_moves(digits: &str) -> (r: usize)
    ensures
        r == presses(digits.spec_bytes()).len(),
{
    proof {
        lemma_pads_ok();
    }
    presses_count(digits.as_bytes())
}

/// How many key presses type `digits` through the chain of robots.
fn presses_count(digits: &[u8]) -> (r: usize)
    ensures
        r == presses(digits@).len(),
{
    proof {
        lemma_pads_ok();
    }
    let np = numpad();
    let dp = dirpad();
    let s0 = moves_both(np.as_slice(), digits).1;
    let s1 = moves_both(dp.as_slice(), s0.as_slice()).1;
    let s2 = moves_both(dp.as_slice(), s1.as_slice()).1;
    s2.len()
}

/// The presses on a keypad that move from place `p` to place `q` and press: right, then
/// down or up, then left.
pub open spec fn entry_step(p: int, q: int) -> Seq<u8> {
    let px = p % 4;
    let py = p / 4;
    let qx = q % 4;
    let qy = q / 4;
    let right = if px < qx { keys_run(62u8, qx - px) } else { Seq::empty() };
    let vert = if py < qy { keys_run(118u8, qy - py) } else { keys_run(94u8, py - qy) };
    let left = if qx < px { keys_run(60u8, px - qx) } else { Seq::empty() };
    (right + vert + left).push(65u8)
}

/// The presses that enter `digits` on keypad `k` from place `p`, passing over keys the
/// keypad lacks.
pub open spec fn entry_from(k: Seq<u8>, p: int, digits: Seq<u8>) -> Seq<u8>
    decreases digits.len(),
{
    if digits.len() == 0 {
        Seq::empty()
    } else {
        match find_key(k, digits[0]) {
            Some(q) => entry_step(p, q) + entry_from(k, q, digits.drop_first()),
            None => entry_from(k, p, digits.drop_first()),
        }
    }
}

/// The number of presses of `A` in the key presses `s`.
pub open spec fn a_presses(s: Seq<u8>) -> nat
    decreases s.len(),
{
    if s.len() == 0 {
        0
    } else {
        a_presses(s.drop_last()) + if s.last() == 65u8 { 1nat } else { 0nat }
    }
}

/// The number of keys of `digits` that keypad `k` has.
pub open spec fn keys_found(k: Seq<u8>, digits: Seq<u8>) -> nat
    decreases digits.len(),
{
    if digits.len() == 0 {
        0
    } else {
        keys_found(k, digits.drop_first()) + if find_key(k, digits[0]) is Some { 1nat } else { 0nat }
    }
}

pub proof fn lemma_presses_add(s: Seq<u8>, t: Seq<u8>)
    ensures
        a_presses(s + t) == a_presses(s) + a_presses(t),
    decreases t.len(),
{
    if t.len() > 0 {
        assert((s + t).drop_last() =~= s + t.drop_last());
        lemma_presses_add(s, t.drop_last());
    } else {
        assert(s + t =~= s);
    }
}

pub proof fn lemma_presses_run(c: u8, n: int)
    requires
        c != 65u8,
        n >= 0,
    ensures
        a_presses(keys_run(c, n)) == 0,
    decreases n,
{
    if n > 0 {
        assert(keys_run(c, n).drop_last() =~= keys_run(c, n - 1));
        lemma_presses_run(c, n - 1);
    } else {
        assert(keys_run(c, n) =~= Seq::<u8>::empty());
    }
}

/// Each key entered takes exactly one press of `A`: the presses that enter `digits` press
/// `A` once for each key of `digits` the keypad has.
pub proof fn lemma_entry_presses(k: Seq<u8>, p: int, digits: Seq<u8>)
    ensures
        a_presses(entry_from(k, p, digits)) == keys_found(k, digits),
    decreases digits.len(),
{
    if digits.len() > 0 {
        match find_key(k, digits[0]) {
            Some(q) => {
                lemma_entry_presses(k, q, digits.drop_first());
                let px = p % 4;
                let py = p / 4;
                let qx = q % 4;
                let qy = q / 4;
                let right = if px < qx { keys_run(62u8, qx - px) } else { Seq::empty() };
                let vert = if py < qy { keys_run(118u8, qy - py) } else { keys_run(94u8, py - qy) };
                let left = if qx < px { keys_run(60u8, px - qx) } else { Seq::empty() };
                if px < qx {
                    lemma_presses_run(62u8, qx - px);
                } else {
                    assert(a_presses(right) == 0);
                }
                if py < qy {
                    lemma_presses_run(118u8, qy - py);
                } else {
                    lemma_presses_run(94u8, py - qy);
                }
                if qx < px {
                    lemma_presses_run(60u8, px - qx);
                } else {
                    assert(a_presses(left) == 0);
                }
                lemma_presses_add(right, vert);
                lemma_presses_add(right + vert, left);
                let body = right + vert + left;
                assert(body.push(65u8).drop_last() =~= body);
                lemma_presses_add(entry_step(p, q), entry_from(k, q, digits.drop_first()));
            },
            None => {
                lemma_entry_presses(k, p, digits.drop_first());
            },
        }
    }
}

/// Appends `n` presses of key `c`.
fn push_run(out: &mut String, bytes: &mut Vec<u8>, c: u8, n: i32)
    requires
        pad_char(c),
        0 <= n <= 5,
        old(out)@ == chars_of(old(bytes)@),
    ensures
        final(bytes)@ == old(bytes)@ + keys_run(c, n as int),
        final(out)@ == chars_of(final(bytes)@),
{
    let ghost start = bytes@;
    let mut t: i32 = 0;
    assert(bytes@ =~= start + keys_run(c, 0));
    while t < n
        invariant
            0 <= t <= n <= 5,
            pad_char(c),
            bytes@ == start + keys_run(c, t as int),
            out@ == chars_of(bytes@),
        decreases n - t,
    {
        push_key(out, bytes, c);
        t += 1;
        assert(bytes@ =~= start + keys_run(c, t as int));
    }
}

/// `keypad_entry`: the presses that enter `digits` on keypad `k` from its `A`, passing over
/// keys the keypad lacks.
#[verifier::rlimit(40)]
pub fn keypad_entry(keypad: &[u8], digits: &[u8]) -> (r: String)
    requires
        pad_ok(keypad@),
    ensures
        r@ == chars_of(entry_from(keypad@, find_key(keypad@, 65u8)->0, digits@)),
{
    let k = keypad;
    let start = match find_byte(k, 65u8) {
        Some(i) => i,
        None => {
            proof {
                let j = choose|j: int| 0 <= j < k@.len() && k@[j] == 65u8;
            }
            0
        },
    };
    proof {
        let a = choose|i: int| first_at(k@, 65u8, i);
        crate::text::lemma_first_at_unique(k@, 65u8, a, start as int);
    }
    let ghost a = start as int;
    let mut out = String::new();
    let mut bytes: Vec<u8> = Vec::new();
    let mut p = start;
    let mut i: usize = 0;
    assert(out@ =~= chars_of(bytes@));
    assert(digits@.skip(0) =~= digits@);
    assert(bytes@ + entry_from(k@, p as int, digits@.skip(0)) =~= entry_from(k@, a, digits@));
    while i < digits.len()
        invariant
            pad_ok(k@),
            i <= digits@.len(),
            a == find_key(k@, 65u8)->0,
            p < k@.len(),
            bytes@ + entry_from(k@, p as int, digits@.skip(i as int)) == entry_from(k@, a, digits@),
            out@ == chars_of(bytes@),
        decreases digits@.len() - i,
    {
        assert(digits@.skip(i as int)[0] == digits@[i as int]);
        assert(digits@.skip(i as int).drop_first() =~= digits@.skip(i + 1));
        match find_byte(k, digits[i]) {
            Some(q) => {
                proof {
                    let j = choose|j: int| first_at(k@, digits@[i as int], j);
                    crate::text::lemma_first_at_unique(k@, digits@[i as int], j, q as int);
                }
                let px = (p % 4) as i32;
                let py = (p / 4) as i32;
                let qx = (q % 4) as i32;
                let qy = (q / 4) as i32;
                let ghost before = bytes@;
                if px < qx {
                    push_run(&mut out, &mut bytes, 62u8, qx - px);
                }
                if py < qy {
                    push_run(&mut out, &mut bytes, 118u8, qy - py);
                } else {
                    push_run(&mut out, &mut bytes, 94u8, py - qy);
                }
                if qx < px {
                    push_run(&mut out, &mut bytes, 60u8, px - qx);
                }
                push_key(&mut out, &mut bytes, 65u8);
                assert(bytes@ =~= before + entry_step(p as int, q as int));
                p = q;
            },
            None => {
                proof {
                    assert(!exists|j: int| first_at(k@, digits@[i as int], j));
                }
            },
        }
        i += 1;
    }
    assert(digits@.skip(i as int) =~= Seq::<u8>::empty());
    assert(bytes@ + Seq::<u8>::empty() =~= bytes@);
    out
}

/// `numpad_entry`: the presses that enter a door code on the numeric keypad.
pub fn numpad_entry(digits: &str) -> (r: String)
    ensures
        r@ == chars_of(entry_from(numpad_spec(), 18, digits.spec_bytes())),
{
    proof {
        lemma_pads_ok();
        lemma_a_places();
    }
    let k = numpad();
    keypad_entry(k.as_slice(), digits.as_bytes())
}

/// `dirpad_entry`: the presses that enter `moves` on the directional keypad.
pub fn dirpad_entry(moves: &str) -> (r: String)
    ensures
        r@ == chars_of(entry_from(dirpad_spec(), 6, moves.spec_bytes())),
        a_presses(entry_from(dirpad_spec(), 6, moves.spec_bytes())) == keys_found(dirpad_spec(), moves.spec_bytes()),
{
    proof {
        lemma_pads_ok();
        lemma_a_places();
        lemma_entry_presses(dirpad_spec(), 6, moves.spec_bytes());
    }
    let k = dirpad();
    keypad_entry(k.as_slice(), moves.as_bytes())
}

/// Where the `A` keys stand.
pub proof fn lemma_a_places()
    ensures
        find_key(numpad_spec(), 65u8) == Some(18int),
        find_key(dirpad_spec(), 65u8) == Some(6int),
{
    let n = numpad_spec();
    let d = dirpad_spec();
    assert(first_at(n, 65u8, 18)) by {
        assert forall|j: int| 0 <= j < 18 implies n[j] != 65u8 by {
            assert(n[j] == 46u8 || (48u8 <= n[j] <= 57u8)) by {
                if j < 9 {
                } else {
                }
            }
        }
    }
    assert(first_at(d, 65u8, 6));
    let i = choose|i: int| first_at(n, 65u8, i);
    crate::text::lemma_first_at_unique(n, 65u8, i, 18);
    let i2 = choose|i: int| first_at(d, 65u8, i);
    crate::text::lemma_first_at_unique(d, 65u8, i2, 6);
}


/// The text without its trailing `A`s.
pub open spec fn trim_a(s: Seq<u8>) -> Seq<u8>
    decreases s.len(),
{
    if s.len() > 0 && s.last() == 65u8 {
        trim_a(s.drop_last())
    } else {
        s
    }
}

/// A code's complexity: its number times the presses that type it; nothing where the
/// line holds no number.
pub open spec fn code_score(l: Seq<u8>) -> nat {
    match unsigned_in(trim_a(l), usize::MAX as int) {
        Some(n) => n * presses(l).len(),
        None => 0,
    }
}

/// The complexities of the first `n` codes, summed.
pub open spec fn codes_total(ls: Seq<Seq<u8>>, n: int) -> nat
    decreases n,
{
    if n <= 0 {
        0
    } else {
        codes_total(ls, n - 1) + code_score(ls[n - 1])
    }
}

pub proof fn lemma_total_mono(ls: Seq<Seq<u8>>, k: int, n: int)
    requires
        k <= n,
    ensures
        codes_total(ls, k) <= codes_total(ls, n),
    decreases n - k,
{
    if k < n {
        lemma_total_mono(ls, k, n - 1);
    }
}

/// `str::parse::<usize>`.
fn parse_usize(s: &[u8]) -> (r: Option<usize>)
    ensures
        r == (match unsigned_in(s@, usize::MAX as int) {
            Some(v) => Some(v as usize),
            None => None,
        }),
{
    match crate::text::parse_u64(s) {
        Some(v) => {
            if v <= usize::MAX as u64 {
                Some(v as usize)
            } else {
                None
            }
        },
        None => None,
    }
}

/// The length of the text without its trailing `A`s.
fn trim_a_len(s: &[u8]) -> (r: usize)
    ensures
        r <= s@.len(),
        trim_a(s@) == s@.take(r as int),
{
    let mut n = s.len();
    assert(s@.take(n as int) =~= s@);
    while n > 0 && s[n - 1] == 65u8
        invariant
            n <= s@.len(),
            trim_a(s@) == trim_a(s@.take(n as int)),
        decreases n,
    {
        assert(s@.take(n as int).drop_last() =~= s@.take(n - 1));
        n -= 1;
    }
    n
}

/// The first answer: the complexities of the door codes, one to a line, summed.
pub fn star1(input: &str) -> (r: usize)
    requires
        codes_total(lines_of(input.spec_bytes()), lines_of(input.spec_bytes()).len() as int) <= usize::MAX,
    ensures
        r == codes_total(lines_of(input.spec_bytes()), lines_of(input.spec_bytes()).len() as int),
{
    let ls = lines(input.as_bytes());
    let ghost lv = lines_of(input.spec_bytes());
    let mut total: usize = 0;
    let mut i: usize = 0;
    while i < ls.len()
        invariant
            views(ls@) == lv,
            i <= ls@.len(),
            total == codes_total(lv, i as int),
            codes_total(lv, lv.len() as int) <= usize::MAX,
        decreases ls@.len() - i,
    {
        let l = ls[i].as_slice();
        assert(l@ == lv[i as int]);
        let t = trim_a_len(l);
        let head = crate::text::slice_range(l, 0, t);
        proof {
            lemma_total_mono(lv, i + 1, lv.len() as int);
        }
        match parse_usize(head) {
            Some(n) => {
                let m = presses_count(l);
                assert(code_score(lv[i as int]) == n * m);
                assert(n * m <= usize::MAX);
                total = total + n * m;
            },
            None => {},
        }
        i += 1;
    }
    total
}

/// `sim`: what an arm on keypad `k`, three places wide, types for the moves `input`;
/// moves off the keypad are not made.
pub open spec fn sim_from(k: Seq<u8>, p: int, input: Seq<u8>) -> Seq<u8>
    decreases input.len(),
{
    if input.len() == 0 {
        Seq::empty()
    } else {
        let c = input[0];
        let px = p % 3 + (if c == 60u8 { -1int } else if c == 62u8 { 1int } else { 0int });
        let py = p / 3 + (if c == 94u8 { -1int } else if c == 118u8 { 1int } else { 0int });
        let typed = if c == 65u8 { seq![k[p]] } else { Seq::empty() };
        let next = if 0 <= px < 3 && 0 <= py < k.len() / 3 { px + py * 3 } else { p };
        typed + sim_from(k, next, input.drop_first())
    }
}

/// `sim`: the keys an arm types on keypad `k`, read three places to a row, for the moves
/// `input`, from its `A`.
pub fn sim(keypad: &[u8], input: &[u8]) -> (r: Vec<u8>)
    requires
        keypad@.contains(65u8),
        keypad@.len() <= 0x1000_0000,
    ensures
        r@ == sim_from(keypad@, find_key(keypad@, 65u8)->0, input@),
{
    let k = keypad;
    let start = match find_byte(k, 65u8) {
        Some(i) => i,
        None => {
            proof {
                let j = choose|j: int| 0 <= j < k@.len() && k@[j] == 65u8;
            }
            0
        },
    };
    proof {
        let a = choose|i: int| first_at(k@, 65u8, i);
        crate::text::lemma_first_at_unique(k@, 65u8, a, start as int);
    }
    let ghost a = start as int;
    let dy = (k.len() / 3) as i32;
    let mut out: Vec<u8> = Vec::new();
    let mut p = start;
    let mut i: usize = 0;
    assert(input@.skip(0) =~= input@);
    assert(out@ + sim_from(k@, p as int, input@.skip(0)) =~= sim_from(k@, a, input@));
    while i < input.len()
        invariant
            k@.len() <= 0x1000_0000,
            dy == k@.len() / 3,
            i <= input@.len(),
            a == find_key(k@, 65u8)->0,
            p < k@.len(),
            out@ + sim_from(k@, p as int, input@.skip(i as int)) == sim_from(k@, a, input@),
        decreases input@.len() - i,
    {
        assert(input@.skip(i as int)[0] == input@[i as int]);
        assert(input@.skip(i as int).drop_first() =~= input@.skip(i + 1));
        let c = input[i];
        let mut px = (p % 3) as i32;
        let mut py = (p / 3) as i32;
        if c == 60u8 {
            px -= 1;
        } else if c == 62u8 {
            px += 1;
        } else if c == 94u8 {
            py -= 1;
        } else if c == 118u8 {
            py += 1;
        } else if c == 65u8 {
            out.push(k[p]);
        }
        if 0 <= px && px < 3 && 0 <= py && py < dy {
            assert(px + py * 3 < k@.len()) by (nonlinear_arith)
                requires 0 <= px < 3, 0 <= py < dy, dy == k@.len() / 3;
            p = (px + py * 3) as usize;
        }
        i += 1;
    }
    assert(input@.skip(i as int) =~= Seq::<u8>::empty());
    assert(out@ + Seq::<u8>::empty() =~= out@);
    out
}


/// What a key press does to a robot's arm: nothing allowed, a move, or the press of the
/// key under the arm.
#[derive(Debug, Clone, Copy, PartialEq, Eq, Structural)]
pub enum PushResult {
    Invalid,
    Valid,
    Ack(u8),
}

/// The press of key `c` for an arm at place `p` of keypad `k`: what it does, and where the
/// arm is after it. A move off the keypad or onto a gap is not allowed.
pub open spec fn push_spec(k: Seq<u8>, p: int, c: u8) -> (PushResult, int) {
    if c == 65u8 {
        (PushResult::Ack(k[p]), p)
    } else if c == 62u8 || c == 60u8 || c == 94u8 || c == 118u8 {
        let q = if c == 62u8 {
            p + 1
        } else if c == 60u8 {
            p - 1
        } else if c == 94u8 {
            p - 4
        } else {
            p + 4
        };
        if 0 <= q < k.len() && k[q] != 46u8 {
            (PushResult::Valid, q)
        } else {
            (PushResult::Invalid, p)
        }
    } else {
        (PushResult::Invalid, p)
    }
}

/// `push`: presses key `c` for the arm at `p` on `keypad`.
pub fn push(p: &mut u16, keypad: &[u8], c: u8) -> (r: PushResult)
    requires
        4 <= *old(p) < keypad@.len() <= 60000,
    ensures
        (r, *final(p) as int) == push_spec(keypad@, *old(p) as int, c),
{
    if c == 65u8 {
        return PushResult::Ack(keypad[*p as usize]);
    }
    let q: u16 = if c == 62u8 {
        *p + 1
    } else if c == 60u8 {
        *p - 1
    } else if c == 94u8 {
        *p - 4
    } else if c == 118u8 {
        *p + 4
    } else {
        return PushResult::Invalid;
    };
    let qs = q as usize;
    if qs < keypad.len() && keypad[qs] != 46u8 {
        *p = q;
        PushResult::Valid
    } else {
        PushResult::Invalid
    }
}

/// A place of keypad `k` that holds a key.
pub open spec fn cell_ok(k: Seq<u8>, p: int) -> bool {
    0 <= p < k.len() && k[p] != 46u8
}

/// The first rows of both keypads are gaps.
pub proof fn lemma_gap_row(p: int)
    requires
        0 <= p < 4,
    ensures
        numpad_spec()[p] == 46u8,
        dirpad_spec()[p] == 46u8,
{
    if p == 0 {
    } else if p == 1 {
    } else if p == 2 {
    } else {
    }
}

/// The state of the chain: the keys typed on the door so far, and the places of the arms
/// of the two robots at directional keypads and of the one at the numeric keypad.
pub struct State {
    pub keys: Vec<u8>,
    pub r0: u16,
    pub r1: u16,
    pub r2: u16,
}

/// A state as values: typed keys and the three arms' places.
pub type StateView = (Seq<u8>, int, int, int);

/// The presses of key `c0`, passed down the chain: `None` where a move is not allowed.
pub open spec fn step_spec(v: StateView, c0: u8) -> Option<StateView> {
    let (a0, q0) = push_spec(dirpad_spec(), v.1, c0);
    match a0 {
        PushResult::Invalid => None,
        PushResult::Valid => Some((v.0, q0, v.2, v.3)),
        PushResult::Ack(c1) => {
            let (a1, q1) = push_spec(dirpad_spec(), v.2, c1);
            match a1 {
                PushResult::Invalid => None,
                PushResult::Valid => Some((v.0, v.1, q1, v.3)),
                PushResult::Ack(c2) => {
                    let (a2, q2) = push_spec(numpad_spec(), v.3, c2);
                    match a2 {
                        PushResult::Invalid => None,
                        PushResult::Valid => Some((v.0, v.1, v.2, q2)),
                        PushResult::Ack(c3) => Some((v.0.push(c3), v.1, v.2, v.3)),
                    }
                },
            }
        },
    }
}

/// The arms' places are keys of their keypads.
pub open spec fn view_ok(v: StateView) -> bool {
    cell_ok(dirpad_spec(), v.1) && cell_ok(dirpad_spec(), v.2) && cell_ok(numpad_spec(), v.3)
}

pub proof fn lemma_step_ok(v: StateView, c0: u8)
    requires
        view_ok(v),
    ensures
        step_spec(v, c0) matches Some(w) ==> view_ok(w) && (w.0 == v.0 || w.0.len() == v.0.len() + 1),
        step_spec(v, c0) is Some ==> pad_char(c0),
{
    let d = dirpad_spec();
    let n = numpad_spec();
    let (a0, q0) = push_spec(d, v.1, c0);
    if a0 is Valid {
        if q0 < 4 {
            lemma_gap_row(q0);
        }
    }
    if let PushResult::Ack(c1) = a0 {
        let (a1, q1) = push_spec(d, v.2, c1);
        if a1 is Valid && q1 < 4 {
            lemma_gap_row(q1);
        }
        if let PushResult::Ack(c2) = a1 {
            let (a2, q2) = push_spec(n, v.3, c2);
            if a2 is Valid && q2 < 4 {
                lemma_gap_row(q2);
            }
        }
    }
}

/// The state after the presses `s`, from state `v`; `None` where a move is not allowed.
pub open spec fn run_keys(v: StateView, s: Seq<u8>) -> Option<StateView>
    decreases s.len(),
{
    if s.len() == 0 {
        Some(v)
    } else {
        match run_keys(v, s.drop_last()) {
            Some(w) => step_spec(w, s.last()),
            None => None,
        }
    }
}

/// The chain at the start: nothing typed, every arm at its `A`.
pub open spec fn start_view() -> StateView {
    (Seq::empty(), 6, 6, 18)
}

impl State {
    pub open spec fn view_s(&self) -> StateView {
        (self.keys@, self.r0 as int, self.r1 as int, self.r2 as int)
    }

    pub open spec fn wf(&self) -> bool {
        view_ok(self.view_s())
    }

    /// Nothing typed, every arm at its `A`.
    pub fn new() -> (r: State)
        ensures
            r.wf(),
            r.view_s() == start_view(),
    {
        State { keys: Vec::new(), r0: 6, r1: 6, r2: 18 }
    }

    /// The keys typed on the door.
    pub fn output(&self) -> (r: &[u8])
        ensures
            r@ == self.keys@,
    {
        self.keys.as_slice()
    }

    /// `step`: the state after a press of `c0`, passed down the chain; `None` where a move
    /// is not allowed. At most eight keys are typed on the door.
    pub fn step(&self, c0: u8) -> (r: Option<State>)
        requires
            self.wf(),
            self.keys@.len() < 8 || (step_spec(self.view_s(), c0) matches Some(w) ==> w.0 == self.keys@),
        ensures
            match r {
                Some(s) => s.wf() && step_spec(self.view_s(), c0) == Some(s.view_s()),
                None => step_spec(self.view_s(), c0) is None,
            },
    {
        proof {
            lemma_step_ok(self.view_s(), c0);
            if self.r0 < 4 {
                lemma_gap_row(self.r0 as int);
            }
            if self.r1 < 4 {
                lemma_gap_row(self.r1 as int);
            }
            if self.r2 < 4 {
                lemma_gap_row(self.r2 as int);
            }
        }
        let d = dirpad();
        let n = numpad();
        let mut r0 = self.r0;
        let mut r1 = self.r1;
        let mut r2 = self.r2;
        match push(&mut r0, d.as_slice(), c0) {
            PushResult::Invalid => None,
            PushResult::Valid => Some(State { keys: copy_bytes(&self.keys), r0, r1, r2 }),
            PushResult::Ack(c1) => match push(&mut r1, d.as_slice(), c1) {
                PushResult::Invalid => None,
                PushResult::Valid => Some(State { keys: copy_bytes(&self.keys), r0, r1, r2 }),
                PushResult::Ack(c2) => match push(&mut r2, n.as_slice(), c2) {
                    PushResult::Invalid => None,
                    PushResult::Valid => Some(State { keys: copy_bytes(&self.keys), r0, r1, r2 }),
                    PushResult::Ack(c3) => {
                        let mut keys = copy_bytes(&self.keys);
                        keys.push(c3);
                        Some(State { keys, r0, r1, r2 })
                    },
                },
            },
        }
    }
}

/// A copy of a list of bytes.
fn copy_bytes(v: &Vec<u8>) -> (r: Vec<u8>)
    ensures
        r@ == v@,
{
    let mut r: Vec<u8> = Vec::new();
    let mut i: usize = 0;
    while i < v.len()
        invariant
            i <= v@.len(),
            r@ == v@.take(i as int),
        decreases v@.len() - i,
    {
        r.push(v[i]);
        i += 1;
        assert(r@ =~= v@.take(i as int));
    }
    assert(v@.take(v@.len() as int) =~= v@);
    r
}


/// The presses along the links from node `n` (counted from one; zero is the start) back to
/// the start, in the order they are made.
pub open spec fn path(links: Seq<(u8, usize)>, n: int) -> Seq<u8>
    decreases n,
{
    if n <= 0 || n > links.len() {
        Seq::empty()
    } else if links[n - 1].1 < n {
        path(links, links[n - 1].1 as int).push(links[n - 1].0)
    } else {
        Seq::empty()
    }
}

/// Each link leads back to an earlier node.
pub open spec fn links_ok(links: Seq<(u8, usize)>) -> bool {
    forall|k: int| 0 <= k < links.len() ==> (#[trigger] links[k]).1 <= k
}

pub proof fn lemma_path_grow(links: Seq<(u8, usize)>, l: (u8, usize), n: int)
    requires
        0 <= n <= links.len(),
        links_ok(links),
    ensures
        path(links.push(l), n) == path(links, n),
    decreases n,
{
    if n > 0 {
        let m = links[n - 1].1 as int;
        assert(links.push(l)[n - 1] == links[n - 1]);
        lemma_path_grow(links, l, m);
    }
}

pub proof fn lemma_path_chars(links: Seq<(u8, usize)>, n: int)
    requires
        0 <= n <= links.len(),
        links_ok(links),
        forall|t: int| 0 <= t < links.len() ==> pad_char((#[trigger] links[t]).0),
    ensures
        forall|j: int| 0 <= j < path(links, n).len() ==> pad_char(#[trigger] path(links, n)[j]),
    decreases n,
{
    if n > 0 {
        let m = links[n - 1].1 as int;
        lemma_path_chars(links, m);
        let p = path(links, n);
        assert(p == path(links, m).push(links[n - 1].0));
        assert forall|j: int| 0 <= j < p.len() implies pad_char(#[trigger] p[j]) by {
            if j < path(links, m).len() {
                assert(p[j] == path(links, m)[j]);
            }
        }
    }
}

pub proof fn lemma_path_len(links: Seq<(u8, usize)>, n: int)
    requires
        0 <= n <= links.len(),
        links_ok(links),
    ensures
        path(links, n).len() <= n,
    decreases n,
{
    if n > 0 {
        lemma_path_len(links, links[n - 1].1 as int);
    }
}

/// How many places are not yet seen.
pub open spec fn count_false(v: Seq<bool>) -> nat
    decreases v.len(),
{
    if v.len() == 0 {
        0
    } else {
        count_false(v.drop_last()) + (if v.last() { 0nat } else { 1nat })
    }
}

pub proof fn lemma_count_false_set(v: Seq<bool>, i: int)
    requires
        0 <= i < v.len(),
        !v[i],
    ensures
        count_false(v.update(i, true)) + 1 == count_false(v),
    decreases v.len(),
{
    let u = v.update(i, true);
    if i == v.len() - 1 {
        assert(u.drop_last() =~= v.drop_last());
    } else {
        assert(u.drop_last() =~= v.drop_last().update(i, true));
        lemma_count_false_set(v.drop_last(), i);
    }
}

/// The index of a state in the table of states seen.
pub open spec fn state_index(ikey: int, r0: int, r1: int, r2: int) -> int {
    ((ikey * 15 + r0) * 15 + r1) * 23 + r2
}

/// A search entry: arms' places, keys typed, presses made, and its node.
pub struct Entry {
    pub r0: u16,
    pub r1: u16,
    pub r2: u16,
    pub ikey: usize,
    pub count: usize,
    pub node: usize,
}

/// A search entry is sound: its presses, along its links, lead from the start to a state
/// that has typed the first `ikey` keys of the code.
pub open spec fn entry_ok(digits: Seq<u8>, links: Seq<(u8, usize)>, e: Entry) -> bool {
    &&& e.ikey <= digits.len()
    &&& e.ikey < 8
    &&& e.node <= links.len()
    &&& e.count == path(links, e.node as int).len()
    &&& view_ok((digits.take(e.ikey as int), e.r0 as int, e.r1 as int, e.r2 as int))
    &&& run_keys(start_view(), path(links, e.node as int)) == Some((digits.take(e.ikey as int), e.r0 as int, e.r1 as int, e.r2 as int))
}

/// The state an entry stands for.
pub open spec fn entry_view(digits: Seq<u8>, e: Entry) -> StateView {
    (digits.take(e.ikey as int), e.r0 as int, e.r1 as int, e.r2 as int)
}

/// A state of the chain whose typed keys begin the code.
pub open spec fn pref_state(digits: Seq<u8>, v: StateView) -> bool {
    &&& view_ok(v)
    &&& v.0.len() <= digits.len()
    &&& digits.take(v.0.len() as int) == v.0
}

/// Where state `v` is marked as seen.
pub open spec fn view_index(v: StateView) -> int {
    state_index(v.0.len() as int, v.1, v.2, v.3)
}

/// Some presses, at least one, make the chain type exactly `digits`.
pub open spec fn typeable(digits: Seq<u8>) -> bool {
    exists|bs: Seq<u8>| bs.len() >= 1 && #[trigger] run_keys(start_view(), bs) is Some && (run_keys(start_view(), bs)->0).0 == digits
}

pub proof fn lemma_view_index(digits: Seq<u8>, v: StateView, w: StateView)
    requires
        digits.len() <= 8,
        pref_state(digits, v),
        pref_state(digits, w),
    ensures
        0 <= view_index(v) < 46575,
        view_index(v) == view_index(w) ==> v == w,
{
    let a = v.0.len() as int;
    let b = w.0.len() as int;
    let (v1, v2, v3) = (v.1, v.2, v.3);
    let (w1, w2, w3) = (w.1, w.2, w.3);
    assert(view_index(v) == ((a * 15 + v1) * 15 + v2) * 23 + v3);
    assert(view_index(w) == ((b * 15 + w1) * 15 + w2) * 23 + w3);
    assert(0 <= ((a * 15 + v1) * 15 + v2) * 23 + v3 < 46575) by (nonlinear_arith)
        requires 0 <= a <= 8, 0 <= v1 < 15, 0 <= v2 < 15, 0 <= v3 < 23;
    if view_index(v) == view_index(w) {
        assert(a == b && v1 == w1 && v2 == w2 && v3 == w3) by (nonlinear_arith)
            requires
                0 <= a <= 8, 0 <= v1 < 15, 0 <= v2 < 15, 0 <= v3 < 23,
                0 <= b <= 8, 0 <= w1 < 15, 0 <= w2 < 15, 0 <= w3 < 23,
                ((a * 15 + v1) * 15 + v2) * 23 + v3 == ((b * 15 + w1) * 15 + w2) * 23 + w3;
        assert(v.0 =~= w.0);
    }
}

/// Only the five keys of the directional keypad move the chain.
pub proof fn lemma_step_keys(v: StateView, c: u8)
    requires
        step_spec(v, c) is Some,
    ensures
        c == 94u8 || c == 65u8 || c == 60u8 || c == 118u8 || c == 62u8,
{
}

/// A press keeps what is typed, and may type one key more.
pub proof fn lemma_step_grows(v: StateView, c: u8)
    requires
        step_spec(v, c) is Some,
    ensures
        (step_spec(v, c)->0).0.len() >= v.0.len(),
        (step_spec(v, c)->0).0.take(v.0.len() as int) == v.0,
{
    let w = step_spec(v, c)->0;
    if w.0 != v.0 {
        assert(w.0.take(v.0.len() as int) =~= v.0);
    } else {
        assert(w.0.take(v.0.len() as int) =~= v.0);
    }
}

pub proof fn lemma_run_ok(bs: Seq<u8>)
    ensures
        run_keys(start_view(), bs) matches Some(w) ==> view_ok(w),
    decreases bs.len(),
{
    if bs.len() == 0 {
        assert(dirpad_spec()[6] == 65u8);
        assert(numpad_spec()[18] == 65u8);
    } else {
        lemma_run_ok(bs.drop_last());
        if let Some(v) = run_keys(start_view(), bs.drop_last()) {
            lemma_step_ok(v, bs.last());
        }
    }
}

/// Every state seen, whose typed keys begin the code, does not type all of it, and has an
/// entry in the search.
pub open spec fn seen_listed(digits: Seq<u8>, vis: Seq<bool>, work: Seq<Entry>) -> bool {
    forall|v: StateView| pref_state(digits, v) && #[trigger] vis[view_index(v)] ==> v.0.len() < digits.len() && exists|t: int|
        0 <= t < work.len() && entry_view(digits, #[trigger] work[t]) == v
}

/// The first `h` entries are taken up: every state one press from one of them, whose typed
/// keys begin the code, has been seen.
pub open spec fn closed_upto(digits: Seq<u8>, vis: Seq<bool>, work: Seq<Entry>, h: int) -> bool {
    forall|t: int, c: u8| 0 <= t < h && #[trigger] step_spec(entry_view(digits, work[t]), c) is Some
        && pref_state(digits, step_spec(entry_view(digits, work[t]), c)->0) ==> vis[view_index(
        step_spec(entry_view(digits, work[t]), c)->0,
    )]
}

/// The presses of the first `ci` keys of the directional keypad from state `v` are tried.
pub open spec fn tried(digits: Seq<u8>, vis: Seq<bool>, v: StateView, ci: int) -> bool {
    forall|j: int| 0 <= j < ci && #[trigger] step_spec(v, dirpad_spec()[j]) is Some
        && pref_state(digits, step_spec(v, dirpad_spec()[j])->0) ==> vis[view_index(step_spec(v, dirpad_spec()[j])->0)]
}

/// More seen and more entries keep what is closed closed.
pub proof fn lemma_more_seen(digits: Seq<u8>, vis: Seq<bool>, work: Seq<Entry>, vis2: Seq<bool>, work2: Seq<Entry>, h: int, v: StateView, ci: int)
    requires
        vis2.len() == vis.len(),
        forall|i: int| 0 <= i < vis.len() && vis[i] ==> vis2[i],
        work.len() <= work2.len(),
        forall|t: int| 0 <= t < work.len() ==> work2[t] == work[t],
        0 <= h <= work.len(),
        closed_upto(digits, vis, work, h),
        tried(digits, vis, v, ci),
        digits.len() <= 8,
        vis.len() == 46575,
    ensures
        closed_upto(digits, vis2, work2, h),
        tried(digits, vis2, v, ci),
{
    assert forall|t: int, c: u8| 0 <= t < h && #[trigger] step_spec(entry_view(digits, work2[t]), c) is Some
        && pref_state(digits, step_spec(entry_view(digits, work2[t]), c)->0) implies vis2[view_index(
        step_spec(entry_view(digits, work2[t]), c)->0,
    )] by {
        assert(work2[t] == work[t]);
        let w = step_spec(entry_view(digits, work[t]), c)->0;
        lemma_view_index(digits, w, w);
    }
    assert forall|j: int| 0 <= j < ci && #[trigger] step_spec(v, dirpad_spec()[j]) is Some
        && pref_state(digits, step_spec(v, dirpad_spec()[j])->0) implies vis2[view_index(step_spec(v, dirpad_spec()[j])->0)] by {
        let w = step_spec(v, dirpad_spec()[j])->0;
        lemma_view_index(digits, w, w);
    }
}

/// Marking state `sv` seen and listing it keeps every seen state listed.
pub proof fn lemma_mark(digits: Seq<u8>, vis: Seq<bool>, work: Seq<Entry>, sv: StateView, en: Entry)
    requires
        digits.len() <= 8,
        vis.len() == 46575,
        seen_listed(digits, vis, work),
        pref_state(digits, sv),
        sv.0.len() < digits.len(),
        entry_view(digits, en) == sv,
    ensures
        seen_listed(digits, vis.update(view_index(sv), true), work.push(en)),
{
    lemma_view_index(digits, sv, sv);
    let vis2 = vis.update(view_index(sv), true);
    let work2 = work.push(en);
    assert forall|v: StateView| pref_state(digits, v) && #[trigger] vis2[view_index(v)] implies v.0.len() < digits.len() && exists|t: int|
        0 <= t < work2.len() && entry_view(digits, #[trigger] work2[t]) == v by {
        lemma_view_index(digits, v, sv);
        if v == sv {
            assert(entry_view(digits, work2[work.len() as int]) == v);
        } else {
            assert(vis[view_index(v)]);
            let t = choose|t: int| 0 <= t < work.len() && entry_view(digits, #[trigger] work[t]) == v;
            assert(work2[t] == work[t]);
        }
    }
}

/// Trying every key of the directional keypad from an entry takes it up.
pub proof fn lemma_tried_all(digits: Seq<u8>, vis: Seq<bool>, work: Seq<Entry>, hd: int)
    requires
        0 <= hd < work.len(),
        closed_upto(digits, vis, work, hd),
        tried(digits, vis, entry_view(digits, work[hd]), 15),
    ensures
        closed_upto(digits, vis, work, hd + 1),
{
    let d = dirpad_spec();
    assert(d[5] == 94u8 && d[6] == 65u8 && d[8] == 60u8 && d[9] == 118u8 && d[10] == 62u8);
    assert forall|t: int, c: u8| 0 <= t < hd + 1 && #[trigger] step_spec(entry_view(digits, work[t]), c) is Some
        && pref_state(digits, step_spec(entry_view(digits, work[t]), c)->0) implies vis[view_index(
        step_spec(entry_view(digits, work[t]), c)->0,
    )] by {
        if t == hd {
            lemma_step_keys(entry_view(digits, work[t]), c);
            if c == 94u8 {
                assert(step_spec(entry_view(digits, work[hd]), d[5]) is Some);
            } else if c == 65u8 {
                assert(step_spec(entry_view(digits, work[hd]), d[6]) is Some);
            } else if c == 60u8 {
                assert(step_spec(entry_view(digits, work[hd]), d[8]) is Some);
            } else if c == 118u8 {
                assert(step_spec(entry_view(digits, work[hd]), d[9]) is Some);
            } else {
                assert(step_spec(entry_view(digits, work[hd]), d[10]) is Some);
            }
        }
    }
}

/// The entries' press counts never fall along the search.
pub open spec fn counts_sorted(work: Seq<Entry>) -> bool {
    forall|t: int, u: int| 0 <= t < u < work.len() ==> (#[trigger] work[t]).count <= (#[trigger] work[u]).count
}

/// No entry needs more than one press more than entry `hd`.
pub open spec fn counts_near(work: Seq<Entry>, hd: int) -> bool {
    forall|t: int| 0 <= t < work.len() ==> (#[trigger] work[t]).count <= work[hd].count + 1
}

/// Each state one press from one of the first `h` entries has an entry of at most one
/// press more.
pub open spec fn closed_counts(digits: Seq<u8>, work: Seq<Entry>, h: int) -> bool {
    forall|t: int, c: u8| 0 <= t < h && #[trigger] step_spec(entry_view(digits, work[t]), c) is Some
        && pref_state(digits, step_spec(entry_view(digits, work[t]), c)->0) ==> exists|u: int|
        0 <= u < work.len() && entry_view(digits, #[trigger] work[u]) == step_spec(entry_view(digits, work[t]), c)->0
            && work[u].count <= work[t].count + 1
}

/// The presses of the first `ci` keys from state `v`, of `ce` presses, have entries of at
/// most one press more.
pub open spec fn tried_counts(digits: Seq<u8>, work: Seq<Entry>, v: StateView, ce: int, ci: int) -> bool {
    forall|j: int| 0 <= j < ci && #[trigger] step_spec(v, dirpad_spec()[j]) is Some
        && pref_state(digits, step_spec(v, dirpad_spec()[j])->0) ==> exists|u: int|
        0 <= u < work.len() && entry_view(digits, #[trigger] work[u]) == step_spec(v, dirpad_spec()[j])->0
            && work[u].count <= ce + 1
}

/// Presses, at most `m` of them, where every entry of fewer than `m` presses is taken up,
/// reach only states that have been seen, with an entry of no more presses.
pub proof fn lemma_bfs_lower(digits: Seq<u8>, vis: Seq<bool>, work: Seq<Entry>, hd: int, m: int, bs: Seq<u8>)
    requires
        digits.len() <= 8,
        vis.len() == 46575,
        0 <= hd <= work.len(),
        work.len() >= 1,
        entry_view(digits, work[0]) == start_view(),
        work[0].count == 0,
        seen_listed(digits, vis, work),
        closed_upto(digits, vis, work, hd),
        closed_counts(digits, work, hd),
        forall|u: int| 0 <= u < work.len() && #[trigger] work[u].count < m ==> u < hd,
        1 <= bs.len() <= m,
        run_keys(start_view(), bs) is Some,
        pref_state(digits, run_keys(start_view(), bs)->0),
    ensures
        vis[view_index(run_keys(start_view(), bs)->0)],
        exists|u: int| 0 <= u < work.len() && entry_view(digits, #[trigger] work[u]) == run_keys(start_view(), bs)->0
            && work[u].count <= bs.len(),
    decreases bs.len(),
{
    let b = bs.drop_last();
    let c = bs.last();
    let v = run_keys(start_view(), b)->0;
    let w = run_keys(start_view(), bs)->0;
    assert(step_spec(v, c) == Some(w));
    if b.len() == 0 {
        assert(work[0].count < m);
        assert(step_spec(entry_view(digits, work[0]), c) is Some);
    } else {
        lemma_run_ok(b);
        lemma_step_grows(v, c);
        assert(pref_state(digits, v)) by {
            assert(digits.take(v.0.len() as int) =~= digits.take(w.0.len() as int).take(v.0.len() as int));
        }
        lemma_bfs_lower(digits, vis, work, hd, m, b);
        let u = choose|u: int| 0 <= u < work.len() && entry_view(digits, #[trigger] work[u]) == v && work[u].count <= b.len();
        assert(work[u].count < m);
        assert(step_spec(entry_view(digits, work[u]), c) is Some);
    }
}

/// Trying every key from an entry records its successors' counts.
pub proof fn lemma_tried_counts_all(digits: Seq<u8>, work: Seq<Entry>, hd: int)
    requires
        0 <= hd < work.len(),
        closed_counts(digits, work, hd),
        tried_counts(digits, work, entry_view(digits, work[hd]), work[hd].count as int, 15),
    ensures
        closed_counts(digits, work, hd + 1),
{
    let d = dirpad_spec();
    assert(d[5] == 94u8 && d[6] == 65u8 && d[8] == 60u8 && d[9] == 118u8 && d[10] == 62u8);
    assert forall|t: int, c: u8| 0 <= t < hd + 1 && #[trigger] step_spec(entry_view(digits, work[t]), c) is Some
        && pref_state(digits, step_spec(entry_view(digits, work[t]), c)->0) implies exists|u: int|
        0 <= u < work.len() && entry_view(digits, #[trigger] work[u]) == step_spec(entry_view(digits, work[t]), c)->0
            && work[u].count <= work[t].count + 1 by {
        if t == hd {
            lemma_step_keys(entry_view(digits, work[t]), c);
            if c == 94u8 {
                assert(step_spec(entry_view(digits, work[hd]), d[5]) is Some);
            } else if c == 65u8 {
                assert(step_spec(entry_view(digits, work[hd]), d[6]) is Some);
            } else if c == 60u8 {
                assert(step_spec(entry_view(digits, work[hd]), d[8]) is Some);
            } else if c == 118u8 {
                assert(step_spec(entry_view(digits, work[hd]), d[9]) is Some);
            } else {
                assert(step_spec(entry_view(digits, work[hd]), d[10]) is Some);
            }
        }
    }
}

/// More entries keep recorded counts.
pub proof fn lemma_counts_grow(digits: Seq<u8>, work: Seq<Entry>, work2: Seq<Entry>, hd: int, v: StateView, ce: int, ci: int)
    requires
        work.len() <= work2.len(),
        forall|t: int| 0 <= t < work.len() ==> work2[t] == work[t],
        0 <= hd <= work.len(),
        closed_counts(digits, work, hd),
        tried_counts(digits, work, v, ce, ci),
    ensures
        closed_counts(digits, work2, hd),
        tried_counts(digits, work2, v, ce, ci),
{
    assert forall|t: int, c: u8| 0 <= t < hd && #[trigger] step_spec(entry_view(digits, work2[t]), c) is Some
        && pref_state(digits, step_spec(entry_view(digits, work2[t]), c)->0) implies exists|u: int|
        0 <= u < work2.len() && entry_view(digits, #[trigger] work2[u]) == step_spec(entry_view(digits, work2[t]), c)->0
            && work2[u].count <= work2[t].count + 1 by {
        assert(work2[t] == work[t]);
        let u = choose|u: int| 0 <= u < work.len() && entry_view(digits, #[trigger] work[u]) == step_spec(entry_view(digits, work[t]), c)->0
            && work[u].count <= work[t].count + 1;
        assert(work2[u] == work[u]);
    }
    assert forall|j: int| 0 <= j < ci && #[trigger] step_spec(v, dirpad_spec()[j]) is Some
        && pref_state(digits, step_spec(v, dirpad_spec()[j])->0) implies exists|u: int|
        0 <= u < work2.len() && entry_view(digits, #[trigger] work2[u]) == step_spec(v, dirpad_spec()[j])->0
            && work2[u].count <= ce + 1 by {
        let u = choose|u: int| 0 <= u < work.len() && entry_view(digits, #[trigger] work[u]) == step_spec(v, dirpad_spec()[j])->0
            && work[u].count <= ce + 1;
        assert(work2[u] == work[u]);
    }
}

/// Where the search is closed, every state that presses reach, whose typed keys begin the
/// code, has been seen.
pub proof fn lemma_closed(digits: Seq<u8>, vis: Seq<bool>, work: Seq<Entry>, bs: Seq<u8>)
    requires
        digits.len() <= 8,
        vis.len() == 46575,
        work.len() >= 1,
        entry_view(digits, work[0]) == start_view(),
        seen_listed(digits, vis, work),
        closed_upto(digits, vis, work, work.len() as int),
        bs.len() >= 1,
        run_keys(start_view(), bs) is Some,
        pref_state(digits, run_keys(start_view(), bs)->0),
    ensures
        vis[view_index(run_keys(start_view(), bs)->0)],
    decreases bs.len(),
{
    let b = bs.drop_last();
    let c = bs.last();
    let v = run_keys(start_view(), b)->0;
    let w = run_keys(start_view(), bs)->0;
    assert(step_spec(v, c) == Some(w));
    if b.len() == 0 {
        assert(step_spec(entry_view(digits, work[0]), c) is Some);
    } else {
        lemma_run_ok(b);
        lemma_step_grows(v, c);
        assert(pref_state(digits, v)) by {
            assert(digits.take(v.0.len() as int) =~= digits.take(w.0.len() as int).take(v.0.len() as int));
        }
        lemma_closed(digits, vis, work, b);
        lemma_view_index(digits, v, v);
        let t = choose|t: int| 0 <= t < work.len() && entry_view(digits, #[trigger] work[t]) == v;
        assert(step_spec(entry_view(digits, work[t]), c) is Some);
    }
}

/// Where the search ends without typing the code, no presses type it.
pub proof fn lemma_not_typeable(digits: Seq<u8>, vis: Seq<bool>, work: Seq<Entry>)
    requires
        digits.len() <= 8,
        vis.len() == 46575,
        work.len() >= 1,
        entry_view(digits, work[0]) == start_view(),
        seen_listed(digits, vis, work),
        closed_upto(digits, vis, work, work.len() as int),
    ensures
        !typeable(digits),
{
    if typeable(digits) {
        let bs = choose|bs: Seq<u8>| bs.len() >= 1 && #[trigger] run_keys(start_view(), bs) is Some && (run_keys(start_view(), bs)->0).0 == digits;
        let w = run_keys(start_view(), bs)->0;
        lemma_run_ok(bs);
        assert(digits.take(digits.len() as int) =~= digits);
        assert(pref_state(digits, w));
        lemma_closed(digits, vis, work, bs);
        lemma_view_index(digits, w, w);
    }
}

/// Whether `out` begins `digits`.
fn is_prefix(out: &[u8], digits: &[u8]) -> (r: bool)
    ensures
        r == (out@.len() <= digits@.len() && digits@.take(out@.len() as int) == out@),
{
    if out.len() > digits.len() {
        return false;
    }
    let mut i: usize = 0;
    while i < out.len()
        invariant
            out@.len() <= digits@.len(),
            i <= out@.len(),
            forall|k: int| 0 <= k < i ==> out@[k] == digits@[k],
        decreases out@.len() - i,
    {
        if out[i] != digits[i] {
            assert(digits@.take(out@.len() as int)[i as int] != out@[i as int]);
            return false;
        }
        i += 1;
    }
    assert(digits@.take(out@.len() as int) =~= out@);
    true
}

/// The presses along the links from node `n` back to the start.
fn path_keys(links: &Vec<(u8, usize)>, n: usize) -> (r: Vec<u8>)
    requires
        links_ok(links@),
        n <= links@.len(),
    ensures
        r@ == path(links@, n as int),
{
    let mut acc: Vec<u8> = Vec::new();
    let mut cur = n;
    while cur > 0
        invariant
            links_ok(links@),
            cur <= links@.len(),
            path(links@, n as int) == path(links@, cur as int) + Seq::new(acc@.len(), |i: int| acc@[acc@.len() - 1 - i]),
        decreases cur,
    {
        let (c, pr) = links[cur - 1];
        assert(links@[cur - 1].1 <= cur - 1);
        let ghost before = acc@;
        acc.push(c);
        proof {
            assert(path(links@, cur as int) == path(links@, pr as int).push(c));
            assert(Seq::new(acc@.len(), |i: int| acc@[acc@.len() - 1 - i]) =~= seq![c] + Seq::new(before.len(), |i: int| before[before.len() - 1 - i]));
            assert(path(links@, pr as int).push(c) + Seq::new(before.len(), |i: int| before[before.len() - 1 - i]) =~= path(links@, pr as int) + (seq![c] + Seq::new(before.len(), |i: int| before[before.len() - 1 - i])));
        }
        cur = pr;
    }
    let mut r: Vec<u8> = Vec::new();
    let mut i: usize = 0;
    while i < acc.len()
        invariant
            i <= acc@.len(),
            r@ == Seq::new(i as nat, |t: int| acc@[acc@.len() - 1 - t]),
        decreases acc@.len() - i,
    {
        r.push(acc[acc.len() - 1 - i]);
        i += 1;
        assert(r@ =~= Seq::new(i as nat, |t: int| acc@[acc@.len() - 1 - t]));
    }
    assert(path(links@, 0) =~= Seq::<u8>::empty());
    assert(r@ =~= path(links@, n as int));
    r
}

/// `key_push_count`: a search, breadth first, for presses on the outermost keypad that
/// make the chain type the code, pruned where what is typed stops beginning the code;
/// the number of presses and the presses. The code has at most eight keys.
pub fn key_push_count(digits: &str) -> (r: Option<(usize, String)>)
    requires
        digits.spec_bytes().len() <= 8,
    ensures
        r matches Some((n, s)) ==> exists|bs: Seq<u8>| {
            &&& s@ == chars_of(bs)
            &&& bs.len() == n
            &&& n >= 1
            &&& run_keys(start_view(), bs) matches Some(w) && w.0 == digits.spec_bytes()
        },
        r matches Some((n, s)) ==> forall|bs: Seq<u8>| bs.len() >= 1 && #[trigger] run_keys(start_view(), bs) is Some
            && (run_keys(start_view(), bs)->0).0 == digits.spec_bytes() ==> bs.len() >= n,
        r is None <==> !typeable(digits.spec_bytes()),
{
    let dg = digits.as_bytes();
    let dp = dirpad();
    let ghost dv = dg@;
    let mut vis: Vec<bool> = Vec::new();
    let mut k: usize = 0;
    while k < 46575
        invariant
            k <= 46575,
            vis@.len() == k,
            count_false(vis@) == k,
            forall|i: int| 0 <= i < k ==> !vis@[i],
        decreases 46575 - k,
    {
        let ghost before = vis@;
        vis.push(false);
        assert(vis@.drop_last() =~= before);
        k += 1;
    }
    let mut links: Vec<(u8, usize)> = Vec::new();
    let mut work: Vec<Entry> = Vec::new();
    let mut head: usize = 0;
    work.push(Entry { r0: 6, r1: 6, r2: 18, ikey: 0, count: 0, node: 0 });
    assert(dv.take(0) =~= Seq::<u8>::empty());
    assert(path(links@, 0) == Seq::<u8>::empty());
    assert(entry_view(dv, work@[0]) == start_view());
    assert(work@[0].count == 0);
    assert(counts_near(work@, 0));
    assert(dirpad_spec()[6] == 65u8);
    assert(numpad_spec()[18] == 65u8);
    while head < work.len()
        invariant
            dv == dg@,
            dv == digits.spec_bytes(),
            dv.len() <= 8,
            dp@ == dirpad_spec(),
            vis@.len() == 46575,
            head <= work@.len(),
            links_ok(links@),
            links@.len() + count_false(vis@) <= 46575,
            forall|t: int| 0 <= t < work@.len() ==> entry_ok(dv, links@, #[trigger] work@[t]),
            forall|t: int| 0 <= t < links@.len() ==> pad_char((#[trigger] links@[t]).0),
            seen_listed(dv, vis@, work@),
            work@.len() >= 1,
            entry_view(dv, work@[0]) == start_view(),
            closed_upto(dv, vis@, work@, head as int),
            counts_sorted(work@),
            head < work@.len() ==> counts_near(work@, head as int),
            closed_counts(dv, work@, head as int),
            work@[0].count == 0,
        decreases count_false(vis@), work@.len() - head,
    {
        let e = Entry { r0: work[head].r0, r1: work[head].r1, r2: work[head].r2, ikey: work[head].ikey, count: work[head].count, node: work[head].node };
        assert(entry_ok(dv, links@, work@[head as int]));
        let ghost hd = head as int;
        assert(entry_view(dv, e) == entry_view(dv, work@[hd]));
        head += 1;
        proof {
            lemma_path_len(links@, e.node as int);
        }
        let next_count = e.count + 1;
        let mut keys: Vec<u8> = Vec::new();
        let mut t: usize = 0;
        while t < e.ikey
            invariant
                e.ikey <= dv.len(),
                dv == dg@,
                t <= e.ikey,
                keys@ == dv.take(t as int),
            decreases e.ikey - t,
        {
            keys.push(dg[t]);
            t += 1;
            assert(keys@ =~= dv.take(t as int));
        }
        let st = State { keys, r0: e.r0, r1: e.r1, r2: e.r2 };
        let ghost cf0 = count_false(vis@);
        let ghost vis_start = vis@;
        let ghost work_start = work@;
        let ghost wl0 = work@.len();
        let mut ci: usize = 0;
        while ci < 15
            invariant
                dv == dg@,
                dv == digits.spec_bytes(),
                dv.len() <= 8,
                dp@ == dirpad_spec(),
                vis@.len() == 46575,
                head <= work@.len(),
                links_ok(links@),
                links@.len() + count_false(vis@) <= 46575,
                forall|t: int| 0 <= t < work@.len() ==> entry_ok(dv, links@, #[trigger] work@[t]),
                forall|t: int| 0 <= t < links@.len() ==> pad_char((#[trigger] links@[t]).0),
                st.wf(),
                st.keys@ == dv.take(e.ikey as int),
                st.view_s() == entry_view(dv, e),
                e.ikey <= dv.len(),
                e.ikey < 8,
                hd == head - 1,
                0 <= hd < work@.len(),
                entry_view(dv, e) == entry_view(dv, work@[hd]),
                seen_listed(dv, vis@, work@),
                work@.len() >= 1,
                entry_view(dv, work@[0]) == start_view(),
                closed_upto(dv, vis@, work@, hd),
                tried(dv, vis@, entry_view(dv, e), ci as int),
                counts_sorted(work@),
                counts_near(work@, hd),
                closed_counts(dv, work@, hd),
                tried_counts(dv, work@, entry_view(dv, e), e.count as int, ci as int),
                work@[hd].count == e.count,
                work@[0].count == 0,
                vis_start.len() == 46575,
                seen_listed(dv, vis_start, work_start),
                closed_upto(dv, vis_start, work_start, hd),
                closed_counts(dv, work_start, hd),
                counts_sorted(work_start),
                work_start.len() >= 1,
                entry_view(dv, work_start[0]) == start_view(),
                work_start[0].count == 0,
                hd < work_start.len(),
                work_start[hd].count == e.count,
                e.node <= links@.len(),
                e.count == path(links@, e.node as int).len(),
                e.count <= links@.len(),
                next_count == e.count + 1,
                run_keys(start_view(), path(links@, e.node as int)) == Some(st.view_s()),
                count_false(vis@) + (work@.len() - wl0) <= cf0,
                work@.len() >= wl0,
            decreases 15 - ci,
        {
            let c = dp[ci];
            let ghost vis0 = vis@;
            let ghost work0 = work@;
            assert(c == dirpad_spec()[ci as int]);
            match st.step(c) {
                Some(s) => {
                    proof {
                        lemma_step_ok(st.view_s(), c);
                    }
                    if is_prefix(s.output(), dg) {
                        proof {
                            assert(pref_state(dv, s.view_s()));
                            lemma_view_index(dv, s.view_s(), s.view_s());
                        }
                        let ik = s.keys.len();
                        proof {
                            assert(s.r0 < 15 && s.r1 < 15 && s.r2 < 23);
                            assert(0 <= state_index(ik as int, s.r0 as int, s.r1 as int, s.r2 as int) < 46575) by (nonlinear_arith)
                                requires ik <= 8, s.r0 < 15, s.r1 < 15, s.r2 < 23;
                        }
                        let idx = ((ik * 15 + s.r0 as usize) * 15 + s.r1 as usize) * 23 + s.r2 as usize;
                        assert(idx == view_index(s.view_s()));
                        if !vis[idx] {
                            let ghost oldv = vis@;
                            vis.set(idx, true);
                            proof {
                                lemma_count_false_set(oldv, idx as int);
                            }
                            let ghost oldl = links@;
                            links.push((c, e.node));
                            let node = links.len();
                            proof {
                                lemma_path_grow(oldl, (c, e.node), e.node as int);
                                assert(links@[node - 1] == (c, e.node));
                                assert(path(links@, node as int) == path(oldl, e.node as int).push(c));
                                assert(path(oldl, e.node as int).push(c).drop_last() =~= path(oldl, e.node as int));
                                assert(run_keys(start_view(), path(links@, node as int)) == Some(s.view_s()));
                                assert forall|t: int| 0 <= t < work@.len() implies entry_ok(dv, links@, #[trigger] work@[t]) by {
                                    let w = work@[t];
                                    assert(entry_ok(dv, oldl, w));
                                    lemma_path_grow(oldl, (c, e.node), w.node as int);
                                }
                                assert forall|t: int| 0 <= t < links@.len() implies pad_char((#[trigger] links@[t]).0) by {
                                    if t < oldl.len() {
                                        assert(links@[t] == oldl[t]);
                                    }
                                }
                            }
                            if ik == dg.len() {
                                let bs = path_keys(&links, node);
                                proof {
                                    lemma_path_chars(links@, node as int);
                                }
                                let mut out = String::new();
                                let mut bytes: Vec<u8> = Vec::new();
                                let mut u: usize = 0;
                                assert(out@ =~= chars_of(bytes@));
                                while u < bs.len()
                                    invariant
                                        u <= bs@.len(),
                                        bytes@ == bs@.take(u as int),
                                        out@ == chars_of(bytes@),
                                        forall|j: int| 0 <= j < bs@.len() ==> pad_char(#[trigger] bs@[j]),
                                    decreases bs@.len() - u,
                                {
                                    push_key(&mut out, &mut bytes, bs[u]);
                                    u += 1;
                                    assert(bytes@ =~= bs@.take(u as int));
                                }
                                proof {
                                    assert(bs@.take(bs@.len() as int) =~= bs@);
                                    assert(s.keys@ =~= dv);
                                    assert(path(links@, node as int).len() == next_count);
                                    assert(out@ == chars_of(bs@));
                                    assert(run_keys(start_view(), bs@) == Some(s.view_s()));
                                    assert(s.view_s().0 == digits.spec_bytes());
                                    assert forall|xs: Seq<u8>| xs.len() >= 1 && #[trigger] run_keys(start_view(), xs) is Some
                                        && (run_keys(start_view(), xs)->0).0 == digits.spec_bytes() implies xs.len() >= next_count by {
                                        if xs.len() < next_count {
                                            let w = run_keys(start_view(), xs)->0;
                                            lemma_run_ok(xs);
                                            assert(dv.take(dv.len() as int) =~= dv);
                                            assert(pref_state(dv, w));
                                            assert forall|u: int| 0 <= u < work_start.len() && #[trigger] work_start[u].count < e.count implies u < hd by {
                                                if u >= hd {
                                                    assert(work_start[hd].count <= work_start[u].count);
                                                }
                                            }
                                            lemma_bfs_lower(dv, vis_start, work_start, hd, e.count as int, xs);
                                            lemma_view_index(dv, w, w);
                                        }
                                    }
                                }
                                return Some((next_count, out));
                            }
                            proof {
                                assert(ik < dv.len());
                                assert(dv.take(ik as int) == s.keys@);
                            }
                            let en = Entry { r0: s.r0, r1: s.r1, r2: s.r2, ikey: ik, count: next_count, node };
                            proof {
                                assert(entry_view(dv, en) == s.view_s());
                                lemma_mark(dv, vis0, work0, s.view_s(), en);
                            }
                            work.push(en);
                            proof {
                                lemma_more_seen(dv, vis0, work0, vis@, work@, hd, entry_view(dv, e), ci as int);
                                assert(work@[hd] == work0[hd]);
                                assert(work@[0] == work0[0]);
                                assert forall|t: int, u: int| 0 <= t < u < work@.len() implies (#[trigger] work@[t]).count <= (#[trigger] work@[u]).count by {
                                    assert(work@[t] == work0[t]);
                                    if u < work0.len() {
                                        assert(work@[u] == work0[u]);
                                    }
                                }
                                assert forall|t: int| 0 <= t < work@.len() implies (#[trigger] work@[t]).count <= work@[hd].count + 1 by {
                                    if t < work0.len() {
                                        assert(work@[t] == work0[t]);
                                    }
                                }
                                lemma_counts_grow(dv, work0, work@, hd, entry_view(dv, e), e.count as int, ci as int);
                            }
                        }
                    }
                },
                None => {},
            }
            proof {
                let v = entry_view(dv, e);
                assert(tried(dv, vis@, v, ci + 1));
                if step_spec(v, c) is Some && pref_state(dv, step_spec(v, c)->0) {
                    let w = step_spec(v, c)->0;
                    assert(step_spec(v, dirpad_spec()[ci as int]) is Some);
                    assert(vis@[view_index(w)]);
                    let u = choose|u: int| 0 <= u < work@.len() && entry_view(dv, #[trigger] work@[u]) == w;
                    assert(work@[u].count <= work@[hd].count + 1);
                }
                assert(tried_counts(dv, work@, v, e.count as int, ci + 1));
            }
            ci += 1;
        }
        proof {
            lemma_tried_all(dv, vis@, work@, hd);
            lemma_tried_counts_all(dv, work@, hd);
            if head < work@.len() {
                assert(work@[hd].count <= work@[head as int].count);
                assert(counts_near(work@, head as int));
            }
        }
    }
    proof {
        lemma_not_typeable(dv, vis@, work@);
    }
    None
}


/// The presses at each level of the chain for a code: the code itself, then the moves on
/// the numeric keypad, then the moves on directional keypads, each for the one before.
pub open spec fn rec_level(digits: Seq<u8>, i: nat) -> Seq<u8>
    decreases i,
{
    if i == 0 {
        digits
    } else if i == 1 {
        moves_of(numpad_spec(), digits)
    } else {
        moves_of(dirpad_spec(), rec_level(digits, (i - 1) as nat))
    }
}

/// `sim_rec`: the presses at each of the first `n` levels of the chain for a code, after
/// the code itself.
pub fn sim_rec(digits: &str, n: usize) -> (r: Vec<String>)
    ensures
        r@.len() == n + 1,
        r@[0]@ == digits@,
        forall|i: int| 1 <= i <= n ==> (#[trigger] r@[i])@ == chars_of(rec_level(digits.spec_bytes(), i as nat)),
{
    proof {
        lemma_pads_ok();
    }
    let np = numpad();
    let dp = dirpad();
    let mut r: Vec<String> = Vec::new();
    r.push(digits.to_owned());
    let mut cur: Vec<u8> = copy_bytes_slice(digits.as_bytes());
    let mut i: usize = 0;
    while i < n
        invariant
            i <= n,
            np@ == numpad_spec(),
            dp@ == dirpad_spec(),
            r@.len() == i + 1,
            r@[0]@ == digits@,
            cur@ == rec_level(digits.spec_bytes(), i as nat),
            forall|t: int| 1 <= t <= i ==> (#[trigger] r@[t])@ == chars_of(rec_level(digits.spec_bytes(), t as nat)),
        decreases n - i,
    {
        let (text, bytes) = if i == 0 {
            moves_both(np.as_slice(), cur.as_slice())
        } else {
            moves_both(dp.as_slice(), cur.as_slice())
        };
        let ghost before = r@;
        r.push(text);
        proof {
            assert forall|t: int| 1 <= t <= i + 1 implies (#[trigger] r@[t])@ == chars_of(rec_level(digits.spec_bytes(), t as nat)) by {
                if t <= i {
                    assert(r@[t] == before[t]);
                }
            }
        }
        cur = bytes;
        i += 1;
    }
    r
}

/// A copy of a list of bytes.
fn copy_bytes_slice(v: &[u8]) -> (r: Vec<u8>)
    ensures
        r@ == v@,
{
    let mut r: Vec<u8> = Vec::new();
    let mut i: usize = 0;
    while i < v.len()
        invariant
            i <= v@.len(),
            r@ == v@.take(i as int),
        decreases v@.len() - i,
    {
        r.push(v[i]);
        i += 1;
        assert(r@ =~= v@.take(i as int));
    }
    assert(v@.take(v@.len() as int) =~= v@);
    r
}

/// A move across `dx` columns and `dy` rows, across first where `x_first`.
#[derive(Debug, Clone, Copy)]
pub struct Movement {
    pub dx: i32,
    pub dy: i32,
    pub x_first: bool,
}

impl Movement {
    /// `dx_chars`: the presses across.
    pub fn dx_chars(&self) -> (r: String)
        requires
            -5 <= self.dx <= 5,
        ensures
            r@ == chars_of(if self.dx < 0 { keys_run(60u8, -self.dx) } else { keys_run(62u8, self.dx as int) }),
    {
        let mut out = String::new();
        let mut bytes: Vec<u8> = Vec::new();
        assert(out@ =~= chars_of(bytes@));
        if self.dx < 0 {
            push_run(&mut out, &mut bytes, 60u8, -self.dx);
        } else {
            push_run(&mut out, &mut bytes, 62u8, self.dx);
        }
        assert(bytes@ =~= (if self.dx < 0 { keys_run(60u8, -self.dx) } else { keys_run(62u8, self.dx as int) }));
        out
    }

    /// `dy_chars`: the presses up or down.
    pub fn dy_chars(&self) -> (r: String)
        requires
            -5 <= self.dy <= 5,
        ensures
            r@ == chars_of(if self.dy < 0 { keys_run(94u8, -self.dy) } else { keys_run(118u8, self.dy as int) }),
    {
        let mut out = String::new();
        let mut bytes: Vec<u8> = Vec::new();
        assert(out@ =~= chars_of(bytes@));
        if self.dy < 0 {
            push_run(&mut out, &mut bytes, 94u8, -self.dy);
        } else {
            push_run(&mut out, &mut bytes, 118u8, self.dy);
        }
        assert(bytes@ =~= (if self.dy < 0 { keys_run(94u8, -self.dy) } else { keys_run(118u8, self.dy as int) }));
        out
    }

    /// `move_chars`: the presses across and up or down, in the order the move makes them.
    pub fn move_chars(&self) -> (r: (String, String))
        requires
            -5 <= self.dx <= 5,
            -5 <= self.dy <= 5,
        ensures
            self.x_first ==> r.0@ == chars_of(if self.dx < 0 { keys_run(60u8, -self.dx) } else { keys_run(62u8, self.dx as int) })
                && r.1@ == chars_of(if self.dy < 0 { keys_run(94u8, -self.dy) } else { keys_run(118u8, self.dy as int) }),
            !self.x_first ==> r.1@ == chars_of(if self.dx < 0 { keys_run(60u8, -self.dx) } else { keys_run(62u8, self.dx as int) })
                && r.0@ == chars_of(if self.dy < 0 { keys_run(94u8, -self.dy) } else { keys_run(118u8, self.dy as int) }),
    {
        if self.x_first {
            (self.dx_chars(), self.dy_chars())
        } else {
            (self.dy_chars(), self.dx_chars())
        }
    }
}

/// `Apply`: hands a value to a function.
pub trait Apply<Res>: Sized {
    fn apply<F: FnOnce(Self) -> Res>(self, f: F) -> (r: Res)
        requires
            f.requires((self,)),
        ensures
            f.ensures((self,), r),
    {
        f(self)
    }
}

impl<T, Res> Apply<Res> for T {
}

/// The answers: the complexities of the codes summed; the second part is left empty.
pub fn run(input: &str) -> (r: Result<String, crate::error::AocError>)
    requires
        codes_total(lines_of(input.spec_bytes()), lines_of(input.spec_bytes()).len() as int) <= usize::MAX,
    ensures
        r matches Ok(out) && out@ == crate::text::dec(codes_total(lines_of(input.spec_bytes()), lines_of(input.spec_bytes()).len() as int)) + " "@,
{
    let s1 = star1(input);
    let mut out = String::new();
    push_dec(&mut out, s1 as u64);
    push_str(&mut out, " ");
    proof {
        reveal_strlit(" ");
    }
    Ok(out)
}

} // verus!
