//! Byte-level text handling: decimal numbers, line and field splitting,
//! and decimal rendering of answers.

use vstd::prelude::*;

verus! {

pub open spec fn is_digit(b: u8) -> bool {
    48 <= b && b <= 57
}

pub open spec fn digit_val(b: u8) -> nat {
    (b - 48) as nat
}

/// Value of a string of decimal digits, most significant first.
pub open spec fn digits_value(s: Seq<u8>) -> nat
    decreases s.len(),
{
    if s.len() == 0 {
        0
    } else {
        digits_value(s.drop_last()) * 10 + digit_val(s.last())
    }
}

pub open spec fn all_digits(s: Seq<u8>) -> bool {
    forall|i: int| 0 <= i < s.len() ==> is_digit(#[trigger] s[i])
}

/// A non-empty run of digits and its value.
pub open spec fn plain_value(s: Seq<u8>) -> Option<nat> {
    if s.len() > 0 && all_digits(s) {
        Some(digits_value(s))
    } else {
        None
    }
}

/// What `str::parse` for an unsigned integer type reads from `s`, before the range check:
/// an optional `+` and at least one digit.
pub open spec fn unsigned_value(s: Seq<u8>) -> Option<nat> {
    if s.len() > 0 && s[0] == 43u8 {
        plain_value(s.drop_first())
    } else {
        plain_value(s)
    }
}

/// What `str::parse` for a signed integer type reads from `s`, before the range check:
/// an optional `+` or `-` and at least one digit.
pub open spec fn signed_value(s: Seq<u8>) -> Option<int> {
    if s.len() > 0 && s[0] == 45u8 {
        match plain_value(s.drop_first()) {
            Some(v) => Some(-(v as int)),
            None => None,
        }
    } else {
        match unsigned_value(s) {
            Some(v) => Some(v as int),
            None => None,
        }
    }
}

/// The value of `s` read as an unsigned number that is at most `max`.
pub open spec fn unsigned_in(s: Seq<u8>, max: int) -> Option<nat> {
    match unsigned_value(s) {
        Some(v) => if v <= max { Some(v) } else { None },
        None => None,
    }
}

/// The value of `s` read as a signed number in `min..=max`.
pub open spec fn signed_in(s: Seq<u8>, min: int, max: int) -> Option<int> {
    match signed_value(s) {
        Some(v) => if min <= v <= max { Some(v) } else { None },
        None => None,
    }
}

pub proof fn lemma_digits_prefix(s: Seq<u8>, k: int)
    requires
        0 <= k <= s.len(),
    ensures
        digits_value(s.take(k)) <= digits_value(s),
    decreases s.len() - k,
{
    if k < s.len() {
        lemma_digits_prefix(s, k + 1);
        assert(s.take(k + 1).drop_last() =~= s.take(k));
    } else {
        assert(s.take(k) =~= s);
    }
}

/// Reads the run of digits `s[start..end]`, at most `u64::MAX`.
fn parse_digits(s: &[u8], start: usize, end: usize) -> (r: Option<u64>)
    requires
        start <= end <= s@.len(),
    ensures
        r == (match plain_value(s@.subrange(start as int, end as int)) {
            Some(v) => if v <= u64::MAX { Some(v as u64) } else { None },
            None => None,
        }),
{
    let ghost d = s@.subrange(start as int, end as int);
    if start == end {
        return None;
    }
    let mut i = start;
    while i < end
        invariant
            start <= i <= end <= s@.len(),
            d == s@.subrange(start as int, end as int),
            forall|j: int| start <= j < i ==> is_digit(#[trigger] s@[j]),
        decreases end - i,
    {
        if !(48 <= s[i] && s[i] <= 57) {
            assert(d[i - start] == s@[i as int]);
            return None;
        }
        i += 1;
    }
    assert(all_digits(d)) by {
        assert forall|j: int| 0 <= j < d.len() implies is_digit(#[trigger] d[j]) by {
            assert(d[j] == s@[start + j]);
        }
    }
    let mut acc: u64 = 0;
    let mut k = start;
    while k < end
        invariant
            start <= k <= end <= s@.len(),
            d == s@.subrange(start as int, end as int),
            all_digits(d),
            acc as nat == digits_value(d.take(k - start)),
        decreases end - k,
    {
        let ghost t = d.take(k - start + 1);
        assert(t.drop_last() =~= d.take(k - start));
        assert(t.last() == s@[k as int]);
        let dg = (s[k] - 48) as u64;
        if acc > (u64::MAX - dg) / 10 {
            proof {
                assert(digits_value(t) == acc * 10 + dg);
                assert(acc * 10 + dg > u64::MAX) by (nonlinear_arith)
                    requires acc > (u64::MAX - dg) / 10, dg <= 9;
                lemma_digits_prefix(d, k - start + 1);
            }
            return None;
        }
        proof {
            assert(acc * 10 + dg <= u64::MAX) by (nonlinear_arith)
                requires acc <= (u64::MAX - dg) / 10, dg <= 9;
        }
        acc = acc * 10 + dg;
        k += 1;
    }
    assert(d.take(end - start) =~= d);
    Some(acc)
}

/// `str::parse::<u64>`.
pub fn parse_u64(s: &[u8]) -> (r: Option<u64>)
    ensures
        r == (match unsigned_in(s@, u64::MAX as int) {
            Some(v) => Some(v as u64),
            None => None,
        }),
{
    if s.len() > 0 && s[0] == 43u8 {
        assert(s@.drop_first() =~= s@.subrange(1, s@.len() as int));
        parse_digits(s, 1, s.len())
    } else {
        assert(s@ =~= s@.subrange(0, s@.len() as int));
        parse_digits(s, 0, s.len())
    }
}

/// `str::parse::<i64>`.
pub fn parse_i64(s: &[u8]) -> (r: Option<i64>)
    ensures
        r == (match signed_in(s@, i64::MIN as int, i64::MAX as int) {
            Some(v) => Some(v as i64),
            None => None,
        }),
{
    if s.len() > 0 && s[0] == 45u8 {
        assert(s@.drop_first() =~= s@.subrange(1, s@.len() as int));
        match parse_digits(s, 1, s.len()) {
            Some(v) => {
                if v <= 9223372036854775808u64 {
                    if v == 9223372036854775808u64 {
                        Some(i64::MIN)
                    } else {
                        Some(-(v as i64))
                    }
                } else {
                    None
                }
            },
            None => None,
        }
    } else {
        match parse_u64(s) {
            Some(v) => if v <= i64::MAX as u64 { Some(v as i64) } else { None },
            None => None,
        }
    }
}


/// The contents of each vector of bytes.
pub open spec fn views(v: Seq<Vec<u8>>) -> Seq<Seq<u8>> {
    Seq::new(v.len(), |i: int| v[i]@)
}

/// `s` cut at every `sep`, as `str::split` with a single-byte pattern does.
pub open spec fn split_on(s: Seq<u8>, sep: u8) -> Seq<Seq<u8>>
    decreases s.len(),
{
    if s.len() == 0 {
        seq![Seq::empty()]
    } else {
        let init = split_on(s.drop_last(), sep);
        if s.last() == sep {
            init.push(Seq::empty())
        } else {
            init.update(init.len() - 1, init.last().push(s.last()))
        }
    }
}

pub proof fn lemma_split_on_len(s: Seq<u8>, sep: u8)
    ensures
        split_on(s, sep).len() >= 1,
    decreases s.len(),
{
    if s.len() > 0 {
        lemma_split_on_len(s.drop_last(), sep);
    }
}

/// A copy of `s[start..end]`.
pub fn copy_range(s: &[u8], start: usize, end: usize) -> (r: Vec<u8>)
    requires
        start <= end <= s@.len(),
    ensures
        r@ == s@.subrange(start as int, end as int),
{
    let mut r: Vec<u8> = Vec::new();
    let mut i = start;
    while i < end
        invariant
            start <= i <= end <= s@.len(),
            r@ == s@.subrange(start as int, i as int),
        decreases end - i,
    {
        r.push(s[i]);
        i += 1;
    }
    r
}

/// `s.split(sep)` for a single byte `sep`.
pub fn split(s: &[u8], sep: u8) -> (r: Vec<Vec<u8>>)
    ensures
        views(r@) == split_on(s@, sep),
{
    let mut parts: Vec<Vec<u8>> = Vec::new();
    let mut cur: Vec<u8> = Vec::new();
    let mut i: usize = 0;
    assert(s@.take(0) =~= Seq::<u8>::empty());
    assert(views(parts@).push(cur@) =~= split_on(s@.take(0), sep));
    while i < s.len()
        invariant
            i <= s@.len(),
            views(parts@).push(cur@) == split_on(s@.take(i as int), sep),
        decreases s@.len() - i,
    {
        let ghost t = s@.take(i + 1);
        assert(t.drop_last() =~= s@.take(i as int));
        proof { lemma_split_on_len(s@.take(i as int), sep); }
        if s[i] == sep {
            let old_cur = cur;
            cur = Vec::new();
            parts.push(old_cur);
            assert(views(parts@).push(cur@) =~= split_on(t, sep));
        } else {
            let ghost before = parts.deep_view();
            cur.push(s[i]);
            assert(views(parts@).push(cur@) =~= split_on(t, sep));
        }
        i += 1;
    }
    assert(s@.take(s@.len() as int) =~= s@);
    parts.push(cur);
    parts
}

/// A line without its `\r` ending.
pub open spec fn strip_cr(l: Seq<u8>) -> Seq<u8> {
    if l.len() > 0 && l.last() == 13u8 {
        l.drop_last()
    } else {
        l
    }
}

/// The lines of `s`, as `str::lines` gives them: cut at `\n`, each line that a `\n`
/// ends without a `\r` before it, and no empty last line after a final `\n`.
pub open spec fn lines_of(s: Seq<u8>) -> Seq<Seq<u8>> {
    let parts = split_on(s, 10u8);
    let full = Seq::new((parts.len() - 1) as nat, |i: int| strip_cr(parts[i]));
    if parts.last().len() == 0 {
        full
    } else {
        full.push(parts.last())
    }
}

/// `str::lines`.
pub fn lines(s: &[u8]) -> (r: Vec<Vec<u8>>)
    ensures
        views(r@) == lines_of(s@),
{
    let parts = split(s, 10u8);
    proof { lemma_split_on_len(s@, 10u8); }
    let n = parts.len();
    let mut r: Vec<Vec<u8>> = Vec::new();
    let mut i: usize = 0;
    while i + 1 < n
        invariant
            n == parts@.len(),
            n >= 1,
            i + 1 <= n,
            views(parts@) == split_on(s@, 10u8),
            views(r@) =~= Seq::new(i as nat, |k: int| strip_cr(split_on(s@, 10u8)[k])),
        decreases n - i,
    {
        let p = &parts[i];
        assert(p@ == views(parts@)[i as int]);
        let l = p.len();
        let c = if l > 0 && p[l - 1] == 13u8 {
            let c = copy_range(p.as_slice(), 0, l - 1);
            assert(c@ =~= p@.drop_last());
            c
        } else {
            let c = copy_range(p.as_slice(), 0, l);
            assert(c@ =~= p@);
            c
        };
        assert(c@ == strip_cr(split_on(s@, 10u8)[i as int]));
        let ghost before = r@;
        r.push(c);
        assert(views(r@) =~= views(before).push(c@));
        i += 1;
    }
    let last = &parts[n - 1];
    assert(last@ == views(parts@)[n - 1]);
    if last.len() > 0 {
        r.push(copy_range(last.as_slice(), 0, last.len()));
        assert(last@.subrange(0, last@.len() as int) =~= last@);
    }
    r
}

/// `i` is where `b` first occurs in `s`.
pub open spec fn first_at(s: Seq<u8>, b: u8, i: int) -> bool {
    0 <= i < s.len() && s[i] == b && forall|j: int| 0 <= j < i ==> s[j] != b
}

/// `s.split_once(b)`: the parts before and after the first `b`.
pub open spec fn split_once(s: Seq<u8>, b: u8) -> Option<(Seq<u8>, Seq<u8>)> {
    if exists|i: int| first_at(s, b, i) {
        let i = choose|i: int| first_at(s, b, i);
        Some((s.take(i), s.skip(i + 1)))
    } else {
        None
    }
}

pub proof fn lemma_first_at_unique(s: Seq<u8>, b: u8, i: int, j: int)
    requires
        first_at(s, b, i),
        first_at(s, b, j),
    ensures
        i == j,
{
}

/// Where `b` first occurs in `s`.
pub fn find_byte(s: &[u8], b: u8) -> (r: Option<usize>)
    ensures
        match r {
            Some(i) => first_at(s@, b, i as int),
            None => forall|j: int| 0 <= j < s@.len() ==> s@[j] != b,
        },
{
    let mut i: usize = 0;
    while i < s.len()
        invariant
            i <= s@.len(),
            forall|j: int| 0 <= j < i ==> s@[j] != b,
        decreases s@.len() - i,
    {
        if s[i] == b {
            return Some(i);
        }
        i += 1;
    }
    None
}

/// `s.split_once(b)`, the two parts copied.
pub fn split_once_byte(s: &[u8], b: u8) -> (r: Option<(Vec<u8>, Vec<u8>)>)
    ensures
        match r {
            Some((x, y)) => split_once(s@, b) == Some((x@, y@)),
            None => split_once(s@, b) is None,
        },
{
    let n = s.len();
    match find_byte(s, b) {
        Some(i) => {
            let x = copy_range(s, 0, i);
            let y = copy_range(s, i + 1, n);
            proof {
                let k = choose|k: int| first_at(s@, b, k);
                lemma_first_at_unique(s@, b, i as int, k);
                assert(x@ =~= s@.take(i as int));
                assert(y@ =~= s@.skip(i + 1));
            }
            Some((x, y))
        },
        None => None,
    }
}

/// ASCII white space, as `u8::is_ascii_whitespace` counts it.
pub open spec fn is_ws(b: u8) -> bool {
    b == 32u8 || b == 9u8 || b == 10u8 || b == 12u8 || b == 13u8
}

pub open spec fn trim_start(s: Seq<u8>) -> Seq<u8>
    decreases s.len(),
{
    if s.len() > 0 && is_ws(s[0]) {
        trim_start(s.drop_first())
    } else {
        s
    }
}

pub open spec fn trim_end(s: Seq<u8>) -> Seq<u8>
    decreases s.len(),
{
    if s.len() > 0 && is_ws(s.last()) {
        trim_end(s.drop_last())
    } else {
        s
    }
}

/// `s` without white space at either end.
pub open spec fn trim(s: Seq<u8>) -> Seq<u8> {
    trim_end(trim_start(s))
}

/// `str::trim` on ASCII white space.
pub fn trim_bytes(s: &[u8]) -> (r: Vec<u8>)
    ensures
        r@ == trim(s@),
{
    let n = s.len();
    let mut a: usize = 0;
    assert(s@.subrange(0, n as int) =~= s@);
    while a < n && (s[a] == 32u8 || s[a] == 9u8 || s[a] == 10u8 || s[a] == 12u8 || s[a] == 13u8)
        invariant
            a <= n == s@.len(),
            trim_start(s@) == trim_start(s@.subrange(a as int, n as int)),
        decreases n - a,
    {
        assert(s@.subrange(a as int, n as int).drop_first() =~= s@.subrange(a + 1, n as int));
        a += 1;
    }
    assert(trim_start(s@) == s@.subrange(a as int, n as int));
    let mut e = n;
    while e > a && (s[e - 1] == 32u8 || s[e - 1] == 9u8 || s[e - 1] == 10u8 || s[e - 1] == 12u8
        || s[e - 1] == 13u8)
        invariant
            a <= e <= n == s@.len(),
            trim(s@) == trim_end(s@.subrange(a as int, e as int)),
        decreases e - a,
    {
        assert(s@.subrange(a as int, e as int).drop_last() =~= s@.subrange(a as int, e - 1));
        e -= 1;
    }
    copy_range(s, a, e)
}


/// The words of `s` and the word still being read, reading from the front.
pub open spec fn words_acc(s: Seq<u8>) -> (Seq<Seq<u8>>, Seq<u8>)
    decreases s.len(),
{
    if s.len() == 0 {
        (seq![], seq![])
    } else {
        let (done, cur) = words_acc(s.drop_last());
        if is_ws(s.last()) {
            if cur.len() > 0 {
                (done.push(cur), seq![])
            } else {
                (done, seq![])
            }
        } else {
            (done, cur.push(s.last()))
        }
    }
}

/// The non-empty runs of non-white-space bytes of `s`, as `str::split_ascii_whitespace`
/// gives them.
pub open spec fn words_of(s: Seq<u8>) -> Seq<Seq<u8>> {
    let (done, cur) = words_acc(s);
    if cur.len() > 0 {
        done.push(cur)
    } else {
        done
    }
}

/// `str::split_ascii_whitespace`.
pub fn words(s: &[u8]) -> (r: Vec<Vec<u8>>)
    ensures
        views(r@) == words_of(s@),
{
    let mut done: Vec<Vec<u8>> = Vec::new();
    let mut cur: Vec<u8> = Vec::new();
    let mut i: usize = 0;
    assert(s@.take(0) =~= Seq::<u8>::empty());
    assert(views(done@) =~= Seq::<Seq<u8>>::empty());
    while i < s.len()
        invariant
            i <= s@.len(),
            (views(done@), cur@) == words_acc(s@.take(i as int)),
        decreases s@.len() - i,
    {
        let ghost t = s@.take(i + 1);
        assert(t.drop_last() =~= s@.take(i as int));
        let c = s[i];
        if c == 32u8 || c == 9u8 || c == 10u8 || c == 12u8 || c == 13u8 {
            if cur.len() > 0 {
                let w = cur;
                cur = Vec::new();
                let ghost before = done@;
                done.push(w);
                assert(views(done@) =~= views(before).push(w@));
                assert(cur@ =~= Seq::<u8>::empty());
            } else {
                assert(cur@ =~= Seq::<u8>::empty());
            }
        } else {
            cur.push(c);
        }
        i += 1;
    }
    assert(s@.take(s@.len() as int) =~= s@);
    if cur.len() > 0 {
        let ghost before = done@;
        done.push(cur);
        assert(views(done@) =~= views(before).push(before_cur(s@)));
    }
    done
}

/// The word that `words_acc` still holds at the end of `s`.
pub open spec fn before_cur(s: Seq<u8>) -> Seq<u8> {
    words_acc(s).1
}

/// The decimal digit character for `d`.
pub open spec fn digit_char(d: nat) -> char {
    (d + 48) as char
}

/// The decimal rendering of `n`, as `format!("{}")` writes it.
pub open spec fn dec(n: nat) -> Seq<char>
    decreases n,
{
    if n < 10 {
        seq![digit_char(n)]
    } else {
        dec(n / 10).push(digit_char(n % 10))
    }
}

/// The decimal rendering of a signed `n`.
pub open spec fn dec_signed(n: int) -> Seq<char> {
    if n < 0 {
        seq!['-'] + dec((-n) as nat)
    } else {
        dec(n as nat)
    }
}

pub fn digit_str(d: u8) -> (r: &'static str)
    requires
        d < 10,
    ensures
        r@ == seq![digit_char(d as nat)],
{
    proof {
        reveal_strlit("0");
        reveal_strlit("1");
        reveal_strlit("2");
        reveal_strlit("3");
        reveal_strlit("4");
        reveal_strlit("5");
        reveal_strlit("6");
        reveal_strlit("7");
        reveal_strlit("8");
        reveal_strlit("9");
    }
    let r = if d == 0 {
        "0"
    } else if d == 1 {
        "1"
    } else if d == 2 {
        "2"
    } else if d == 3 {
        "3"
    } else if d == 4 {
        "4"
    } else if d == 5 {
        "5"
    } else if d == 6 {
        "6"
    } else if d == 7 {
        "7"
    } else if d == 8 {
        "8"
    } else {
        "9"
    };
    assert(r@ =~= seq![digit_char(d as nat)]);
    r
}

/// Appends the decimal rendering of `n`.
pub fn push_dec(out: &mut String, n: u64)
    ensures
        final(out)@ == old(out)@ + dec(n as nat),
    decreases n,
{
    if n >= 10 {
        push_dec(out, n / 10);
    }
    let s = digit_str((n % 10) as u8);
    let ghost mid = out@;
    out.append(s);
    proof {
        if n >= 10 {
            assert(out@ =~= old(out)@ + dec(n as nat));
        } else {
            assert(out@ =~= old(out)@ + dec(n as nat));
        }
    }
}

/// Appends the decimal rendering of a signed `n`.
pub fn push_dec_signed(out: &mut String, n: i64)
    ensures
        final(out)@ == old(out)@ + dec_signed(n as int),
{
    proof { reveal_strlit("-"); }
    if n < 0 {
        out.append("-");
        let m: u64 = if n == i64::MIN { 9223372036854775808u64 } else { (-n) as u64 };
        push_dec(out, m);
        assert(out@ =~= old(out)@ + dec_signed(n as int));
    } else {
        push_dec(out, n as u64);
    }
}

/// Appends `s`.
pub fn push_str(out: &mut String, s: &str)
    ensures
        final(out)@ == old(out)@ + s@,
{
    out.append(s);
}

/// `s` has `a` then `b` at `i`, and nowhere before.
pub open spec fn first_pair_at(s: Seq<u8>, a: u8, b: u8, i: int) -> bool {
    0 <= i && i + 1 < s.len() && s[i] == a && s[i + 1] == b && forall|j: int|
        0 <= j < i ==> !(#[trigger] s[j] == a && s[j + 1] == b)
}

/// `s` cut at each `a` followed by `b`, as `str::split` with a two-byte pattern does.
pub open spec fn split_pair(s: Seq<u8>, a: u8, b: u8) -> Seq<Seq<u8>>
    decreases s.len(),
{
    if exists|i: int| first_pair_at(s, a, b, i) {
        let i = choose|i: int| first_pair_at(s, a, b, i);
        seq![s.take(i)] + split_pair(s.skip(i + 2), a, b)
    } else {
        seq![s]
    }
}

/// `s.split(p)` for a two-byte pattern `p = [a, b]`.
pub fn split_two(s: &[u8], a: u8, b: u8) -> (r: Vec<Vec<u8>>)
    ensures
        views(r@) == split_pair(s@, a, b),
{
    let n = s.len();
    let mut parts: Vec<Vec<u8>> = Vec::new();
    let mut start: usize = 0;
    let mut i: usize = 0;
    assert(s@.skip(0) =~= s@);
    assert(views(parts@) =~= Seq::<Seq<u8>>::empty());
    while n > 0 && i < n - 1
        invariant
            n == s@.len(),
            start <= i <= n,
            views(parts@) + split_pair(s@.skip(start as int), a, b) == split_pair(s@, a, b),
            forall|j: int| start <= j < i ==> !(#[trigger] s@[j] == a && s@[j + 1] == b),
        decreases n - i,
    {
        if s[i] == a && s[i + 1] == b {
            let ghost t = s@.skip(start as int);
            let k = i - start;
            proof {
                assert(first_pair_at(t, a, b, k as int)) by {
                    assert forall|j: int| 0 <= j < k implies !(#[trigger] t[j] == a && t[j + 1] == b) by {
                        assert(t[j] == s@[start + j] && t[j + 1] == s@[start + j + 1]);
                    }
                }
                let c = choose|c: int| first_pair_at(t, a, b, c);
                if c < k {
                    assert(t[c] == s@[start + c] && t[c + 1] == s@[start + c + 1]);
                } else if c > k {
                    assert(!(t[k as int] == a && t[k + 1] == b));
                }
                assert(t.skip(k + 2) =~= s@.skip(i + 2));
                assert(t.take(k as int) =~= s@.subrange(start as int, i as int));
            }
            let piece = copy_range(s, start, i);
            let ghost before = parts@;
            parts.push(piece);
            proof {
                assert(views(parts@) =~= views(before).push(piece@));
                assert(split_pair(t, a, b) == seq![t.take(k as int)] + split_pair(s@.skip(i + 2), a, b));
                assert(views(parts@) + split_pair(s@.skip(i + 2), a, b) =~= views(before) + split_pair(t, a, b));
            }
            start = i + 2;
            i = i + 2;
        } else {
            i += 1;
        }
    }
    let ghost t = s@.skip(start as int);
    proof {
        if exists|c: int| first_pair_at(t, a, b, c) {
            let c = choose|c: int| first_pair_at(t, a, b, c);
            assert(t[c] == s@[start + c] && t[c + 1] == s@[start + c + 1]);
        }
    }
    let last = copy_range(s, start, n);
    assert(last@ =~= t);
    let ghost before = parts@;
    parts.push(last);
    assert(views(parts@) =~= views(before).push(t));
    parts
}

pub proof fn lemma_first_pair_unique(s: Seq<u8>, a: u8, b: u8, i: int, j: int)
    requires
        first_pair_at(s, a, b, i),
        first_pair_at(s, a, b, j),
    ensures
        i == j,
{
    if i < j {
        assert(!(s[i] == a && s[i + 1] == b));
    }
    if j < i {
        assert(!(s[j] == a && s[j + 1] == b));
    }
}

/// Where `a` followed by `b` first occurs in `s`.
pub fn find_pair(s: &[u8], a: u8, b: u8) -> (r: Option<usize>)
    ensures
        match r {
            Some(i) => first_pair_at(s@, a, b, i as int),
            None => !exists|i: int| first_pair_at(s@, a, b, i),
        },
{
    let n = s.len();
    let mut i: usize = 0;
    while n > 0 && i < n - 1
        invariant
            n == s@.len(),
            forall|j: int| 0 <= j < i ==> !(#[trigger] s@[j] == a && s@[j + 1] == b),
        decreases n - i,
    {
        if s[i] == a && s[i + 1] == b {
            return Some(i);
        }
        i += 1;
    }
    proof {
        if exists|c: int| first_pair_at(s@, a, b, c) {
            let c = choose|c: int| first_pair_at(s@, a, b, c);
            assert(!(s@[c] == a && s@[c + 1] == b));
        }
    }
    None
}

/// The text before and after the first blank line.
pub open spec fn split_blank(s: Seq<u8>) -> Option<(Seq<u8>, Seq<u8>)> {
    if exists|i: int| first_pair_at(s, 10u8, 10u8, i) {
        let i = choose|i: int| first_pair_at(s, 10u8, 10u8, i);
        Some((s.take(i), s.skip(i + 2)))
    } else {
        None
    }
}

/// The text before and after the first blank line.
pub fn split_at_blank(s: &[u8]) -> (r: Option<(&[u8], &[u8])>)
    ensures
        match split_blank(s@) {
            None => r is None,
            Some((a, b)) => r matches Some((x, y)) && x@ == a && y@ == b,
        },
{
    match find_pair(s, 10u8, 10u8) {
        None => None,
        Some(i) => {
            proof {
                let c = choose|c: int| first_pair_at(s@, 10u8, 10u8, c);
                lemma_first_pair_unique(s@, 10u8, 10u8, i as int, c);
            }
            let n = s.len();
            assert(i + 1 < n);
            let a = slice_range(s, 0, i);
            let b = slice_range(s, i + 2, n);
            assert(a@ =~= s@.take(i as int));
            assert(b@ =~= s@.skip(i + 2));
            Some((a, b))
        },
    }
}

/// The part of `s` from `start` to `end`.
pub fn slice_range(s: &[u8], start: usize, end: usize) -> (r: &[u8])
    requires
        start <= end <= s@.len(),
    ensures
        r@ == s@.subrange(start as int, end as int),
{
    vstd::slice::slice_subrange(s, start, end)
}


/// The one-character text of an ASCII lowercase letter, digit or comma.
pub fn ascii_str(b: u8) -> (r: &'static str)
    requires
        (97 <= b && b <= 122) || (48 <= b && b <= 57) || b == 44,
    ensures
        r@ == seq![b as char],
{
    proof {
        reveal_strlit("a");
        reveal_strlit("b");
        reveal_strlit("c");
        reveal_strlit("d");
        reveal_strlit("e");
        reveal_strlit("f");
        reveal_strlit("g");
        reveal_strlit("h");
        reveal_strlit("i");
        reveal_strlit("j");
        reveal_strlit("k");
        reveal_strlit("l");
        reveal_strlit("m");
        reveal_strlit("n");
        reveal_strlit("o");
        reveal_strlit("p");
        reveal_strlit("q");
        reveal_strlit("r");
        reveal_strlit("s");
        reveal_strlit("t");
        reveal_strlit("u");
        reveal_strlit("v");
        reveal_strlit("w");
        reveal_strlit("x");
        reveal_strlit("y");
        reveal_strlit("z");
        reveal_strlit("0");
        reveal_strlit("1");
        reveal_strlit("2");
        reveal_strlit("3");
        reveal_strlit("4");
        reveal_strlit("5");
        reveal_strlit("6");
        reveal_strlit("7");
        reveal_strlit("8");
        reveal_strlit("9");
        reveal_strlit(",");
    }
    let r = if b == 97u8 {
        "a"
    } else if b == 98u8 {
        "b"
    } else if b == 99u8 {
        "c"
    } else if b == 100u8 {
        "d"
    } else if b == 101u8 {
        "e"
    } else if b == 102u8 {
        "f"
    } else if b == 103u8 {
        "g"
    } else if b == 104u8 {
        "h"
    } else if b == 105u8 {
        "i"
    } else if b == 106u8 {
        "j"
    } else if b == 107u8 {
        "k"
    } else if b == 108u8 {
        "l"
    } else if b == 109u8 {
        "m"
    } else if b == 110u8 {
        "n"
    } else if b == 111u8 {
        "o"
    } else if b == 112u8 {
        "p"
    } else if b == 113u8 {
        "q"
    } else if b == 114u8 {
        "r"
    } else if b == 115u8 {
        "s"
    } else if b == 116u8 {
        "t"
    } else if b == 117u8 {
        "u"
    } else if b == 118u8 {
        "v"
    } else if b == 119u8 {
        "w"
    } else if b == 120u8 {
        "x"
    } else if b == 121u8 {
        "y"
    } else if b == 122u8 {
        "z"
    } else if b == 48u8 {
        "0"
    } else if b == 49u8 {
        "1"
    } else if b == 50u8 {
        "2"
    } else if b == 51u8 {
        "3"
    } else if b == 52u8 {
        "4"
    } else if b == 53u8 {
        "5"
    } else if b == 54u8 {
        "6"
    } else if b == 55u8 {
        "7"
    } else if b == 56u8 {
        "8"
    } else if b == 57u8 {
        "9"
    } else {
        ","
    };
    assert(r@ =~= seq![b as char]);
    r
}

/// `str::parse::<i32>`.
pub fn parse_i32(s: &[u8]) -> (r: Option<i32>)
    ensures
        r == (match signed_in(s@, i32::MIN as int, i32::MAX as int) {
            Some(v) => Some(v as i32),
            None => None,
        }),
{
    match parse_i64(s) {
        Some(v) => if v >= -2147483648i64 && v <= 2147483647i64 {
            Some(v as i32)
        } else {
            None
        },
        None => None,
    }
}

} // verus!
