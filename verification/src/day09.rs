//! Compacting a disk: files are moved block by block, or whole, into free space on the left.

use vstd::prelude::*;
use vstd::string::*;
use crate::text::{dec, digit_val, is_digit, push_dec, push_str};

verus! {

/// The mark of a free block.
pub const FREE_SPACE: u32 = 0xffff_ffffu32;

/// The first `n` bytes of `s` are digits and the next one, if any, is not.
pub open spec fn lead_is(s: Seq<u8>, n: int) -> bool {
    &&& 0 <= n <= s.len()
    &&& forall|i: int| 0 <= i < n ==> is_digit(#[trigger] s[i])
    &&& (n == s.len() || !is_digit(s[n]))
}

/// The number of digits `s` starts with.
pub open spec fn lead(s: Seq<u8>) -> int {
    choose|n: int| lead_is(s, n)
}

pub proof fn lemma_lead_unique(s: Seq<u8>, n: int)
    requires
        lead_is(s, n),
    ensures
        lead(s) == n,
{
    let m = lead(s);
    assert(lead_is(s, m));
    if m < n {
        assert(is_digit(s[m]));
    }
    if n < m {
        assert(is_digit(s[n]));
    }
}

/// The disk map of the text `s`: from its leading digits, in turn a file, numbered from
/// zero, and a free span, each as long as its digit.
pub open spec fn diskmap_of(s: Seq<u8>) -> Seq<(u32, u8)> {
    Seq::new(
        lead(s) as nat,
        |i: int|
            (
                if i % 2 == 0 {
                    (i / 2) as u32
                } else {
                    FREE_SPACE
                },
                digit_val(s[i]) as u8,
            ),
    )
}

/// The disk map of the text, read up to its first character that is not a digit.
pub fn diskmap(input: &[u8]) -> (r: Vec<(u32, u8)>)
    requires
        input@.len() <= u32::MAX,
    ensures
        r@ == diskmap_of(input@),
        r@.len() <= input@.len(),
        forall|t: int| 0 <= t < r@.len() ==> #[trigger] r@[t].1 <= 9,
{
    let mut r: Vec<(u32, u8)> = Vec::new();
    let mut i: usize = 0;
    let mut file_id: u32 = 0;
    let mut is_file = true;
    while i < input.len() && input[i] >= 48u8 && input[i] <= 57u8
        invariant
            input@.len() <= u32::MAX,
            i <= input@.len(),
            forall|t: int| 0 <= t < i ==> is_digit(#[trigger] input@[t]),
            file_id == (i + 1) / 2,
            is_file == (i % 2 == 0),
            r@.len() == i,
            forall|t: int|
                0 <= t < i ==> #[trigger] r@[t] == (
                    if t % 2 == 0 {
                        (t / 2) as u32
                    } else {
                        FREE_SPACE
                    },
                    digit_val(input@[t]) as u8,
                ),
        decreases input@.len() - i,
    {
        let l = input[i] - 48u8;
        if is_file {
            r.push((file_id, l));
            file_id += 1;
        } else {
            r.push((FREE_SPACE, l));
        }
        is_file = !is_file;
        i += 1;
    }
    proof {
        assert(lead_is(input@, i as int));
        lemma_lead_unique(input@, i as int);
        assert(r@ =~= diskmap_of(input@));
    }
    r
}

/// The blocks of a disk map, one by one.
pub open spec fn expand(dm: Seq<(u32, u8)>) -> Seq<u32>
    decreases dm.len(),
{
    if dm.len() == 0 {
        Seq::empty()
    } else {
        expand(dm.drop_last()) + Seq::new(dm.last().1 as nat, |k: int| dm.last().0)
    }
}

/// The blocks of a disk map.
pub fn blocks(dm: &Vec<(u32, u8)>) -> (r: Vec<u32>)
    ensures
        r@ == expand(dm@),
{
    let mut r: Vec<u32> = Vec::new();
    let mut i: usize = 0;
    while i < dm.len()
        invariant
            i <= dm@.len(),
            r@ == expand(dm@.take(i as int)),
        decreases dm@.len() - i,
    {
        let (v, l) = dm[i];
        let ghost before = r@;
        let mut k: u8 = 0;
        while k < l
            invariant
                k <= l,
                r@ == before + Seq::new(k as nat, |t: int| v),
            decreases l - k,
        {
            r.push(v);
            k += 1;
            assert(r@ =~= before + Seq::new(k as nat, |t: int| v));
        }
        proof {
            assert(dm@.take(i + 1).drop_last() =~= dm@.take(i as int));
            assert(dm@.take(i + 1).last() == dm@[i as int]);
        }
        i += 1;
    }
    assert(dm@.take(dm@.len() as int) =~= dm@);
    r
}

/// Two-finger compaction: from the left the next free block, from the right the next file
/// block; while the first lies left of the second, the file block moves into the free one.
pub open spec fn compact(m: Seq<u32>, i: int, j: int) -> Seq<u32>
    decreases j - i + 1,
{
    if i >= j || i < 0 || j >= m.len() {
        m
    } else if m[i] != FREE_SPACE {
        compact(m, i + 1, j)
    } else if m[j] == FREE_SPACE {
        compact(m, i, j - 1)
    } else {
        compact(m.update(i, m[j]).update(j, FREE_SPACE), i + 1, j - 1)
    }
}

/// The blocks compacted by moving file blocks one at a time.
pub fn compact_blocks(m: &mut Vec<u32>)
    ensures
        final(m)@ == compact(old(m)@, 0, old(m)@.len() - 1),
{
    if m.len() == 0 {
        return;
    }
    let mut i: usize = 0;
    let mut j: usize = m.len() - 1;
    while i < j
        invariant
            j < m@.len(),
            compact(m@, i as int, j as int) == compact(old(m)@, 0, old(m)@.len() - 1),
        decreases j + 1 - i,
    {
        if m[i] != FREE_SPACE {
            i += 1;
        } else if m[j] == FREE_SPACE {
            j -= 1;
        } else {
            let v = m[j];
            m.set(i, v);
            m.set(j, FREE_SPACE);
            i += 1;
            j -= 1;
        }
    }
}

/// The checksum of the first `n` blocks: each file block's position times its file number.
pub open spec fn checksum(m: Seq<u32>, n: int) -> int
    decreases n,
{
    if n <= 0 {
        0
    } else {
        checksum(m, n - 1) + (if m[n - 1] != FREE_SPACE {
            (n - 1) * m[n - 1]
        } else {
            0
        })
    }
}

pub proof fn lemma_checksum_mono(m: Seq<u32>, a: int, b: int)
    requires
        0 <= a <= b,
    ensures
        checksum(m, a) <= checksum(m, b),
    decreases b - a,
{
    if a < b {
        lemma_checksum_mono(m, a, b - 1);
        assert(0 <= (b - 1) * m[b - 1]) by (nonlinear_arith)
            requires b >= 1;
    }
}

/// The checksum of the blocks.
pub fn checksum_blocks(m: &Vec<u32>) -> (r: u64)
    requires
        checksum(m@, m@.len() as int) <= u64::MAX,
    ensures
        r == checksum(m@, m@.len() as int),
{
    let mut acc: u64 = 0;
    let mut i: usize = 0;
    while i < m.len()
        invariant
            i <= m@.len(),
            acc == checksum(m@, i as int),
            checksum(m@, m@.len() as int) <= u64::MAX,
        decreases m@.len() - i,
    {
        proof {
            lemma_checksum_mono(m@, i + 1, m@.len() as int);
        }
        if m[i] != FREE_SPACE {
            proof {
                assert(0 <= i * m@[i as int]) by (nonlinear_arith);
            }
            acc = acc + (i as u64) * (m[i] as u64);
        }
        i += 1;
    }
    acc
}

/// The checksum after moving file blocks one at a time.
pub open spec fn star1_of(s: Seq<u8>) -> int {
    let m = expand(diskmap_of(s));
    let c = compact(m, 0, m.len() - 1);
    checksum(c, c.len() as int)
}

/// The checksum after moving file blocks one at a time.
pub fn star1(input: &str) -> (r: u64)
    requires
        input.spec_bytes().len() <= u32::MAX,
        star1_of(input.spec_bytes()) <= u64::MAX,
    ensures
        r == star1_of(input.spec_bytes()),
{
    let dm = diskmap(input.as_bytes());
    let mut m = blocks(&dm);
    compact_blocks(&mut m);
    checksum_blocks(&m)
}

/// Where the `i`th entry of a disk map starts: the lengths of the entries before it, added.
pub open spec fn start(dm: Seq<(u32, u8)>, i: int) -> int
    decreases i,
{
    if i <= 0 {
        0
    } else {
        start(dm, i - 1) + dm[i - 1].1
    }
}

/// The free spans, as start and length, and the files, as start, number and length, of
/// the first `n` entries of a disk map.
pub open spec fn spans(dm: Seq<(u32, u8)>, n: int) -> (Seq<(u64, u64)>, Seq<(u64, u32, u64)>)
    decreases n,
{
    if n <= 0 {
        (Seq::empty(), Seq::empty())
    } else {
        let (free, files) = spans(dm, n - 1);
        let p = start(dm, n - 1) as u64;
        let l = dm[n - 1].1 as u64;
        if dm[n - 1].0 == FREE_SPACE {
            (free.push((p, l)), files)
        } else {
            (free, files.push((p, dm[n - 1].0, l)))
        }
    }
}

/// The free span at index `i` is the first that starts before `fp` and holds `fl` blocks.
pub open spec fn fits_at(free: Seq<(u64, u64)>, fp: u64, fl: u64, i: int) -> bool {
    &&& 0 <= i < free.len()
    &&& free[i].0 < fp && free[i].1 >= fl
    &&& forall|j: int| 0 <= j < i ==> !(#[trigger] free[j].0 < fp && free[j].1 >= fl)
}

/// The spans and files once file `k` has moved into the first free span before it that
/// holds it, if there is one; what is left of the span stays free.
pub open spec fn move_file(free: Seq<(u64, u64)>, files: Seq<(u64, u32, u64)>, k: int) -> (
    Seq<(u64, u64)>,
    Seq<(u64, u32, u64)>,
) {
    let (fp, id, fl) = files[k];
    if exists|i: int| fits_at(free, fp, fl, i) {
        let i = choose|i: int| fits_at(free, fp, fl, i);
        let (np, flen) = free[i];
        let free2 = if flen > fl {
            free.update(i, ((np + fl) as u64, (flen - fl) as u64))
        } else {
            free.remove(i)
        };
        (free2, files.update(k, (np, id, fl)))
    } else {
        (free, files)
    }
}

/// The files once files `k - 1` down to `0` have moved, in that order.
pub open spec fn move_all(free: Seq<(u64, u64)>, files: Seq<(u64, u32, u64)>, k: int) -> Seq<(u64, u32, u64)>
    decreases k,
{
    if k <= 0 || k > files.len() {
        files
    } else {
        let (f2, fs2) = move_file(free, files, k - 1);
        move_all(f2, fs2, k - 1)
    }
}

/// The checksum of the first `n` files: each block's position times its file number.
pub open spec fn file_sum(files: Seq<(u64, u32, u64)>, n: int) -> int
    decreases n,
{
    if n <= 0 {
        0
    } else {
        let (p, id, l) = files[n - 1];
        file_sum(files, n - 1) + id * (p * l + (l * (l - 1)) / 2)
    }
}

/// The checksum after moving whole files.
pub open spec fn star2_of(s: Seq<u8>) -> int {
    let dm = diskmap_of(s);
    let (free, files) = spans(dm, dm.len() as int);
    let moved = move_all(free, files, files.len() as int);
    file_sum(moved, moved.len() as int)
}

/// Every span ends within the first `total` blocks, and every file too.
pub open spec fn within(free: Seq<(u64, u64)>, files: Seq<(u64, u32, u64)>, total: int) -> bool {
    &&& forall|i: int| 0 <= i < free.len() ==> #[trigger] free[i].0 + free[i].1 <= total
    &&& forall|i: int| 0 <= i < files.len() ==> #[trigger] files[i].0 + files[i].2 <= total && files[i].2 <= 9
}

pub proof fn lemma_file_sum_mono(files: Seq<(u64, u32, u64)>, a: int, b: int)
    requires
        0 <= a <= b,
        forall|i: int| 0 <= i < files.len() ==> #[trigger] files[i].2 >= 0,
    ensures
        file_sum(files, a) <= file_sum(files, b),
    decreases b - a,
{
    if a < b {
        lemma_file_sum_mono(files, a, b - 1);
        let (p, id, l) = files[b - 1];
        assert(0 <= id * (p * l + (l * (l - 1)) / 2)) by (nonlinear_arith)
            requires id >= 0, p >= 0, l >= 0;
    }
}

/// The first free span that starts before `fp` and holds `fl` blocks.
fn first_fit(free: &Vec<(u64, u64)>, fp: u64, fl: u64) -> (r: Option<usize>)
    ensures
        match r {
            Some(i) => fits_at(free@, fp, fl, i as int),
            None => !exists|i: int| fits_at(free@, fp, fl, i),
        },
{
    let mut i: usize = 0;
    while i < free.len()
        invariant
            i <= free@.len(),
            forall|j: int| 0 <= j < i ==> !(#[trigger] free@[j].0 < fp && free@[j].1 >= fl),
        decreases free@.len() - i,
    {
        let (p, l) = free[i];
        if p < fp && l >= fl {
            return Some(i);
        }
        i += 1;
    }
    proof {
        if exists|c: int| fits_at(free@, fp, fl, c) {
            let c = choose|c: int| fits_at(free@, fp, fl, c);
            assert(!(free@[c].0 < fp && free@[c].1 >= fl));
        }
    }
    None
}

pub proof fn lemma_fit_unique(free: Seq<(u64, u64)>, fp: u64, fl: u64, i: int, j: int)
    requires
        fits_at(free, fp, fl, i),
        fits_at(free, fp, fl, j),
    ensures
        i == j,
{
    if i < j {
        assert(!(free[i].0 < fp && free[i].1 >= fl));
    }
    if j < i {
        assert(!(free[j].0 < fp && free[j].1 >= fl));
    }
}

/// The checksum after moving whole files, the last file first, each into the first free
/// span on its left that holds it.
pub fn star2(input: &str) -> (r: u64)
    requires
        input.spec_bytes().len() <= u32::MAX,
        star2_of(input.spec_bytes()) <= u64::MAX,
    ensures
        r == star2_of(input.spec_bytes()),
{
    let dm = diskmap(input.as_bytes());
    let ghost n = dm@.len() as int;
    let mut free: Vec<(u64, u64)> = Vec::new();
    let mut files: Vec<(u64, u32, u64)> = Vec::new();
    let mut pos: u64 = 0;
    let mut i: usize = 0;
    while i < dm.len()
        invariant
            dm@ == diskmap_of(input.spec_bytes()),
            dm@.len() <= u32::MAX,
            i <= dm@.len(),
            pos == start(dm@, i as int),
            pos <= 9 * i,
            forall|t: int| 0 <= t < dm@.len() ==> #[trigger] dm@[t].1 <= 9,
            (free@, files@) == spans(dm@, i as int),
            within(free@, files@, pos as int),
        decreases dm@.len() - i,
    {
        let (id, l) = dm[i];
        proof {
            assert(l <= 9);
        }
        if id == FREE_SPACE {
            free.push((pos, l as u64));
        } else {
            files.push((pos, id, l as u64));
        }
        pos = pos + l as u64;
        i += 1;
    }
    let ghost total = pos as int;
    let ghost free0 = free@;
    let ghost files0 = files@;
    let mut k: usize = files.len();
    while k > 0
        invariant
            k <= files@.len() == files0.len(),
            total <= 9 * u32::MAX,
            within(free@, files@, total),
            move_all(free@, files@, k as int) == move_all(free0, files0, files0.len() as int),
        decreases k,
    {
        let (fp, id, fl) = files[k - 1];
        match first_fit(&free, fp, fl) {
            None => {},
            Some(j) => {
                proof {
                    let c = choose|c: int| fits_at(free@, fp, fl, c);
                    lemma_fit_unique(free@, fp, fl, j as int, c);
                }
                let (np, flen) = free[j];
                if flen > fl {
                    free.set(j, (np + fl, flen - fl));
                } else {
                    free.remove(j);
                }
                files.set(k - 1, (np, id, fl));
            },
        }
        k -= 1;
    }
    let ghost moved = files@;
    let mut acc: u64 = 0;
    let mut t: usize = 0;
    proof {
        assert(moved == move_all(free0, files0, files0.len() as int));
    }
    while t < files.len()
        invariant
            files@ == moved,
            total <= 9 * u32::MAX,
            within(free@, moved, total),
            t <= moved.len(),
            acc == file_sum(moved, t as int),
            file_sum(moved, moved.len() as int) <= u64::MAX,
        decreases moved.len() - t,
    {
        proof {
            lemma_file_sum_mono(moved, t + 1, moved.len() as int);
        }
        let (p, id, l) = files[t];
        proof {
            assert(p + l <= total);
            assert(p * l <= 9 * total) by (nonlinear_arith)
                requires l <= 9, p <= total, p >= 0, l >= 0;
            assert(l * (l - 1) <= 81) by (nonlinear_arith)
                requires 0 <= l <= 9;
            assert(0 <= id * (p * l + (l * (l - 1)) / 2)) by (nonlinear_arith)
                requires id >= 0, p >= 0, l >= 0;
        }
        let m = if l > 0 { p * l + (l * (l - 1)) / 2 } else { 0 };
        proof {
            assert(m == p * l + (l * (l - 1)) / 2) by (nonlinear_arith)
                requires l == 0 ==> m == 0, l > 0 ==> m == p * l + (l * (l - 1)) / 2;
            assert(file_sum(moved, t + 1) == file_sum(moved, t as int) + id * m);
        }
        acc = acc + (id as u64) * m;
        t += 1;
    }
    acc
}

/// Both checksums, as text.
pub fn run(input: &str) -> (r: String)
    requires
        input.spec_bytes().len() <= u32::MAX,
        star1_of(input.spec_bytes()) <= u64::MAX,
        star2_of(input.spec_bytes()) <= u64::MAX,
    ensures
        r@ == dec(star1_of(input.spec_bytes()) as nat) + " "@ + dec(star2_of(input.spec_bytes()) as nat),
{
    let s1 = star1(input);
    let s2 = star2(input);
    let mut out = String::new();
    push_dec(&mut out, s1);
    push_str(&mut out, " ");
    push_dec(&mut out, s2);
    out
}

} // verus!
