//! Robots moving on a wrapping floor: the safety factor after a number of seconds, and
//! the first second at which no two robots share a tile.

use vstd::prelude::*;
use vstd::string::*;
use crate::error::AocError;
use crate::bits::{bit_set, lemma_bit, lemma_zero_bit};
use crate::grid::{pt, Grid, Point};
use crate::text::{
    dec, lines, lines_of, parse_i64, push_dec, push_str, signed_in, split_once, split_once_byte, views,
};

verus! {

/// A robot's position and velocity.
#[derive(Debug, Clone, Copy, PartialEq, Eq, Structural)]
pub struct Robot {
    pub p: Point,
    pub v: Point,
}

/// `s` without the prefix `pre`, where it starts with it.
pub open spec fn strip_prefix(s: Seq<u8>, pre: Seq<u8>) -> Option<Seq<u8>> {
    if pre.len() <= s.len() && s.take(pre.len() as int) == pre {
        Some(s.skip(pre.len() as int))
    } else {
        None
    }
}

/// The point that `prefix` followed by `x,y` gives.
pub open spec fn coords_of(s: Seq<u8>, pre: Seq<u8>) -> Option<Point> {
    match strip_prefix(s, pre) {
        Some(z) => match crate::text::split_once(z, 44u8) {
            Some((xs, ys)) => match (
                signed_in(xs, i32::MIN as int, i32::MAX as int),
                signed_in(ys, i32::MIN as int, i32::MAX as int),
            ) {
                (Some(x), Some(y)) => Some(Point { x: x as i32, y: y as i32 }),
                _ => None,
            },
            None => None,
        },
        None => None,
    }
}

/// The robot that a line `p=x,y v=x,y` describes.
pub open spec fn robot_of(l: Seq<u8>) -> Option<Robot> {
    match crate::text::split_once(l, 32u8) {
        Some((ps, vs)) => match (coords_of(ps, seq![112u8, 61u8]), coords_of(vs, seq![118u8, 61u8])) {
            (Some(p), Some(v)) => Some(Robot { p, v }),
            _ => None,
        },
        None => None,
    }
}

fn parse_i32(s: &[u8]) -> (r: Option<i32>)
    ensures
        r == (match signed_in(s@, i32::MIN as int, i32::MAX as int) {
            Some(v) => Some(v as i32),
            None => None,
        }),
{
    match parse_i64(s) {
        Some(v) => if i32::MIN as i64 <= v && v <= i32::MAX as i64 { Some(v as i32) } else { None },
        None => None,
    }
}

/// Reads `prefix` followed by `x,y`.
pub fn parse_coords(s: &[u8], prefix: &[u8]) -> (r: Result<Point, AocError>)
    ensures
        match r {
            Ok(p) => coords_of(s@, prefix@) == Some(p),
            Err(e) => coords_of(s@, prefix@) is None && e == AocError::InvalidInput,
        },
{
    let n = prefix.len();
    if n > s.len() {
        return Err(AocError::InvalidInput);
    }
    let mut i: usize = 0;
    while i < n
        invariant
            n == prefix@.len() <= s@.len(),
            i <= n,
            forall|k: int| 0 <= k < i ==> s@[k] == prefix@[k],
        decreases n - i,
    {
        if s[i] != prefix[i] {
            proof {
                assert(s@.take(n as int)[i as int] != prefix@[i as int]);
            }
            return Err(AocError::InvalidInput);
        }
        i += 1;
    }
    assert(s@.take(n as int) =~= prefix@);
    let z = crate::text::copy_range(s, n, s.len());
    assert(z@ =~= s@.skip(n as int));
    match split_once_byte(z.as_slice(), 44u8) {
        Some((xs, ys)) => match (parse_i32(xs.as_slice()), parse_i32(ys.as_slice())) {
            (Some(x), Some(y)) => Ok(pt(x, y)),
            _ => Err(AocError::InvalidInput),
        },
        None => Err(AocError::InvalidInput),
    }
}

/// Reads one robot line.
pub fn parse_robot(line: &[u8]) -> (r: Result<Robot, AocError>)
    ensures
        match r {
            Ok(rb) => robot_of(line@) == Some(rb),
            Err(e) => robot_of(line@) is None && e == AocError::InvalidInput,
        },
{
    let (ps, vs) = match split_once_byte(line, 32u8) {
        Some(x) => x,
        None => {
            return Err(AocError::InvalidInput);
        },
    };
    let pp: [u8; 2] = [112u8, 61u8];
    let vp: [u8; 2] = [118u8, 61u8];
    assert(pp@ =~= seq![112u8, 61u8]);
    assert(vp@ =~= seq![118u8, 61u8]);
    let p = parse_coords(ps.as_slice(), &pp)?;
    let v = parse_coords(vs.as_slice(), &vp)?;
    Ok(Robot { p, v })
}

/// The remainder of `v` by `w`, moved into `0..w` where `v` is negative.
pub fn wrap(v: i32, w: i32) -> (r: i32)
    requires
        w > 0,
    ensures
        0 <= r < w,
        r == (v as int) % (w as int),
{
    if v >= 0 {
        v % w
    } else {
        let t = (-(v as i64)) % (w as i64);
        let r = -t;
        proof {
            let vi = v as int;
            let wi = w as int;
            assert(0 <= t < wi);
            assert(t == (-vi) % wi);
            let q = (-vi) / wi;
            vstd::arithmetic::div_mod::lemma_fundamental_div_mod(-vi, wi);
            assert(-vi == wi * q + t);
            if t == 0 {
                assert(vi == (-q) * wi + 0) by (nonlinear_arith)
                    requires -vi == wi * q + t, t == 0;
                vstd::arithmetic::div_mod::lemma_fundamental_div_mod_converse(vi, wi, -q, 0);
            } else {
                assert(vi == (-q - 1) * wi + (wi - t)) by (nonlinear_arith)
                    requires -vi == wi * q + t;
                vstd::arithmetic::div_mod::lemma_fundamental_div_mod_converse(vi, wi, -q - 1, wi - t);
            }
        }
        if r == 0 {
            0
        } else {
            (w as i64 + r) as i32
        }
    }
}

/// The quadrant of `p` about the middle `(hx, hy)`: 0 and 1 above, 2 and 3 below, left
/// first; `None` on the middle lines.
pub open spec fn spec_quadrant(p: Point, hx: int, hy: int) -> Option<usize> {
    if p.x == hx || p.y == hy {
        None
    } else {
        Some(((if p.x < hx { 0int } else { 1int }) + (if p.y < hy { 0int } else { 2int })) as usize)
    }
}

pub fn quadrant(p: Point, hx: i32, hy: i32) -> (r: Option<usize>)
    ensures
        r == spec_quadrant(p, hx as int, hy as int),
{
    let ix: usize = if p.x < hx {
        0
    } else if p.x > hx {
        1
    } else {
        return None;
    };
    let iy: usize = if p.y < hy {
        0
    } else if p.y > hy {
        2
    } else {
        return None;
    };
    Some(ix + iy)
}

/// Where a robot is after `nsec` seconds on a floor of `dx` by `dy` tiles.
pub open spec fn position_after(r: Robot, dx: int, dy: int, nsec: int) -> Point {
    Point { x: ((r.p.x + r.v.x * nsec) % dx) as i32, y: ((r.p.y + r.v.y * nsec) % dy) as i32 }
}

/// The number of the first `n` robots in quadrant `q` after `nsec` seconds.
pub open spec fn quadrant_count(rs: Seq<Robot>, dx: int, dy: int, nsec: int, q: usize, n: int) -> nat
    decreases n,
{
    if n <= 0 {
        0
    } else {
        quadrant_count(rs, dx, dy, nsec, q, n - 1) + if spec_quadrant(
            position_after(rs[n - 1], dx, dy, nsec),
            dx / 2,
            dy / 2,
        ) == Some(q) {
            1nat
        } else {
            0nat
        }
    }
}

/// The moves do not overflow: every coordinate plus velocity times `nsec` fits in an `i32`.
pub open spec fn moves_fit(rs: Seq<Robot>, nsec: int) -> bool {
    forall|i: int|
        0 <= i < rs.len() ==> i32::MIN <= #[trigger] rs[i].p.x + rs[i].v.x * nsec <= i32::MAX && i32::MIN
            <= rs[i].p.y + rs[i].v.y * nsec <= i32::MAX && i32::MIN <= rs[i].v.x * nsec <= i32::MAX
            && i32::MIN <= rs[i].v.y * nsec <= i32::MAX
}

proof fn lemma_quadrant_count_bound(rs: Seq<Robot>, dx: int, dy: int, nsec: int, q: usize, n: int)
    requires
        0 <= n,
    ensures
        quadrant_count(rs, dx, dy, nsec, q, n) <= n,
    decreases n,
{
    if n > 0 {
        lemma_quadrant_count_bound(rs, dx, dy, nsec, q, n - 1);
    }
}

/// The product of the robots in the four quadrants after `nsec` seconds fits in a `usize`,
/// taken from the first quadrant on.
pub open spec fn factor_fits(rs: Seq<Robot>, dx: int, dy: int, nsec: int) -> bool {
    let n = rs.len() as int;
    let c0 = quadrant_count(rs, dx, dy, nsec, 0, n);
    let c1 = quadrant_count(rs, dx, dy, nsec, 1, n);
    let c2 = quadrant_count(rs, dx, dy, nsec, 2, n);
    let c3 = quadrant_count(rs, dx, dy, nsec, 3, n);
    &&& c0 * c1 <= usize::MAX
    &&& c0 * c1 * c2 <= usize::MAX
    &&& c0 * c1 * c2 * c3 <= usize::MAX
}

/// The product of the numbers of robots in the four quadrants after `nsec` seconds.
pub fn safety_factor(robots: &[Robot], dx: i32, dy: i32, nsec: i32) -> (r: usize)
    requires
        dx > 0,
        dy > 0,
        moves_fit(robots@, nsec as int),
        factor_fits(robots@, dx as int, dy as int, nsec as int),
    ensures
        r == quadrant_count(robots@, dx as int, dy as int, nsec as int, 0, robots@.len() as int)
            * quadrant_count(robots@, dx as int, dy as int, nsec as int, 1, robots@.len() as int)
            * quadrant_count(robots@, dx as int, dy as int, nsec as int, 2, robots@.len() as int)
            * quadrant_count(robots@, dx as int, dy as int, nsec as int, 3, robots@.len() as int),
{
    let hx = dx / 2;
    let hy = dy / 2;
    let mut acc: [usize; 4] = [0, 0, 0, 0];
    let mut i: usize = 0;
    let ghost rs = robots@;
    let ghost (gdx, gdy, gn) = (dx as int, dy as int, nsec as int);
    while i < robots.len()
        invariant
            rs == robots@,
            dx > 0 && dy > 0,
            hx == dx / 2 && hy == dy / 2,
            gdx == dx && gdy == dy && gn == nsec,
            moves_fit(rs, gn),
            i <= rs.len(),
            forall|q: int| 0 <= q < 4 ==> #[trigger] acc@[q] == quadrant_count(rs, gdx, gdy, gn, q as usize, i as int),
        decreases rs.len() - i,
    {
        let rb = robots[i];
        assert(rb == rs[i as int]);
        let x = wrap(rb.p.x + rb.v.x * nsec, dx);
        let y = wrap(rb.p.y + rb.v.y * nsec, dy);
        let pq = pt(x, y);
        assert(pq == position_after(rs[i as int], gdx, gdy, gn));
        match quadrant(pq, hx, hy) {
            Some(q) => {
                proof {
                    lemma_quadrant_count_bound(rs, gdx, gdy, gn, q, i as int);
                }
                acc[q] = acc[q] + 1;
            },
            None => {},
        }
        i += 1;
    }
    proof {
        let n = rs.len() as int;
        lemma_quadrant_count_bound(rs, gdx, gdy, gn, 0, n);
        lemma_quadrant_count_bound(rs, gdx, gdy, gn, 1, n);
        lemma_quadrant_count_bound(rs, gdx, gdy, gn, 2, n);
        lemma_quadrant_count_bound(rs, gdx, gdy, gn, 3, n);
        assert(acc@[0] == quadrant_count(rs, gdx, gdy, gn, 0, n));
        assert(acc@[1] == quadrant_count(rs, gdx, gdy, gn, 1, n));
        assert(acc@[2] == quadrant_count(rs, gdx, gdy, gn, 2, n));
        assert(acc@[3] == quadrant_count(rs, gdx, gdy, gn, 3, n));
    }
    acc[0] * acc[1] * acc[2] * acc[3]
}


/// The robot's coordinates lie on a floor of `dx` by `dy` tiles, and it moves less than
/// the floor's size each second.
pub open spec fn on_floor(r: Robot, dx: int, dy: int) -> bool {
    &&& 0 <= r.p.x < dx
    &&& 0 <= r.p.y < dy
    &&& -dx <= r.v.x <= dx
    &&& -dy <= r.v.y <= dy
}

/// A robot one second later.
pub open spec fn step_robot(r: Robot, dx: int, dy: int) -> Robot {
    let x = r.p.x + r.v.x;
    let y = r.p.y + r.v.y;
    let x2 = if x < 0 { x + dx } else if x >= dx { x - dx } else { x };
    let y2 = if y < 0 { y + dy } else if y >= dy { y - dy } else { y };
    Robot { p: Point { x: x2 as i32, y: y2 as i32 }, ..r }
}

/// The robots `t` seconds later.
pub open spec fn robots_after(rs: Seq<Robot>, dx: int, dy: int, t: nat) -> Seq<Robot>
    decreases t,
{
    if t == 0 {
        rs
    } else {
        let prev = robots_after(rs, dx, dy, (t - 1) as nat);
        Seq::new(prev.len(), |i: int| step_robot(prev[i], dx, dy))
    }
}

/// No two robots share a tile.
pub open spec fn all_apart(rs: Seq<Robot>) -> bool {
    forall|i: int, j: int| 0 <= i < j < rs.len() ==> (#[trigger] rs[i]).p != (#[trigger] rs[j]).p
}


/// Whether no two robots share a tile, where every robot lies within 128 columns and 103
/// rows.
pub fn is_xmas_tree(robots: &[Robot]) -> (r: bool)
    requires
        forall|i: int|
            0 <= i < robots@.len() ==> 0 <= #[trigger] robots@[i].p.x < 128 && 0 <= robots@[i].p.y < 103,
    ensures
        r == all_apart(robots@),
{
    let mut pic: Vec<u128> = Vec::new();
    while pic.len() < 103
        invariant
            pic@.len() <= 103,
            forall|y: int| 0 <= y < pic@.len() ==> pic@[y] == 0,
        decreases 103 - pic@.len(),
    {
        pic.push(0);
    }
    let ghost rs = robots@;
    let mut i: usize = 0;
    proof {
        assert forall|x: int, y: int| 0 <= x < 128 && 0 <= y < 103 implies !#[trigger] bit_set(pic@[y], x) by {
            lemma_zero_bit(x as u128);
        }
    }
    while i < robots.len()
        invariant
            rs == robots@,
            forall|k: int| 0 <= k < rs.len() ==> 0 <= #[trigger] rs[k].p.x < 128 && 0 <= rs[k].p.y < 103,
            pic@.len() == 103,
            i <= rs.len(),
            all_apart(rs.take(i as int)),
            forall|x: int, y: int|
                0 <= x < 128 && 0 <= y < 103 ==> #[trigger] bit_set(pic@[y], x)
                    == (exists|k: int| 0 <= k < i && rs[k].p.x == x && rs[k].p.y == y),
        decreases rs.len() - i,
    {
        let p = robots[i].p;
        let m: u128 = 1u128 << (p.x as u128);
        let yy = p.y as usize;
        let v = pic[yy];
        if (v & m) != 0 {
            proof {
                assert(bit_set(v, p.x as int));
                let k = choose|k: int| 0 <= k < i && rs[k].p.x == p.x && rs[k].p.y == p.y;
                assert(rs.take(i + 1)[k] == rs[k] && rs.take(i + 1)[i as int] == rs[i as int]);
                assert(!all_apart(rs.take(i + 1)));
                assert(!all_apart(rs)) by {
                    assert(rs[k].p == rs[i as int].p);
                }
            }
            return false;
        }
        let ghost old_pic = pic@;
        pic.set(yy, v | m);
        proof {
            assert forall|x: int, y: int|
                0 <= x < 128 && 0 <= y < 103 implies #[trigger] bit_set(pic@[y], x)
                    == (exists|k: int| 0 <= k < i + 1 && rs[k].p.x == x && rs[k].p.y == y) by {
                assert(bit_set(old_pic[y], x) == (exists|k: int| 0 <= k < i && rs[k].p.x == x && rs[k].p.y == y));
                if y == yy {
                    lemma_bit(v, p.x as u128, x as u128);
                    if x == p.x {
                        assert(rs[i as int].p.x == x && rs[i as int].p.y == y);
                    }
                } else {
                    if exists|k: int| 0 <= k < i + 1 && rs[k].p.x == x && rs[k].p.y == y {
                        let k = choose|k: int| 0 <= k < i + 1 && rs[k].p.x == x && rs[k].p.y == y;
                        assert(k < i);
                    }
                }
            }
            assert forall|a: int, b: int| 0 <= a < b < i + 1 implies (#[trigger] rs.take(i + 1)[a]).p
                != (#[trigger] rs.take(i + 1)[b]).p by {
                if b == i {
                    let q = rs[a].p;
                    assert(bit_set(v, q.x as int) || q.y != p.y);
                } else {
                    assert(rs.take(i as int)[a] == rs[a] && rs.take(i as int)[b] == rs[b]);
                }
            }
        }
        i += 1;
    }
    assert(rs.take(rs.len() as int) =~= rs);
    true
}


/// Moves every robot one second on a floor of `dx` by `dy` tiles.
pub fn advance(robots: &mut Vec<Robot>, dx: i32, dy: i32)
    requires
        0 < dx <= i32::MAX / 2,
        0 < dy <= i32::MAX / 2,
        forall|i: int| 0 <= i < old(robots)@.len() ==> on_floor(#[trigger] old(robots)@[i], dx as int, dy as int),
    ensures
        final(robots)@ == Seq::new(old(robots)@.len(), |i: int| step_robot(old(robots)@[i], dx as int, dy as int)),
        forall|i: int| 0 <= i < final(robots)@.len() ==> on_floor(#[trigger] final(robots)@[i], dx as int, dy as int),
{
    let ghost rs = robots@;
    let mut i: usize = 0;
    while i < robots.len()
        invariant
            0 < dx <= i32::MAX / 2 && 0 < dy <= i32::MAX / 2,
            robots@.len() == rs.len(),
            i <= rs.len(),
            forall|k: int| 0 <= k < rs.len() ==> on_floor(#[trigger] rs[k], dx as int, dy as int),
            forall|k: int| 0 <= k < i ==> #[trigger] robots@[k] == step_robot(rs[k], dx as int, dy as int),
            forall|k: int| i <= k < rs.len() ==> #[trigger] robots@[k] == rs[k],
        decreases rs.len() - i,
    {
        let mut r = robots[i];
        assert(r == rs[i as int]);
        assert(on_floor(rs[i as int], dx as int, dy as int));
        r.p.x = r.p.x + r.v.x;
        r.p.y = r.p.y + r.v.y;
        if r.p.x < 0 {
            r.p.x = r.p.x + dx;
        } else if r.p.x >= dx {
            r.p.x = r.p.x - dx;
        }
        if r.p.y < 0 {
            r.p.y = r.p.y + dy;
        } else if r.p.y >= dy {
            r.p.y = r.p.y - dy;
        }
        robots.set(i, r);
        i += 1;
    }
    assert(robots@ =~= Seq::new(rs.len(), |i: int| step_robot(rs[i], dx as int, dy as int)));
}

/// The robots meet on no tile at second `t`.
pub open spec fn apart_at(rs: Seq<Robot>, dx: int, dy: int, t: nat) -> bool {
    all_apart(robots_after(rs, dx, dy, t))
}

/// The first second, counting from one, at which no two robots share a tile; where the
/// robots lie on a floor of at most 128 by 103 tiles and such a second comes.
pub fn xmas_iter(robots: &[Robot], dx: i32, dy: i32) -> (r: usize)
    requires
        0 < dx <= 128,
        0 < dy <= 103,
        forall|i: int| 0 <= i < robots@.len() ==> on_floor(#[trigger] robots@[i], dx as int, dy as int),
        exists|t: nat| 1 <= t <= usize::MAX && apart_at(robots@, dx as int, dy as int, t),
    ensures
        1 <= r,
        apart_at(robots@, dx as int, dy as int, r as nat),
        forall|t: nat| 1 <= t < r ==> !apart_at(robots@, dx as int, dy as int, t),
{
    let ghost rs = robots@;
    let ghost gdx = dx as int;
    let ghost gdy = dy as int;
    let ghost tt = choose|t: nat| 1 <= t <= usize::MAX && apart_at(rs, gdx, gdy, t);
    let mut cur: Vec<Robot> = Vec::new();
    let mut i: usize = 0;
    while i < robots.len()
        invariant
            i <= robots@.len(),
            cur@ == robots@.take(i as int),
        decreases robots@.len() - i,
    {
        cur.push(robots[i]);
        i += 1;
        assert(cur@ =~= robots@.take(i as int));
    }
    assert(robots@.take(robots@.len() as int) =~= rs);
    let mut nsec: usize = 0;
    loop
        invariant
            0 < dx <= 128 && 0 < dy <= 103,
            gdx == dx && gdy == dy,
            rs == robots@,
            1 <= tt <= usize::MAX,
            apart_at(rs, gdx, gdy, tt),
            cur@ == robots_after(rs, gdx, gdy, nsec as nat),
            nsec < tt,
            forall|k: int| 0 <= k < cur@.len() ==> on_floor(#[trigger] cur@[k], gdx, gdy),
            forall|t: nat| 1 <= t <= nsec ==> !apart_at(rs, gdx, gdy, t),
        decreases tt - nsec,
    {
        advance(&mut cur, dx, dy);
        nsec += 1;
        assert(cur@ =~= robots_after(rs, gdx, gdy, nsec as nat));
        if is_xmas_tree(cur.as_slice()) {
            proof {
                assert(apart_at(rs, gdx, gdy, nsec as nat));
                assert forall|t: nat| 1 <= t < nsec implies !apart_at(rs, gdx, gdy, t) by {}
            }
            return nsec;
        }
    }
}

/// What a tile shows after one more robot: `.` becomes `1`, digits count up to `9`, then
/// letters from `A` up to `Z`, where the count stays; and whether the tile already held a
/// robot and had not reached `Z`.
pub open spec fn tally(c: u8) -> (u8, bool) {
    if c == 46 {
        (49, false)
    } else if c < 90 {
        (if c == 57 { 65 } else { (c + 1) as u8 }, true)
    } else {
        (c, false)
    }
}

/// The picture after drawing the first `n` robots on a blank picture, and the number of
/// robots drawn on a tile that already held one.
pub open spec fn picture(w: int, len: nat, rs: Seq<Robot>, n: int) -> (Seq<u8>, nat)
    decreases n,
{
    if n <= 0 {
        (Seq::new(len, |i: int| 46u8), 0)
    } else {
        let (pic, d) = picture(w, len, rs, n - 1);
        let i = rs[n - 1].p.x + rs[n - 1].p.y * w;
        let (c, dup) = tally(pic[i]);
        (pic.update(i, c), d + if dup { 1nat } else { 0nat })
    }
}

/// Draws the robots on the grid and returns how many share a tile with an earlier one.
pub fn map_robots(grid: &mut Grid<u8>, robots: &[Robot]) -> (r: usize)
    requires
        old(grid).wf(),
        forall|i: int| 0 <= i < robots@.len() ==> old(grid).inside(#[trigger] robots@[i].p),
    ensures
        final(grid).wf(),
        final(grid).width() == old(grid).width(),
        final(grid).height() == old(grid).height(),
        (final(grid).cells(), r as nat) == picture(old(grid).width(), old(grid).cells().len(), robots@, robots@.len() as int),
{
    grid.fill(46u8);
    let ghost w = grid.width();
    let ghost len = grid.cells().len();
    assert(grid.cells() =~= picture(w, len, robots@, 0).0);
    let mut ndup: usize = 0;
    let mut i: usize = 0;
    while i < robots.len()
        invariant
            grid.wf(),
            grid.width() == w == old(grid).width(),
            grid.height() == old(grid).height(),
            grid.cells().len() == len,
            forall|k: int| 0 <= k < robots@.len() ==> grid.inside(#[trigger] robots@[k].p),
            i <= robots@.len(),
            ndup <= i,
            (grid.cells(), ndup as nat) == picture(w, len, robots@, i as int),
        decreases robots@.len() - i,
    {
        let p = robots[i].p;
        assert(grid.inside(robots@[i as int].p));
        proof { grid.lemma_inside_index(p); }
        let v = grid.get(p).unwrap();
        if v == 46u8 {
            grid.set(p, 49u8);
        } else if v < 90u8 {
            ndup += 1;
            if v == 57u8 {
                grid.set(p, 65u8);
            } else {
                grid.set(p, v + 1);
            }
        }
        i += 1;
    }
    ndup
}

/// The robots that the puzzle text lists, one per line.
pub open spec fn robots_of(s: Seq<u8>) -> Option<Seq<Robot>> {
    let ls = lines_of(s);
    if forall|i: int| 0 <= i < ls.len() ==> robot_of(#[trigger] ls[i]) is Some {
        Some(Seq::new(ls.len(), |i: int| robot_of(ls[i]).unwrap()))
    } else {
        None
    }
}

/// Reads the robots, one per line.
pub fn parse_robots(input: &str) -> (r: Result<Vec<Robot>, AocError>)
    ensures
        match r {
            Ok(v) => robots_of(input.spec_bytes()) == Some(v@),
            Err(e) => robots_of(input.spec_bytes()) is None && e == AocError::InvalidInput,
        },
{
    let ls = lines(input.as_bytes());
    let ghost sl = lines_of(input.spec_bytes());
    let mut v: Vec<Robot> = Vec::new();
    let mut i: usize = 0;
    while i < ls.len()
        invariant
            sl == lines_of(input.spec_bytes()),
            views(ls@) == sl,
            i <= sl.len(),
            v@.len() == i,
            forall|k: int| 0 <= k < i ==> robot_of(#[trigger] sl[k]) == Some(v@[k]),
        decreases sl.len() - i,
    {
        assert(ls@[i as int]@ == sl[i as int]);
        match parse_robot(ls[i].as_slice()) {
            Ok(rb) => {
                v.push(rb);
            },
            Err(e) => {
                assert(robot_of(sl[i as int]) is None);
                return Err(e);
            },
        }
        i += 1;
    }
    assert(v@ =~= Seq::new(sl.len(), |i: int| robot_of(sl[i]).unwrap()));
    Ok(v)
}

/// The robots can be solved for on the puzzle's 101 by 103 floor: they fit the counting
/// for the safety factor after 100 seconds, they lie on the floor, and a second comes at
/// which none meet.
pub open spec fn robots_ok(rs: Seq<Robot>) -> bool {
    &&& moves_fit(rs, 100)
    &&& factor_fits(rs, 101, 103, 100)
    &&& forall|i: int| 0 <= i < rs.len() ==> on_floor(#[trigger] rs[i], 101, 103)
    &&& exists|t: nat| 1 <= t <= usize::MAX && apart_at(rs, 101, 103, t)
}

/// The safety factor after 100 seconds and the first second at which no robots meet.
pub fn run(input: &str) -> (r: Result<String, AocError>)
    requires
        robots_of(input.spec_bytes()) matches Some(rs) ==> robots_ok(rs),
    ensures
        match r {
            Ok(out) => robots_of(input.spec_bytes()) matches Some(rs) && exists|t: nat|
                {
                    &&& 1 <= t
                    &&& apart_at(rs, 101, 103, t)
                    &&& forall|u: nat| 1 <= u < t ==> !apart_at(rs, 101, 103, u)
                    &&& out@ == dec(
                        quadrant_count(rs, 101, 103, 100, 0, rs.len() as int) * quadrant_count(
                            rs,
                            101,
                            103,
                            100,
                            1,
                            rs.len() as int,
                        ) * quadrant_count(rs, 101, 103, 100, 2, rs.len() as int) * quadrant_count(
                            rs,
                            101,
                            103,
                            100,
                            3,
                            rs.len() as int,
                        ),
                    ) + " "@ + dec(t)
                },
            Err(e) => robots_of(input.spec_bytes()) is None && e == AocError::InvalidInput,
        },
{
    let robots = parse_robots(input)?;
    let s1 = safety_factor(robots.as_slice(), 101, 103, 100);
    let s2 = xmas_iter(robots.as_slice(), 101, 103);
    let mut out = String::new();
    push_dec(&mut out, s1 as u64);
    proof { reveal_strlit(" "); }
    push_str(&mut out, " ");
    push_dec(&mut out, s2 as u64);
    proof {
        assert(1 <= s2 as nat && apart_at(robots@, 101, 103, s2 as nat));
    }
    Ok(out)
}

} // verus!
