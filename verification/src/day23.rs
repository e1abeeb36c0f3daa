//! A network of computers linked in pairs: its sets of three computers that are all
//! linked to each other, and the largest set of computers that are all linked.

use vstd::prelude::*;
use vstd::string::*;
use crate::error::AocError;
use crate::text::{lines, lines_of, views, split_once, split_once_byte, push_str, push_dec, ascii_str, dec};

verus! {

/// How many computer names there are: two lowercase letters.
pub const NCOMP: usize = 676;

/// A computer: its two-letter name.
#[derive(Debug, Clone, Copy, PartialEq, Eq, Structural, Hash)]
pub struct Comp {
    pub c0: u8,
    pub c1: u8,
}

pub open spec fn lower(b: u8) -> bool {
    97 <= b && b <= 122
}

/// The computer that a text names: exactly two lowercase letters.
pub open spec fn comp_of(s: Seq<u8>) -> Option<Comp> {
    if s.len() == 2 && lower(s[0]) && lower(s[1]) {
        Some(Comp { c0: s[0], c1: s[1] })
    } else {
        None
    }
}

/// The computer with number `i`, in the order of names.
pub open spec fn comp_at(i: int) -> Comp {
    Comp { c0: (97 + i / 26) as u8, c1: (97 + i % 26) as u8 }
}

impl Comp {
    /// Both letters are lowercase.
    pub open spec fn ok(self) -> bool {
        lower(self.c0) && lower(self.c1)
    }

    /// The computer's number, in the order of names.
    pub open spec fn idx(self) -> int {
        (self.c0 - 97) * 26 + (self.c1 - 97)
    }

    /// `Comp::parse`: the computer that `src` names.
    pub fn parse(src: &[u8]) -> (r: Option<Comp>)
        ensures
            r == comp_of(src@),
    {
        if src.len() == 2 && 97 <= src[0] && src[0] <= 122 && 97 <= src[1] && src[1] <= 122 {
            Some(Comp { c0: src[0], c1: src[1] })
        } else {
            None
        }
    }

    /// The computer's number.
    pub fn index(&self) -> (r: usize)
        requires
            self.ok(),
        ensures
            r == self.idx(),
            r < NCOMP,
            comp_at(r as int) == *self,
    {
        let r = (self.c0 - 97) as usize * 26 + (self.c1 - 97) as usize;
        assert(r / 26 == self.c0 - 97 && r % 26 == self.c1 - 97) by (nonlinear_arith)
            requires r == (self.c0 - 97) * 26 + (self.c1 - 97), 0 <= self.c1 - 97 < 26;
        r
    }

    /// The first letter of the name.
    pub fn char0(&self) -> (r: u8)
        ensures
            r == self.c0,
    {
        self.c0
    }
}

/// Where the link between computers `i` and `j` is kept.
pub open spec fn cell(i: int, j: int) -> int {
    i * 676 + j
}

pub proof fn lemma_cell()
    ensures
        forall|i: int, j: int|
            0 <= i < 676 && 0 <= j < 676 ==> 0 <= #[trigger] cell(i, j) < 676 * 676 && cell(i, j) / 676 == i
                && cell(i, j) % 676 == j,
{
    assert forall|i: int, j: int| 0 <= i < 676 && 0 <= j < 676 implies 0 <= #[trigger] cell(i, j) < 676 * 676
        && cell(i, j) / 676 == i && cell(i, j) % 676 == j by {
        assert(0 <= i * 676 + j < 676 * 676 && (i * 676 + j) / 676 == i && (i * 676 + j) % 676 == j) by (nonlinear_arith)
            requires 0 <= i < 676, 0 <= j < 676;
    }
}

/// The links of a network, between every two computers, in both directions.
pub struct Network {
    pub links: Vec<bool>,
}

impl Network {
    pub open spec fn wf(&self) -> bool {
        &&& self.links@.len() == 676 * 676
        &&& forall|i: int, j: int|
            0 <= i < 676 && 0 <= j < 676 ==> #[trigger] self.linked(i, j) == self.linked(j, i)
    }

    /// Computers `i` and `j` are linked.
    pub open spec fn linked(&self, i: int, j: int) -> bool {
        self.links@[cell(i, j)]
    }

    /// A network with no links.
    pub fn new() -> (r: Network)
        ensures
            r.wf(),
            forall|i: int, j: int| 0 <= i < 676 && 0 <= j < 676 ==> !#[trigger] r.linked(i, j),
    {
        let mut links: Vec<bool> = Vec::new();
        let mut k: usize = 0;
        while k < NCOMP * NCOMP
            invariant
                k <= 676 * 676,
                links@.len() == k,
                forall|t: int| 0 <= t < k ==> !#[trigger] links@[t],
            decreases 676 * 676 - k,
        {
            links.push(false);
            k += 1;
        }
        proof {
            lemma_cell();
        }
        Network { links }
    }

    /// Links `l` and `r`, both ways.
    pub fn add_link(&mut self, l: Comp, r: Comp)
        requires
            old(self).wf(),
            l.ok(),
            r.ok(),
        ensures
            final(self).wf(),
            forall|i: int, j: int|
                0 <= i < 676 && 0 <= j < 676 ==> #[trigger] final(self).linked(i, j) == (old(self).linked(i, j)
                    || (i == l.idx() && j == r.idx()) || (i == r.idx() && j == l.idx())),
    {
        let a = l.index();
        let b = r.index();
        proof {
            lemma_cell();
        }
        assert(0 <= cell(a as int, b as int) < 676 * 676);
        assert(0 <= cell(b as int, a as int) < 676 * 676);
        self.links.set(a * NCOMP + b, true);
        self.links.set(b * NCOMP + a, true);
        proof {
            assert forall|i: int, j: int| 0 <= i < 676 && 0 <= j < 676 implies #[trigger] self.linked(i, j) == (
            old(self).linked(i, j) || (i == l.idx() && j == r.idx()) || (i == r.idx() && j == l.idx())) by {
                assert(cell(i, j) / 676 == i && cell(i, j) % 676 == j);
            }
            assert forall|i: int, j: int| 0 <= i < 676 && 0 <= j < 676 implies #[trigger] self.linked(i, j)
                == self.linked(j, i) by {
                assert(old(self).linked(i, j) == old(self).linked(j, i));
                assert(cell(i, j) / 676 == i && cell(i, j) % 676 == j);
                assert(cell(j, i) / 676 == j && cell(j, i) % 676 == i);
            }
        }
    }

    /// Whether computers `i` and `j` are linked.
    pub fn linked_at(&self, i: usize, j: usize) -> (r: bool)
        requires
            self.wf(),
            i < NCOMP,
            j < NCOMP,
        ensures
            r == self.linked(i as int, j as int),
    {
        proof {
            lemma_cell();
        }
        assert(0 <= cell(i as int, j as int) < 676 * 676);
        self.links[i * NCOMP + j]
    }

    /// Whether `l` and `r` are linked.
    pub fn has_link(&self, l: Comp, r: Comp) -> (b: bool)
        requires
            self.wf(),
        ensures
            b == (l.ok() && r.ok() && self.linked(l.idx(), r.idx())),
    {
        if 97 <= l.c0 && l.c0 <= 122 && 97 <= l.c1 && l.c1 <= 122 && 97 <= r.c0 && r.c0 <= 122 && 97 <= r.c1
            && r.c1 <= 122 {
            self.linked_at(l.index(), r.index())
        } else {
            false
        }
    }
}

/// The two computers a line `ab-cd` links.
pub open spec fn link_of(l: Seq<u8>) -> Option<(Comp, Comp)> {
    match split_once(l, 45u8) {
        Some((a, b)) => match (comp_of(a), comp_of(b)) {
            (Some(x), Some(y)) => Some((x, y)),
            _ => None,
        },
        None => None,
    }
}

/// `parse_link`: the two computers a line links.
pub fn parse_link(line: &[u8]) -> (r: Option<(Comp, Comp)>)
    ensures
        r == link_of(line@),
{
    match split_once_byte(line, 45u8) {
        Some((a, b)) => match (Comp::parse(a.as_slice()), Comp::parse(b.as_slice())) {
            (Some(x), Some(y)) => Some((x, y)),
            _ => None,
        },
        None => None,
    }
}

/// One of the first `n` lines links computers `i` and `j`.
pub open spec fn line_links(ls: Seq<Seq<u8>>, n: int, i: int, j: int) -> bool {
    exists|k: int|
        0 <= k < n && match #[trigger] link_of(ls[k]) {
            Some((a, b)) => (a.idx() == i && b.idx() == j) || (a.idx() == j && b.idx() == i),
            None => false,
        }
}

/// Every line of the text names a link.
pub open spec fn all_links(s: Seq<u8>) -> bool {
    forall|k: int| 0 <= k < lines_of(s).len() ==> #[trigger] link_of(lines_of(s)[k]) is Some
}

/// `parse_network`: the network whose links the lines of the text name, or an error
/// where a line names none.
pub fn parse_network(input: &str) -> (r: Result<Network, AocError>)
    ensures
        match r {
            Ok(net) => {
                &&& all_links(input.spec_bytes())
                &&& net.wf()
                &&& forall|i: int, j: int|
                    0 <= i < 676 && 0 <= j < 676 ==> #[trigger] net.linked(i, j) == line_links(
                        lines_of(input.spec_bytes()),
                        lines_of(input.spec_bytes()).len() as int,
                        i,
                        j,
                    )
            },
            Err(e) => !all_links(input.spec_bytes()) && e == AocError::InvalidInput,
        },
{
    let ls = lines(input.as_bytes());
    let ghost lv = lines_of(input.spec_bytes());
    let mut net = Network::new();
    let mut k: usize = 0;
    while k < ls.len()
        invariant
            views(ls@) == lv,
            lv == lines_of(input.spec_bytes()),
            k <= ls@.len(),
            net.wf(),
            forall|t: int| 0 <= t < k ==> #[trigger] link_of(lv[t]) is Some,
            forall|i: int, j: int|
                0 <= i < 676 && 0 <= j < 676 ==> #[trigger] net.linked(i, j) == line_links(lv, k as int, i, j),
        decreases ls@.len() - k,
    {
        assert(ls[k as int]@ == lv[k as int]);
        match parse_link(ls[k].as_slice()) {
            Some((a, b)) => {
                let ghost before = net;
                net.add_link(a, b);
                proof {
                    assert forall|i: int, j: int| 0 <= i < 676 && 0 <= j < 676 implies #[trigger] net.linked(i, j)
                        == line_links(lv, k + 1, i, j) by {
                        if net.linked(i, j) && !before.linked(i, j) {
                            assert(match link_of(lv[k as int]) {
                                Some((a, b)) => (a.idx() == i && b.idx() == j) || (a.idx() == j && b.idx() == i),
                                None => false,
                            });
                        }
                        if line_links(lv, k + 1, i, j) && !line_links(lv, k as int, i, j) {
                            let t = choose|t: int| 0 <= t < k + 1 && match #[trigger] link_of(lv[t]) {
                                Some((a, b)) => (a.idx() == i && b.idx() == j) || (a.idx() == j && b.idx() == i),
                                None => false,
                            };
                            assert(t == k);
                        }
                    }
                }
            },
            None => {
                assert(link_of(lines_of(input.spec_bytes())[k as int]) is None);
                return Err(AocError::InvalidInput);
            },
        }
        k += 1;
    }
    Ok(net)
}


/// Which computers may stand first in a triplet.
#[derive(Debug, Clone, Copy, PartialEq, Eq, Structural)]
pub enum Filter {
    /// Only those whose name starts with `t`.
    TStart,
    /// Any.
    All,
}

/// The filter passes computer `i`.
pub open spec fn passes(f: Filter, i: int) -> bool {
    match f {
        Filter::TStart => comp_at(i).c0 == 116u8,
        Filter::All => true,
    }
}

/// Computer `x`, which the filter passes, is linked to two other computers `y` and `z`
/// that are linked to each other.
pub open spec fn tri_at(net: Network, f: Filter, x: int, y: int, z: int) -> bool {
    passes(f, x) && y != z && net.linked(x, y) && net.linked(x, z) && net.linked(y, z)
}

/// `a <= b <= c` are the computers of a triplet, in the order of their names.
pub open spec fn is_triplet(net: Network, f: Filter, a: int, b: int, c: int) -> bool {
    &&& 0 <= a <= b <= c < 676
    &&& tri_at(net, f, a, b, c) || tri_at(net, f, a, c, b) || tri_at(net, f, b, a, c) || tri_at(net, f, b, c, a)
        || tri_at(net, f, c, a, b) || tri_at(net, f, c, b, a)
}

/// The triplets of the network, by the numbers of their computers.
pub open spec fn triplet_set(net: Network, f: Filter) -> Set<(int, int, int)> {
    Set::new(|t: (int, int, int)| is_triplet(net, f, t.0, t.1, t.2))
}

/// `s` comes before `t` in the order of names.
pub open spec fn lex_lt(s: (int, int, int), t: (int, int, int)) -> bool {
    s.0 < t.0 || (s.0 == t.0 && (s.1 < t.1 || (s.1 == t.1 && s.2 < t.2)))
}

/// The computers of a triplet.
pub open spec fn comps3(t: (int, int, int)) -> (Comp, Comp, Comp) {
    (comp_at(t.0), comp_at(t.1), comp_at(t.2))
}

/// The triplets listed are those that come before `p`.
pub open spec fn seen_upto(net: Network, f: Filter, keys: Seq<(int, int, int)>, p: (int, int, int)) -> bool {
    &&& forall|t: (int, int, int)| #[trigger] keys.contains(t) == (is_triplet(net, f, t.0, t.1, t.2) && lex_lt(t, p))
    &&& forall|i: int, j: int| 0 <= i < j < keys.len() ==> lex_lt(#[trigger] keys[i], #[trigger] keys[j])
    &&& forall|i: int| 0 <= i < keys.len() ==> lex_lt(#[trigger] keys[i], p)
}

pub proof fn lemma_comp_at(i: int)
    requires
        0 <= i < 676,
    ensures
        comp_at(i).ok(),
        comp_at(i).idx() == i,
{
    assert(0 <= i / 26 < 26 && 0 <= i % 26 < 26 && (i / 26) * 26 + i % 26 == i) by (nonlinear_arith)
        requires 0 <= i < 676;
}

/// A triplet's first two computers are linked, or are one.
pub proof fn lemma_first_pair(net: Network, f: Filter, a: int, b: int, c: int)
    requires
        net.wf(),
        is_triplet(net, f, a, b, c),
    ensures
        a == b || net.linked(a, b),
{
    assert(net.linked(a, b) == net.linked(b, a));
    assert(net.linked(a, c) == net.linked(c, a));
    assert(net.linked(b, c) == net.linked(c, b));
}

/// `tri_at` on computers' numbers.
fn tri_check(net: &Network, f: Filter, x: usize, y: usize, z: usize) -> (r: bool)
    requires
        net.wf(),
        x < NCOMP,
        y < NCOMP,
        z < NCOMP,
    ensures
        r == tri_at(*net, f, x as int, y as int, z as int),
{
    let pass = match f {
        Filter::TStart => x / 26 == 19,
        Filter::All => true,
    };
    proof {
        lemma_comp_at(x as int);
        assert(0 <= x / 26 < 26) by (nonlinear_arith)
            requires x < 676;
        assert(pass == passes(f, x as int));
    }
    pass && y != z && net.linked_at(x, y) && net.linked_at(x, z) && net.linked_at(y, z)
}

/// The triplets of the network, listed in the order of names, with their numbers.
fn triplets_keyed(network: &Network, filter: Filter) -> (r: (Vec<(Comp, Comp, Comp)>, Ghost<Seq<(int, int, int)>>))
    requires
        network.wf(),
    ensures
        r.1@.len() == r.0@.len(),
        forall|k: int| 0 <= k < r.0@.len() ==> #[trigger] r.0@[k] == comps3(r.1@[k]),
        forall|k: int| 0 <= k < r.1@.len() ==> {
            let t = #[trigger] r.1@[k];
            is_triplet(*network, filter, t.0, t.1, t.2)
        },
        r.1@.no_duplicates(),
        r.1@.to_set() == triplet_set(*network, filter),
{
    let ghost net = *network;
    let mut out: Vec<(Comp, Comp, Comp)> = Vec::new();
    let ghost mut keys: Seq<(int, int, int)> = Seq::empty();
    let mut a: usize = 0;
    while a < NCOMP
        invariant
            network.wf(),
            net == *network,
            a <= 676,
            keys.len() == out@.len(),
            forall|k: int| 0 <= k < out@.len() ==> #[trigger] out@[k] == comps3(keys[k]),
            seen_upto(net, filter, keys, (a as int, 0, 0)),
        decreases 676 - a,
    {
        let mut b: usize = a;
        while b < NCOMP
            invariant
                network.wf(),
                net == *network,
                a < 676,
                a <= b <= 676,
                keys.len() == out@.len(),
                forall|k: int| 0 <= k < out@.len() ==> #[trigger] out@[k] == comps3(keys[k]),
                seen_upto(net, filter, keys, (a as int, b as int, 0)),
            decreases 676 - b,
        {
            if a == b || network.linked_at(a, b) {
                let mut c: usize = b;
                while c < NCOMP
                    invariant
                        network.wf(),
                        net == *network,
                        a < 676,
                        a <= b < 676,
                        b <= c <= 676,
                        keys.len() == out@.len(),
                        forall|k: int| 0 <= k < out@.len() ==> #[trigger] out@[k] == comps3(keys[k]),
                        seen_upto(net, filter, keys, (a as int, b as int, c as int)),
                    decreases 676 - c,
                {
                    let found = tri_check(network, filter, a, b, c) || tri_check(network, filter, a, c, b)
                        || tri_check(network, filter, b, a, c) || tri_check(network, filter, b, c, a)
                        || tri_check(network, filter, c, a, b) || tri_check(network, filter, c, b, a);
                    let ghost old_keys = keys;
                    if found {
                        let ta = Comp { c0: (97 + a / 26) as u8, c1: (97 + a % 26) as u8 };
                        let tb = Comp { c0: (97 + b / 26) as u8, c1: (97 + b % 26) as u8 };
                        let tc = Comp { c0: (97 + c / 26) as u8, c1: (97 + c % 26) as u8 };
                        proof {
                            assert(0 <= a / 26 < 26 && 0 <= b / 26 < 26 && 0 <= c / 26 < 26) by (nonlinear_arith)
                                requires a < 676, b < 676, c < 676;
                        }
                        out.push((ta, tb, tc));
                        proof {
                            keys = keys.push((a as int, b as int, c as int));
                        }
                    }
                    proof {
                        let p = (a as int, b as int, c as int);
                        let q = (a as int, b as int, c + 1);
                        assert forall|t: (int, int, int)| #[trigger] keys.contains(t) == (is_triplet(net, filter, t.0, t.1, t.2)
                            && lex_lt(t, q)) by {
                            if found {
                                if keys.contains(t) && t != p {
                                    let k = choose|k: int| 0 <= k < keys.len() && keys[k] == t;
                                    assert(old_keys[k] == t);
                                    assert(old_keys.contains(t));
                                }
                                if t == p {
                                    assert(keys[keys.len() - 1] == t);
                                } else if is_triplet(net, filter, t.0, t.1, t.2) && lex_lt(t, q) {
                                    assert(old_keys.contains(t));
                                    let k = choose|k: int| 0 <= k < old_keys.len() && old_keys[k] == t;
                                    assert(keys[k] == t);
                                }
                            }
                        }
                    }
                    c += 1;
                }
            } else {
                proof {
                    assert forall|c: int| !is_triplet(net, filter, a as int, b as int, c) by {
                        if is_triplet(net, filter, a as int, b as int, c) {
                            lemma_first_pair(net, filter, a as int, b as int, c);
                        }
                    }
                }
            }
            b += 1;
        }
        a += 1;
    }
    proof {
        assert forall|k: int| 0 <= k < keys.len() implies {
            let t = #[trigger] keys[k];
            is_triplet(net, filter, t.0, t.1, t.2)
        } by {
            assert(keys.contains(keys[k]));
        }
        assert(keys.to_set() =~= triplet_set(net, filter));
    }
    (out, Ghost(keys))
}

/// The triplets of the network that start with a computer the filter passes, each once,
/// with its computers in the order of their names.
pub fn network_triplets(network: &Network, filter: Filter) -> (r: Vec<(Comp, Comp, Comp)>)
    requires
        network.wf(),
    ensures
        forall|k: int| 0 <= k < r@.len() ==> {
            let t = #[trigger] r@[k];
            t.0.ok() && t.1.ok() && t.2.ok() && is_triplet(*network, filter, t.0.idx(), t.1.idx(), t.2.idx())
        },
        forall|a: int, b: int, c: int| #[trigger] is_triplet(*network, filter, a, b, c) ==> r@.contains(comps3((a, b, c))),
        r@.no_duplicates(),
{
    let (out, Ghost(keys)) = triplets_keyed(network, filter);
    proof {
        assert forall|k: int| 0 <= k < out@.len() implies {
            let t = #[trigger] out@[k];
            t.0.ok() && t.1.ok() && t.2.ok() && is_triplet(*network, filter, t.0.idx(), t.1.idx(), t.2.idx())
        } by {
            let t = keys[k];
            assert(is_triplet(*network, filter, t.0, t.1, t.2));
            lemma_comp_at(t.0);
            lemma_comp_at(t.1);
            lemma_comp_at(t.2);
        }
        assert forall|a: int, b: int, c: int| #[trigger] is_triplet(*network, filter, a, b, c) implies out@.contains(comps3((a, b, c))) by {
            assert(triplet_set(*network, filter).contains((a, b, c)));
            assert(keys.to_set().contains((a, b, c)));
            let k = choose|k: int| 0 <= k < keys.len() && keys[k] == (a, b, c);
            assert(out@[k] == comps3((a, b, c)));
        }
        assert forall|i: int, j: int| 0 <= i < out@.len() && 0 <= j < out@.len() && i != j implies out@[i] != out@[j] by {
            let s = keys[i];
            let t = keys[j];
            assert(is_triplet(*network, filter, s.0, s.1, s.2));
            assert(is_triplet(*network, filter, t.0, t.1, t.2));
            lemma_comp_at(s.0);
            lemma_comp_at(s.1);
            lemma_comp_at(s.2);
            lemma_comp_at(t.0);
            lemma_comp_at(t.1);
            lemma_comp_at(t.2);
        }
    }
    out
}

/// The triplets that hold a computer whose name starts with `t`, each once.
pub fn star1_triplets(network: &Network) -> (r: Vec<(Comp, Comp, Comp)>)
    requires
        network.wf(),
    ensures
        forall|k: int| 0 <= k < r@.len() ==> {
            let t = #[trigger] r@[k];
            t.0.ok() && t.1.ok() && t.2.ok() && is_triplet(*network, Filter::TStart, t.0.idx(), t.1.idx(), t.2.idx())
        },
        forall|a: int, b: int, c: int| #[trigger] is_triplet(*network, Filter::TStart, a, b, c) ==> r@.contains(comps3((a, b, c))),
        r@.no_duplicates(),
{
    network_triplets(network, Filter::TStart)
}

/// The first answer: how many triplets hold a computer whose name starts with `t`.
pub fn star1(network: &Network) -> (r: usize)
    requires
        network.wf(),
    ensures
        r == triplet_set(*network, Filter::TStart).len(),
{
    let (out, Ghost(keys)) = triplets_keyed(network, Filter::TStart);
    proof {
        keys.unique_seq_to_set();
    }
    out.len()
}


/// The numbers that a list of computers' numbers holds.
pub open spec fn set_of(q: Seq<usize>) -> Set<int> {
    Set::new(|x: int| exists|k: int| 0 <= k < q.len() && q[k] == x)
}

/// A list of computers' numbers in strictly increasing order.
pub open spec fn sorted_ok(q: Seq<usize>) -> bool {
    &&& forall|i: int, j: int| 0 <= i < j < q.len() ==> #[trigger] q[i] < #[trigger] q[j]
    &&& forall|i: int| 0 <= i < q.len() ==> #[trigger] q[i] < 676
}

/// Computer `c` can join the set `s`: it is not in it, and is linked to every computer in it.
pub open spec fn can_expand(net: Network, s: Set<int>, c: int) -> bool {
    &&& 0 <= c < 676
    &&& !s.contains(c)
    &&& forall|x: int| #[trigger] s.contains(x) ==> net.linked(x, c)
}

/// The sets that the search starts from: the computers of each triplet.
pub open spec fn seeds(net: Network) -> Set<Set<int>> {
    Set::new(|s: Set<int>| exists|a: int, b: int, c: int| #[trigger] is_triplet(net, Filter::All, a, b, c) && s == set![a, b, c])
}

/// The sets that `n` steps of growth reach: a seed, then one computer added at each step.
pub open spec fn level(net: Network, n: nat) -> Set<Set<int>>
    decreases n,
{
    if n == 0 {
        seeds(net)
    } else {
        Set::new(|e: Set<int>| exists|s: Set<int>, c: int| #[trigger] level(net, (n - 1) as nat).contains(s) && #[trigger] can_expand(net, s, c) && e == s.insert(c))
    }
}

/// The set `e` is reached from a seed by one or more steps of growth.
pub open spec fn reached(net: Network, e: Set<int>) -> bool {
    exists|n: nat| n >= 1 && #[trigger] level(net, n).contains(e)
}

/// `q` lists, in order, a largest set that growth reaches.
pub open spec fn best_set(net: Network, q: Seq<usize>) -> bool {
    &&& sorted_ok(q)
    &&& reached(net, set_of(q))
    &&& forall|e: Set<int>| #[trigger] reached(net, e) ==> e.len() <= q.len()
}

/// The names of the computers numbered in `q`, joined by commas.
pub open spec fn comps_text(q: Seq<usize>) -> Seq<char>
    decreases q.len(),
{
    if q.len() == 0 {
        Seq::empty()
    } else {
        let c = comp_at(q.last() as int);
        let name = seq![c.c0 as char, c.c1 as char];
        if q.len() == 1 {
            name
        } else {
            comps_text(q.drop_last()) + seq![','] + name
        }
    }
}

pub proof fn lemma_set_of_push(q: Seq<usize>, x: usize)
    ensures
        set_of(q.push(x)) == set_of(q).insert(x as int),
{
    let r = q.push(x);
    assert forall|y: int| set_of(r).contains(y) == set_of(q).insert(x as int).contains(y) by {
        if set_of(r).contains(y) {
            let k = choose|k: int| 0 <= k < r.len() && r[k] == y;
            if k < q.len() {
                assert(q[k] == y);
                assert(set_of(q).contains(y));
            }
        }
        if set_of(q).contains(y) {
            let k = choose|k: int| 0 <= k < q.len() && q[k] == y;
            assert(r[k] == y);
        }
        if y == x as int {
            assert(r[q.len() as int] == y);
        }
    }
    assert(set_of(r) =~= set_of(q).insert(x as int));
}

pub proof fn lemma_set_of_len(q: Seq<usize>)
    requires
        sorted_ok(q),
    ensures
        set_of(q).finite(),
        set_of(q).len() == q.len(),
    decreases q.len(),
{
    if q.len() == 0 {
        assert(set_of(q) =~= Set::empty());
    } else {
        let p = q.drop_last();
        lemma_set_of_len(p);
        assert(p.push(q.last()) =~= q);
        lemma_set_of_push(p, q.last());
        assert(!set_of(p).contains(q.last() as int)) by {
            if set_of(p).contains(q.last() as int) {
                let k = choose|k: int| 0 <= k < p.len() && p[k] == q.last() as int;
                assert(q[k] < q[q.len() - 1]);
            }
        }
    }
}

/// A list in strictly increasing order of numbers below 676 holds at most 676 of them.
pub proof fn lemma_sorted_len(q: Seq<usize>)
    requires
        sorted_ok(q),
    ensures
        q.len() <= 676,
{
    if q.len() > 0 {
        assert forall|i: int| 0 <= i < q.len() implies #[trigger] q[i] >= i by {
            lemma_sorted_at(q, i);
        }
        assert(q[q.len() - 1] >= q.len() - 1);
    }
}

proof fn lemma_sorted_at(q: Seq<usize>, i: int)
    requires
        sorted_ok(q),
        0 <= i < q.len(),
    ensures
        q[i] >= i,
    decreases i,
{
    if i > 0 {
        lemma_sorted_at(q, i - 1);
        assert(q[i - 1] < q[i]);
    }
}

/// Every set at step `n` is finite and holds more than `n` computers.
pub proof fn lemma_level_len(net: Network, n: nat, e: Set<int>)
    requires
        level(net, n).contains(e),
    ensures
        e.finite(),
        e.len() >= n + 1,
    decreases n,
{
    if n == 0 {
        let (a, b, c) = choose|a: int, b: int, c: int| #[trigger] is_triplet(net, Filter::All, a, b, c) && e == set![a, b, c];
        assert(e.contains(a));
        assert(set![a, b, c] == set![a].insert(b).insert(c));
    } else {
        let (s, c) = choose|s: Set<int>, c: int| #[trigger] level(net, (n - 1) as nat).contains(s) && #[trigger] can_expand(net, s, c) && e == s.insert(c);
        lemma_level_len(net, (n - 1) as nat, s);
    }
}

/// Where no set is reached at a step, none is at any later step.
pub proof fn lemma_level_empty(net: Network, n: nat, m: nat)
    requires
        level(net, n).is_empty(),
        n <= m,
    ensures
        level(net, m).is_empty(),
    decreases m,
{
    if n < m {
        lemma_level_empty(net, n, (m - 1) as nat);
        assert forall|e: Set<int>| !level(net, m).contains(e) by {
            if level(net, m).contains(e) {
                let (s, c) = choose|s: Set<int>, c: int| #[trigger] level(net, (m - 1) as nat).contains(s) && #[trigger] can_expand(net, s, c) && e == s.insert(c);
                assert(level(net, (m - 1) as nat).contains(s));
            }
        }
        assert(level(net, m) =~= Set::empty());
    }
}

/// The lists in `cur` stand, each in increasing order, for exactly the sets at step `n`.
pub open spec fn level_rep(net: Network, n: nat, cur: Seq<Vec<usize>>) -> bool {
    &&& forall|k: int| 0 <= k < cur.len() ==> sorted_ok(#[trigger] cur[k]@) && cur[k]@.len() >= n + 1
        && level(net, n).contains(set_of(cur[k]@))
    &&& forall|s: Set<int>| #[trigger] level(net, n).contains(s) ==> exists|k: int| 0 <= k < cur.len() && set_of(#[trigger] cur[k]@) == s
}

/// A copy of a list.
fn copy_list(v: &Vec<usize>) -> (r: Vec<usize>)
    ensures
        r@ == v@,
{
    let mut r: Vec<usize> = Vec::new();
    let mut i: usize = 0;
    while i < v.len()
        invariant
            i <= v@.len(),
            r@ == v@.take(i as int),
        decreases v@.len() - i,
    {
        r.push(v[i]);
        i += 1;
        assert(r@ =~= v@.take(i as int));
    }
    assert(v@.take(v@.len() as int) =~= v@);
    r
}

/// Whether two lists are equal.
fn same_list(a: &Vec<usize>, b: &Vec<usize>) -> (r: bool)
    ensures
        r == (a@ == b@),
{
    if a.len() != b.len() {
        return false;
    }
    let mut i: usize = 0;
    while i < a.len()
        invariant
            a@.len() == b@.len(),
            i <= a@.len(),
            forall|k: int| 0 <= k < i ==> a@[k] == b@[k],
        decreases a@.len() - i,
    {
        if a[i] != b[i] {
            return false;
        }
        i += 1;
    }
    assert(a@ =~= b@);
    true
}

/// Whether computer `c` can join the set that `q` lists.
fn expandable(network: &Network, q: &Vec<usize>, c: usize) -> (r: bool)
    requires
        network.wf(),
        sorted_ok(q@),
        c < NCOMP,
    ensures
        r == can_expand(*network, set_of(q@), c as int),
{
    let mut k: usize = 0;
    while k < q.len()
        invariant
            network.wf(),
            sorted_ok(q@),
            c < 676,
            k <= q@.len(),
            forall|t: int| 0 <= t < k ==> q@[t] != c && network.linked(q@[t] as int, c as int),
        decreases q@.len() - k,
    {
        if q[k] == c || !network.linked_at(q[k], c) {
            assert(set_of(q@).contains(q@[k as int] as int));
            return false;
        }
        k += 1;
    }
    proof {
        assert forall|x: int| #[trigger] set_of(q@).contains(x) implies network.linked(x, c as int) by {
            let t = choose|t: int| 0 <= t < q@.len() && q@[t] == x;
        }
    }
    true
}

/// The list `q` with `c` put in its place.
fn insert_sorted(q: &Vec<usize>, c: usize) -> (r: Vec<usize>)
    requires
        sorted_ok(q@),
        c < NCOMP,
        !set_of(q@).contains(c as int),
    ensures
        sorted_ok(r@),
        r@.len() == q@.len() + 1,
        set_of(r@) == set_of(q@).insert(c as int),
{
    let mut r: Vec<usize> = Vec::new();
    let mut done = false;
    let mut i: usize = 0;
    while i < q.len()
        invariant
            sorted_ok(q@),
            c < 676,
            !set_of(q@).contains(c as int),
            i <= q@.len(),
            sorted_ok(r@),
            r@.len() == i + (if done { 1int } else { 0int }),
            set_of(r@) == (if done { set_of(q@.take(i as int)).insert(c as int) } else { set_of(q@.take(i as int)) }),
            done ==> forall|k: int| 0 <= k < r@.len() ==> #[trigger] r@[k] < (if i < q@.len() { q@[i as int] as int } else { 676 }),
            !done ==> forall|k: int| 0 <= k < r@.len() ==> #[trigger] r@[k] < c,
            !done ==> forall|k: int| 0 <= k < r@.len() ==> #[trigger] r@[k] < (if i < q@.len() { q@[i as int] as int } else { 676 }),
        decreases q@.len() - i,
    {
        let x = q[i];
        assert(set_of(q@).contains(x as int));
        let ghost before = r@;
        if !done && c < x {
            r.push(c);
            done = true;
            proof {
                lemma_set_of_push(before, c);
            }
        }
        let ghost mid = r@;
        r.push(x);
        proof {
            lemma_set_of_push(mid, x);
            assert(q@.take(i + 1) =~= q@.take(i as int).push(x));
            lemma_set_of_push(q@.take(i as int), x);
        }
        i += 1;
    }
    if !done {
        let ghost before = r@;
        r.push(c);
        proof {
            lemma_set_of_push(before, c);
        }
    }
    assert(q@.take(q@.len() as int) =~= q@);
    r
}


/// The list, in increasing order, of the numbers `a <= b <= c`.
fn seed_list(a: usize, b: usize, c: usize) -> (r: Vec<usize>)
    requires
        a <= b <= c < NCOMP,
    ensures
        sorted_ok(r@),
        r@.len() >= 1,
        set_of(r@) == set![a as int, b as int, c as int],
{
    let mut r: Vec<usize> = Vec::new();
    r.push(a);
    proof {
        lemma_set_of_push(Seq::empty(), a);
        assert(set_of(Seq::<usize>::empty()) =~= Set::empty());
    }
    if b != a {
        let ghost before = r@;
        r.push(b);
        proof {
            lemma_set_of_push(before, b);
        }
    }
    if c != b {
        let ghost before = r@;
        r.push(c);
        proof {
            lemma_set_of_push(before, c);
        }
    }
    assert(set_of(r@) =~= set![a as int, b as int, c as int]);
    r
}

/// The sets that growth reaches in one step from those `cur` lists, each listed once.
fn grow(network: &Network, cur: &Vec<Vec<usize>>, Ghost(n): Ghost<nat>) -> (next: Vec<Vec<usize>>)
    requires
        network.wf(),
        level_rep(*network, n, cur@),
    ensures
        level_rep(*network, n + 1, next@),
{
    let ghost net = *network;
    let mut next: Vec<Vec<usize>> = Vec::new();
    let mut i: usize = 0;
    while i < cur.len()
        invariant
            network.wf(),
            net == *network,
            level_rep(net, n, cur@),
            i <= cur@.len(),
            forall|k: int| 0 <= k < next@.len() ==> sorted_ok(#[trigger] next@[k]@) && next@[k]@.len() >= n + 2
                && level(net, n + 1).contains(set_of(next@[k]@)),
            forall|j: int, c: int| 0 <= j < i && #[trigger] can_expand(net, set_of(cur@[j]@), c) ==> exists|k: int|
                0 <= k < next@.len() && set_of(#[trigger] next@[k]@) == set_of(cur@[j]@).insert(c),
        decreases cur@.len() - i,
    {
        let q = &cur[i];
        assert(sorted_ok(q@) && level(net, n).contains(set_of(q@)));
        let mut c: usize = 0;
        while c < NCOMP
            invariant
                network.wf(),
                net == *network,
                level_rep(net, n, cur@),
                i < cur@.len(),
                q@ == cur@[i as int]@,
                sorted_ok(q@),
                q@.len() >= n + 1,
                level(net, n).contains(set_of(q@)),
                c <= 676,
                forall|k: int| 0 <= k < next@.len() ==> sorted_ok(#[trigger] next@[k]@) && next@[k]@.len() >= n + 2
                    && level(net, n + 1).contains(set_of(next@[k]@)),
                forall|j: int, d: int| 0 <= j < i && #[trigger] can_expand(net, set_of(cur@[j]@), d) ==> exists|k: int|
                    0 <= k < next@.len() && set_of(#[trigger] next@[k]@) == set_of(cur@[j]@).insert(d),
                forall|d: int| 0 <= d < c && #[trigger] can_expand(net, set_of(q@), d) ==> exists|k: int|
                    0 <= k < next@.len() && set_of(#[trigger] next@[k]@) == set_of(q@).insert(d),
            decreases 676 - c,
        {
            if expandable(network, q, c) {
                let e = insert_sorted(q, c);
                proof {
                    assert(level(net, n + 1).contains(set_of(e@)));
                }
                let mut found = false;
                let mut k: usize = 0;
                while k < next.len()
                    invariant
                        k <= next@.len(),
                        found ==> exists|t: int| 0 <= t < next@.len() && next@[t]@ == e@,
                    decreases next@.len() - k,
                {
                    if same_list(&next[k], &e) {
                        found = true;
                    }
                    k += 1;
                }
                if !found {
                    let ghost before = next@;
                    next.push(e);
                    assert(next@[before.len() as int]@ == e@);
                    proof {
                        assert forall|j: int, d: int| 0 <= j < i && #[trigger] can_expand(net, set_of(cur@[j]@), d) implies exists|k: int|
                            0 <= k < next@.len() && set_of(#[trigger] next@[k]@) == set_of(cur@[j]@).insert(d) by {
                            let k = choose|k: int| 0 <= k < before.len() && set_of(#[trigger] before[k]@) == set_of(cur@[j]@).insert(d);
                            assert(next@[k] == before[k]);
                        }
                        assert forall|d: int| 0 <= d < c + 1 && #[trigger] can_expand(net, set_of(q@), d) implies exists|k: int|
                            0 <= k < next@.len() && set_of(#[trigger] next@[k]@) == set_of(q@).insert(d) by {
                            if d < c {
                                let k = choose|k: int| 0 <= k < before.len() && set_of(#[trigger] before[k]@) == set_of(q@).insert(d);
                                assert(next@[k] == before[k]);
                            } else {
                                assert(set_of(next@[before.len() as int]@) == set_of(q@).insert(d));
                            }
                        }
                    }
                } else {
                    proof {
                        let t = choose|t: int| 0 <= t < next@.len() && next@[t]@ == e@;
                        assert(set_of(next@[t]@) == set_of(q@).insert(c as int));
                    }
                }
            }
            c += 1;
        }
        i += 1;
    }
    proof {
        assert forall|e: Set<int>| #[trigger] level(net, n + 1).contains(e) implies exists|k: int| 0 <= k < next@.len()
            && set_of(#[trigger] next@[k]@) == e by {
            let (s, c) = choose|s: Set<int>, c: int| #[trigger] level(net, n).contains(s) && #[trigger] can_expand(net, s, c) && e == s.insert(c);
            let j = choose|j: int| 0 <= j < cur@.len() && set_of(#[trigger] cur@[j]@) == s;
            assert(can_expand(net, set_of(cur@[j]@), c));
        }
    }
    next
}

/// The second answer: the names, in order and joined by commas, of a largest set of
/// computers that growth from a triplet reaches, each one linked to all others; empty where
/// growth reaches none.
pub fn star2(network: &Network) -> (r: String)
    requires
        network.wf(),
    ensures
        ((forall|e: Set<int>| !#[trigger] reached(*network, e)) && r@ == Seq::<char>::empty())
            || exists|q: Seq<usize>| best_set(*network, q) && r@ == comps_text(q),
{
    let ghost net = *network;
    let (tris, Ghost(keys)) = triplets_keyed(network, Filter::All);
    let mut cur: Vec<Vec<usize>> = Vec::new();
    let mut k: usize = 0;
    while k < tris.len()
        invariant
            network.wf(),
            net == *network,
            k <= tris@.len(),
            keys.len() == tris@.len(),
            forall|t: int| 0 <= t < tris@.len() ==> #[trigger] tris@[t] == comps3(keys[t]),
            forall|t: int| 0 <= t < keys.len() ==> {
                let x = #[trigger] keys[t];
                is_triplet(net, Filter::All, x.0, x.1, x.2)
            },
            cur@.len() == k,
            forall|t: int| 0 <= t < k ==> sorted_ok(#[trigger] cur@[t]@) && cur@[t]@.len() >= 1 && set_of(cur@[t]@)
                == set![keys[t].0, keys[t].1, keys[t].2],
        decreases tris@.len() - k,
    {
        let ghost x = keys[k as int];
        assert(is_triplet(net, Filter::All, x.0, x.1, x.2));
        proof {
            lemma_comp_at(x.0);
            lemma_comp_at(x.1);
            lemma_comp_at(x.2);
        }
        let a = tris[k].0.index();
        let b = tris[k].1.index();
        let c = tris[k].2.index();
        cur.push(seed_list(a, b, c));
        k += 1;
    }
    proof {
        assert forall|t: int| 0 <= t < cur@.len() implies level(net, 0).contains(set_of(#[trigger] cur@[t]@)) by {
            let x = keys[t];
            assert(is_triplet(net, Filter::All, x.0, x.1, x.2));
        }
        assert forall|s: Set<int>| #[trigger] level(net, 0).contains(s) implies exists|t: int| 0 <= t < cur@.len()
            && set_of(#[trigger] cur@[t]@) == s by {
            let (a, b, c) = choose|a: int, b: int, c: int| #[trigger] is_triplet(net, Filter::All, a, b, c) && s == set![a, b, c];
            assert(triplet_set(net, Filter::All).contains((a, b, c)));
            assert(keys.to_set().contains((a, b, c)));
            let t = choose|t: int| 0 <= t < keys.len() && keys[t] == (a, b, c);
            assert(set_of(cur@[t]@) == s);
        }
    }
    let mut best: Vec<usize> = Vec::new();
    let mut n: usize = 0;
    while cur.len() > 0
        invariant
            network.wf(),
            net == *network,
            level_rep(net, n as nat, cur@),
            n <= 676,
            forall|m: nat, e: Set<int>| 1 <= m < n && #[trigger] level(net, m).contains(e) ==> e.len() <= best@.len(),
            best@.len() > 0 ==> sorted_ok(best@) && reached(net, set_of(best@)),
        decreases 676 - n,
    {
        proof {
            assert(sorted_ok(cur@[0]@));
            lemma_sorted_len(cur@[0]@);
        }
        if n >= 1 {
            let mut t: usize = 0;
            while t < cur.len()
                invariant
                    network.wf(),
                    net == *network,
                    level_rep(net, n as nat, cur@),
                    1 <= n <= 676,
                    t <= cur@.len(),
                    forall|m: nat, e: Set<int>| 1 <= m < n && #[trigger] level(net, m).contains(e) ==> e.len() <= best@.len(),
                    forall|j: int| 0 <= j < t ==> (#[trigger] cur@[j]@).len() <= best@.len(),
                    best@.len() > 0 ==> sorted_ok(best@) && reached(net, set_of(best@)),
                decreases cur@.len() - t,
            {
                if cur[t].len() > best.len() {
                    best = copy_list(&cur[t]);
                    assert(level(net, n as nat).contains(set_of(best@)));
                }
                t += 1;
            }
            proof {
                assert forall|m: nat, e: Set<int>| 1 <= m < n + 1 && #[trigger] level(net, m).contains(e) implies e.len() <= best@.len() by {
                    if m == n {
                        let j = choose|j: int| 0 <= j < cur@.len() && set_of(#[trigger] cur@[j]@) == e;
                        lemma_set_of_len(cur@[j]@);
                    }
                }
            }
        }
        let next = grow(network, &cur, Ghost(n as nat));
        cur = next;
        n += 1;
    }
    proof {
        assert(level(net, n as nat) =~= Set::empty()) by {
            assert forall|e: Set<int>| !level(net, n as nat).contains(e) by {
                if level(net, n as nat).contains(e) {
                    let j = choose|j: int| 0 <= j < cur@.len() && set_of(#[trigger] cur@[j]@) == e;
                }
            }
        }
        assert forall|e: Set<int>| #[trigger] reached(net, e) implies e.len() <= best@.len() by {
            let m = choose|m: nat| m >= 1 && #[trigger] level(net, m).contains(e);
            if m >= n {
                lemma_level_empty(net, n as nat, m);
            }
        }
    }
    let mut out = String::new();
    let mut i: usize = 0;
    while i < best.len()
        invariant
            i <= best@.len(),
            sorted_ok(best@),
            out@ == comps_text(best@.take(i as int)),
        decreases best@.len() - i,
    {
        let x = best[i];
        proof {
            assert(0 <= x / 26 < 26 && 0 <= x % 26 < 26) by (nonlinear_arith)
                requires x < 676;
        }
        if i > 0 {
            push_str(&mut out, ascii_str(44u8));
        }
        push_str(&mut out, ascii_str((97 + x / 26) as u8));
        push_str(&mut out, ascii_str((97 + x % 26) as u8));
        proof {
            assert(best@.take(i + 1).drop_last() =~= best@.take(i as int));
        }
        i += 1;
    }
    assert(best@.take(best@.len() as int) =~= best@);
    proof {
        if best@.len() == 0 {
            assert forall|e: Set<int>| !#[trigger] reached(net, e) by {
                if reached(net, e) {
                    let m = choose|m: nat| m >= 1 && #[trigger] level(net, m).contains(e);
                    lemma_level_len(net, m, e);
                }
            }
            assert(out@ =~= Seq::<char>::empty());
        } else {
            assert(best_set(net, best@));
        }
    }
    out
}

/// The answers: how many triplets hold a computer whose name starts with `t`, and the
/// largest set of computers all linked to each other.
pub fn run(input: &str) -> (r: Result<String, AocError>)
    ensures
        match r {
            Ok(out) => all_links(input.spec_bytes()) && exists|net: Network, s2: Seq<char>| {
                &&& net.wf()
                &&& forall|i: int, j: int|
                    0 <= i < 676 && 0 <= j < 676 ==> #[trigger] net.linked(i, j) == line_links(
                        lines_of(input.spec_bytes()),
                        lines_of(input.spec_bytes()).len() as int,
                        i,
                        j,
                    )
                &&& ((forall|e: Set<int>| !#[trigger] reached(net, e)) && s2 == Seq::<char>::empty())
                    || exists|q: Seq<usize>| best_set(net, q) && s2 == comps_text(q)
                &&& out@ == dec(triplet_set(net, Filter::TStart).len()) + " "@ + s2
            },
            Err(e) => !all_links(input.spec_bytes()) && e == AocError::InvalidInput,
        },
{
    let network = parse_network(input)?;
    let s1 = star1(&network);
    let s2 = star2(&network);
    let mut out = String::new();
    push_dec(&mut out, s1 as u64);
    push_str(&mut out, " ");
    push_str(&mut out, s2.as_str());
    proof {
        reveal_strlit(" ");
    }
    Ok(out)
}

} // verus!
