use aoc2024::day23::{network_triplets, parse_network, run, star1, star1_triplets, star2, Comp, Filter};
use aoc2024::error::AocError;

const SAMPLE: &str = "kh-tc
qp-kh
de-cg
ka-co
yn-aq
qp-ub
cg-tb
vc-aq
tb-ka
wh-tc
yn-cg
kh-ub
ta-co
de-co
tc-td
tb-wq
wh-td
ta-ka
td-qp
aq-cg
wq-ub
ub-vc
de-ta
wq-aq
wq-vc
wh-yn
ka-de
kh-ta
co-tc
wh-qp
tb-vc
td-yn";

fn comp(s: &str) -> Comp {
    Comp::parse(s.as_bytes()).unwrap()
}

#[test]
fn day23_it_works() {
    let network = parse_network(SAMPLE).unwrap();
    assert!(!network.has_link(comp("cg"), comp("ka")));
    let mut tris = star1_triplets(&network);
    tris.sort_by_key(|t| (t.0.c0, t.0.c1, t.1.c0, t.1.c1, t.2.c0, t.2.c1));
    assert_eq!(tris.len(), 7);
    assert_eq!(star2(&network), "co,de,ka,ta");
}

#[test]
fn day23_links() {
    let network = parse_network(SAMPLE).unwrap();
    assert!(network.has_link(comp("kh"), comp("tc")));
    assert!(network.has_link(comp("tc"), comp("kh")));
    assert!(!network.has_link(comp("kh"), comp("kh")));
}

#[test]
fn day23_triplets() {
    let network = parse_network(SAMPLE).unwrap();
    let tris = star1_triplets(&network);
    let names: Vec<String> = tris
        .iter()
        .map(|t| {
            let n = |c: &Comp| format!("{}{}", c.c0 as char, c.c1 as char);
            format!("{},{},{}", n(&t.0), n(&t.1), n(&t.2))
        })
        .collect();
    let mut want = vec![
        "co,de,ta", "co,ka,ta", "de,ka,ta", "qp,td,wh", "tb,vc,wq", "tc,td,wh", "td,wh,yn",
    ];
    want.sort();
    let mut got = names.clone();
    got.sort();
    assert_eq!(got, want);
    assert_eq!(star1(&network), 7);
    assert_eq!(network_triplets(&network, Filter::All).len(), 12);
}

#[test]
fn day23_run() {
    assert_eq!(run(SAMPLE).unwrap(), "7 co,de,ka,ta");
}

#[test]
fn day23_bad_line() {
    assert_eq!(run("kh-tc\nkhtc").err(), Some(AocError::InvalidInput));
    assert_eq!(run("kh-TC").err(), Some(AocError::InvalidInput));
}

#[test]
fn day23_no_four() {
    // A single triangle reaches no larger set.
    let network = parse_network("aa-bb\nbb-cc\ncc-aa").unwrap();
    assert_eq!(star1(&network), 0);
    assert_eq!(star2(&network), "");
    let network = parse_network("ta-bb\nbb-cc\ncc-ta").unwrap();
    assert_eq!(star1(&network), 1);
}
