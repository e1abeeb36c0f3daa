use aoc2024::day24::{
    add_bits_ok, analyze_adder, bad_add_bits, find_fix, run, score_add, score_add_0, score_and, star1, Circuit,
    Lookup, Problem, Scorer, SwapSet, Wire,
};
use aoc2024::error::AocError;

const SAMPLE1: &str = "x00: 1
x01: 1
x02: 1
y00: 0
y01: 1
y02: 0

x00 AND y00 -> z00
x01 XOR y01 -> z01
x02 OR y02 -> z02";

const SAMPLE2: &str = "x00: 1
x01: 0
x02: 1
x03: 1
x04: 0
y00: 1
y01: 1
y02: 1
y03: 1
y04: 1

ntg XOR fgs -> mjb
y02 OR x01 -> tnw
kwq OR kpj -> z05
x00 OR x03 -> fst
tgd XOR rvg -> z01
vdt OR tnw -> bfw
bfw AND frj -> z10
ffh OR nrd -> bqk
y00 AND y03 -> djm
y03 OR y00 -> psh
bqk OR frj -> z08
tnw OR fst -> frj
gnj AND tgd -> z11
bfw XOR mjb -> z00
x03 OR x00 -> vdt
gnj AND wpb -> z02
x04 AND y00 -> kjc
djm OR pbm -> qhw
nrd AND vdt -> hwm
kjc AND fst -> rvg
y04 OR y02 -> fgs
y01 AND x02 -> pbm
ntg OR kjc -> kwq
psh XOR fgs -> tgd
qhw XOR tgd -> z09
pbm OR djm -> kpj
x03 XOR y03 -> ffh
x00 XOR y04 -> ntg
bfw OR bqk -> z06
nrd XOR fgs -> wpb
frj XOR qhw -> z04
bqk OR frj -> z07
y03 OR x01 -> nrd
hwm AND bqk -> z03
tgd XOR rvg -> z12
tnw OR pbm -> gnj";

const SAMPLE3: &str = "x00: 0
x01: 1
x02: 0
x03: 1
x04: 0
x05: 1
y00: 0
y01: 0
y02: 1
y03: 1
y04: 0
y05: 1

x00 AND y00 -> z05
x01 AND y01 -> z02
x02 AND y02 -> z01
x03 AND y03 -> z03
x04 AND y04 -> z04
x05 AND y05 -> z00";

const ADDER: &str = "x00: 1
x01: 1
y00: 1
y01: 0

x00 XOR y00 -> z00
x00 AND y00 -> c00
x01 XOR y01 -> s01
x01 AND y01 -> a01
s01 XOR c00 -> z01
s01 AND c00 -> b01
a01 OR b01 -> z02";

const CROSSED: &str = "x00: 1
x01: 1
y00: 1
y01: 0

x00 XOR y00 -> z00
x00 AND y00 -> c00
x01 XOR y01 -> s01
x01 AND y01 -> a01
s01 XOR c00 -> b01
s01 AND c00 -> z01
a01 OR b01 -> z02";

fn w(s: &str) -> Wire {
    Wire::parse(s.as_bytes()).unwrap()
}

#[test]
fn day24_it_works() {
    let p1 = Problem::parse(SAMPLE1).unwrap();
    assert_eq!(p1.circuit.output_bits(), 3);

    let cb1 = |s: &str| p1.circuit.bit(p1.x, p1.y, w(s));
    assert_eq!(cb1("z00"), Lookup::Valid(false));
    assert_eq!(cb1("z01"), Lookup::Valid(false));
    assert_eq!(cb1("z02"), Lookup::Valid(true));

    let p2 = Problem::parse(SAMPLE2).unwrap();
    assert_eq!(p2.circuit.output_bits(), 13);

    let s1 = |input| star1(&Problem::parse(input).unwrap());
    assert_eq!(s1(SAMPLE1), 4);
    assert_eq!(s1(SAMPLE2), 2024);

    let p3 = Problem::parse(SAMPLE3).unwrap();
    let mut c3 = Circuit { gates: p3.circuit.gates.clone() };
    assert!(c3.swap(w("z00"), w("z05")));
    assert!(c3.swap(w("z01"), w("z02")));
    let x = p3.x;
    let y = p3.y;
    // Once swapped, each output bit is the AND of its own input bits.
    assert_eq!(c3.output(x, y, 6), Some(x & y));
    assert_eq!(score_and(&c3), None);
    assert_eq!(&find_fix(&p3.circuit, Scorer::And), "z00,z01,z02,z05");
}

#[test]
fn day24_scores() {
    let adder = Problem::parse(ADDER).unwrap().circuit;
    assert_eq!(score_and(&adder), Some(6));
    assert_eq!(score_add(&adder), None);
    assert_eq!(score_add_0(&adder), None);
    assert_eq!(add_bits_ok(&adder), vec![true, true]);
    assert!(bad_add_bits(&adder).is_empty());

    let crossed = Problem::parse(CROSSED).unwrap().circuit;
    assert_eq!(score_add(&crossed), Some(1));
    assert_eq!(score_add_0(&crossed), Some(306));
    assert_eq!(add_bits_ok(&crossed), vec![true, false]);
    assert_eq!(bad_add_bits(&crossed), vec![w("z01")]);

    let p3 = Problem::parse(SAMPLE3).unwrap().circuit;
    assert_eq!(score_and(&p3), Some(1215));
    assert_eq!(score_add(&p3), Some(0));
    assert_eq!(score_add_0(&p3), Some(215));
}

#[test]
fn day24_find_fix() {
    let adder = Problem::parse(ADDER).unwrap().circuit;
    assert_eq!(find_fix(&adder, Scorer::Add), "empty");
    assert_eq!(find_fix(&adder, Scorer::And), "invalid");
    let crossed = Problem::parse(CROSSED).unwrap().circuit;
    assert_eq!(find_fix(&crossed, Scorer::Add), "b01,z01");
    assert_eq!(find_fix(&crossed, Scorer::Add0), "b01,z01");
}

#[test]
fn day24_swap_sets() {
    let s = SwapSet::new();
    assert_eq!(s.len(), 0);
    let s = s.with(w("aaa"), w("bbb")).unwrap();
    assert_eq!(s.len(), 2);
    assert!(s.with(w("bbb"), w("ccc")).is_none());
    let s = s.with(w("ddd"), w("ccc")).unwrap();
    assert_eq!(s.len(), 4);
    assert!(s.contains_key(w("ccc")));
    assert!(!s.contains_key(w("eee")));
    assert_eq!(s.wires(), vec![w("aaa"), w("bbb"), w("ddd"), w("ccc")]);
}

#[test]
fn day24_adder_has_no_swaps() {
    let p = Problem::parse(ADDER).unwrap();
    assert_eq!(star1(&p), 4);
    assert_eq!(analyze_adder(&p.circuit).unwrap(), "");
}

#[test]
fn day24_crossed_adder_is_found() {
    let p = Problem::parse(CROSSED).unwrap();
    assert_eq!(analyze_adder(&p.circuit).unwrap(), "b01,z01");
    assert_eq!(run(CROSSED).unwrap(), "2 b01,z01");
}

#[test]
fn day24_loop_has_no_value() {
    let p = Problem::parse("x00: 1\ny00: 1\n\naaa AND bbb -> bbb\nbbb OR x00 -> aaa\nx00 XOR y00 -> z00").unwrap();
    assert_eq!(p.circuit.bit(p.x, p.y, w("aaa")), Lookup::Invalid);
    assert_eq!(p.circuit.bit(p.x, p.y, w("z00")), Lookup::Valid(false));
    assert_eq!(p.circuit.bit(p.x, p.y, w("qqq")), Lookup::Invalid);
}

#[test]
fn day24_parse_errors() {
    assert!(matches!(Problem::parse("x00: 1\n"), Err(AocError::InvalidInput)));
    assert!(matches!(Problem::parse("x00: q\n\nx00 AND y00 -> z00"), Err(AocError::InvalidNumber)));
    assert!(matches!(Problem::parse("z00: 1\n\nx00 AND y00 -> z00"), Err(AocError::InvalidInput)));
    assert!(matches!(Problem::parse("x00: 1\n\nx00 NAND y00 -> z00"), Err(AocError::InvalidInput)));
    assert!(matches!(Problem::parse("x00: 1\n\nx00 AND y00 => z00"), Err(AocError::InvalidInput)));
}

#[test]
fn day24_wire_names() {
    assert!(Wire::parse(b"z0").is_none());
    assert!(Wire::parse(b"Z00").is_none());
    assert_eq!(Wire::z(7), w("z07"));
    assert_eq!(Wire::x(12).char_num(), Some((b'x', 12)));
}
