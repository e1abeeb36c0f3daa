use aoc2024::day13::{find_min_tokens, min_tokens, parse_def, parse_machines, run, Machine};
use aoc2024::error::AocError;
use aoc2024::grid::Point;

const SAMPLE: &str = "Button A: X+94, Y+34
Button B: X+22, Y+67
Prize: X=8400, Y=5400

Button A: X+26, Y+66
Button B: X+67, Y+21
Prize: X=12748, Y=12176

Button A: X+17, Y+86
Button B: X+84, Y+37
Prize: X=7870, Y=6450

Button A: X+69, Y+23
Button B: X+27, Y+71
Prize: X=18641, Y=10279";

#[test]
fn day13_it_works() {
    let m = parse_machines(SAMPLE).unwrap();
    assert_eq!(min_tokens(&m), 480);
}

#[test]
fn day13_single_machine_costs() {
    let m = parse_machines(SAMPLE).unwrap();
    assert_eq!(m.len(), 4);
    assert_eq!(find_min_tokens(&m[0]), Some(280));
    assert_eq!(find_min_tokens(&m[1]), None);
    assert_eq!(find_min_tokens(&m[2]), Some(200));
    assert_eq!(find_min_tokens(&m[3]), None);
}

#[test]
fn day13_prize_at_origin_costs_nothing() {
    let m = Machine { a: Point::new(3, 4), b: Point::new(5, 6), prize: Point::new(0, 0) };
    assert_eq!(find_min_tokens(&m), Some(0));
}

#[test]
fn day13_run_and_errors() {
    assert_eq!(run(SAMPLE).unwrap(), "480 ");
    assert_eq!(parse_def(b"Prize: X=8400, Y=5400", b"Prize"), Ok(Point::new(8400, 5400)));
    assert_eq!(parse_def(b"Prize X=1", b"Prize"), Err(AocError::InvalidInput));
    assert_eq!(parse_def(b"Prize: X=1, Y=z", b"Prize"), Err(AocError::InvalidNumber));
    assert_eq!(parse_def(b"Priz", b"Prize"), Err(AocError::InvalidInput));
    let bad_sep = "Button A: X+1, Y+1\nButton B: X+1, Y+1\nPrize: X=1, Y=1\nx";
    assert!(matches!(parse_machines(bad_sep), Err(AocError::InvalidInput)));
    let short = "Button A: X+1, Y+1\nButton B: X+1, Y+1";
    assert!(matches!(parse_machines(short), Err(AocError::InvalidInput)));
}
