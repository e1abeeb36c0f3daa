use aoc2024::day07::{parse_data, run, Line};
use aoc2024::error::AocError;

const SAMPLE: &str = "190: 10 19
3267: 81 40 27
83: 17 5
156: 15 6
7290: 6 8 6 15
161011: 16 10 13
192: 17 8 14
21037: 9 7 18 13
292: 11 6 16 20";

#[test]
fn day07_sample() {
    assert_eq!(run(SAMPLE).unwrap(), "3749 11387");
}

#[test]
fn day07_single_equations() {
    let data = parse_data(SAMPLE).unwrap();
    assert_eq!(data.len(), 9);
    assert!(data[0].is_add_mul());
    assert!(data[1].is_add_mul());
    assert!(!data[2].is_add_mul());
    assert!(!data[3].is_add_mul());
    assert!(data[3].is_add_mul_concat());
    assert!(data[4].is_add_mul_concat());
    assert!(!data[5].is_add_mul_concat());
    let one = Line { l: 5, r: vec![5] };
    assert!(one.is_add_mul());
    assert!(one.is_add_mul_concat());
    let other = Line { l: 4, r: vec![5] };
    assert!(!other.is_add_mul());
    assert!(!other.is_add_mul_concat());
}

#[test]
fn day07_concat_digits() {
    assert_eq!(aoc2024::day07::concat(15, 6), 156);
    assert_eq!(aoc2024::day07::concat(12, 345), 12345);
    assert_eq!(aoc2024::day07::concat(7, 0), 7);
    assert_eq!(aoc2024::day07::concat(1, 10), 110);
}

#[test]
fn day07_parse_errors() {
    assert!(matches!(Line::parse(b"190 10 19"), Err(AocError::InvalidInput)));
    assert!(matches!(Line::parse(b"x: 10 19"), Err(AocError::InvalidNumber)));
    assert!(matches!(Line::parse(b"190: 10 y"), Err(AocError::InvalidNumber)));
    assert!(matches!(parse_data("1: 1\n2 2"), Err(AocError::InvalidInput)));
}

#[test]
fn day07_thirty_two_numbers_are_searched_too() {
    let line = Line { l: 32, r: vec![1; 32] };
    assert!(line.is_add_mul());
}
