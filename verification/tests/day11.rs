use aoc2024::day11::{blink_cached, blink_stones, new_memo, parse_stones, run, split_stone};
use aoc2024::error::AocError;

fn blink(stone: u64, count: usize) -> usize {
    blink_cached(&mut new_memo(count + 1), stone, count)
}

#[test]
fn day11_it_works() {
    assert_eq!(blink(0, 1), 1); // 1
    assert_eq!(blink(1, 1), 1); // 2024
    assert_eq!(blink(10, 1), 2); // 1 0
    assert_eq!(blink(99, 1), 2); // 9 9
    assert_eq!(blink(999, 1), 1); // 2021976
    let stones = parse_stones("0 1 10 99 999").unwrap();
    // blink: 1 2024 1 0 9 9 2021976
    assert_eq!(blink_stones(&stones, 1), 7);
}

#[test]
fn sample2() {
    let stones = parse_stones("125 17").unwrap();
    assert_eq!(blink_stones(&stones, 6), 22);
    assert_eq!(blink_stones(&stones, 25), 55312);
}

#[test]
fn day11_split_halves() {
    assert_eq!(split_stone(0), None);
    assert_eq!(split_stone(7), None);
    assert_eq!(split_stone(10), Some((1, 0)));
    assert_eq!(split_stone(1000), Some((10, 0)));
    assert_eq!(split_stone(253000), Some((253, 0)));
    assert_eq!(split_stone(123), None);
    assert_eq!(split_stone(999999999999999999), Some((999999999, 999999999)));
    assert_eq!(split_stone(99999999999999999), None);
    assert_eq!(split_stone(12345678901234567), None);
    assert_eq!(split_stone(1234567890123456), Some((12345678, 90123456)));
}

#[test]
fn day11_memo_is_reused() {
    let mut m = new_memo(7);
    assert_eq!(blink_cached(&mut m, 125, 6), 7);
    assert_eq!(blink_cached(&mut m, 125, 6), 7);
    assert_eq!(blink_cached(&mut m, 17, 6), 15);
}

#[test]
fn day11_parse_errors_and_run() {
    assert_eq!(parse_stones("1 x"), Err(AocError::InvalidNumber));
    assert_eq!(parse_stones(""), Ok(vec![]));
    assert_eq!(run("").unwrap(), "0 0");
}
