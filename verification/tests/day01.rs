use aoc2024::day01::{get_lists, run, star1, star2};

const SAMPLE: &str = "3   4
4   3
2   5
1   3
3   9
3   3";

#[test]
fn day01_sample() {
    assert_eq!(star1(SAMPLE), 11);
    assert_eq!(star2(SAMPLE), 31);
    assert_eq!(run(SAMPLE), "11 31");
}

#[test]
fn day01_lists_are_sorted() {
    let (a, b) = get_lists(SAMPLE);
    assert_eq!(a, vec![1, 2, 3, 3, 3, 4]);
    assert_eq!(b, vec![3, 3, 3, 4, 5, 9]);
}

#[test]
fn day01_lines_without_space_are_skipped() {
    assert_eq!(get_lists("5 1\nnothing\n2 7\r\n"), (vec![2, 5], vec![1, 7]));
    assert_eq!(run(""), "0 0");
}

#[test]
fn day01_sums_fit_check() {
    assert!(aoc2024::day01::sums_fit_check("3   4\n4   3\n2   5\n1   3\n3   9\n3   3"));
    assert!(!aoc2024::day01::sums_fit_check("3   x\n4   3"));
    assert!(!aoc2024::day01::sums_fit_check("18446744073709551615   0\n18446744073709551615   0"));
    assert!(!aoc2024::day01::sums_fit_check("9223372036854775808   9223372036854775808\n9223372036854775808   9223372036854775808"));
}
