use aoc2024::day05::{parse_print_job, run, stars};
use aoc2024::error::AocError;

const SAMPLE: &str = "47|53
97|13
97|61
97|47
75|29
61|13
75|53
29|13
97|29
53|29
61|53
97|53
61|29
47|13
75|47
97|75
47|61
75|61
47|29
75|13
53|13

75,47,61,53,29
97,61,53,29,13
75,29,13
75,97,47,61,53
61,13,29
97,13,75,29,47";

#[test]
fn day05_sample() {
    let pj = parse_print_job(SAMPLE).unwrap();
    assert_eq!(pj.ord.len(), 21);
    assert_eq!(pj.upd.len(), 6);
    assert_eq!(stars(&pj), (143, 123));
    assert_eq!(run(SAMPLE).unwrap(), "143 123");
}

#[test]
fn day05_parse_errors() {
    assert!(matches!(parse_print_job("47-53\n\n1,2"), Err(AocError::InvalidInput)));
    assert!(matches!(parse_print_job("47|x\n\n1,2"), Err(AocError::InvalidNumber)));
    assert!(matches!(parse_print_job("47|53\n\n1,,2"), Err(AocError::InvalidNumber)));
    let pj = parse_print_job("47|53").unwrap();
    assert_eq!(pj.ord, vec![(47, 53)]);
    assert!(pj.upd.is_empty());
}
