use aoc2024::day19::{arrangements, len_to_pats, run, split_comma_space, stars};
use aoc2024::error::AocError;

const SAMPLE: &str = "r, wr, b, g, bwu, rb, gb, br

brwrr
bggr
gbbr
rrbgbr
ubwu
bwurrg
brgr
bbrgwb";

#[test]
fn day19_it_works() {
    let sample = SAMPLE.trim();
    let ltp = len_to_pats(sample.split_once('\n').unwrap().0.as_bytes());

    assert_eq!(arrangements(b"brwrr", &ltp), 2);
    assert_eq!(arrangements(b"bggr", &ltp), 1);
    assert_eq!(arrangements(b"gbbr", &ltp), 4);
    assert_eq!(arrangements(b"rrbgbr", &ltp), 6);
    assert_eq!(arrangements(b"bwurrg", &ltp), 1);
    assert_eq!(arrangements(b"brgr", &ltp), 2);
    assert_eq!(arrangements(b"ubwu", &ltp), 0);
    assert_eq!(arrangements(b"bbrgwb", &ltp), 0);

    assert_eq!(stars(sample.as_bytes()).unwrap(), (6, 16));
}

#[test]
fn day19_run_formats_both_counts() {
    assert_eq!(run(SAMPLE).unwrap(), "6 16");
}

#[test]
fn day19_missing_blank_line_is_refused() {
    assert_eq!(run("r, b"), Err(AocError::InvalidInput));
    assert_eq!(run(""), Err(AocError::InvalidInput));
}

#[test]
fn day19_patterns_are_deduplicated() {
    let pats = len_to_pats(b"ab, a, ab, , b");
    assert_eq!(pats, vec![b"ab".to_vec(), b"a".to_vec(), b"b".to_vec()]);
    assert_eq!(arrangements(b"ab", &pats), 2);
    assert_eq!(arrangements(b"", &pats), 1);
}

#[test]
fn day19_split_on_comma_space() {
    assert_eq!(
        split_comma_space(b"a, bc,d, "),
        vec![b"a".to_vec(), b"bc,d".to_vec(), b"".to_vec()]
    );
}
