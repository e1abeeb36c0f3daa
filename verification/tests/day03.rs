use aoc2024::day03::{run, star1, star2};

#[test]
fn day03_sample() {
    let a = "xmul(2,4)%&mul[3,7]!@^do_not_mul(5,5)+mul(32,64]then(mul(11,8)mul(8,5))";
    assert_eq!(star1(a), Some(161));
    let b = "xmul(2,4)&mul[3,7]!^don't()_mul(5,5)+mul(32,64](mul(11,8)undo()?mul(8,5))";
    assert_eq!(star2(b), Some(48));
    assert_eq!(star1(b), Some(161));
    assert_eq!(run(b).unwrap(), "161 48");
}

#[test]
fn day03_edges() {
    assert_eq!(star1("mul(1234,5)mul(12,3)"), Some(36));
    assert_eq!(star2("don't()mul(2,2)do()mul(3,3)"), Some(9));
    assert_eq!(run("").unwrap(), "0 0");
}
