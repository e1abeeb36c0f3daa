use aoc2024::day22::{
    parse_input, price_changes_iter, run, secret_after, secret_iter, star1, star2, step_secret,
    Changes, SECRETS_PER_DAY,
};
use aoc2024::error::AocError;

#[test]
fn day22_it_works() {
    assert_eq!(step_secret(123), 15887950);
    assert_eq!(secret_iter(1, SECRETS_PER_DAY + 1)[SECRETS_PER_DAY], 8685429);
    assert_eq!(
        price_changes_iter(123, 5)[4],
        (Changes([-3, 6, -1, -1]), 4)
    );

    let sample1 = parse_input("1\n10\n100\n2024\n").unwrap();
    assert_eq!(star1(&sample1), 37327623);

    let sample2 = parse_input("1\n2\n3\n2024\n").unwrap();
    assert_eq!(star2(&sample2), 23);
}

#[test]
fn day22_secrets_in_sequence() {
    let s = secret_iter(123, 4);
    assert_eq!(s, vec![123, 15887950, 16495136, 527345]);
    assert_eq!(secret_after(123, 3), 527345);
    assert_eq!(secret_after(123, 0), 123);
}

#[test]
fn day22_first_changes() {
    let c = price_changes_iter(123, 4);
    assert_eq!(c[0], (Changes([0, 0, 0, 3]), 3));
    assert_eq!(c[1], (Changes([0, 0, 3, -3]), 0));
    assert_eq!(c[3], (Changes([3, -3, 6, -1]), 5));
    let mut ch = Changes::new();
    ch.push(1);
    ch.push(-2);
    assert_eq!(ch, Changes([0, 0, 1, -2]));
}

#[test]
fn day22_run_and_errors() {
    assert_eq!(run("1\n2\n3\n2024\n").unwrap(), "37990510 23");
    assert_eq!(parse_input("1\nx\n"), Err(AocError::InvalidNumber));
    assert_eq!(parse_input("4294967296"), Err(AocError::InvalidNumber));
    assert_eq!(star2(&[]), 0);
}
