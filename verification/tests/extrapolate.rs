use aoc2024::extrapolate::{from_diffv, nth};

#[test]
fn extrapolate_it_works() {
    let s1 = [26, 216, 588, 1142, 1878];
    // s1[30] == 84896; s1[90] == 746036
    assert_eq!(nth(&s1, 2), Some(588));
    assert_eq!(nth(&s1, 30), Some(84896));
    assert_eq!(nth(&s1, 90), Some(746036));

    let s2 = [3797, 34009, 94353, 184829, 305437, 456177];
    assert_eq!(nth(&s2, 202300), Some(616583483179597));
}

#[test]
fn extrapolate_linear_and_constant() {
    assert_eq!(nth(&[5, 7, 9], 10), Some(25));
    assert_eq!(nth(&[4, 4], 1000), Some(4));
    assert_eq!(nth(&[4], 0), Some(4));
}

#[test]
fn extrapolate_refusals() {
    // The values run out before a difference vanishes.
    assert_eq!(nth(&[1, 2, 4], 10), None);
    assert_eq!(nth(&[], 0), None);
    // A value smaller than the one before it.
    assert_eq!(nth(&[5, 3, 1], 10), None);
}

#[test]
fn extrapolate_newton_sum() {
    // x, first and second differences, three steps ahead: 1 + 2*3 + 2*6.
    assert_eq!(from_diffv(&[1, 2, 2, 0, 0], 3), 19);
    assert_eq!(from_diffv(&[], 3), 0);
}

#[test]
fn extrapolate_stops_at_the_first_zero_difference() {
    // The values i * (i - 1) / 2 begin 0, 0, 1, 3, 6: the first difference is already
    // zero after two values, so the table stops there and the sequence is taken as
    // constant.
    assert_eq!(nth(&[0, 0, 1, 3, 6], 4), Some(0));
}
