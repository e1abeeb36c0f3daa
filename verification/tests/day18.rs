use aoc2024::day18::{coords, star1, star2};
use aoc2024::grid::Point;

const SAMPLE: &str = "5,4
4,2
4,5
3,0
2,1
6,3
2,4
1,5
0,6
3,3
2,6
5,1
1,2
5,5
2,5
6,5
1,4
0,4
6,4
1,1
6,1
1,0
0,5
1,6
2,0";

#[test]
fn day18_it_works() {
    assert_eq!(star1(SAMPLE, 6, 12), 22);
    assert_eq!(star2(SAMPLE, 6), Some((6, 1)));
}

#[test]
fn day18_empty_space() {
    assert_eq!(star1(SAMPLE, 6, 0), 12);
}

#[test]
fn day18_cut_off_corner() {
    assert_eq!(star1("0,1\n1,0", 2, 5), 65535);
    assert_eq!(star2("0,1\n1,0", 2), Some((1, 0)));
    assert_eq!(star2("1,1", 2), None);
}

#[test]
fn day18_skips_unreadable_lines() {
    assert_eq!(coords(b"x,1\n1,1\n9,9"), vec![Point { x: 1, y: 1 }, Point { x: 9, y: 9 }]);
    assert_eq!(star1("x,1\n1,1\n9,9", 2, 5), 4);
}
