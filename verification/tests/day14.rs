use aoc2024::day14::{parse_robot, parse_robots, quadrant, safety_factor, wrap, xmas_iter, Robot};
use aoc2024::error::AocError;
use aoc2024::grid::Point;

#[test]
fn day14_it_works() {
    assert_eq!(wrap(3, 3), 0);
    assert_eq!(wrap(-3, 3), 0);
    assert_eq!(wrap(5, 3), 2);
    assert_eq!(wrap(-5, 3), 1);
}

const SAMPLE: &str = "p=0,4 v=3,-3
p=6,3 v=-1,-3
p=10,3 v=-1,2
p=2,0 v=2,-1
p=0,0 v=1,3
p=3,0 v=-2,-2
p=7,6 v=-1,-3
p=3,0 v=-1,-2
p=9,3 v=2,3
p=7,3 v=-1,2
p=2,4 v=2,-3
p=9,5 v=-3,-3";

#[test]
fn day14_sample_safety_factor() {
    let robots = parse_robots(SAMPLE).unwrap();
    assert_eq!(robots.len(), 12);
    assert_eq!(safety_factor(&robots, 11, 7, 100), 12);
}

#[test]
fn day14_parse_and_quadrants() {
    assert_eq!(
        parse_robot(b"p=0,4 v=3,-3"),
        Ok(Robot { p: Point::new(0, 4), v: Point::new(3, -3) })
    );
    assert_eq!(parse_robot(b"p=0,4"), Err(AocError::InvalidInput));
    assert_eq!(parse_robot(b"q=0,4 v=1,1"), Err(AocError::InvalidInput));
    assert_eq!(quadrant(Point::new(0, 0), 5, 3), Some(0));
    assert_eq!(quadrant(Point::new(6, 0), 5, 3), Some(1));
    assert_eq!(quadrant(Point::new(0, 4), 5, 3), Some(2));
    assert_eq!(quadrant(Point::new(6, 4), 5, 3), Some(3));
    assert_eq!(quadrant(Point::new(5, 4), 5, 3), None);
}

#[test]
fn day14_first_second_apart() {
    // Two robots on the same tile moving apart are apart after one second.
    let robots = vec![
        Robot { p: Point::new(1, 1), v: Point::new(1, 0) },
        Robot { p: Point::new(1, 1), v: Point::new(0, 1) },
    ];
    assert_eq!(xmas_iter(&robots, 11, 7), 1);
}
