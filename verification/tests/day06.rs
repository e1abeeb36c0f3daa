use aoc2024::day06::{find_start, run, star1};
use aoc2024::error::AocError;
use aoc2024::grid::{Dir, Grid, Point};

const SAMPLE: &str = "....#.....
.........#
..........
..#.......
.......#..
..........
.#..^.....
........#.
#.........
......#...";

#[test]
fn day06_sample() {
    let g = Grid::parse(SAMPLE).unwrap();
    let s = find_start(&g).unwrap();
    assert_eq!(s, Point::new(4, 6));
    assert_eq!(star1(&g, s, Dir::North), 41);
    assert_eq!(run(SAMPLE).unwrap(), "41 ");
}

#[test]
fn day06_small_walks() {
    let g = Grid::parse("...\n.^.\n...").unwrap();
    assert_eq!(star1(&g, Point::new(1, 1), Dir::North), 2);
    let h = Grid::parse(".#.\n.^.\n...").unwrap();
    assert_eq!(star1(&h, Point::new(1, 1), Dir::North), 2);
    assert_eq!(run("...\n..."), Err(AocError::NotFound));
}
