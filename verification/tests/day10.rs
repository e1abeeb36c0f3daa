use aoc2024::day10::{run, star1, trailhead_score};
use aoc2024::grid::{Grid, Point};

const SAMPLE: &str = "89010123
78121874
87430965
96549874
45678903
32019012
01329801
10456732";

#[test]
fn day10_sample() {
    let g = Grid::parse(SAMPLE).unwrap();
    assert_eq!(star1(&g), 36);
    assert_eq!(trailhead_score(&g, Point::new(2, 0)), 5);
    assert_eq!(trailhead_score(&g, Point::new(0, 0)), 0);
    assert_eq!(run(SAMPLE).unwrap(), "36 ");
}

#[test]
fn day10_small() {
    let g = Grid::parse("0123\n1234\n8765\n9876").unwrap();
    assert_eq!(trailhead_score(&g, Point::new(0, 0)), 1);
    let h = Grid::parse("...0...\n...1...\n...2...\n6543456\n7.....7\n8.....8\n9.....9").unwrap();
    assert_eq!(star1(&h), 2);
}
