use aoc2024::day04::{is_grid_string, is_x_mas, run, star1, star2};
use aoc2024::grid::{Grid, Point};

const SAMPLE: &str = "MMMSXXMASM
MSAMXMSMSA
AMXSXMAAMM
MSAMASMSMX
XMASAMXAMM
XXAMMXXAMA
SMSMSASXSS
SAXAMASAAA
MAMMMXMMMM
MXMXAXMASX";

#[test]
fn day04_sample() {
    let g = Grid::parse(SAMPLE).unwrap();
    assert_eq!(star1(&g), 18);
    assert_eq!(star2(&g), 9);
    assert_eq!(run(SAMPLE).unwrap(), "18 9");
}

#[test]
fn day04_single_checks() {
    let g = Grid::parse("XMAS\nMAS.\nS.S.").unwrap();
    assert!(is_grid_string(&g, Point::new(0, 0), (1, 0), b"XMAS"));
    assert!(!is_grid_string(&g, Point::new(1, 0), (1, 0), b"XMAS"));
    assert!(!is_grid_string(&g, Point::new(0, 0), (0, 1), b"XMAS"));
    assert!(is_x_mas(&g, Point::new(1, 1)) == false);
    let h = Grid::parse("M.S\n.A.\nM.S").unwrap();
    assert!(is_x_mas(&h, Point::new(1, 1)));
    assert!(!is_x_mas(&h, Point::new(0, 0)));
}
