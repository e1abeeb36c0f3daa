use aoc2024::day12::{fence_cost, parse_garden, Fences};
use aoc2024::grid::Point;

#[test]
fn day12_it_works() {
    let input = r#"
RRRRIICCFF
RRRRIICCCF
VVRRRCCFFF
VVRCCCJFFF
VVVVCJJCFE
VVIVCCJJEE
VVIIICJJEE
MIIIIIJJEE
MIIISIJEEE
MMMISSJEEE
"#
    .trim();
    let garden = parse_garden(input).unwrap();
    assert_eq!(fence_cost(&garden), (1930, 1206));
}

#[test]
fn day12_small_garden() {
    let garden = parse_garden("AAAA\nBBCD\nBBCC\nEEEC").unwrap();
    assert_eq!(fence_cost(&garden), (140, 80));
}

#[test]
fn day12_sides_of_one_square() {
    let mut f = Fences::new();
    f.add(Point::new(0, 0), 15);
    assert_eq!(f.count_sides(), 4);
}

#[test]
fn day12_sides_continue_along_a_row() {
    let mut f = Fences::new();
    f.add(Point::new(1, 0), 1 | 2 | 4);
    f.add(Point::new(0, 0), 1 | 2 | 8);
    assert_eq!(f.count_sides(), 4);
}

#[test]
fn day12_uneven_rows_are_refused() {
    assert!(parse_garden("AB\nC").is_err());
}

#[test]
fn day12_run_answers() {
    assert_eq!(aoc2024::day12::run("AAAA\nBBCD\nBBCC\nEEEC").unwrap(), "140 80");
}
