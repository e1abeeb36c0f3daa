use aoc2024::day16::{find_grid_repl, parse_map, run, shortest_path_cost, SearchNode, SearchSpace};
use aoc2024::error::AocError;
use aoc2024::grid::{pt, Dir, Grid};

const EXAMPLE1: &str = "###############
#.......#....E#
#.#.###.#.###.#
#.....#.#...#.#
#.###.#####.#.#
#.#.#.......#.#
#.#.#####.###.#
#...........#.#
###.#.#####.#.#
#...#.....#.#.#
#.#.#.###.#.#.#
#.....#...#.#.#
#.###.#.#.#.#.#
#S..#.....#...#
###############";

const EXAMPLE2: &str = "#################
#...#...#...#..E#
#.#.#.#.#.#.#.#.#
#.#.#.#...#...#.#
#.#.#.#.###.#.#.#
#...#.#.#.....#.#
#.#.#.#.#.#####.#
#.#...#.#.#.....#
#.#.#####.#.###.#
#.#.#.......#...#
#.#.###.#####.###
#.#.#...#.....#.#
#.#.#.#####.###.#
#.#.#.........#.#
#.#.#.#########.#
#S#.............#
#################";

#[test]
fn day16_examples() {
    assert_eq!(shortest_path_cost(&parse_map(EXAMPLE1).unwrap()), Some(7036));
    assert_eq!(shortest_path_cost(&parse_map(EXAMPLE2).unwrap()), Some(11048));
    assert_eq!(run(EXAMPLE1).unwrap(), "7036 ");
}

#[test]
fn day16_small_mazes() {
    let cost = |s: &str| shortest_path_cost(&parse_map(s).unwrap());
    assert_eq!(cost("#####\n#S.E#\n#####"), Some(2));
    // Facing east at the start, going west takes two turns.
    assert_eq!(cost("#####\n#E.S#\n#####"), Some(2002));
    assert_eq!(cost("###\n#S#\n#.#\n#E#\n###"), Some(1002));
    assert_eq!(cost("#####\n#S#E#\n#####"), None);
    assert_eq!(cost("SE"), Some(1));
}

#[test]
fn day16_parse() {
    let m = parse_map("#S.E#").unwrap();
    assert_eq!(m.start, pt(1, 0));
    assert_eq!(m.end, pt(3, 0));
    assert_eq!(m.grid.get(pt(1, 0)), Some(b'.'));
    assert_eq!(m.grid.get(pt(3, 0)), Some(b'.'));
    assert_eq!(parse_map("#..E#").err(), Some(AocError::NotFound));
    assert_eq!(parse_map("#S..#").err(), Some(AocError::NotFound));
    assert_eq!(parse_map("#S.\n#E").err(), Some(AocError::InvalidInput));
    assert_eq!(run("#####\n#S#E#\n#####").err(), Some(AocError::NotFound));
}

#[test]
fn day16_find_grid_repl() {
    let mut g = Grid::parse("ab\ncb").unwrap();
    assert_eq!(find_grid_repl(&mut g, b'b', b'x'), Ok(pt(1, 0)));
    assert_eq!(g.get(pt(1, 0)), Some(b'x'));
    assert_eq!(find_grid_repl(&mut g, b'b', b'y'), Ok(pt(1, 1)));
    assert_eq!(find_grid_repl(&mut g, b'z', b'y'), Err(AocError::NotFound));
}

#[test]
fn day16_search_space() {
    let mut ss = SearchSpace::new((2, 2));
    ss.push(SearchNode { p: pt(1, 1), dir: Dir::North, cost: 5 });
    ss.push(SearchNode { p: pt(0, 0), dir: Dir::East, cost: 3 });
    // Not cheaper than what is known: left out.
    ss.push(SearchNode { p: pt(1, 1), dir: Dir::North, cost: 7 });
    // Outside the maze: left out.
    ss.push(SearchNode { p: pt(2, 0), dir: Dir::North, cost: 1 });
    assert_eq!(ss.pop().map(|n| n.cost), Some(3));
    assert_eq!(ss.pop().map(|n| n.cost), Some(5));
    assert_eq!(ss.pop(), None);
    let n = SearchNode::new(pt(1, 1), Dir::North);
    assert_eq!(n.ahead().p, pt(1, 0));
    assert_eq!(n.left().dir, Dir::West);
    assert_eq!(n.right().dir, Dir::East);
    assert_eq!(n.right().cost, 1000);
}
