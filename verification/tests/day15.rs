use aoc2024::day15::{run, stars};

const SAMPLE1: &str = "##########
#..O..O.O#
#......O.#
#.OO..O.O#
#..O@..O.#
#O#..O...#
#O..O..O.#
#.OO.O.OO#
#....O...#
##########

<vv>^<v^>v>^vv^v>v<>v^v<v<^vv<<<^><<><>>v<vvv<>^v^>^<<<><<v<<<v^vv^v>^
vvv<<^>^v^^><<>>><>^<<><^vv^^<>vvv<>><^^v>^>vv<>v<<<<v<^v>^<^^>>>^<v<v
><>vv>v^v^<>><>>>><^^>vv>v<^^^>>v^v^<^^>v^^>v^<^v>v<>>v^v^<v>v^^<^^vv<
<<v<^>>^^^^>>>v^<>vvv^><v<<<>^^^vv^<vvv>^>v<^^^^v<>^>vvvv><>>v^<<^^^^^
^><^><>>><>^^<<^^v>>><^<v>^<vv>>v>>>^v><>^v><<<<v>>v<v<v>vvv>^<><<>^><
^>><>^v<><^vvv<^^<><v<<<<<><^v<<<><<<^^<v<^^^><^>>^<v^><<<^>>^v<v^v<v^
>^>>^v>vv>^<<^v<>><<><<v<<v><>v<^vv<<<>^^v^>^^>>><<^v>>v^v><^^>>^<>vv^
<><^^>^^^<><vvvvv^v<v<<>^v<v>v<<^><<><<><<<^^<<<^<<>><<><^^^>^^<>^>v<>
^^>vv<^v^v<vv>^<><v<^v>^^^>>>^^vvv^>vvv<>>>^<^>>>>>^<<^v>^vvv<>^<><<v>
v^^>>><<^^<>>^v^<v^vv<>v^<<>^<^v^v><^<<<><<^<v><v<>vv>>v><v^<vv<>v^<<^";

const SAMPLE2: &str = "########
#..O.O.#
##@.O..#
#...O..#
#.#.O..#
#...O..#
#......#
########

<^^>>>vv<v>>v<<";

const SAMPLE3: &str = "#######
#...#.#
#.....#
#..OO@#
#..O..#
#.....#
#######

<vv<<^^<<^^";

#[test]
fn day15_it_works() {
    let r1 = stars(SAMPLE1).unwrap();
    let r2 = stars(SAMPLE2).unwrap();
    let _r3 = stars(SAMPLE3).unwrap();
    assert_eq!(r1.0, 10092);
    assert_eq!(r2.0, 2028);
    assert_eq!(r1.1, 9021);
}

#[test]
fn day15_wide_small_sample() {
    // The third sample pushes wide boxes up and down; its wide result is 105 + 207 + 306.
    let r3 = stars(SAMPLE3).unwrap();
    assert_eq!(r3.1, 618);
}

#[test]
fn day15_run_formats_both() {
    assert_eq!(run(SAMPLE2).unwrap(), "2028 1751");
}

#[test]
fn day15_missing_separator() {
    assert!(stars("#..#\n#@O#").is_err());
}

#[test]
fn day15_missing_robot() {
    assert!(stars("####\n#.O#\n####\n\n<<").is_err());
}

#[test]
fn day15_blocked_push_keeps_boxes() {
    // The box is against the wall and cannot move; the robot stays.
    assert_eq!(stars("#####\n#@O##\n#####\n\n>>>").unwrap().0, 102);
}
