use aoc2024::day08::{find_antennas, run, star};
use aoc2024::grid::Grid;

const SAMPLE: &str = "............
........0...
.....0......
.......0....
....0.......
......A.....
............
............
........A...
.........A..
............
............";

#[test]
fn day08_sample() {
    let g = Grid::parse(SAMPLE).unwrap();
    let a = find_antennas(&g);
    assert_eq!(a[b'0' as usize].len(), 4);
    assert_eq!(a[b'A' as usize].len(), 3);
    assert_eq!(star(&g, &a, false), 14);
    assert_eq!(star(&g, &a, true), 34);
    assert_eq!(run(SAMPLE).unwrap(), "14 34");
}

#[test]
fn day08_small() {
    let g = Grid::parse("T.........\n...T......\n.T........\n..........\n..........\n..........\n..........\n..........\n..........\n..........").unwrap();
    let a = find_antennas(&g);
    assert_eq!(star(&g, &a, true), 9);
    let e = Grid::parse("...\n.a.\n...").unwrap();
    let b = find_antennas(&e);
    assert_eq!(star(&e, &b, false), 0);
    assert_eq!(star(&e, &b, true), 0);
}
