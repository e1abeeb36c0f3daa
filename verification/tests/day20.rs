use aoc2024::day20::{find_cheats, find_cheats_new, find_path, manhattan_dist, run, Saving, Track};
use aoc2024::grid::Point;
use std::collections::HashMap;

const SAMPLE: &str = "###############
#...#...#.....#
#.#.#.#.#.###.#
#S#...#.#.#...#
#######.#.#.###
#######.#.#...#
#######.#.###.#
###..E#...#...#
###.#######.###
#...###...#...#
#.#####.#.###.#
#.#...#.#.#...#
#.#.#.#.#.#.###
#...#...#...###
###############";

#[test]
fn day20_it_works() {
    let track = Track::parse(SAMPLE).unwrap();
    let path = find_path(&track);

    let cheats = find_cheats(track.grid.dimensions(), &path);

    let has_cheat = |x, y, v| {
        cheats
            .iter()
            .filter(|((p, _), pv)| (x, y) == p.xy() && v == *pv)
            .count()
            > 0
    };

    assert!(has_cheat(8, 1, 12));
    assert!(has_cheat(10, 7, 20));
    assert!(has_cheat(8, 8, 38));
    assert!(has_cheat(6, 7, 64));

    let counts = cheats.iter().fold(HashMap::<u16, usize>::new(), |mut m, (_, n)| {
        m.entry(*n).and_modify(|v| *v += 1).or_insert(1);
        m
    });
    assert_eq!(counts.get(&2), Some(&14));
    assert_eq!(counts.get(&4), Some(&14));
    assert_eq!(counts.get(&64), Some(&1));

    assert_eq!(find_cheats_new(&path, 20, 50, Saving::Exactly(50)), 32);
    assert_eq!(find_cheats_new(&path, 20, 60, Saving::Exactly(60)), 23);
    assert_eq!(find_cheats_new(&path, 20, 68, Saving::Exactly(68)), 14);
    assert_eq!(find_cheats_new(&path, 20, 76, Saving::Exactly(76)), 3);
}

#[test]
fn day20_path_runs_start_to_end() {
    let track = Track::parse(SAMPLE).unwrap();
    let path = find_path(&track);
    assert_eq!(path.len(), 85);
    assert_eq!(path[0], track.start);
    assert_eq!(path[path.len() - 1], track.end);
    for w in path.windows(2) {
        assert_eq!(manhattan_dist(w[0], w[1]), 1);
    }
}

#[test]
fn day20_small_track() {
    // A straight track with one wall to cut through: S . # . E is not a track, so go round.
    let t = "#####\n#S#E#\n#.#.#\n#...#\n#####";
    let track = Track::parse(t).unwrap();
    let path = find_path(&track);
    assert_eq!(path, vec![
        Point { x: 1, y: 1 }, Point { x: 1, y: 2 }, Point { x: 1, y: 3 }, Point { x: 2, y: 3 },
        Point { x: 3, y: 3 }, Point { x: 3, y: 2 }, Point { x: 3, y: 1 },
    ]);
    let cheats = find_cheats(track.grid.dimensions(), &path);
    // Through the wall at (2, 1) from the end back to the start saves 6 - 0 - 2 steps;
    // through (2, 2) from (3, 2) to (1, 2) saves 5 - 1 - 2.
    assert!(cheats.contains(&((Point { x: 2, y: 1 }, 2), 4)));
    assert!(cheats.contains(&((Point { x: 2, y: 2 }, 2), 2)));
    assert_eq!(run(t).unwrap(), "0 0");
}

#[test]
fn day20_errors() {
    assert!(Track::parse("#.#\n#S#").is_err());
    assert!(Track::parse("#.#\n#S").is_err());
}
