use aoc2024::day25::{parse_schems, run, star1, Schem, Subj};
use aoc2024::error::AocError;

const SAMPLE: &str = "#####
.####
.####
.####
.#.#.
.#...
.....

#####
##.##
.#.##
...##
...#.
...#.
.....

.....
#....
#....
#...#
#.#.#
#.###
#####

.....
.....
#.#..
###..
###.#
###.#
#####

.....
.....
.....
#....
#.#..
#.#.#
#####";

#[test]
fn day25_sample() {
    let s = parse_schems(SAMPLE).unwrap();
    assert_eq!(s.len(), 5);
    assert_eq!(s[0].subj, Subj::Lock);
    assert_eq!(s[0].pins, [1, 6, 4, 5, 4]);
    assert_eq!(s[2].subj, Subj::Key);
    assert_eq!(s[2].pins, [6, 1, 3, 2, 4]);
    assert_eq!(star1(&s), 3);
    assert_eq!(run(SAMPLE).unwrap(), "3");
}

#[test]
fn day25_fits_and_errors() {
    let k = Schem { subj: Subj::Key, pins: [1, 2, 3, 4, 5] };
    let l = Schem { subj: Subj::Lock, pins: [6, 5, 4, 3, 2] };
    let m = Schem { subj: Subj::Lock, pins: [6, 5, 4, 3, 3] };
    assert!(k.fits(&l));
    assert!(!k.fits(&m));
    assert!(matches!(Schem::from_str("####\n...."), Err(AocError::InvalidInput)));
    assert!(matches!(Schem::from_str("#####\n..."), Err(AocError::InvalidInput)));
}
