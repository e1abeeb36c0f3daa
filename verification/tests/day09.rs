use aoc2024::day09::{diskmap, run, star1, star2, FREE_SPACE};

#[test]
fn day09_it_works() {
    let input = "2333133121414131402";
    assert_eq!(star1(input), 1928);
    assert_eq!(star2(input), 2858);
}

#[test]
fn day09_small_map() {
    assert_eq!(star1("12345"), 60);
    assert_eq!(star2("12345"), 132);
}

#[test]
fn day09_stops_at_first_non_digit() {
    assert_eq!(star1("2333133121414131402\n"), 1928);
    assert_eq!(diskmap(b"12x3"), vec![(0, 1), (FREE_SPACE, 2)]);
}

#[test]
fn day09_single_file() {
    assert_eq!(star1("9"), 0);
    assert_eq!(star2("9"), 0);
}

#[test]
fn day09_run_formats_both() {
    assert_eq!(run("1313165"), "69 169");
}
