use aoc2024::day21::{
    dirpad, dirpad_entry, dirpad_moves, key_push_count, keypad_entry, keypad_moves, numpad, numpad_entry,
    numpad_moves, run, sim, sim_rec, star1, star1_moves, Movement, PushResult, State,
};

fn try_keys(keypresses: &str) -> Option<String> {
    let mut s = State::new();
    for c in keypresses.bytes() {
        s = s.step(c)?;
    }
    Some(String::from_utf8(s.output().to_vec()).unwrap())
}

#[test]
fn day21_it_works() {
    assert_eq!(star1_moves("029A"), 68);
    assert_eq!(star1_moves("980A"), 60);
    assert_eq!(star1_moves("179A"), 68);
    assert_eq!(star1_moves("456A"), 64);
    assert_eq!(star1_moves("379A"), 64);

    assert_eq!(
        try_keys("<vA<AA>>^AvAA<^A>A<v<A>>^AvA^A<vA>^A<v<A>^A>AAvA^A<v<A>A>^AAAvA<^A>A"),
        Some(String::from("029A"))
    );

    let sample = "029A
980A
179A
456A
379A";

    assert_eq!(star1(sample), 126384);

    let s0 = numpad_entry("029A");
    assert_eq!(&s0, "<A^A>^^AvvvA");
    let s1 = dirpad_entry(&s0);
    assert_eq!(&s1, "v<<A>>^A<A>AvA^<AA>Av<AAA>^A");
    let s2 = dirpad_entry(&s1);
    assert_eq!(s2.len(), 68);

    let npc = |digits| numpad_moves(digits);
    assert_eq!(&npc("029A"), "<A^A^^>AvvvA");
    assert_eq!(&npc("379A"), "^A<<^^A>>AvvvA");

    let s = key_push_count("379A").unwrap().1;
    println!("{}", s);
    let s1 = sim(&dirpad(), s.as_bytes());
    println!("{}", String::from_utf8_lossy(&s1));
    println!("{}", String::from_utf8_lossy(&sim(&dirpad(), &s1)));

    let s0 = numpad_entry("379A");
    assert_eq!(&s0, "^A^^<<A>>AvvvA");
    let s1 = dirpad_entry(&s0);
    assert_eq!(&s1, "<A>A<AAv<AA>>^AvAA^Av<AAA>^A");
    let s2 = dirpad_entry(&s1);
    assert_eq!(&s2, "v<<A>>^AvA^Av<<A>>^AAv<A<A>>^AAvAA^<A>Av<A>^AA<A>Av<A<A>>^AAAvA^<A>A");
}

#[test]
fn day21_key_push_count() {
    let (n, s) = key_push_count("379A").unwrap();
    assert_eq!(n, 64);
    assert_eq!(s, "<v<A>^>AvA^A<vA<AA>^>AAvA^<A>AAvA^A<vA^>AA<A>A<vA<A>^>AAA<Av>A^A");
    assert_eq!(try_keys(&s), Some(String::from("379A")));
    // With nothing to type, the first allowed press already types it.
    assert_eq!(key_push_count(""), Some((1, String::from("<"))));
}

#[test]
fn day21_step() {
    let s = State::new();
    assert!(s.step(b'^').is_none());
    assert!(s.step(b'<').is_some());
    assert!(s.step(b'>').is_none());
    assert!(s.step(b'x').is_none());
    let s = s.step(b'A').unwrap().step(b'A').unwrap();
    assert_eq!(s.output(), b"AA");
    assert_eq!(try_keys("<"), Some(String::new()));
    assert_eq!(try_keys("<<<"), None);
}

#[test]
fn day21_push() {
    let d = dirpad();
    let mut p: u16 = 6;
    assert_eq!(aoc2024::day21::push(&mut p, &d, b'A'), PushResult::Ack(b'A'));
    assert_eq!(aoc2024::day21::push(&mut p, &d, b'<'), PushResult::Valid);
    assert_eq!(p, 5);
    assert_eq!(aoc2024::day21::push(&mut p, &d, b'<'), PushResult::Invalid);
    assert_eq!(p, 5);
    assert_eq!(aoc2024::day21::push(&mut p, &d, b'v'), PushResult::Valid);
    assert_eq!(p, 9);
}

#[test]
fn day21_moves() {
    assert_eq!(keypad_moves(&numpad(), b"0"), "<A");
    assert_eq!(keypad_moves(&numpad(), b"1x9"), "^<<A");
    assert_eq!(dirpad_moves("<A"), "v<<A>>^A");
    assert_eq!(keypad_entry(&numpad(), b"1x9"), "^<<A>>^^A");
    assert_eq!(sim(&dirpad(), b"<A>A"), b"A.".to_vec());
    let levels = sim_rec("029A", 2);
    assert_eq!(levels, vec!["029A".to_string(), "<A^A^^>AvvvA".to_string(), "v<<A>>^A<A>A<AAv>A^A<vAAA^>A".to_string()]);
}

#[test]
fn day21_movement() {
    let m = Movement { dx: -2, dy: 3, x_first: true };
    assert_eq!(m.move_chars(), ("<<".to_string(), "vvv".to_string()));
    let m = Movement { dx: 1, dy: -1, x_first: false };
    assert_eq!(m.move_chars(), ("^".to_string(), ">".to_string()));
}

#[test]
fn day21_run() {
    assert_eq!(run("029A\n980A\n179A\n456A\n379A").unwrap(), "126384 ");
    // A line without a number counts nothing.
    assert_eq!(star1("A\n029A"), 68 * 29);
}

#[test]
fn day21_dirpad_entry_presses_a_once_per_move() {
    // Each move to enter takes one press of `A`, so the entry of the 28 moves for 379A
    // holds 28 `A`s and cannot be shorter than 28 presses.
    let s1 = "<A>A<AAv<AA>>^AvAA^Av<AAA>^A";
    let s2 = dirpad_entry(s1);
    assert_eq!(s2.matches('A').count(), s1.len());
    assert_eq!(s2.len(), 68);
    assert!(s2.starts_with("v<<A>>^AvA^Av<<A>>^AAv<A<A>>^AA"));
}
