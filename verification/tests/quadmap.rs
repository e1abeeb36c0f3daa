use aoc2024::quadmap::{Bounds, QuadMap};
use aoc2024::util::skip_nth;

#[test]
fn quadmap_starts_with_zero() {
    let m: QuadMap<u8> = QuadMap::new(b'.');
    assert_eq!(m.at((0, 0)), b'.');
    assert_eq!(m.at((-100, 12345)), b'.');
    assert!(m.bounds().is_empty());
}

#[test]
fn quadmap_writes_across_blocks() {
    let mut m: QuadMap<u8> = QuadMap::new(b'.');
    m.at_mut((-1, -1), b'#');
    m.at_mut((15, 16), b'@');
    assert_eq!(m.at((-1, -1)), b'#');
    assert_eq!(m.at((15, 16)), b'@');
    assert_eq!(m.at((15, 15)), b'.');
    assert_eq!(m.at((-17, -1)), b'.');
    let b = m.bounds();
    assert_eq!(b.min, (-1, -1));
    assert_eq!(b.max, (16, 17));
}

#[test]
fn quadmap_lines() {
    let mut m: QuadMap<u32> = QuadMap::new(0);
    m.hline(5, -3, 2, &7);
    m.vline(0, 4, 1, &9);
    for x in -3..=5 {
        if x != 0 {
            assert_eq!(m.at((x, 2)), 7);
        }
    }
    for y in 1..=4 {
        assert_eq!(m.at((0, y)), 9);
    }
    assert_eq!(m.at((6, 2)), 0);
    assert_eq!(m.at((0, 5)), 0);
    let b = m.bounds();
    assert_eq!(b.min, (-3, 1));
    assert_eq!(b.max, (6, 5));
}

#[test]
fn bounds_extend() {
    let mut b = Bounds::new();
    assert!(b.is_empty());
    b.extend_one((3, 4));
    assert!(!b.is_empty());
    assert_eq!((b.min, b.max), ((3, 4), (4, 5)));
    b.extend_one((-2, 10));
    assert_eq!((b.min, b.max), ((-2, 4), (4, 11)));
}

#[test]
fn skip_nth_drops_one() {
    assert_eq!(skip_nth(&[1, 2, 3, 4], 1), vec![1, 3, 4]);
    assert_eq!(skip_nth(&[1, 2, 3], 7), vec![1, 2, 3]);
}

#[test]
fn quadmap_reads_the_last_write() {
    let mut m: QuadMap<u8> = QuadMap::new(0);
    m.hline(-20, 20, -3, &1);
    m.vline(5, -40, 40, &2);
    m.at_mut((5, -3), 3);
    m.hline(7, 3, 10, &4);
    assert_eq!(m.at((5, -3)), 3);
    assert_eq!(m.at((-20, -3)), 1);
    assert_eq!(m.at((5, 40)), 2);
    assert_eq!(m.at((5, 10)), 4);
    assert_eq!(m.at((6, 10)), 4);
    assert_eq!(m.at((2, 10)), 0);
    assert_eq!(m.at((-1000, 1000)), 0);
}
