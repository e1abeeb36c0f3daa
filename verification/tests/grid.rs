use aoc2024::grid::{pt, Dir, Grid};

#[test]
fn grid_fill_block_fills_the_block_clipped() {
    let mut g = Grid::parse("....\n....\n....").unwrap();
    // Corners in either order; the far row and column are left out; the block runs past
    // the grid's right edge.
    g.fill_block(pt(6, 2), pt(2, 0), b'#');
    assert_eq!(g.as_slice(), b"..##..##....");
}

#[test]
fn grid_fill_block_empty_when_corners_share_a_row() {
    let mut g = Grid::parse("...\n...").unwrap();
    g.fill_block(pt(0, 1), pt(3, 1), b'#');
    assert_eq!(g.as_slice(), b"......");
}

#[test]
fn grid_step_adds_up_and_points_its_way() {
    for d in [Dir::North, Dir::South, Dir::East, Dir::West] {
        let a = d.step(3);
        let b = d.step(-5);
        let s = d.step(-2);
        assert_eq!((a.x + b.x, a.y + b.y), (s.x, s.y));
        assert_eq!(d.step(0), pt(0, 0));
        assert!(Dir::from_xy(a) == Some(d));
        assert!(Dir::from_xy(b) == Some(d.opposite()));
    }
    assert_eq!(Dir::South.step(i32::MIN), pt(0, i32::MIN));
    assert_eq!(Dir::East.step(i32::MIN), pt(i32::MIN, 0));
}

#[test]
fn grid_flood_fills_the_connected_cells() {
    let mut g = Grid::parse("..#\n.#.\n...").unwrap();
    g.flood(pt(0, 0), b'o', |c: &u8| *c == b'.');
    assert_eq!(g.as_slice(), b"oo#o#oooo");
}

#[test]
fn grid_flood_outside_changes_nothing() {
    let mut g = Grid::parse("..\n..").unwrap();
    g.flood(pt(5, 0), b'o', |c: &u8| *c == b'.');
    assert_eq!(g.as_slice(), b"....");
}

#[test]
fn grid_flood_sets_start_whatever_it_holds() {
    let mut g = Grid::parse("#.\n..").unwrap();
    g.flood(pt(0, 0), b'o', |c: &u8| *c == b'x');
    assert_eq!(g.as_slice(), b"o...");
}

#[test]
fn grid_get_mut_changes_one_cell() {
    let mut g = Grid::parse("ab\ncd").unwrap();
    if let Some(c) = g.get_mut(pt(1, 1)) {
        *c = b'x';
    }
    assert!(g.get_mut(pt(2, 0)).is_none());
    assert!(g.get_mut(pt(-1, 0)).is_none());
    assert_eq!(g.as_slice(), b"abcx");
}
