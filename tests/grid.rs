use cellmaze::maze::{Dir, Maze};

#[test]
fn new_grid_has_requested_size() {
    let m = Maze::new((4, 3), false);
    assert_eq!(m.w(), 4);
    assert_eq!(m.h(), 3);
    assert_eq!(m.cell_count(), 12);
    assert_eq!(m.index((2, 1)), 7);
}

#[test]
fn shift_stops_at_the_perimeter() {
    let m = Maze::new((3, 2), false);
    assert_eq!(m.shift(Dir::Right, (0, 0)), Some((1, 0)));
    assert_eq!(m.shift(Dir::Right, (2, 0)), None);
    assert_eq!(m.shift(Dir::Down, (1, 0)), Some((1, 1)));
    assert_eq!(m.shift(Dir::Down, (1, 1)), None);
    assert_eq!(m.shift(Dir::Left, (0, 1)), None);
    assert_eq!(m.shift(Dir::Left, (2, 1)), Some((1, 1)));
    assert_eq!(m.shift(Dir::Up, (2, 0)), None);
    assert_eq!(m.shift(Dir::Up, (2, 1)), Some((2, 0)));
}

#[test]
fn open_grid_keeps_perimeter_closed() {
    let m = Maze::new((3, 3), true);
    for x in 0..3 {
        assert!(!m.is_open(Dir::Up, (x, 0)));
        assert!(!m.is_open(Dir::Down, (x, 2)));
        assert!(!m.is_open(Dir::Left, (0, x)));
        assert!(!m.is_open(Dir::Right, (2, x)));
    }
    assert!(m.is_open(Dir::Right, (0, 0)));
    assert!(m.is_open(Dir::Down, (1, 1)));
}

#[test]
fn a_wall_is_shared_by_both_cells() {
    let mut m = Maze::new((3, 3), false);
    m.set_open(Dir::Left, (2, 1), true);
    assert!(m.is_open(Dir::Right, (1, 1)));
    assert!(m.is_open(Dir::Left, (2, 1)));
    assert!(!m.is_open(Dir::Right, (2, 1)));
    m.set_open(Dir::Down, (0, 0), true);
    assert!(m.is_open(Dir::Up, (0, 1)));
    m.set_open(Dir::Up, (0, 1), false);
    assert!(!m.is_open(Dir::Down, (0, 0)));
    assert!(m.is_open(Dir::Right, (1, 1)));
}

#[test]
fn opposite_directions() {
    assert_eq!(Dir::Right.opposite(), Dir::Left);
    assert_eq!(Dir::Left.opposite(), Dir::Right);
    assert_eq!(Dir::Up.opposite(), Dir::Down);
    assert_eq!(Dir::Down.opposite(), Dir::Up);
}

#[test]
fn text_drawing_of_small_grids() {
    let m = Maze::new((2, 1), true);
    assert_eq!(m.to_text(), "▄▄▄▄▄\n█▄▄▄█");
    let mut m = Maze::new((1, 2), false);
    assert_eq!(m.to_text(), "▄▄▄\n█▄█\n█▄█");
    m.set_open(Dir::Down, (0, 0), true);
    assert_eq!(m.to_text(), "▄▄▄\n█ █\n█▄█");
    assert_eq!(Maze::new((0, 0), false).to_text(), "▄");
}
