use xenopeltis::model::{Color, Coordinate, Direction, Field, COLOR_COUNT};
use xenopeltis::grid::State;

#[test]
fn direction_offsets() {
    assert_eq!(Direction::Up.offset(), (-1, 0));
    assert_eq!(Direction::Down.offset(), (1, 0));
    assert_eq!(Direction::Left.offset(), (0, -1));
    assert_eq!(Direction::Right.offset(), (0, 1));
}

#[test]
fn direction_opposite() {
    assert_eq!(Direction::Up.opposite(), Direction::Down);
    assert_eq!(Direction::Down.opposite(), Direction::Up);
    assert_eq!(Direction::Left.opposite(), Direction::Right);
    assert_eq!(Direction::Right.opposite(), Direction::Left);
}

#[test]
fn direction_default_is_right() {
    assert_eq!(Direction::default(), Direction::Right);
}

#[test]
fn field_food() {
    assert!(Field::Food.food());
    assert!(!Field::Empty.food());
    assert!(!Field::Wall.food());
    assert!(!Field::Snake(Color::Red).food());
}

#[test]
fn coordinate_new() {
    let c = Coordinate::new(3, 7);
    assert_eq!(c.row, 3);
    assert_eq!(c.col, 7);
    assert_eq!(Coordinate::default(), Coordinate::new(0, 0));
}

#[test]
fn color_from_index_covers_all() {
    let expected = [
        Color::Blue,
        Color::Cyan,
        Color::Green,
        Color::Magenta,
        Color::Red,
        Color::Yellow,
    ];
    for (i, color) in expected.iter().enumerate() {
        assert_eq!(Color::from_index(i), *color);
    }
    assert_eq!(COLOR_COUNT, expected.len());
}

#[test]
fn state_new_get_set() {
    let mut s: State<u32> = State::new(7, 3, 4);
    assert_eq!(s.get(0, 0), Some(&7));
    assert_eq!(s.get(2, 3), Some(&7));
    assert_eq!(s.get(3, 0), None);
    assert_eq!(s.get(0, 4), None);
    s.set(1, 2, 42);
    assert_eq!(s.get(1, 2), Some(&42));
    assert_eq!(s.get(1, 1), Some(&7));
}
