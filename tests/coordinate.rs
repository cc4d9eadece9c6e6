use zertz_core::board::{Board, BoardKind, Ring};
use zertz_core::coordinate::{usize_to_coord, Coordinate, CoordinateIter, Direction};

#[test]
fn test_usize_to_coord() {
    let to_test = vec![
        (0, 0),
        (1, 0),
        (2, 2),
        (0, 3),
        (0, 0),
        (4, 2),
        (1, 3),
        (3, 1),
    ];

    for (x, y) in &to_test {
        assert_eq!(usize_to_coord(*x + *y * 9), (*x, *y));
    }
}

#[test]
fn adjacent_follows_the_six_directions() {
    let c = Coordinate::new(3, 4);
    assert_eq!(c.adjacent(Direction::up_right()), Some(Coordinate::new(4, 5)));
    assert_eq!(c.adjacent(Direction::up()), Some(Coordinate::new(3, 5)));
    assert_eq!(c.adjacent(Direction::left()), Some(Coordinate::new(2, 4)));
    assert_eq!(c.adjacent(Direction::left_down()), Some(Coordinate::new(2, 3)));
    assert_eq!(c.adjacent(Direction::down()), Some(Coordinate::new(3, 3)));
    assert_eq!(c.adjacent(Direction::right()), Some(Coordinate::new(4, 4)));
}

#[test]
fn adjacent_refuses_to_go_below_zero() {
    let origin = Coordinate::new(0, 0);
    assert_eq!(origin.adjacent(Direction::left()), None);
    assert_eq!(origin.adjacent(Direction::down()), None);
    assert_eq!(origin.adjacent(Direction::left_down()), None);
    assert_eq!(Coordinate::new(2, 0).adjacent(Direction::left_down()), None);
    assert_eq!(origin.raw_adjacent(Direction::up_right()), Coordinate::new(1, 1));
}

#[test]
fn direction_union_combines_moves() {
    let d = Direction::up().union(Direction::right());
    assert_eq!(d.bits, 0x6);
    assert!(d.contains(Direction::up()));
    assert!(!d.contains(Direction::left()));
}

#[test]
fn coordinate_iter_walks_rows() {
    let mut it = CoordinateIter::new();
    assert_eq!(it.next(), Some(Coordinate::new(0, 0)));
    assert_eq!(it.next(), Some(Coordinate::new(1, 0)));
    let mut count = 2;
    let mut last = Coordinate::new(1, 0);
    while let Some(c) = it.next() {
        count += 1;
        last = c;
    }
    assert_eq!(count, 81);
    assert_eq!(last, Coordinate::new(8, 8));
    assert_eq!(it.next(), None);
}

#[test]
fn board_kinds_hold_their_ring_counts() {
    for n in [37u8, 40, 43, 44, 48, 61] {
        let kind = BoardKind::from_ring_count(n).unwrap();
        let board = Board::new(kind);
        let rings = board.data.iter().filter(|r| **r == Ring::Vacant).count();
        assert_eq!(rings, n as usize);
        assert_eq!(board.get(Coordinate::new(8, 0)), Some(&Ring::Empty));
    }
    assert_eq!(BoardKind::from_ring_count(50), None);
}

#[test]
fn board_lookup_is_bounds_checked() {
    let board = Board::new(BoardKind::Rings37);
    assert_eq!(board.get(Coordinate::new(9, 0)), None);
    assert_eq!(board.get(Coordinate::new(0, 9)), None);
    assert_eq!(board.get(Coordinate::new(0, 0)), Some(&Ring::Vacant));
    assert_eq!(board.get(Coordinate::new(6, 0)), Some(&Ring::Empty));
    assert_eq!(board.get_option(None), None);
    assert_eq!(board.get_option(Some(Coordinate::new(3, 3))), Some(&Ring::Vacant));
}

#[test]
fn coordinates_order_by_row_then_column() {
    assert!(Coordinate::new(5, 0) < Coordinate::new(0, 1));
    assert!(Coordinate::new(1, 3) < Coordinate::new(2, 3));
    assert!(Coordinate::new(2, 3) > Coordinate::new(8, 2));
    assert!(Coordinate::new(4, 4) <= Coordinate::new(4, 4));
    let mut it = CoordinateIter::new();
    let mut prev = it.next().unwrap();
    while let Some(c) = it.next() {
        assert!(prev < c);
        prev = c;
    }
}
