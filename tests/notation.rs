use zertz_core::board::Marble;
use zertz_core::coordinate::Coordinate;
use zertz_core::notation::{parse_coord, parse_marble};

#[test]
fn coordinates_in_brackets_are_read() {
    assert_eq!(parse_coord("(3, 4)"), Some(Coordinate::new(3, 4)));
    assert_eq!(parse_coord("  ( 0 ,2 ) "), Some(Coordinate::new(0, 2)));
    assert_eq!(parse_coord("at (+5,6) please"), Some(Coordinate::new(5, 6)));
    assert_eq!(parse_coord("(18446744073709551615, 0)"), Some(Coordinate::new(usize::MAX, 0)));
}

#[test]
fn malformed_coordinates_are_refused() {
    assert_eq!(parse_coord("3, 4"), None);
    assert_eq!(parse_coord("(3, 4"), None);
    assert_eq!(parse_coord("(3 4)"), None);
    assert_eq!(parse_coord("(a, 1)"), None);
    assert_eq!(parse_coord("(, 1)"), None);
    assert_eq!(parse_coord("(1, 2 3)"), None);
    assert_eq!(parse_coord("(18446744073709551616, 0)"), None);
    assert_eq!(parse_coord(""), None);
}

#[test]
fn marble_names_are_read() {
    assert_eq!(parse_marble("white"), Some(Marble::White));
    assert_eq!(parse_marble(" WHITE \n"), Some(Marble::White));
    assert_eq!(parse_marble("Gray"), Some(Marble::Gray));
    assert_eq!(parse_marble("gray"), Some(Marble::Gray));
    assert_eq!(parse_marble("BLACK"), Some(Marble::Black));
    assert_eq!(parse_marble("black"), Some(Marble::Black));
    assert_eq!(parse_marble("wHite"), None);
    assert_eq!(parse_marble("grey"), None);
    assert_eq!(parse_marble(""), None);
}
