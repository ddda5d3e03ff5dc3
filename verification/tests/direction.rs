use wm::direction::Direction;

#[test]
fn inverse_of_each_direction() {
    assert_eq!(Direction::Left.inverse(), Direction::Right);
    assert_eq!(Direction::Right.inverse(), Direction::Left);
    assert_eq!(Direction::Up.inverse(), Direction::Down);
    assert_eq!(Direction::Down.inverse(), Direction::Up);
}

#[test]
fn inverse_twice_is_identity() {
    assert_eq!(Direction::Left.inverse().inverse(), Direction::Left);
    assert_eq!(Direction::Right.inverse().inverse(), Direction::Right);
    assert_eq!(Direction::Up.inverse().inverse(), Direction::Up);
    assert_eq!(Direction::Down.inverse().inverse(), Direction::Down);
}

#[test]
fn parses_the_four_literals() {
    assert_eq!(Direction::from_str("left").unwrap(), Direction::Left);
    assert_eq!(Direction::from_str("right").unwrap(), Direction::Right);
    assert_eq!(Direction::from_str("up").unwrap(), Direction::Up);
    assert_eq!(Direction::from_str("down").unwrap(), Direction::Down);
}

#[test]
fn rejects_upper_case() {
    let err = Direction::from_str("LEFT").unwrap_err();
    assert_eq!(err.text, "LEFT");
}

#[test]
fn rejects_unknown_words() {
    let err = Direction::from_str("diagonal").unwrap_err();
    assert_eq!(err.text, "diagonal");
}

#[test]
fn rejects_padded_and_empty_text() {
    assert!(Direction::from_str(" left").is_err());
    assert!(Direction::from_str("left ").is_err());
    assert!(Direction::from_str("").is_err());
}
