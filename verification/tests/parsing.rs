use maze_project::{Circle, Color, Direction};

#[test]
fn color_tokens_parse() {
    assert_eq!(Color::from_str("R"), Ok(Color::Red));
    assert_eq!(Color::from_str("B"), Ok(Color::Blue));
}

#[test]
fn color_rejects_unknown_tokens() {
    assert_eq!(Color::from_str("G"), Err(()));
    assert_eq!(Color::from_str(""), Err(()));
    assert_eq!(Color::from_str("RB"), Err(()));
}

#[test]
fn circle_tokens_parse() {
    assert_eq!(Circle::from_str("C"), Ok(Circle::True));
    assert_eq!(Circle::from_str("N"), Ok(Circle::False));
}

#[test]
fn circle_rejects_unknown_tokens() {
    assert_eq!(Circle::from_str("T"), Err(()));
    assert_eq!(Circle::from_str(""), Err(()));
    assert_eq!(Circle::from_str("CN"), Err(()));
}

#[test]
fn direction_tokens_parse() {
    assert_eq!(Direction::from_str("N"), Ok(Direction::N));
    assert_eq!(Direction::from_str("E"), Ok(Direction::E));
    assert_eq!(Direction::from_str("S"), Ok(Direction::S));
    assert_eq!(Direction::from_str("W"), Ok(Direction::W));
    assert_eq!(Direction::from_str("NE"), Ok(Direction::NE));
    assert_eq!(Direction::from_str("SE"), Ok(Direction::SE));
    assert_eq!(Direction::from_str("SW"), Ok(Direction::SW));
    assert_eq!(Direction::from_str("NW"), Ok(Direction::NW));
}

#[test]
fn direction_rejects_unknown_tokens() {
    assert_eq!(Direction::from_str("X"), Err(()));
    assert_eq!(Direction::from_str("EN"), Err(()));
    assert_eq!(Direction::from_str("NNE"), Err(()));
    assert_eq!(Direction::from_str(""), Err(()));
}
