use puzzles::cubes::{Game, Hand};
use puzzles::error::ParseError;
use puzzles::input::Input;

fn lines_vec(lines: &[&str]) -> Vec<String> {
    lines.iter().map(|s| s.to_string()).collect()
}

fn fixture() -> Input {
    Input::from_lines(&lines_vec(&[
        "Game 1: 3 blue, 4 red; 1 red, 2 green, 6 blue; 2 green",
        "Game 2: 1 blue, 2 green; 3 green, 4 blue, 1 red; 1 green, 1 blue",
        "Game 3: 8 green, 6 blue, 20 red; 5 blue, 4 red, 13 green; 5 green, 1 red",
        "Game 4: 1 green, 3 red, 6 blue; 3 green, 6 red; 3 green, 15 blue, 14 red",
        "Game 5: 6 red, 1 blue, 3 green; 2 blue, 1 red, 2 green",
    ]))
}

#[test]
fn day02_test_part1() {
    assert_eq!(puzzles::cubes::part1(&fixture()).unwrap(), 8);
}

#[test]
fn day02_test_part2() {
    assert_eq!(puzzles::cubes::part2(&fixture()).unwrap(), 2286);
}

#[test]
fn test_parse_game_parses_correctly() {
    let parsed = Game::parse("Game 1: 3 blue, 4 red; 1 red, 2 green, 6 blue; 2 green").unwrap();
    let expected = Game {
        id: 1,
        hands: vec![Hand::new(4, 0, 3), Hand::new(1, 2, 6), Hand::new(0, 2, 0)],
    };
    assert_eq!(parsed, expected);

    let parsed =
        Game::parse("Game 2: 1 blue, 2 green; 3 green, 4 blue, 1 red; 1 green, 1 blue").unwrap();
    let expected = Game {
        id: 2,
        hands: vec![Hand::new(0, 2, 1), Hand::new(1, 3, 4), Hand::new(0, 1, 1)],
    };
    assert_eq!(parsed, expected);
}

#[test]
fn test_game_power_is_calculated_correctly() {
    let game = Game {
        id: 1,
        hands: vec![Hand::new(4, 0, 3), Hand::new(1, 2, 6), Hand::new(0, 2, 0)],
    };
    assert_eq!(game.power(), 4 * 2 * 6);

    let game = Game {
        id: 2,
        hands: vec![Hand::new(0, 2, 1), Hand::new(1, 3, 4), Hand::new(0, 1, 1)],
    };
    assert_eq!(game.power(), 3 * 4);
}

#[test]
fn test_is_game_valid() {
    let limits = Hand::new(12, 13, 14);
    let valid = Game {
        id: 1,
        hands: vec![Hand::new(4, 0, 3), Hand::new(1, 2, 6), Hand::new(0, 2, 0)],
    };
    assert!(valid.is_valid(&limits));

    let invalid = Game {
        id: 3,
        hands: vec![Hand::new(20, 8, 6), Hand::new(4, 13, 5), Hand::new(1, 5, 0)],
    };
    assert!(!invalid.is_valid(&limits));
}

#[test]
fn test_hand_parse_overwrites_repeated_colour() {
    let hand = Hand::parse("3 blue, 4 red, 5 blue").unwrap();
    assert_eq!(hand, Hand::new(4, 0, 5));
}

#[test]
fn test_parse_errors() {
    assert_eq!(Game::parse("no colon here"), Err(ParseError::InvalidGame));
    assert_eq!(Game::parse("Game1: 1 red"), Err(ParseError::InvalidGameId));
    assert_eq!(Game::parse("Game x: 1 red"), Err(ParseError::InvalidNumber));
    assert_eq!(Hand::parse("blue"), Err(ParseError::InvalidCube));
    assert_eq!(Hand::parse("one blue"), Err(ParseError::InvalidNumber));
    assert_eq!(Hand::parse("3 purple"), Err(ParseError::InvalidColour));
}
