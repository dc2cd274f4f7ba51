use puzzles::cards::Card;
use puzzles::error::ParseError;
use puzzles::input::Input;

fn lines_vec(lines: &[&str]) -> Vec<String> {
    lines.iter().map(|s| s.to_string()).collect()
}

fn fixture() -> Input {
    Input::from_lines(&lines_vec(&[
        "Card 1: 41 48 83 86 17 | 83 86  6 31 17  9 48 53",
        "Card 2: 13 32 20 16 61 | 61 30 68 82 17 32 24 19",
        "Card 3:  1 21 53 59 44 | 69 82 63 72 16 21 14  1",
        "Card 4: 41 92 73 84 69 | 59 84 76 51 58  5 54 83",
        "Card 5: 87 83 26 28 32 | 88 30 70 12 93 22 82 36",
        "Card 6: 31 18 13 56 72 | 74 77 10 23 35 67 36 11",
    ]))
}

#[test]
fn day04_test_part1() {
    assert_eq!(puzzles::cards::part1(&fixture()).unwrap(), 13);
}

#[test]
fn day04_test_part2() {
    assert_eq!(puzzles::cards::part2(&fixture()).unwrap(), 30);
}

#[test]
fn test_get_card_score() {
    let cases = [
        ("Card 1: 41 48 83 86 17 | 83 86  6 31 17  9 48 53", 8),
        ("Card 2: 13 32 20 16 61 | 61 30 68 82 17 32 24 19", 2),
        ("Card 3:  1 21 53 59 44 | 69 82 63 72 16 21 14  1", 2),
        ("Card 4: 41 92 73 84 69 | 59 84 76 51 58  5 54 83", 1),
        ("Card 5: 87 83 26 28 32 | 88 30 70 12 93 22 82 36", 0),
        ("Card 6: 31 18 13 56 72 | 74 77 10 23 35 67 36 11", 0),
    ];
    for (line, expected) in cases {
        let card = Card::parse(line).unwrap();
        assert_eq!(card.score(), expected);
    }
}

#[test]
fn test_card_matches() {
    let card = Card::parse("Card 1: 41 48 83 86 17 | 83 86  6 31 17  9 48 53").unwrap();
    assert_eq!(card.matches(), 4);
}

#[test]
fn test_card_parse_dedups_numbers() {
    let card = Card::parse("Card 9: 1 1 2 | 2 2 1").unwrap();
    assert_eq!(card.winners, vec![1, 2]);
    assert_eq!(card.numbers, vec![2, 1]);
    assert_eq!(card.matches(), 2);
}

#[test]
fn test_card_parse_errors() {
    assert_eq!(Card::parse("no separators"), Err(ParseError::InvalidCard));
    assert_eq!(Card::parse("Card 1: 4x | 1"), Err(ParseError::InvalidNumber));
}
