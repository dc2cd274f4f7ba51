use puzzles::input::Input;
use puzzles::scan::{
    get_gear_ratios, get_part_numbers, part1, part2, Number, Symbol,
};

fn lines_vec(lines: &[&str]) -> Vec<String> {
    lines.iter().map(|s| s.to_string()).collect()
}

fn fixture() -> Input {
    Input::from_lines(&lines_vec(&[
        "467..114..",
        "...*......",
        "..35..633.",
        "......#...",
        "617*......",
        ".....+.58.",
        "..592.....",
        "......755.",
        "...$.*....",
        ".664.598..",
    ]))
}

#[test]
fn test_is_adjacent_starts_at_zero() {
    // Given a number
    let number = Number { number: 1, row: 0, start: 0, end: 6 };

    // and a symbol
    let symbol = Symbol { symbol: '*', row: 1, col: 1 };

    // Expect them to be adjacent
    assert!(number.is_adjacent(&symbol));
}

#[test]
fn test_is_adjacent_around_span() {
    let number = Number { number: 1, row: 2, start: 4, end: 6 };
    for (row, col) in [
        (2, 4),
        (2, 7),
        (2, 6),
        (1, 3),
        (3, 3),
        (1, 7),
        (3, 7),
        (3, 5),
        (1, 5),
    ] {
        let symbol = Symbol { symbol: '*', row, col };
        assert!(number.is_adjacent(&symbol));
    }
}

#[test]
fn test_is_not_adjacent() {
    let number = Number { number: 1, row: 2, start: 4, end: 6 };
    for (row, col) in [(2, 2), (1, 2), (0, 4), (4, 4)] {
        let symbol = Symbol { symbol: '*', row, col };
        assert!(!number.is_adjacent(&symbol));
    }
}

#[test]
fn test_get_part_numbers() {
    // Given some input
    let input = Input::from_lines(&lines_vec(&[
        "467..114..",
        "...*......",
        "..35..633.",
        "......#...",
        "617*......",
        ".....+.58.",
        "..592.....",
        "......755.",
        "...$.*....",
        ".664.598..",
        "......+321",
    ]));

    // When the part numbers are extracted
    let numbers = get_part_numbers(&input);

    // Then they are as expected
    assert_eq!(numbers, vec![467, 35, 633, 617, 592, 755, 664, 598, 321])
}

#[test]
fn test_part1() {
    let input = fixture();
    assert_eq!(part1(&input), 4361);
}

#[test]
fn test_get_gear_ratios() {
    // Given some input
    let input = fixture();

    // When the gear ratios are retrieved
    let ratios = get_gear_ratios(&input);

    // Then they are as expected
    assert_eq!(ratios, vec![16345, 451490])
}

#[test]
fn test_part2() {
    let input = fixture();
    assert_eq!(part2(&input), 467835);
}

#[test]
fn test_number_parse_row() {
    let numbers = Number::parse_row(0, "467..114..");
    assert_eq!(
        numbers,
        vec![
            Number { number: 467, row: 0, start: 0, end: 2 },
            Number { number: 114, row: 0, start: 5, end: 7 },
        ]
    );
}

#[test]
fn test_digitless_line_has_no_numbers() {
    assert_eq!(Number::parse_row(3, "...$.*...."), vec![]);
}

#[test]
fn test_symbol_parse_row() {
    let symbols = Symbol::parse_row(8, "...$.*....");
    assert_eq!(
        symbols,
        vec![
            Symbol { symbol: '$', row: 8, col: 3 },
            Symbol { symbol: '*', row: 8, col: 5 },
        ]
    );
}

#[test]
fn test_plain_line_has_no_symbols() {
    assert_eq!(Symbol::parse_row(0, "123..456.."), vec![]);
}

#[test]
fn test_crowded_gear_contributes_nothing() {
    // a `*` touching three numbers earns no gear ratio
    let input = Input::from_lines(&lines_vec(&["11.11", "..*..", "..11."]));
    assert_eq!(get_gear_ratios(&input), vec![]);
    assert_eq!(part2(&input), 0);
}

#[test]
fn test_number_at_left_edge_counts() {
    // the clamp at column zero keeps edge numbers adjacent
    let input = Input::from_lines(&lines_vec(&["12...", "*...."]));
    assert_eq!(get_part_numbers(&input), vec![12]);
}
