use puzzles::calibration::{get_calibration_number, get_calibration_number_spelled_out, part1,
    part2};
use puzzles::error::ParseError;
use puzzles::input::Input;

fn lines_vec(lines: &[&str]) -> Vec<String> {
    lines.iter().map(|s| s.to_string()).collect()
}

#[test]
fn main_test_part1() {
    let input = Input::from_lines(&lines_vec(&[
        "1abc2",
        "pqr3stu8vwx",
        "a1b2c3d4e5f",
        "treb7uchet",
    ]));
    assert_eq!(part1(&input).unwrap(), 142);
}

#[test]
fn main_test_part2() {
    let input = Input::from_lines(&lines_vec(&[
        "two1nine",
        "eightwothree",
        "abcone2threexyz",
        "xtwone3four",
        "4nineeightseven2",
        "zoneight234",
        "7pqrstsixteen",
    ]));
    assert_eq!(part2(&input).unwrap(), 281);
}

#[test]
fn test_calibration_number_cases() {
    assert_eq!(get_calibration_number("12").unwrap(), 12);
    assert_eq!(get_calibration_number("11").unwrap(), 11);
    assert_eq!(get_calibration_number("1").unwrap(), 11);
    assert_eq!(get_calibration_number("1abc2").unwrap(), 12);
    assert_eq!(get_calibration_number("pqr3stu8vwx").unwrap(), 38);
    assert_eq!(get_calibration_number("a1b2c3d4e5f").unwrap(), 15);
    assert_eq!(get_calibration_number("treb7uchet").unwrap(), 77);
}

#[test]
fn test_calibration_number_rejects_digitless_lines() {
    assert_eq!(get_calibration_number(""), Err(ParseError::NoDigits));
    assert_eq!(get_calibration_number("abcdef"), Err(ParseError::NoDigits));
}

#[test]
fn test_spelled_out_cases() {
    assert_eq!(get_calibration_number_spelled_out("two1nine").unwrap(), 29);
    assert_eq!(get_calibration_number_spelled_out("eightwothree").unwrap(), 83);
    assert_eq!(get_calibration_number_spelled_out("abcone2threexyz").unwrap(), 13);
    assert_eq!(get_calibration_number_spelled_out("xtwone3four").unwrap(), 24);
    assert_eq!(get_calibration_number_spelled_out("4nineeightseven2").unwrap(), 42);
    assert_eq!(get_calibration_number_spelled_out("zoneight234").unwrap(), 14);
    assert_eq!(get_calibration_number_spelled_out("7pqrstsixteen").unwrap(), 76);
    assert_eq!(get_calibration_number_spelled_out("7pqrsteighthree").unwrap(), 73);
    assert_eq!(get_calibration_number_spelled_out("7237").unwrap(), 77);
    assert_eq!(get_calibration_number_spelled_out("zero0zero").unwrap(), 0);
}

#[test]
fn test_spelled_out_rejects_digitless_lines() {
    assert_eq!(
        get_calibration_number_spelled_out("abcdef"),
        Err(ParseError::NoDigits)
    );
}
