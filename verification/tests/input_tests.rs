use puzzles::input::Input;

fn lines_vec(lines: &[&str]) -> Vec<String> {
    lines.iter().map(|s| s.to_string()).collect()
}

#[test]
fn test_as_str() {
    // given some input
    let input = Input::from_str("a string");

    // expect input as str to equal "a string"
    assert_eq!("a string", input.as_str())
}

#[test]
fn test_as_lines() {
    // given some input
    let input = Input::from_str("a line\nanother line");

    // expect the lines split on the newline
    itertools::assert_equal(input.as_lines(), vec!["a line", "another line"]);
}

#[test]
fn test_from_lines() {
    // given some lines
    let input = ["a line", "another line"];

    // when Input is created from the lines
    let input = Input::from_lines(&lines_vec(&input));

    // then as_str returns the lines concatenated
    assert_eq!("a line\nanother line", input.as_str());
}

#[test]
fn test_trim_trailing_newlines() {
    // given some input with trailing newlines
    let input = Input::from_str("a line\nanother line\n\n");

    // expect input as lines with trailing newlines removed to only include the non-empty strings
    itertools::assert_equal(
        input.trim_trailing_newlines().as_lines(),
        vec!["a line", "another line"],
    );
}

#[test]
fn test_trim_trailing_newlines_twice_equals_once() {
    let input = Input::from_str("a\nb\n\n\n");
    let once = input.trim_trailing_newlines();
    let twice = once.trim_trailing_newlines();
    assert_eq!(once.as_str(), twice.as_str());
    assert_eq!(once.as_str(), "a\nb");
}

#[test]
fn test_trim_keeps_interior_blank_lines() {
    let input = Input::from_str("a\n\nb\n");
    assert_eq!(input.trim_trailing_newlines().as_str(), "a\n\nb");
}

#[test]
fn test_empty_input_has_one_empty_line() {
    let input = Input::from_str("");
    assert_eq!(input.as_lines(), vec!["".to_string()]);
}

#[test]
fn test_from_lines_round_trip() {
    let lines = lines_vec(&["one", "", "three", "4 4"]);
    let input = Input::from_lines(&lines);
    assert_eq!(input.as_lines(), lines);
}
