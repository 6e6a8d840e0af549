use ore_board::{parse_output, read, read_char, Action, Input};

fn empty_input() -> Input {
    Input { N: 0, M: 0, cs: Vec::new() }
}

fn parsed(text: &str) -> Result<Vec<Action>, String> {
    parse_output(&empty_input(), text).map(|o| o.out)
}

#[test]
fn reads_each_action_kind() {
    assert_eq!(
        parsed("1 U\n2 D\n3 L\n1 R\n"),
        Ok(vec![Action::Move(0), Action::Carry(1), Action::Roll(2), Action::Move(3)])
    );
}

#[test]
fn empty_answer_has_no_actions() {
    assert_eq!(parsed(""), Ok(vec![]));
    assert_eq!(parsed("  \n\t "), Ok(vec![]));
}

#[test]
fn signs_and_leading_zeros_are_numbers() {
    assert_eq!(parsed("+2 R 003 U"), Ok(vec![Action::Carry(3), Action::Roll(0)]));
}

#[test]
fn unicode_white_space_separates_tokens() {
    assert_eq!(parsed("1\u{3000}U\u{a0}2\u{2028}D"), Ok(vec![Action::Move(0), Action::Carry(1)]));
}

#[test]
fn kind_out_of_range() {
    assert_eq!(parsed("4 U"), Err("Out of range: 4".to_string()));
    assert_eq!(parsed("0 U"), Err("Out of range: 0".to_string()));
    assert_eq!(parsed("-0 U"), Err("Out of range: 0".to_string()));
    assert_eq!(parsed("-17 U"), Err("Out of range: -17".to_string()));
    assert_eq!(parsed("-2147483648 U"), Err("Out of range: -2147483648".to_string()));
}

#[test]
fn kind_that_is_no_number() {
    assert_eq!(parsed("x U"), Err("Parse error: x".to_string()));
    assert_eq!(parsed("+ U"), Err("Parse error: +".to_string()));
    assert_eq!(parsed("2147483648 U"), Err("Parse error: 2147483648".to_string()));
    assert_eq!(parsed("1.0 U"), Err("Parse error: 1.0".to_string()));
}

#[test]
fn missing_direction() {
    assert_eq!(parsed("1 U 2"), Err("Unexpected EOF".to_string()));
}

#[test]
fn direction_of_several_characters() {
    assert_eq!(parsed("1 UD"), Err("Parse error: UD".to_string()));
}

#[test]
fn direction_that_is_no_capital() {
    assert_eq!(parsed("1 u"), Err("Out of range: u".to_string()));
}

#[test]
fn capital_that_is_no_direction() {
    assert_eq!(parsed("1 X"), Err("Invalid direction: X".to_string()));
}

#[test]
fn first_error_wins() {
    assert_eq!(parsed("1 X 9 U"), Err("Invalid direction: X".to_string()));
    assert_eq!(parsed("9 U 1 X"), Err("Out of range: 9".to_string()));
}

#[test]
fn at_most_ten_thousand_actions() {
    let ok = "1 U\n".repeat(10000);
    assert_eq!(parsed(&ok).map(|v| v.len()), Ok(10000));
    let too_many = "1 U\n".repeat(10001);
    assert_eq!(parsed(&too_many), Err("Too many actions".to_string()));
}

#[test]
fn token_errors_come_before_the_length_check() {
    let text = format!("{}9 U", "1 U\n".repeat(10001));
    assert_eq!(parsed(&text), Err("Out of range: 9".to_string()));
}

#[test]
fn read_reports_each_failure() {
    assert_eq!(read(Some("3"), 1, 3), Ok(3));
    assert_eq!(read(Some("+1"), 1, 3), Ok(1));
    assert_eq!(read(None, 1, 3), Err("Unexpected EOF".to_string()));
    assert_eq!(read(Some("abc"), 1, 3), Err("Parse error: abc".to_string()));
    assert_eq!(read(Some("12"), 1, 3), Err("Out of range: 12".to_string()));
    assert_eq!(read(Some("-2147483649"), -5, 5), Err("Parse error: -2147483649".to_string()));
}

#[test]
fn read_char_reports_each_failure() {
    assert_eq!(read_char(Some("Q"), 'A', 'Z'), Ok('Q'));
    assert_eq!(read_char(None, 'A', 'Z'), Err("Unexpected EOF".to_string()));
    assert_eq!(read_char(Some(""), 'A', 'Z'), Err("Parse error: ".to_string()));
    assert_eq!(read_char(Some("AB"), 'A', 'Z'), Err("Parse error: AB".to_string()));
    assert_eq!(read_char(Some("é"), 'A', 'Z'), Err("Out of range: é".to_string()));
}
