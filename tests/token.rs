use json_type_parser::token::{
    is_alpha, is_alphanumeric, is_digit, is_nextline, is_part_of_digit, is_part_of_identifier,
    is_part_of_string, is_whitespace, Position,
};

#[test]
fn character_classes() {
    assert!(is_digit('7') && !is_digit('a'));
    assert!(is_alpha('q') && is_alpha('Q') && is_alpha('.') && !is_alpha('1'));
    assert!(is_alphanumeric('1') && is_alphanumeric('z') && !is_alphanumeric('-'));
    assert!(is_nextline('\n') && !is_nextline(' '));
    assert!(is_whitespace(' ') && is_whitespace('\t') && is_whitespace('\r') && !is_whitespace('\n'));
    assert!(is_part_of_identifier('x') && !is_part_of_identifier('.'));
    assert!(is_part_of_digit('.') && is_part_of_digit('3') && !is_part_of_digit(']'));
    assert!(is_part_of_string('a') && !is_part_of_string('"'));
}

#[test]
fn position_moves() {
    let mut p = Position::initial();
    assert_eq!(p, Position { line: 1, column: 1 });
    p.increment_column();
    p.increment_column();
    assert_eq!(p, Position { line: 1, column: 3 });
    p.increment_line();
    assert_eq!(p, Position { line: 2, column: 1 });
}
