use json_type_parser::scanner::{scan, scan_into_iterator, ScannerError};
use json_type_parser::token::{Position, Token};

#[test]
fn test_scanner_returns_missing_string_terminator_error_for_unterminated_string_value() {
    let json_string = r#"
        {
            "name": "Tev 
        }
        "#;
    let (_tokens, scanner_errors) = scan(&json_string);

    assert_eq!(scanner_errors.len(), 1);
    assert_eq!(
        vec![ScannerError::MissingStringTerminator(Position { column: 26, line: 3 })],
        scanner_errors
    )
}

#[test]
fn test_should_successfully_scan_and_produce_tokens_for_valid_json_without_error() {
    let json_string = r#"
        {
            "name": "Tev"
        }
        "#;
    let (_tokens, scanner_errors) = scan(&json_string);

    assert_eq!(scanner_errors.len(), 0);
}

#[test]
fn empty_input_gives_nothing() {
    let (tokens, errors) = scan("");
    assert!(tokens.is_empty());
    assert!(errors.is_empty());
}

#[test]
fn scanning_goes_on_after_an_unterminated_string() {
    let (tokens, errors) = scan("\"Tev\n12");
    assert_eq!(errors, vec![ScannerError::MissingStringTerminator(Position { line: 1, column: 5 })]);
    let kinds: Vec<Token> = tokens.into_iter().map(|t| t.token).collect();
    assert_eq!(kinds, vec![Token::NextLine, Token::DigitLiteral("12".to_string())]);
}

#[test]
fn tokens_carry_lexeme_and_position() {
    let (tokens, errors) = scan("{\"ab\": 1.5,\n true}");
    assert!(errors.is_empty());
    let kinds: Vec<Token> = tokens.iter().map(|t| t.token.clone()).collect();
    assert_eq!(
        kinds,
        vec![
            Token::LeftBrace,
            Token::StringLiteral("ab".to_string()),
            Token::Colon,
            Token::DigitLiteral("1.5".to_string()),
            Token::Comma,
            Token::NextLine,
            Token::True,
            Token::RightBrace,
        ]
    );
    assert_eq!(tokens[1].lexeme, "\"ab\"");
    assert_eq!(tokens[1].position, Position { line: 1, column: 2 });
    assert_eq!(tokens[6].lexeme, "true");
    assert_eq!(tokens[6].position, Position { line: 2, column: 2 });
}

#[test]
fn whitespace_is_kept_by_the_raw_scan_only() {
    let raw = scan_into_iterator("[ 1]");
    assert_eq!(raw.len(), 4);
    assert_eq!(raw[1].as_ref().unwrap().token, Token::Whitespace);
    let (tokens, _) = scan("[ 1]");
    assert_eq!(tokens.len(), 3);
}

#[test]
fn unknown_word_and_unexpected_character_are_errors() {
    let (tokens, errors) = scan("nul -");
    assert!(tokens.is_empty());
    assert_eq!(
        errors,
        vec![
            ScannerError::UnknownIdentifier(Position { line: 1, column: 1 }),
            ScannerError::UnexpectedCharacter(Position { line: 1, column: 5 }),
        ]
    );
    let (tokens, errors) = scan("false");
    assert!(errors.is_empty());
    assert_eq!(tokens[0].token, Token::False);
}
