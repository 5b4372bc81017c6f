use json_type_parser::ast::{ArrayType, JSONError, ObjectType, JSON};
use json_type_parser::parser::{over_array, over_object, parse};
use json_type_parser::scanner;
use json_type_parser::token::Position;

fn text(s: &str) -> JSON {
    JSON::StringType(s.to_string())
}

#[test]
fn test_can_parse_number_type() {
    let source = r#"12"#;
    let (scanned_output, _errors) = scanner::scan(source);

    let (parsed_results, _errors) = parse(&scanned_output);
    assert_eq!(parsed_results, vec![JSON::NumberType])
}

#[test]
fn test_can_parse_string_type() {
    let source = r#""output""#;
    let (scanned_output, _errors) = scanner::scan(source);
    let (parsed_results, _errors) = parse(&scanned_output);
    assert_eq!(parsed_results, vec![text("output")])
}

#[test]
fn test_can_parse_boolean_type() {
    let source = r#"true"#;
    let (scanned_output, _errors) = scanner::scan(source);
    let (parsed_results, _errors) = parse(&scanned_output);
    assert_eq!(parsed_results, vec![JSON::Bool]);

    let source = r#"false"#;
    let (scanned_output, _errors) = scanner::scan(source);
    let (parsed_results, _errors) = parse(&scanned_output);
    assert_eq!(parsed_results, vec![JSON::Bool])
}

#[test]
fn test_can_parse_boolean_array_type() {
    let source = r#"[true, false]"#;
    let (scanned_output, _errors) = scanner::scan(source);
    let (parsed_results, _errors) = parse(&scanned_output);
    let array_body = ArrayType { body: vec![JSON::Bool, JSON::Bool] };
    let json_array = vec![JSON::Array(array_body)];

    assert_eq!(parsed_results, json_array)
}

#[test]
fn test_can_parse_string_array_type() {
    let source = r#"["tev", "codes"]"#;
    let (scanned_output, _errors) = scanner::scan(source);
    let (parsed_results, _errors) = parse(&scanned_output);
    let array_body = ArrayType { body: vec![text("tev"), text("codes")] };
    let json_array = vec![JSON::Array(array_body)];
    assert_eq!(parsed_results, json_array)
}

#[test]
fn test_can_parse_integer_array_type() {
    let source = r#"[20, 21]"#;
    let (scanned_output, _errors) = scanner::scan(source);
    let (parsed_results, _errors) = parse(&scanned_output);
    let array_body = ArrayType { body: vec![JSON::NumberType, JSON::NumberType] };
    let json_array = vec![JSON::Array(array_body)];
    assert_eq!(parsed_results, json_array)
}

#[test]
fn test_can_capture_unterminated_array() {
    let source = r#"[20, 21"#;
    let (scanned_output, _errors) = scanner::scan(source);
    let (_parsed_results, errors) = parse(&scanned_output);
    assert_eq!(errors.len(), 1);
    let error = JSONError::UnterminatedArray;
    assert_eq!(errors, vec![error])
}

#[test]
fn unterminated_array_yields_no_array_node() {
    let (scanned_output, _errors) = scanner::scan("[20, 21");
    let (parsed_results, errors) = parse(&scanned_output);
    assert!(parsed_results.is_empty());
    assert_eq!(errors, vec![JSONError::UnterminatedArray]);
}

#[test]
fn test_can_parse_object() {
    let source = r#"{"name": "12"}"#;
    let (scanned_output, _errors) = scanner::scan(source);
    let (parsed_results, _errors) = parse(&scanned_output);
    let object_type = ObjectType { body: vec![text("name"), JSON::Colon, text("12")] };
    let json_object = vec![JSON::Object(object_type)];

    assert_eq!(parsed_results, json_object)
}

#[test]
fn test_can_capture_unterminated_object() {
    let source = r#"{"name": "12""#;
    let (scanned_output, _errors) = scanner::scan(source);
    let (_parsed_results, errors) = parse(&scanned_output);
    assert_eq!(errors.len(), 1);
    let error = JSONError::UnterminatedObject;
    assert_eq!(errors, vec![error])
}

#[test]
fn test_can_capture_nested_object() {
    let source = r#"{"user": { "age": 12 } }"#;
    let (scanned_output, _errors) = scanner::scan(source);
    let inner_object = ObjectType { body: vec![text("age"), JSON::Colon, JSON::NumberType] };
    let object_type =
        ObjectType { body: vec![text("user"), JSON::Colon, JSON::Object(inner_object)] };
    let result = vec![JSON::Object(object_type)];
    let (parsed_results, _errors) = parse(&scanned_output);
    assert_eq!(result, parsed_results)
}

#[test]
fn test_can_capture_more_deeply_nested_object() {
    let source = r#"{"user": { "age": 12 }, "company": "Apple" }"#;
    let (scanned_output, _errors) = scanner::scan(source);
    let inner_object = ObjectType { body: vec![text("age"), JSON::Colon, JSON::NumberType] };
    let object_type = ObjectType {
        body: vec![
            text("user"),
            JSON::Colon,
            JSON::Object(inner_object),
            text("company"),
            JSON::Colon,
            text("Apple"),
        ],
    };
    let result = vec![JSON::Object(object_type)];
    let (parsed_results, _errors) = parse(&scanned_output);
    assert_eq!(result, parsed_results)
}

#[test]
fn sibling_before_an_unterminated_array_survives() {
    let (tokens, _) = scanner::scan("12\n[1, 2");
    let (results, errors) = parse(&tokens);
    assert_eq!(results, vec![JSON::NumberType]);
    assert_eq!(errors, vec![JSONError::UnterminatedArray]);
}

#[test]
fn stray_closing_token_is_an_error_not_a_node() {
    let (tokens, _) = scanner::scan("]\ntrue");
    let (results, errors) = parse(&tokens);
    assert_eq!(results, vec![JSON::Bool]);
    assert_eq!(errors, vec![JSONError::UnexpectedToken(Position { line: 1, column: 1 })]);
}

#[test]
fn mismatched_closer_inside_an_array_is_reported() {
    let (tokens, _) = scanner::scan("[1}");
    let (results, errors) = parse(&tokens);
    assert!(results.is_empty());
    assert_eq!(errors, vec![JSONError::UnexpectedToken(Position { line: 1, column: 3 })]);
}

#[test]
fn nested_object_renders_with_balanced_braces() {
    let (tokens, scan_errors) = scanner::scan(r#"{"user": {"age": 12}}"#);
    assert!(scan_errors.is_empty());
    let (results, errors) = parse(&tokens);
    assert!(errors.is_empty());
    let inner = ObjectType { body: vec![text("age"), JSON::Colon, JSON::NumberType] };
    let outer = ObjectType { body: vec![text("user"), JSON::Colon, JSON::Object(inner)] };
    assert_eq!(results, vec![JSON::Object(outer)]);
    assert_eq!(
        json_type_parser::interpreter::render(&results[0]),
        "{{ user : {{ age : number; }}; }}"
    );
}

#[test]
fn empty_array_and_nested_arrays() {
    let (tokens, _) = scanner::scan("[[], [1, \"a\"]]");
    let (results, errors) = parse(&tokens);
    assert!(errors.is_empty());
    let expected = JSON::Array(ArrayType {
        body: vec![
            JSON::Array(ArrayType { body: vec![] }),
            JSON::Array(ArrayType { body: vec![JSON::NumberType, text("a")] }),
        ],
    });
    assert_eq!(results, vec![expected]);
    assert_eq!(json_type_parser::interpreter::render(&results[0]), "Array<Array<> | Array<number | string>>");
}

#[test]
fn duplicate_keys_are_both_kept() {
    let (tokens, _) = scanner::scan(r#"{"a": 1, "a": true}"#);
    let (results, _) = parse(&tokens);
    assert_eq!(json_type_parser::interpreter::render(&results[0]), "{{ a : number; a : boolean; }}");
}

#[test]
fn nesting_beyond_the_limit_is_an_error() {
    let source = "[".repeat(300);
    let (tokens, _) = scanner::scan(&source);
    let (results, errors) = parse(&tokens);
    assert!(results.is_empty());
    assert_eq!(errors, vec![JSONError::TooDeeplyNested(Position { line: 1, column: 257 })]);
}

#[test]
fn nesting_up_to_the_limit_is_parsed() {
    let source = format!("{}{}", "[".repeat(256), "]".repeat(256));
    let (tokens, _) = scanner::scan(&source);
    let (results, errors) = parse(&tokens);
    assert!(errors.is_empty());
    assert_eq!(results.len(), 1);
    let mut expected = JSON::Array(ArrayType { body: vec![] });
    for _ in 1..256 {
        expected = JSON::Array(ArrayType { body: vec![expected] });
    }
    assert_eq!(results[0], expected);
}

#[test]
fn over_array_and_over_object_read_a_body() {
    let (tokens, _) = scanner::scan("1, true]");
    let mut cursor: usize = 0;
    let node = over_array(&tokens, &mut cursor);
    assert_eq!(node, JSON::Array(ArrayType { body: vec![JSON::NumberType, JSON::Bool] }));
    assert_eq!(cursor, tokens.len());
    let (tokens, _) = scanner::scan("\"k\": 1}, 2");
    let mut cursor: usize = 0;
    let node = over_object(&tokens, &mut cursor);
    assert_eq!(node, JSON::Object(ObjectType { body: vec![text("k"), JSON::Colon, JSON::NumberType] }));
    assert_eq!(cursor, 5);
}

#[test]
fn closing_token_takes_only_a_separator_along() {
    let (tokens, _) = scanner::scan("[[1] 2]");
    let (results, errors) = parse(&tokens);
    assert!(errors.is_empty());
    let inner = JSON::Array(ArrayType { body: vec![JSON::NumberType] });
    assert_eq!(results, vec![JSON::Array(ArrayType { body: vec![inner, JSON::NumberType] })]);
}

#[test]
fn unclosed_sibling_after_a_closed_array_keeps_its_error() {
    let (tokens, _) = scanner::scan("[1] [20, 21");
    let (results, errors) = parse(&tokens);
    assert_eq!(results, vec![JSON::Array(ArrayType { body: vec![JSON::NumberType] })]);
    assert_eq!(errors, vec![JSONError::UnterminatedArray]);
}

#[test]
fn unclosed_container_reports_its_own_error_over_an_inner_one() {
    let (tokens, _) = scanner::scan("[{");
    let (results, errors) = parse(&tokens);
    assert!(results.is_empty());
    assert_eq!(errors, vec![JSONError::UnterminatedArray]);

    let (tokens, _) = scanner::scan("{\"a\": [1");
    let (_, errors) = parse(&tokens);
    assert_eq!(errors, vec![JSONError::UnterminatedObject]);

    let (tokens, _) = scanner::scan("\"a\" [{\"b\": 1");
    let (results, errors) = parse(&tokens);
    assert_eq!(results, vec![text("a")]);
    assert_eq!(errors, vec![JSONError::UnterminatedArray]);
}

#[test]
fn over_array_and_over_object_report_their_own_error() {
    let (tokens, _) = scanner::scan("{");
    let mut cursor: usize = 0;
    assert_eq!(over_array(&tokens, &mut cursor), JSON::Error(JSONError::UnterminatedArray));
    assert_eq!(cursor, tokens.len());
    let (tokens, _) = scanner::scan("[");
    let mut cursor: usize = 0;
    assert_eq!(over_object(&tokens, &mut cursor), JSON::Error(JSONError::UnterminatedObject));
    assert_eq!(cursor, tokens.len());
}
