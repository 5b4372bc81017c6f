use json_type_parser::ast::JSONError;
use json_type_parser::pipeline::{infer_type, Diagnostic};
use json_type_parser::scanner::{scan, ScannerError};
use json_type_parser::token::Position;

#[test]
fn array_of_scalars_lists_types_in_order() {
    let (signatures, diagnostics) = infer_type("[1, \"a\", true, 2.5, false]");
    assert!(diagnostics.is_empty());
    assert_eq!(signatures, vec!["Array<number | string | boolean | number | boolean>".to_string()]);
}

#[test]
fn empty_array_signature() {
    let (signatures, diagnostics) = infer_type("[]");
    assert!(diagnostics.is_empty());
    assert_eq!(signatures, vec!["Array<>".to_string()]);
}

#[test]
fn object_keys_appear_once_each_in_order() {
    let (signatures, diagnostics) = infer_type("{\"a\": 1, \"b\": \"x\", \"c\": true}");
    assert!(diagnostics.is_empty());
    assert_eq!(signatures, vec!["{{ a : number; b : string; c : boolean; }}".to_string()]);
    let text = &signatures[0];
    assert_eq!(text.matches("a : ").count(), 1);
    assert_eq!(text.matches("b : ").count(), 1);
    assert_eq!(text.matches("c : ").count(), 1);
}

#[test]
fn nested_object_signature_is_balanced() {
    let (signatures, diagnostics) = infer_type("{\"user\": {\"age\": 12}}");
    assert!(diagnostics.is_empty());
    assert_eq!(signatures, vec!["{{ user : {{ age : number; }}; }}".to_string()]);
}

#[test]
fn diagnostics_list_lexical_then_structural_errors() {
    let (signatures, diagnostics) = infer_type("\"Tev\n[20, 21");
    assert!(signatures.is_empty());
    assert_eq!(
        diagnostics,
        vec![
            Diagnostic::Scan(ScannerError::MissingStringTerminator(Position { line: 1, column: 5 })),
            Diagnostic::Parse(JSONError::UnterminatedArray),
        ]
    );
}

#[test]
fn multi_line_document() {
    let source = "\n        {\n            \"accounts\": [\n                {\n                    \"id\": 35,\n                    \"name\": \"Personal\"\n                }\n            ]\n        }\n        ";
    let (signatures, diagnostics) = infer_type(source);
    assert!(diagnostics.is_empty());
    assert_eq!(signatures, vec!["{{ accounts : Array<{{ id : number; name : string; }}>; }}".to_string()]);
}

#[test]
fn array_signature_does_not_depend_on_spacing() {
    for source in ["[1,\"a\"]", "[ 1 ,\n \"a\" ]", "[\n1\n,\n\"a\"\n]"] {
        let (signatures, diagnostics) = infer_type(source);
        assert!(diagnostics.is_empty());
        assert_eq!(signatures, vec!["Array<number | string>".to_string()]);
    }
}

#[test]
fn object_signature_does_not_depend_on_spacing() {
    for source in ["{\"a\":1,\"b\":true}", "{\n  \"a\" : 1 ,\n  \"b\":\ttrue\n}"] {
        let (signatures, diagnostics) = infer_type(source);
        assert!(diagnostics.is_empty());
        assert_eq!(signatures, vec!["{{ a : number; b : boolean; }}".to_string()]);
    }
}

#[test]
fn later_lines_scan_as_if_alone_moved_down() {
    let (alone, _) = scan("[ \"x\"");
    let (joined, errors) = scan("\"Tev\n[ \"x\"");
    assert_eq!(errors, vec![ScannerError::MissingStringTerminator(Position { line: 1, column: 5 })]);
    assert_eq!(joined.len(), alone.len() + 1);
    for (a, j) in alone.iter().zip(joined[1..].iter()) {
        assert_eq!(a.token, j.token);
        assert_eq!(a.lexeme, j.lexeme);
        assert_eq!(j.position, Position { line: a.position.line + 1, column: a.position.column });
    }
}
