use json_type_parser::ast::{ArrayType, ObjectType, JSON};
use json_type_parser::interpreter::{render, Interpreter};

#[test]
fn test_int_json() {
    let json_value = JSON::NumberType;
    let result = render(&json_value);
    assert_eq!("number".to_string(), result)
}

#[test]
fn test_string_json() {
    let json_value = JSON::StringType("output".to_string());
    let result = render(&json_value);
    assert_eq!("string".to_string(), result)
}

#[test]
fn test_array_json() {
    let body = vec![JSON::StringType("a".to_string()), JSON::NumberType];
    let array = ArrayType { body };
    let json_value = JSON::Array(array);
    let result = render(&json_value);
    assert_eq!("Array<string | number>".to_string(), result)
}

#[test]
fn test_single_array_element() {
    let body = vec![JSON::StringType("a".to_string())];
    let array = ArrayType { body };
    let json_value = JSON::Array(array);
    let result = render(&json_value);
    assert_eq!("Array<string>".to_string(), result)
}

#[test]
fn test_empty_array() {
    let body = vec![];
    let array = ArrayType { body };
    let json_value = JSON::Array(array);
    let result = render(&json_value);
    assert_eq!("Array<>".to_string(), result)
}

#[test]
fn test_object_with_single_property() {
    let body = vec![JSON::StringType("passed".to_string()), JSON::Colon, JSON::Bool];
    let object = ObjectType { body };
    let json_value = JSON::Object(object);
    let result = render(&json_value);
    assert_eq!("{{ passed : boolean; }}".to_string(), result)
}

#[test]
fn test_object_with_multiple_properties() {
    let photos_array = JSON::Array(ArrayType { body: vec![JSON::StringType("p".to_string())] });
    let body = vec![
        JSON::StringType("passed".to_string()),
        JSON::Colon,
        JSON::Bool,
        JSON::StringType("age".to_string()),
        JSON::Colon,
        JSON::NumberType,
        JSON::StringType("photos".to_string()),
        JSON::Colon,
        photos_array,
    ];
    let object = ObjectType { body };
    let json_value = JSON::Object(object);
    let result = render(&json_value);

    assert!(result.contains("passed : boolean;"));
    assert!(result.contains("photos : Array<string>;"));
    assert!(result.contains("age : number;"));
}

#[test]
fn render_twice_gives_the_same_text() {
    let json_value = JSON::Object(ObjectType {
        body: vec![
            JSON::StringType("tags".to_string()),
            JSON::Colon,
            JSON::Array(ArrayType { body: vec![JSON::StringType("x".to_string()), JSON::Bool] }),
        ],
    });
    let first = render(&json_value);
    let second = render(&json_value);
    assert_eq!(first, second);
    assert_eq!(first, "{{ tags : Array<string | boolean>; }}");
}

#[test]
fn run_goes_through_the_trait() {
    let array = ArrayType { body: vec![JSON::NumberType, JSON::Bool] };
    assert_eq!(array.run(), "Array<number | boolean>");
    let object = ObjectType { body: vec![JSON::StringType("k".to_string()), JSON::Colon, JSON::NumberType] };
    assert_eq!(object.run(), "{{ k : number; }}");
    assert_eq!(JSON::Bool.run(), "boolean");
}

#[test]
fn markers_render_as_nothing() {
    assert_eq!(render(&JSON::Colon), "");
    assert_eq!(render(&JSON::Error(json_type_parser::ast::JSONError::UnterminatedArray)), "");
}

#[test]
fn object_key_that_is_not_a_string_prints_its_type() {
    let object = JSON::Object(ObjectType {
        body: vec![JSON::NumberType, JSON::Colon, JSON::Bool, JSON::StringType("dangling".to_string())],
    });
    assert_eq!(render(&object), "{{ number : boolean; }}");
}
