use outlines_core::json::JsonValue;
use outlines_core::schema::{build_regex_from_schema, to_regex, SchemaError, INTEGER, STRING, UUID, WHITESPACE};
use regex::Regex;

fn full_match(pattern: &str, text: &str) -> bool {
    Regex::new(&format!("^(?:{})$", pattern)).unwrap().is_match(text)
}

#[test]
fn integer_schema_scenario() {
    let pattern = build_regex_from_schema(r#"{"type": "integer"}"#, None).unwrap();
    assert_eq!(pattern, INTEGER);
    assert!(full_match(&pattern, "123"));
    assert!(full_match(&pattern, "-5"));
    assert!(!full_match(&pattern, "12.3"));
    assert!(!full_match(&pattern, "abc"));
}

#[test]
fn uuid_schema_scenario() {
    let pattern = build_regex_from_schema(r#"{"type": "string", "format": "uuid"}"#, None).unwrap();
    assert_eq!(pattern, UUID);
    assert!(full_match(&pattern, "\"123e4567-e89b-12d3-a456-426614174000\""));
    assert!(!full_match(&pattern, "\"123e4567e89b12d3a456426614174000\""));
    assert!(!full_match(&pattern, "\"123e4567-e89b-12d3-a456-42661417400g\""));
}

#[test]
fn plain_types() {
    assert_eq!(build_regex_from_schema(r#"{"type": "boolean"}"#, None).unwrap(), "(true|false)");
    assert_eq!(build_regex_from_schema(r#"{"type": "null"}"#, None).unwrap(), "null");
    assert_eq!(build_regex_from_schema(r#"{"type": "string"}"#, None).unwrap(), STRING);
    assert_eq!(WHITESPACE, "[ ]?");
}

#[test]
fn array_of_integers() {
    let pattern = build_regex_from_schema(r#"{"type": "array", "items": {"type": "integer"}}"#, None).unwrap();
    assert!(full_match(&pattern, "[1, 2,-3]"));
    assert!(full_match(&pattern, "[]"));
    assert!(!full_match(&pattern, "[1,,2]"));
}

#[test]
fn object_with_required_property() {
    let schema = r#"{"type": "object", "properties": {"name": {"type": "string"}, "age": {"type": "integer"}}, "required": ["name"]}"#;
    let pattern = build_regex_from_schema(schema, None).unwrap();
    assert!(full_match(&pattern, r#"{"name": "Ann", "age": 3}"#));
    assert!(full_match(&pattern, r#"{"name":"Ann"}"#));
    assert!(!full_match(&pattern, r#"{"age": 3}"#));
}

#[test]
fn object_without_required_properties() {
    let schema = r#"{"properties": {"a": {"type": "integer"}, "b": {"type": "boolean"}}}"#;
    let pattern = build_regex_from_schema(schema, Some("")).unwrap();
    assert!(full_match(&pattern, r#"{"a":1,"b":true}"#));
    assert!(full_match(&pattern, r#"{"b":false}"#));
    assert!(full_match(&pattern, r#"{}"#));
    assert!(!full_match(&pattern, r#"{"b":false,"a":1}"#));
}

#[test]
fn combinators() {
    let any = build_regex_from_schema(r#"{"anyOf": [{"type": "integer"}, {"type": "boolean"}]}"#, None).unwrap();
    assert_eq!(any, format!("({}|(true|false))", INTEGER));
    let one = build_regex_from_schema(r#"{"oneOf": [{"type": "null"}, {"type": "boolean"}]}"#, None).unwrap();
    assert_eq!(one, "((?:null)|(?:(true|false)))");
    let all = build_regex_from_schema(r#"{"allOf": [{"type": "null"}]}"#, None).unwrap();
    assert_eq!(all, "(null)");
}

#[test]
fn enum_and_const() {
    let e = build_regex_from_schema(r#"{"enum": ["a.b", 1, true, null]}"#, None).unwrap();
    assert_eq!(e, r#"("a\.b"|1|true|null)"#);
    let c = build_regex_from_schema(r#"{"const": "x+y"}"#, None).unwrap();
    assert_eq!(c, r#""x\+y""#);
    assert_eq!(build_regex_from_schema(r#"{"const": [1]}"#, None), Err(SchemaError::UnsupportedValue));
}

#[test]
fn errors() {
    assert_eq!(build_regex_from_schema("{", None), Err(SchemaError::InvalidJson));
    assert_eq!(build_regex_from_schema(r#"{"type": "color"}"#, None), Err(SchemaError::UnsupportedType));
    assert_eq!(
        build_regex_from_schema(r#"{"type": "string", "format": "email"}"#, None),
        Err(SchemaError::UnsupportedFormat)
    );
    assert_eq!(build_regex_from_schema(r#"{"title": "x"}"#, None), Err(SchemaError::UnsupportedSchema));
    assert_eq!(build_regex_from_schema(r#"{}"#, None), Err(SchemaError::UnsupportedSchema));
    assert_eq!(build_regex_from_schema(r#"{"type": "integer"}"#, Some("[ ")), Err(SchemaError::InvalidWhitespace));
    let mut deep = JsonValue::Object(vec![("type".to_string(), JsonValue::Str("integer".to_string()))]);
    for _ in 0..70 {
        deep = JsonValue::Object(vec![("anyOf".to_string(), JsonValue::Array(vec![deep]))]);
    }
    assert_eq!(to_regex(&deep, None, &JsonValue::Null), Err(SchemaError::TooDeep));
    assert_eq!(SchemaError::TooDeep.message(), "schema nests too deeply");
}

#[test]
fn to_regex_on_values() {
    let schema = JsonValue::Object(vec![("type".to_string(), JsonValue::Str("number".to_string()))]);
    let pattern = to_regex(&schema, Some(" *"), &schema).unwrap();
    assert!(full_match(&pattern, "-1.5e+3"));
    assert!(!full_match(&pattern, "1."));
}

#[test]
fn local_references() {
    let schema = r##"{"properties": {"a": {"$ref": "#/$defs/age"}}, "required": ["a"], "$defs": {"age": {"type": "integer"}}}"##;
    let pattern = build_regex_from_schema(schema, None).unwrap();
    assert_eq!(pattern, format!(r#"\{{[ ]?"a"[ ]?:[ ]?{}[ ]?\}}"#, INTEGER));
    assert!(full_match(&pattern, r#"{"a": 42}"#));
    let missing = r##"{"properties": {"a": {"$ref": "#/$defs/nothing"}}, "$defs": {}}"##;
    assert_eq!(build_regex_from_schema(missing, None), Err(SchemaError::InvalidReference));
    let external = r##"{"properties": {"a": {"$ref": "other.json#/x"}}}"##;
    assert_eq!(build_regex_from_schema(external, None), Err(SchemaError::InvalidReference));
}

#[test]
fn property_names_are_escaped() {
    let schema = r#"{"properties": {"a.b": {"type": "null"}}, "required": ["a.b"]}"#;
    let pattern = build_regex_from_schema(schema, Some("")).unwrap();
    assert_eq!(pattern, r#"\{"a\.b":null\}"#);
}

#[test]
fn list_of_types() {
    let pattern = build_regex_from_schema(r#"{"type": ["integer", "null"]}"#, None).unwrap();
    assert_eq!(pattern, format!("({}|null)", INTEGER));
    assert!(full_match(&pattern, "null"));
    assert!(full_match(&pattern, "7"));
    assert_eq!(build_regex_from_schema(r#"{"type": ["integer", 3]}"#, None), Err(SchemaError::UnsupportedType));
}

#[test]
fn object_with_additional_properties() {
    let schema = r#"{"type": "object", "additionalProperties": {"type": "integer"}}"#;
    let pattern = build_regex_from_schema(schema, None).unwrap();
    assert!(full_match(&pattern, r#"{"x": 1, "y":2}"#));
    assert!(full_match(&pattern, "{}"));
    assert!(!full_match(&pattern, r#"{"x": true}"#));
    assert_eq!(build_regex_from_schema(r#"{"type": "object"}"#, None), Err(SchemaError::UnsupportedSchema));
}
