use furnace::{infer_schema_streaming, JsonNumber, JsonValue, SchemaBuilder};

fn s(x: &str) -> JsonValue {
    JsonValue::String(x.to_string())
}

fn n(x: u64) -> JsonValue {
    JsonValue::Number(JsonNumber::PosInt(x))
}

fn obj(members: Vec<(&str, JsonValue)>) -> JsonValue {
    JsonValue::Object(members.into_iter().map(|(k, v)| (k.to_string(), v)).collect())
}

fn get<'a>(v: &'a JsonValue, key: &str) -> Option<&'a JsonValue> {
    match v {
        JsonValue::Object(m) => m.iter().find(|(k, _)| k == key).map(|(_, v)| v),
        _ => None,
    }
}

fn as_str(v: Option<&JsonValue>) -> Option<&str> {
    match v {
        Some(JsonValue::String(t)) => Some(t.as_str()),
        _ => None,
    }
}

fn as_array(v: Option<&JsonValue>) -> Option<&Vec<JsonValue>> {
    match v {
        Some(JsonValue::Array(a)) => Some(a),
        _ => None,
    }
}

fn build(values: Vec<JsonValue>) -> JsonValue {
    let mut builder = SchemaBuilder::new();
    for v in &values {
        builder.add_value(v);
    }
    builder.build()
}

#[test]
fn test_empty_builder() {
    let builder = SchemaBuilder::new();
    let schema = builder.build();
    assert_eq!(schema, JsonValue::Object(vec![]));
}

#[test]
fn test_simple_string() {
    let schema = build(vec![s("hello"), s("world")]);
    assert_eq!(as_str(get(&schema, "type")), Some("string"));
}

#[test]
fn test_simple_number() {
    let schema = build(vec![n(42), n(100)]);
    assert_eq!(as_str(get(&schema, "type")), Some("integer"));
}

#[test]
fn builder_test_simple_object() {
    let schema = build(vec![
        obj(vec![("name", s("Alice")), ("age", n(30))]),
        obj(vec![("name", s("Bob")), ("age", n(25))]),
    ]);
    assert_eq!(as_str(get(&schema, "type")), Some("object"));
    let properties = get(&schema, "properties").unwrap();
    assert!(get(properties, "name").is_some());
    assert!(get(properties, "age").is_some());
    let required = as_array(get(&schema, "required")).unwrap();
    assert_eq!(required.len(), 2);
}

#[test]
fn test_optional_fields() {
    let schema = build(vec![obj(vec![("name", s("Alice")), ("age", n(30))]), obj(vec![("name", s("Bob"))])]);
    let required = as_array(get(&schema, "required")).unwrap();
    assert_eq!(required.len(), 1);
    assert_eq!(required[0], s("name"));
}

#[test]
fn builder_test_array_schema() {
    let schema = build(vec![JsonValue::Array(vec![n(1), n(2), n(3)]), JsonValue::Array(vec![n(4), n(5)])]);
    assert_eq!(as_str(get(&schema, "type")), Some("array"));
    let items = get(&schema, "items").unwrap();
    assert_eq!(as_str(get(items, "type")), Some("integer"));
}

#[test]
fn test_nullable_field() {
    let schema = build(vec![s("hello"), JsonValue::Null]);
    let types = as_array(get(&schema, "type")).unwrap();
    assert_eq!(types.len(), 2);
    assert!(types.contains(&s("string")));
    assert!(types.contains(&s("null")));
}

#[test]
fn test_format_detection_email() {
    let schema = build(vec![s("test@example.com"), s("another@test.org")]);
    assert_eq!(as_str(get(&schema, "format")), Some("email"));
}

#[test]
fn test_format_detection_uuid() {
    let schema = build(vec![s("550e8400-e29b-41d4-a716-446655440000")]);
    assert_eq!(as_str(get(&schema, "format")), Some("uuid"));
}

#[test]
fn test_format_detection_date() {
    let schema = build(vec![s("2021-01-01"), s("2021-12-31")]);
    assert_eq!(as_str(get(&schema, "format")), Some("date"));
}

#[test]
fn test_nested_objects() {
    let schema = build(vec![
        obj(vec![("user", obj(vec![("name", s("Alice")), ("email", s("alice@example.com"))]))]),
        obj(vec![("user", obj(vec![("name", s("Bob")), ("email", s("bob@example.com"))]))]),
    ]);
    let properties = get(&schema, "properties").unwrap();
    let user_schema = get(properties, "user").unwrap();
    assert_eq!(as_str(get(user_schema, "type")), Some("object"));
    let user_props = get(user_schema, "properties").unwrap();
    assert!(get(user_props, "name").is_some());
    assert!(get(user_props, "email").is_some());
}

#[test]
fn test_array_of_objects() {
    let schema = build(vec![JsonValue::Array(vec![
        obj(vec![("id", n(1)), ("name", s("Alice"))]),
        obj(vec![("id", n(2)), ("name", s("Bob"))]),
    ])]);
    assert_eq!(as_str(get(&schema, "type")), Some("array"));
    let items = get(&schema, "items").unwrap();
    assert_eq!(as_str(get(items, "type")), Some("object"));
    let item_props = get(items, "properties").unwrap();
    assert!(get(item_props, "id").is_some());
    assert!(get(item_props, "name").is_some());
}

#[test]
fn test_streaming_function() {
    let examples = vec![
        obj(vec![("name", s("Alice")), ("age", n(30))]),
        obj(vec![("name", s("Bob")), ("age", n(25))]),
    ];
    let schema = infer_schema_streaming(&examples);
    assert_eq!(as_str(get(&schema, "type")), Some("object"));
}

#[test]
fn scenario_email_consensus() {
    let agreed = build(vec![s("alice@example.com"), s("bob@test.org")]);
    assert_eq!(agreed, obj(vec![("type", s("string")), ("format", s("email"))]));
    let mixed = build(vec![s("alice@example.com"), s("not-an-email")]);
    assert_eq!(mixed, obj(vec![("type", s("string"))]));
}

#[test]
fn scenario_nullable_string() {
    let schema = build(vec![s("hello"), JsonValue::Null, s("world")]);
    assert_eq!(schema, obj(vec![("type", JsonValue::Array(vec![s("string"), s("null")]))]));
}

#[test]
fn mixed_kinds_give_a_sorted_type_list() {
    let schema = build(vec![s("a"), n(1), JsonValue::Bool(true), JsonValue::Null]);
    assert_eq!(
        schema,
        obj(vec![("type", JsonValue::Array(vec![s("boolean"), s("integer"), s("null"), s("string")]))])
    );
    let big = build(vec![JsonValue::Number(JsonNumber::PosInt(u64::MAX))]);
    assert_eq!(as_str(get(&big, "type")), Some("number"));
}

#[test]
fn required_is_sorted_and_order_independent() {
    let a = build(vec![obj(vec![("b", n(1)), ("a", n(2)), ("c", n(3))]), obj(vec![("c", n(1)), ("b", n(2))])]);
    let b = build(vec![obj(vec![("c", n(1)), ("b", n(2))]), obj(vec![("b", n(1)), ("a", n(2)), ("c", n(3))])]);
    assert_eq!(get(&a, "required"), Some(&JsonValue::Array(vec![s("b"), s("c")])));
    assert_eq!(get(&a, "required"), get(&b, "required"));
}

#[test]
fn empty_arrays_give_no_items() {
    let schema = build(vec![JsonValue::Array(vec![])]);
    assert_eq!(schema, obj(vec![("type", s("array"))]));
}
