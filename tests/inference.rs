use furnace::{infer_schema, JsonNumber, JsonValue};

fn s(x: &str) -> JsonValue {
    JsonValue::String(x.to_string())
}

fn n(x: u64) -> JsonValue {
    JsonValue::Number(JsonNumber::PosInt(x))
}

fn obj(members: Vec<(&str, JsonValue)>) -> JsonValue {
    JsonValue::Object(members.into_iter().map(|(k, v)| (k.to_string(), v)).collect())
}

fn get<'a>(v: &'a JsonValue, key: &str) -> Option<&'a JsonValue> {
    match v {
        JsonValue::Object(m) => m.iter().find(|(k, _)| k == key).map(|(_, v)| v),
        _ => None,
    }
}

fn as_str(v: Option<&JsonValue>) -> Option<&str> {
    match v {
        Some(JsonValue::String(t)) => Some(t.as_str()),
        _ => None,
    }
}

#[test]
fn schema_inference_test_simple_object() {
    let example = obj(vec![("name", s("Alice")), ("age", n(30))]);
    let schema = infer_schema(&vec![example]);
    assert_eq!(as_str(get(&schema, "type")), Some("object"));
    assert!(get(&schema, "properties").is_some());
}

#[test]
fn schema_inference_test_array_schema() {
    let example = JsonValue::Array(vec![n(1), n(2), n(3)]);
    let schema = infer_schema(&vec![example]);
    assert_eq!(as_str(get(&schema, "type")), Some("array"));
}

#[test]
fn test_merge_types() {
    let examples = vec![obj(vec![("name", s("Alice")), ("age", n(30))]), obj(vec![("name", s("Bob"))])];
    let schema = infer_schema(&examples);
    if let Some(JsonValue::Array(req_vec)) = get(&schema, "required") {
        assert_eq!(req_vec.len(), 1);
    }
    assert_eq!(get(&schema, "required"), Some(&JsonValue::Array(vec![s("name")])));
}

#[test]
fn merging_examples_by_kind() {
    assert_eq!(infer_schema(&vec![]), obj(vec![("type", s("object")), ("properties", obj(vec![]))]));
    let mixed = infer_schema(&vec![n(1), s("a")]);
    assert_eq!(
        mixed,
        obj(vec![(
            "anyOf",
            JsonValue::Array(vec![obj(vec![("type", s("integer"))]), obj(vec![("type", s("string"))])])
        )])
    );
    let flags = infer_schema(&vec![JsonValue::Bool(true), JsonValue::Null]);
    assert_eq!(flags, obj(vec![("type", JsonValue::Array(vec![s("boolean"), s("null")]))]));
    let emails = infer_schema(&vec![s("a@example.com"), s("plain"), s("b@example.org")]);
    assert_eq!(emails, obj(vec![("type", s("string")), ("format", s("email"))]));
    let nested = infer_schema(&vec![JsonValue::Array(vec![obj(vec![("id", n(1))]), obj(vec![("id", n(2)), ("x", n(3))])])]);
    let items = get(&nested, "items").unwrap();
    assert_eq!(get(items, "required"), Some(&JsonValue::Array(vec![s("id")])));
}
