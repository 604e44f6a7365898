use furnace::{ArrayType, FieldRule, JsonNumber, JsonValue, MeltConfig, MeltPlan};

fn s(x: &str) -> JsonValue {
    JsonValue::String(x.to_string())
}

fn n(x: u64) -> JsonValue {
    JsonValue::Number(JsonNumber::PosInt(x))
}

fn obj(members: Vec<(&str, JsonValue)>) -> JsonValue {
    JsonValue::Object(members.into_iter().map(|(k, v)| (k.to_string(), v)).collect())
}

fn has(names: &[String], name: &str) -> bool {
    names.iter().any(|x| x == name)
}

fn rule<'a>(rules: &'a [(String, FieldRule)], name: &str) -> Option<&'a FieldRule> {
    rules.iter().find(|(k, _)| k == name).map(|(_, r)| r)
}

#[test]
fn test_simple_plan_generation() {
    let examples = vec![
        obj(vec![("id", n(1)), ("name", s("Alice")), ("age", n(30))]),
        obj(vec![("id", n(2)), ("name", s("Bob")), ("age", n(25))]),
    ];
    let plan = MeltPlan::from_examples(&examples, MeltConfig::default());
    let root_plan = plan.get_plan(&"root".to_string()).unwrap();
    assert_eq!(root_plan.entity_type, "root");
    assert!(root_plan.has_id_field);
    assert!(has(&root_plan.scalar_fields, "name"));
    assert!(has(&root_plan.scalar_fields, "age"));
}

#[test]
fn test_nested_array_plan() {
    let examples = vec![obj(vec![
        ("id", n(1)),
        ("name", s("Alice")),
        (
            "posts",
            JsonValue::Array(vec![
                obj(vec![("id", n(10)), ("title", s("Post 1"))]),
                obj(vec![("id", n(11)), ("title", s("Post 2"))]),
            ]),
        ),
    ])];
    let plan = MeltPlan::from_examples(&examples, MeltConfig::default());
    let root_plan = plan.get_plan(&"root".to_string()).unwrap();
    assert!(rule(&root_plan.nested_fields, "posts").is_some());
    if let Some(FieldRule::ArrayEntity { entity_type, element_type }) = rule(&root_plan.nested_fields, "posts") {
        assert_eq!(entity_type, "root_posts");
        assert_eq!(*element_type, ArrayType::Objects);
    } else {
        panic!("Expected ArrayEntity rule");
    }
    let posts_plan = plan.get_plan(&"root_posts".to_string()).unwrap();
    assert!(posts_plan.has_id_field);
    assert!(has(&posts_plan.scalar_fields, "title"));
}

#[test]
fn schema_rules_for_arrays_and_objects() {
    let schema = obj(vec![
        ("type", s("object")),
        (
            "properties",
            obj(vec![
                ("tags", obj(vec![("type", s("array")), ("items", obj(vec![("type", s("string"))]))])),
                ("empty", obj(vec![("type", s("array"))])),
                ("point", obj(vec![("type", s("object")), ("properties", obj(vec![("x", obj(vec![]))]))])),
                (
                    "user",
                    obj(vec![
                        ("type", s("object")),
                        ("properties", obj(vec![("id", obj(vec![("type", s("integer"))]))])),
                    ]),
                ),
            ]),
        ),
    ]);
    let plan = MeltPlan::from_schema(&schema, MeltConfig::default());
    let root = plan.get_plan(&"root".to_string()).unwrap();
    assert!(!root.has_id_field);
    match rule(&root.nested_fields, "tags") {
        Some(FieldRule::ArrayEntity { entity_type, element_type }) => {
            assert_eq!(entity_type, "root_tags");
            assert_eq!(*element_type, ArrayType::Scalars);
        }
        _ => panic!("tags"),
    }
    match rule(&root.nested_fields, "empty") {
        Some(FieldRule::ArrayEntity { element_type, .. }) => assert_eq!(*element_type, ArrayType::Empty),
        _ => panic!("empty"),
    }
    assert!(has(&root.scalar_fields, "point"));
    match rule(&root.nested_fields, "user") {
        Some(FieldRule::NestedEntity { entity_type }) => assert_eq!(entity_type, "root_user"),
        _ => panic!("user"),
    }
    assert!(plan.get_plan(&"root_user".to_string()).unwrap().has_id_field);
    assert!(plan.get_plan(&"root_tags".to_string()).is_none());
    assert!(plan.get_plan(&"root_point".to_string()).is_none());
}
