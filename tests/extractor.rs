use furnace::{Entity, JsonMelter, JsonNumber, JsonValue, MeltConfig};

fn s(x: &str) -> JsonValue {
    JsonValue::String(x.to_string())
}

fn n(x: u64) -> JsonValue {
    JsonValue::Number(JsonNumber::PosInt(x))
}

fn obj(members: Vec<(&str, JsonValue)>) -> JsonValue {
    JsonValue::Object(members.into_iter().map(|(k, v)| (k.to_string(), v)).collect())
}

fn get<'a>(e: &'a Entity, key: &str) -> Option<&'a JsonValue> {
    e.data.iter().find(|(k, _)| k == key).map(|(_, v)| v)
}

fn id_of(e: &Entity) -> Option<String> {
    e.id.as_ref().map(|i| i.0.clone())
}

fn alice_with_posts() -> JsonValue {
    obj(vec![
        ("id", n(1)),
        ("name", s("Alice")),
        (
            "posts",
            JsonValue::Array(vec![
                obj(vec![("id", n(10)), ("title", s("Post 1"))]),
                obj(vec![("id", n(11)), ("title", s("Post 2"))]),
            ]),
        ),
    ])
}

#[test]
fn extractor_test_simple_object() {
    let input = obj(vec![("id", n(1)), ("name", s("Alice"))]);
    let mut melter = JsonMelter::new(MeltConfig::default());
    let entities = melter.melt(input);
    assert_eq!(entities.len(), 1);
    assert_eq!(entities[0].entity_type, "root");
    assert_eq!(get(&entities[0], "name").unwrap(), &s("Alice"));
}

#[test]
fn test_nested_array() {
    let mut melter = JsonMelter::new(MeltConfig::default());
    let entities = melter.melt(alice_with_posts());
    assert_eq!(entities.len(), 3);
    assert_eq!(entities[0].entity_type, "root");
    assert_eq!(get(&entities[0], "name").unwrap(), &s("Alice"));
    assert_eq!(entities[1].entity_type, "root_posts");
    assert_eq!(entities[2].entity_type, "root_posts");
    assert!(get(&entities[1], "posts_id").is_some());
}

#[test]
fn test_scalar_array() {
    let input = obj(vec![
        ("id", n(1)),
        ("tags", JsonValue::Array(vec![s("rust"), s("json"), s("data")])),
    ]);
    let mut melter = JsonMelter::new(MeltConfig::default());
    let entities = melter.melt(input);
    assert_eq!(entities.len(), 4);
    assert_eq!(entities[1].entity_type, "root_tags");
    assert_eq!(get(&entities[1], "value").unwrap(), &s("rust"));
}

#[test]
fn test_basic_melting() {
    let mut melter = JsonMelter::new(MeltConfig::default());
    let entities = melter.melt(alice_with_posts());
    assert!(entities.len() >= 2);
}

#[test]
fn scenario_posts_become_linked_entities() {
    let mut melter = JsonMelter::new(MeltConfig::default());
    let entities = melter.melt(alice_with_posts());
    assert_eq!(entities.len(), 3);
    assert_eq!(entities[0].data, vec![("id".to_string(), n(1)), ("name".to_string(), s("Alice"))]);
    assert_eq!(id_of(&entities[0]), Some("1".to_string()));
    assert_eq!(
        entities[1].data,
        vec![("id".to_string(), n(10)), ("title".to_string(), s("Post 1")), ("posts_id".to_string(), s("1"))]
    );
    assert_eq!(
        entities[2].data,
        vec![("id".to_string(), n(11)), ("title".to_string(), s("Post 2")), ("posts_id".to_string(), s("1"))]
    );
    let parent = entities[1].parent.as_ref().unwrap();
    assert_eq!(parent.entity_type, "root");
    assert_eq!(parent.id.0, "1");
    assert_eq!(parent.field_name, "posts");
}

#[test]
fn scenario_scalar_tags_are_wrapped_with_index() {
    let input = obj(vec![
        ("id", n(1)),
        ("tags", JsonValue::Array(vec![s("rust"), s("json"), s("data")])),
    ]);
    let mut melter = JsonMelter::new(MeltConfig::default());
    let entities = melter.melt(input);
    assert_eq!(entities.len(), 4);
    assert_eq!(entities[0].data, vec![("id".to_string(), n(1))]);
    let words = ["rust", "json", "data"];
    for i in 0..3 {
        let e = &entities[i + 1];
        assert_eq!(e.entity_type, "root_tags");
        assert_eq!(get(e, "value").unwrap(), &s(words[i]));
        assert_eq!(get(e, "_idx").unwrap(), &n(i as u64));
        assert_eq!(get(e, "tags_id").unwrap(), &s("1"));
        assert!(e.id.is_none());
    }
}

#[test]
fn scenario_empty_array_field_leaves_no_trace() {
    let input = obj(vec![("id", n(4)), ("orders", JsonValue::Array(vec![]))]);
    let mut melter = JsonMelter::new(MeltConfig::default());
    let entities = melter.melt(input);
    assert_eq!(entities.len(), 1);
    assert_eq!(entities[0].entity_type, "root");
    assert_eq!(entities[0].data, vec![("id".to_string(), n(4))]);
}

#[test]
fn ids_from_strings_and_negative_numbers_are_rendered() {
    let mut melter = JsonMelter::new(MeltConfig::default());
    let a = melter.melt(obj(vec![("id", s("abc"))]));
    assert_eq!(id_of(&a[0]), Some("abc".to_string()));
    let b = melter.melt(obj(vec![("id", JsonValue::Number(JsonNumber::NegInt(-42)))]));
    assert_eq!(id_of(&b[0]), Some("-42".to_string()));
    let c = melter.melt(obj(vec![("id", JsonValue::Number(JsonNumber::Float("2.5".to_string())))]));
    assert_eq!(id_of(&c[0]), Some("2.5".to_string()));
}

#[test]
fn generated_ids_increase_across_calls() {
    let mut melter = JsonMelter::new(MeltConfig::default());
    let a = melter.melt(obj(vec![("name", s("x"))]));
    let b = melter.melt(obj(vec![("name", s("y"))]));
    assert_eq!(id_of(&a[0]), Some("_gen_1".to_string()));
    assert_eq!(id_of(&b[0]), Some("_gen_2".to_string()));
}

#[test]
fn small_objects_stay_inline_and_big_ones_are_extracted() {
    let input = obj(vec![
        ("id", n(1)),
        ("point", obj(vec![("x", n(1)), ("y", n(2))])),
        ("user", obj(vec![("a", n(1)), ("b", n(2)), ("c", n(3))])),
    ]);
    let mut melter = JsonMelter::new(MeltConfig::default());
    let entities = melter.melt(input);
    assert_eq!(entities.len(), 2);
    assert!(get(&entities[0], "point").is_some());
    assert!(get(&entities[0], "user").is_none());
    assert_eq!(entities[1].entity_type, "root_user");
    assert_eq!(id_of(&entities[1]), Some("_gen_1".to_string()));
    assert_eq!(get(&entities[1], "user_id").unwrap(), &s("1"));
}

#[test]
fn depth_limit_drops_deeper_entities() {
    let input = obj(vec![
        ("id", n(1)),
        ("kids", JsonValue::Array(vec![obj(vec![("id", n(2)), ("toys", JsonValue::Array(vec![s("ball")]))])])),
    ]);
    let mut config = MeltConfig::default();
    config.max_depth = 1;
    let mut melter = JsonMelter::new(config);
    let entities = melter.melt(input);
    assert_eq!(entities.len(), 2);
    assert_eq!(entities[1].entity_type, "root_kids");
    let mut zero = MeltConfig::default();
    zero.max_depth = 0;
    let mut shallow = JsonMelter::new(zero);
    let only_root = shallow.melt(alice_with_posts());
    assert_eq!(only_root.len(), 1);
}

#[test]
fn scalar_fields_and_parent_ids_follow_the_config() {
    let mut config = MeltConfig::default();
    config.scalar_fields = vec!["tags".to_string()];
    config.include_parent_ids = false;
    config.separator = ".".to_string();
    let mut melter = JsonMelter::new(config);
    let input = obj(vec![
        ("id", n(1)),
        ("tags", JsonValue::Array(vec![s("a")])),
        ("posts", JsonValue::Array(vec![obj(vec![("id", n(5))])])),
    ]);
    let entities = melter.melt(input);
    assert_eq!(entities.len(), 2);
    assert!(get(&entities[0], "tags").is_some());
    assert_eq!(entities[1].entity_type, "root.posts");
    assert!(get(&entities[1], "posts_id").is_none());
}

#[test]
fn root_arrays_and_scalars() {
    let mut melter = JsonMelter::new(MeltConfig::default());
    let rows = melter.melt(JsonValue::Array(vec![obj(vec![("id", n(1))]), obj(vec![("id", n(2))])]));
    assert_eq!(rows.len(), 2);
    assert_eq!(rows[1].entity_type, "root");
    assert!(rows[1].parent.is_none());
    let values = melter.melt(JsonValue::Array(vec![n(7), n(8)]));
    assert_eq!(values.len(), 2);
    assert_eq!(get(&values[1], "_idx").unwrap(), &n(1));
    assert!(melter.melt(s("bare")).is_empty());
}

#[test]
fn repeated_member_names_keep_one_column() {
    let input = obj(vec![("a", n(1)), ("b", n(5)), ("a", n(2))]);
    let mut melter = JsonMelter::new(MeltConfig::default());
    let entities = melter.melt(input);
    assert_eq!(entities.len(), 1);
    assert_eq!(entities[0].data, vec![("a".to_string(), n(2)), ("b".to_string(), n(5))]);
}
