use furnace::{Entity, EntityPlan, FieldRule, JsonMelter, JsonNumber, JsonValue, MeltConfig, MeltPlan, PlannedMelter};

fn s(x: &str) -> JsonValue {
    JsonValue::String(x.to_string())
}

fn n(x: u64) -> JsonValue {
    JsonValue::Number(JsonNumber::PosInt(x))
}

fn obj(members: Vec<(&str, JsonValue)>) -> JsonValue {
    JsonValue::Object(members.into_iter().map(|(k, v)| (k.to_string(), v)).collect())
}

fn get<'a>(e: &'a Entity, key: &str) -> Option<&'a JsonValue> {
    e.data.iter().find(|(k, _)| k == key).map(|(_, v)| v)
}

#[test]
fn test_planned_simple_melt() {
    let samples = vec![obj(vec![("id", n(1)), ("name", s("Alice"))]), obj(vec![("id", n(2)), ("name", s("Bob"))])];
    let mut melter = PlannedMelter::from_examples(&samples, MeltConfig::default());
    let entities = melter.melt(obj(vec![("id", n(3)), ("name", s("Charlie"))]));
    assert_eq!(entities.len(), 1);
    assert_eq!(entities[0].entity_type, "root");
    assert_eq!(get(&entities[0], "name").unwrap(), &s("Charlie"));
}

#[test]
fn test_planned_nested_array() {
    let samples = vec![obj(vec![
        ("id", n(1)),
        ("name", s("Alice")),
        (
            "posts",
            JsonValue::Array(vec![
                obj(vec![("id", n(10)), ("title", s("Post 1"))]),
                obj(vec![("id", n(11)), ("title", s("Post 2"))]),
            ]),
        ),
    ])];
    let mut melter = PlannedMelter::from_examples(&samples, MeltConfig::default());
    let data = obj(vec![
        ("id", n(2)),
        ("name", s("Bob")),
        (
            "posts",
            JsonValue::Array(vec![
                obj(vec![("id", n(20)), ("title", s("Bob's Post 1"))]),
                obj(vec![("id", n(21)), ("title", s("Bob's Post 2"))]),
            ]),
        ),
    ]);
    let entities = melter.melt(data);
    assert_eq!(entities.len(), 3);
    assert_eq!(entities[0].entity_type, "root");
    assert_eq!(entities[1].entity_type, "root_posts");
    assert_eq!(entities[2].entity_type, "root_posts");
    assert!(get(&entities[1], "posts_id").is_some());
    assert_eq!(get(&entities[1], "posts_id").unwrap(), &s("2"));
}

#[test]
fn test_planned_scalar_array() {
    let samples = vec![obj(vec![("id", n(1)), ("tags", JsonValue::Array(vec![s("rust"), s("json")]))])];
    let mut melter = PlannedMelter::from_examples(&samples, MeltConfig::default());
    let data = obj(vec![("id", n(2)), ("tags", JsonValue::Array(vec![s("performance"), s("optimization")]))]);
    let entities = melter.melt(data);
    assert_eq!(entities.len(), 3);
    assert_eq!(entities[1].entity_type, "root_tags");
    assert_eq!(get(&entities[1], "value").unwrap(), &s("performance"));
    assert_eq!(get(&entities[1], "_idx").unwrap(), &n(0));
}

#[test]
fn planned_matches_unplanned_on_uniform_samples() {
    let samples = vec![
        obj(vec![
            ("id", n(1)),
            ("name", s("Alice")),
            ("posts", JsonValue::Array(vec![obj(vec![("id", n(10)), ("title", s("A"))])])),
            ("tags", JsonValue::Array(vec![s("x"), s("y")])),
        ]),
        obj(vec![
            ("id", n(2)),
            ("name", s("Bob")),
            ("posts", JsonValue::Array(vec![obj(vec![("id", n(20)), ("title", s("B"))])])),
            ("tags", JsonValue::Array(vec![s("z")])),
        ]),
    ];
    let mut planned = PlannedMelter::from_examples(&samples, MeltConfig::default());
    let mut direct = JsonMelter::new(MeltConfig::default());
    for sample in &samples {
        let a = planned.melt(sample.clone());
        let b = direct.melt(sample.clone());
        assert_eq!(a.len(), b.len());
        for (x, y) in a.iter().zip(b.iter()) {
            assert_eq!(x.entity_type, y.entity_type);
            assert_eq!(x.data, y.data);
        }
    }
}

#[test]
fn unknown_types_and_root_arrays() {
    let samples = vec![obj(vec![("id", n(1))])];
    let mut melter = PlannedMelter::from_examples(&samples, MeltConfig::default());
    let entities = melter.melt(obj(vec![("id", n(5)), ("extra", obj(vec![("a", n(1)), ("b", n(2)), ("c", n(3))]))]));
    assert_eq!(entities.len(), 1);
    assert!(get(&entities[0], "extra").is_some());
    let rows = melter.melt(JsonValue::Array(vec![obj(vec![("id", n(6))]), n(7), obj(vec![("id", n(8))])]));
    assert_eq!(rows.len(), 2);
    assert_eq!(rows[1].entity_type, "root");
    let empty_plan = PlannedMelter::from_examples(&vec![n(1)], MeltConfig::default());
    let mut none = empty_plan;
    assert!(none.melt(obj(vec![("id", n(1))])).is_empty());
}

#[test]
fn scalar_rule_keeps_the_member_inline() {
    let plan = MeltPlan {
        entity_plans: vec![(
            "root".to_string(),
            EntityPlan {
                entity_type: "root".to_string(),
                scalar_fields: vec![],
                nested_fields: vec![
                    ("k".to_string(), FieldRule::Scalar),
                    ("sub".to_string(), FieldRule::NestedEntity { entity_type: "root_sub".to_string() }),
                ],
                has_id_field: false,
            },
        )],
        config: MeltConfig::default(),
    };
    let mut melter = PlannedMelter::new(plan);
    let entities = melter.melt(obj(vec![("k", n(1)), ("sub", obj(vec![("a", n(2))])), ("other", s("x"))]));
    assert_eq!(entities.len(), 1);
    assert_eq!(get(&entities[0], "k").unwrap(), &n(1));
    assert_eq!(get(&entities[0], "other").unwrap(), &s("x"));
    assert!(get(&entities[0], "sub").is_none());
}
