use furnace::{Entity, EntityId, JsonValue, MeltConfig, ParentRef};

fn s(x: &str) -> JsonValue {
    JsonValue::String(x.to_string())
}

fn row(pairs: Vec<(&str, JsonValue)>) -> Vec<(String, JsonValue)> {
    pairs.into_iter().map(|(k, v)| (k.to_string(), v)).collect()
}

#[test]
fn tagged_row_carries_type_and_ids() {
    let entity = Entity::new("test".to_string(), row(vec![("name", s("Alice"))]));
    let tagged = entity.tagged_row();
    assert_eq!(tagged, row(vec![("name", s("Alice")), ("_entity_type", s("test"))]));
    let child = Entity::new("root_posts".to_string(), row(vec![("title", s("T"))]))
        .with_id(EntityId::new("10".to_string()))
        .with_parent(ParentRef {
            entity_type: "root".to_string(),
            id: EntityId::new("1".to_string()),
            field_name: "posts".to_string(),
        });
    assert_eq!(
        child.tagged_row(),
        row(vec![
            ("title", s("T")),
            ("_entity_type", s("root_posts")),
            ("_entity_id", s("10")),
            ("_parent_type", s("root")),
            ("_parent_id", s("1")),
        ])
    );
    assert_eq!(
        child.lineage_row(),
        row(vec![
            ("title", s("T")),
            ("_entity_type", s("root_posts")),
            ("_parent_type", s("root")),
            ("_parent_id", s("1")),
            ("_parent_field", s("posts")),
        ])
    );
}

#[test]
fn ids_are_kept_found_or_generated() {
    let mut counter: u64 = 0;
    let mut with_id = Entity::new("t".to_string(), vec![]).with_id(EntityId::new("x".to_string()));
    assert_eq!(with_id.get_or_generate_id(&mut counter).0, "x");
    assert_eq!(counter, 0);
    let mut from_row = Entity::new("t".to_string(), row(vec![("id", s("abc"))]));
    assert_eq!(from_row.get_or_generate_id(&mut counter).0, "abc");
    assert_eq!(from_row.id, Some(EntityId::new("abc".to_string())));
    let mut fresh = Entity::new("t".to_string(), row(vec![("id", JsonValue::Null)]));
    assert_eq!(fresh.get_or_generate_id(&mut counter).0, "_gen_1");
    assert_eq!(counter, 1);
    let mut top = Entity::new("t".to_string(), vec![]);
    let mut full = u64::MAX;
    assert_eq!(top.get_or_generate_id(&mut full).0, format!("_gen_{}", u64::MAX));
}

#[test]
fn default_config_values() {
    let config = MeltConfig::default();
    assert_eq!(config.max_depth, 10);
    assert_eq!(config.separator, "_");
    assert_eq!(config.id_prefix, "_id");
    assert!(config.include_parent_ids);
    assert!(config.scalar_fields.is_empty());
}
