//! The melt that decides each node's shape from the node itself.
use vstd::prelude::*;
use vstd::string::*;
use crate::text::{concat2, concat3};
use crate::value::{JsonValue, JsonView, JsonNumber, NumberView, members_view, values_view};
use crate::assoc::{has_key, assoc_insert, lookup, assoc_set, distinct_keys, find_key, last_value};
use crate::entity::{
    RowView, id_key, resolve_id, gen_id, next_counter, Entity, EntityView, ParentRef, ParentView, MeltConfig,
    entities_view, parent_view, };

verus! {

/// The type name of a child: the parent's type, the separator, the field name.
pub open spec fn child_type(cfg: MeltConfig, ty: Seq<char>, field: Seq<char>) -> Seq<char> {
    ty + cfg.separator@ + field
}

/// An object that is worth an entity of its own: it has an `id` member or
/// more than two members.
pub open spec fn is_big_object(v: JsonView) -> bool {
    match v {
        JsonView::Object(m) => has_key(m, id_key()) || m.len() > 2,
        _ => false,
    }
}

/// Whether the member `k: v` of an object is extracted rather than kept inline.
pub open spec fn extracts(cfg: MeltConfig, k: Seq<char>, v: JsonView) -> bool {
    !cfg.is_scalar_field(k) && (v is Array || is_big_object(v))
}

/// The row of an object: its inline members, each set in turn.
pub open spec fn kept_row(cfg: MeltConfig, m: RowView) -> RowView
    decreases m.len(),
{
    if m.len() == 0 {
        Seq::empty()
    } else {
        let rest = kept_row(cfg, m.drop_last());
        if extracts(cfg, m.last().0, m.last().1) {
            rest
        } else {
            assoc_insert(rest, m.last().0, m.last().1)
        }
    }
}

/// A row with the foreign-key column of its parent, when there is one and
/// parent ids are on.
pub open spec fn with_fk(cfg: MeltConfig, row: RowView, parent: Option<ParentView>) -> RowView {
    match parent {
        Some(p) => if cfg.include_parent_ids {
            assoc_insert(row, p.field_name + cfg.id_prefix@, JsonView::String(p.id))
        } else {
            row
        },
        None => row,
    }
}

/// How many of the values are objects.
pub open spec fn object_count(items: Seq<JsonView>) -> nat
    decreases items.len(),
{
    if items.len() == 0 {
        0
    } else {
        object_count(items.drop_last()) + if items.last() is Object {
            1nat
        } else {
            0nat
        }
    }
}

/// An array whose elements are mostly objects.
pub open spec fn is_entity_array(items: Seq<JsonView>) -> bool {
    items.len() > 0 && object_count(items) > items.len() / 2
}

/// The name of the member that holds a wrapped scalar.
pub open spec fn value_key() -> Seq<char> {
    seq!['v', 'a', 'l', 'u', 'e']
}

/// The name of the member that holds a wrapped scalar's position.
pub open spec fn idx_key() -> Seq<char> {
    seq!['_', 'i', 'd', 'x']
}

/// The entity that wraps element `i` of a scalar array.
pub open spec fn scalar_entity(
    cfg: MeltConfig,
    ty: Seq<char>,
    parent: Option<ParentView>,
    x: JsonView,
    i: int,
) -> EntityView {
    EntityView {
        entity_type: ty,
        data: with_fk(
            cfg,
            seq![(value_key(), x), (idx_key(), JsonView::Number(NumberView::PosInt(i as u64)))],
            parent,
        ),
        id: None,
        parent,
    }
}

/// The entities of a scalar array, one per element.
pub open spec fn scalar_entities(
    cfg: MeltConfig,
    ty: Seq<char>,
    parent: Option<ParentView>,
    items: Seq<JsonView>,
) -> Seq<EntityView> {
    Seq::new(items.len(), |i: int| scalar_entity(cfg, ty, parent, items[i], i))
}

/// The melt of `v` as an entity of type `ty` at nesting level `depth`:
/// the entities in the order they are emitted, and the counter afterwards.
pub open spec fn melt_value(
    cfg: MeltConfig,
    v: JsonView,
    ty: Seq<char>,
    parent: Option<ParentView>,
    depth: nat,
    c: u64,
) -> (Seq<EntityView>, u64)
    decreases v, 1nat,
{
    if depth > cfg.max_depth {
        (Seq::empty(), c)
    } else {
        match v {
            JsonView::Object(m) => {
                let row = kept_row(cfg, m);
                let (id, c1) = resolve_id(row, c);
                let e = EntityView {
                    entity_type: ty,
                    data: with_fk(cfg, row, parent),
                    id: Some(id),
                    parent,
                };
                let (rest, c2) = melt_fields(cfg, m, m.len(), ty, id, depth + 1, c1);
                (seq![e] + rest, c2)
            },
            JsonView::Array(items) => {
                if is_entity_array(items) {
                    melt_items(cfg, items, items.len(), ty, parent, depth, c)
                } else {
                    (scalar_entities(cfg, ty, parent, items), c)
                }
            },
            _ => (Seq::empty(), c),
        }
    }
}

/// The melt of the extracted members among the first `n` of `m`, children
/// of the entity of type `ty` and identifier `id`.
pub open spec fn melt_fields(
    cfg: MeltConfig,
    m: RowView,
    n: nat,
    ty: Seq<char>,
    id: Seq<char>,
    depth: nat,
    c: u64,
) -> (Seq<EntityView>, u64)
    decreases m, n,
{
    if n == 0 || n > m.len() {
        (Seq::empty(), c)
    } else {
        let (prev, c1) = melt_fields(cfg, m, (n - 1) as nat, ty, id, depth, c);
        let k = m[n - 1].0;
        let x = m[n - 1].1;
        if extracts(cfg, k, x) {
            let p = ParentView { entity_type: ty, id, field_name: k };
            let (more, c2) = melt_value(cfg, x, child_type(cfg, ty, k), Some(p), depth, c1);
            (prev + more, c2)
        } else {
            (prev, c1)
        }
    }
}

/// The melt of the first `n` elements of an entity array, each as a sibling
/// of the same type and parent.
pub open spec fn melt_items(
    cfg: MeltConfig,
    items: Seq<JsonView>,
    n: nat,
    ty: Seq<char>,
    parent: Option<ParentView>,
    depth: nat,
    c: u64,
) -> (Seq<EntityView>, u64)
    decreases items, n,
{
    if n == 0 || n > items.len() {
        (Seq::empty(), c)
    } else {
        let (prev, c1) = melt_items(cfg, items, (n - 1) as nat, ty, parent, depth, c);
        let (more, c2) = melt_value(cfg, items[n - 1], ty, parent, depth, c1);
        (prev + more, c2)
    }
}

/// The type name of top-level entities.
pub open spec fn root_type() -> Seq<char> {
    seq!['r', 'o', 'o', 't']
}

/// The melt of a whole document.
pub open spec fn melt_document(cfg: MeltConfig, v: JsonView, c: u64) -> (Seq<EntityView>, u64) {
    melt_value(cfg, v, root_type(), None, 0, c)
}

/// The counting behind `is_entity_array`, over the first `n` items.
proof fn lemma_object_count_step(items: Seq<JsonView>, n: int)
    requires
        0 <= n < items.len(),
    ensures
        object_count(items.take(n + 1)) == object_count(items.take(n)) + if items[n] is Object {
            1nat
        } else {
            0nat
        },
{
    assert(items.take(n + 1).drop_last() =~= items.take(n));
}

/// Builds the foreign-key column `field + id_prefix` holding the parent's identifier.
pub(crate) fn add_fk(cfg: &MeltConfig, data: &mut Vec<(String, JsonValue)>, parent: &Option<ParentRef>)
    ensures
        members_view(final(data)@) == with_fk(*cfg, members_view(old(data)@), parent_view(*parent)),
{
    if let Some(p) = parent {
        if cfg.include_parent_ids {
            let fk_name = concat2(&p.field_name, &cfg.id_prefix);
            assoc_set(data, fk_name, JsonValue::String(p.id.0.clone()));
        }
    }
}

/// The melt that inspects every node: objects with an `id` or more than two
/// members, and all arrays, become entities of their own; the rest stays
/// inline. Synthetic identifiers come from a counter owned by the melter.
pub struct JsonMelter {
    config: MeltConfig,
    id_counter: u64,
}

impl JsonMelter {
    /// The configuration this melter was made with.
    pub closed spec fn spec_config(&self) -> MeltConfig {
        self.config
    }

    /// The last synthetic identifier number handed out (zero before any).
    pub closed spec fn counter(&self) -> u64 {
        self.id_counter
    }

    /// A melter with the given configuration and a fresh counter.
    pub fn new(config: MeltConfig) -> (r: JsonMelter)
        ensures
            r.spec_config() == config,
            r.counter() == 0,
    {
        JsonMelter { config, id_counter: 0 }
    }

    /// Melts one document into entities: a parent always comes before the
    /// entities that derive from it.
    pub fn melt(&mut self, value: JsonValue) -> (r: Vec<Entity>)
        ensures
            final(self).spec_config() == old(self).spec_config(),
            (entities_view(r@), final(self).counter()) == melt_document(
                old(self).spec_config(),
                value@,
                old(self).counter(),
            ),
    {
        let mut entities: Vec<Entity> = Vec::new();
        let root = String::from_str("root");
        proof {
            reveal_strlit("root");
            assert(root@ =~= root_type());
        }
        self.extract_entity(&value, &root, &None, 0, &mut entities);
        assert(entities_view(entities@) =~= melt_document(
            old(self).spec_config(),
            value@,
            old(self).counter(),
        ).0);
        entities
    }

    /// Appends the melt of `value`, at nesting level `depth`, to `entities`.
    fn extract_entity(
        &mut self,
        value: &JsonValue,
        entity_type: &String,
        parent: &Option<ParentRef>,
        depth: usize,
        entities: &mut Vec<Entity>,
    )
        ensures
            final(self).config == old(self).config,
            ({
                let (es, c) = melt_value(
                    old(self).config,
                    value@,
                    entity_type@,
                    parent_view(*parent),
                    depth as nat,
                    old(self).id_counter,
                );
                entities_view(final(entities)@) == entities_view(old(entities)@) + es
                    && final(self).id_counter == c
            }),
        decreases value, 1nat,
    {
        if depth > self.config.max_depth {
            assert(entities_view(entities@) =~= entities_view(old(entities)@) + Seq::<EntityView>::empty());
            return ;
        }
        match value {
            JsonValue::Object(_) => {
                self.extract_from_object(value, entity_type, parent, depth, entities);
            },
            JsonValue::Array(_) => {
                self.extract_from_array(value, entity_type, parent, depth, entities);
            },
            _ => {
                assert(entities_view(entities@) =~= entities_view(old(entities)@) + Seq::<EntityView>::empty());
            },
        }
    }

    /// Emits the entity of an object, then the melt of each extracted member.
    fn extract_from_object(
        &mut self,
        value: &JsonValue,
        entity_type: &String,
        parent: &Option<ParentRef>,
        depth: usize,
        entities: &mut Vec<Entity>,
    )
        requires
            value is Object,
            depth <= old(self).config.max_depth,
        ensures
            final(self).config == old(self).config,
            ({
                let (es, c) = melt_value(
                    old(self).config,
                    value@,
                    entity_type@,
                    parent_view(*parent),
                    depth as nat,
                    old(self).id_counter,
                );
                entities_view(final(entities)@) == entities_view(old(entities)@) + es
                    && final(self).id_counter == c
            }),
        decreases value, 0nat,
    {
        let members = match value {
            JsonValue::Object(m) => m,
            _ => {
                return ;
            },
        };
        let ghost cfg = self.config;
        let ghost mv = members_view(members@);
        assert(value@ == JsonView::Object(mv)) by {
            assert(value@->Object_0 =~= mv);
        }
        let mut entity_data: Vec<(String, JsonValue)> = Vec::new();
        let mut i: usize = 0;
        while i < members.len()
            invariant
                i <= members.len(),
                mv == members_view(members@),
                cfg == self.config,
                members_view(entity_data@) == kept_row(cfg, mv.take(i as int)),
            decreases members.len() - i,
        {
            assert(mv.take(i + 1).drop_last() =~= mv.take(i as int));
            let k = &members[i].0;
            let x = &members[i].1;
            if !self.extracts_member(k, x) {
                assoc_set(&mut entity_data, k.clone(), x.copy());
            }
            i = i + 1;
        }
        assert(mv.take(members.len() as int) =~= mv);
        let ghost row = members_view(entity_data@);
        let mut entity = Entity::new(entity_type.clone(), entity_data);
        if let Some(p) = parent {
            entity = entity.with_parent(p.copy());
        }
        let entity_id = entity.get_or_generate_id(&mut self.id_counter);
        add_fk(&self.config, &mut entity.data, parent);
        entities.push(entity);
        let ghost start = entities_view(entities@);
        let ghost c1 = self.id_counter;
        assert(start =~= entities_view(old(entities)@).push(entity@));
        let mut j: usize = 0;
        while j < members.len()
            invariant
                j <= members.len(),
                *value == JsonValue::Object(*members),
                mv == members_view(members@),
                cfg == self.config,
                depth <= cfg.max_depth,
                ({
                    let (es, c) = melt_fields(cfg, mv, j as nat, entity_type@, entity_id@, (depth + 1) as nat, c1);
                    entities_view(entities@) == start + es && self.id_counter == c
                }),
            decreases members.len() - j,
        {
            let k = &members[j].0;
            let x = &members[j].1;
            if self.extracts_member(k, x) {
                if depth < self.config.max_depth {
                    let nested_type = concat3(entity_type, &self.config.separator, k);
                    let parent_ref = ParentRef {
                        entity_type: entity_type.clone(),
                        id: entity_id.copy(),
                        field_name: k.clone(),
                    };
                    proof {
                        assert(decreases_to!(*value => value->Object_0));
                        assert(decreases_to!(value->Object_0 => value->Object_0@));
                        assert(decreases_to!(value->Object_0@ => value->Object_0@[j as int]));
                        assert(decreases_to!(value->Object_0@[j as int] => value->Object_0@[j as int].1));
                    }
                    self.extract_entity(x, &nested_type, &Some(parent_ref), depth + 1, entities);
                    assert(entities_view(entities@) =~= start + melt_fields(cfg, mv, (j + 1) as nat, entity_type@, entity_id@, (depth + 1) as nat, c1).0);
                } else {
                    let ghost cj = self.id_counter;
                    let ghost p = ParentView { entity_type: entity_type@, id: entity_id@, field_name: mv[j as int].0 };
                    assert(melt_value(cfg, mv[j as int].1, child_type(cfg, entity_type@, mv[j as int].0), Some(p), (depth + 1) as nat, cj) == (Seq::<EntityView>::empty(), cj));
                    assert(melt_fields(cfg, mv, (j + 1) as nat, entity_type@, entity_id@, (depth + 1) as nat, c1).0 =~= melt_fields(cfg, mv, j as nat, entity_type@, entity_id@, (depth + 1) as nat, c1).0);
                }
            }
            j = j + 1;
        }
        assert(entities_view(entities@) =~= entities_view(old(entities)@) + melt_value(cfg, value@, entity_type@, parent_view(*parent), depth as nat, old(self).id_counter).0);
    }

    /// Emits the entities of an array: the melt of each element when most
    /// elements are objects, else one wrapped entity per element.
    fn extract_from_array(
        &mut self,
        value: &JsonValue,
        entity_type: &String,
        parent: &Option<ParentRef>,
        depth: usize,
        entities: &mut Vec<Entity>,
    )
        requires
            value is Array,
            depth <= old(self).config.max_depth,
        ensures
            final(self).config == old(self).config,
            ({
                let (es, c) = melt_value(
                    old(self).config,
                    value@,
                    entity_type@,
                    parent_view(*parent),
                    depth as nat,
                    old(self).id_counter,
                );
                entities_view(final(entities)@) == entities_view(old(entities)@) + es
                    && final(self).id_counter == c
            }),
        decreases value, 0nat,
    {
        let items = match value {
            JsonValue::Array(a) => a,
            _ => {
                return ;
            },
        };
        let ghost cfg = self.config;
        let ghost iv = values_view(items@);
        assert(value@ == JsonView::Array(iv)) by {
            assert(value@->Array_0 =~= iv);
        }
        let ghost start = entities_view(entities@);
        let ghost c0 = self.id_counter;
        if Self::is_entity_array(items) {
            let mut j: usize = 0;
            while j < items.len()
                invariant
                    j <= items.len(),
                    *value == JsonValue::Array(*items),
                    iv == values_view(items@),
                    cfg == self.config,
                    depth <= cfg.max_depth,
                    ({
                        let (es, c) = melt_items(cfg, iv, j as nat, entity_type@, parent_view(*parent), depth as nat, c0);
                        entities_view(entities@) == start + es && self.id_counter == c
                    }),
                decreases items.len() - j,
            {
                proof {
                    assert(decreases_to!(*value => value->Array_0));
                    assert(decreases_to!(value->Array_0 => value->Array_0@));
                    assert(decreases_to!(value->Array_0@ => value->Array_0@[j as int]));
                }
                self.extract_entity(&items[j], entity_type, parent, depth, entities);
                assert(entities_view(entities@) =~= start + melt_items(cfg, iv, (j + 1) as nat, entity_type@, parent_view(*parent), depth as nat, c0).0);
                j = j + 1;
            }
        } else {
            let value_name = String::from_str("value");
            let idx_name = String::from_str("_idx");
            proof {
                reveal_strlit("value");
                reveal_strlit("_idx");
                assert(value_name@ =~= value_key());
                assert(idx_name@ =~= idx_key());
            }
            let mut j: usize = 0;
            while j < items.len()
                invariant
                    j <= items.len(),
                    iv == values_view(items@),
                    cfg == self.config,
                    self.id_counter == c0,
                    value_name@ == value_key(),
                    idx_name@ == idx_key(),
                    entities_view(entities@) == start + scalar_entities(cfg, entity_type@, parent_view(*parent), iv.take(j as int)),
                decreases items.len() - j,
            {
                let mut data: Vec<(String, JsonValue)> = Vec::new();
                data.push((value_name.clone(), items[j].copy()));
                data.push((idx_name.clone(), JsonValue::Number(JsonNumber::PosInt(j as u64))));
                let mut entity = Entity::new(entity_type.clone(), data);
                if let Some(p) = parent {
                    entity = entity.with_parent(p.copy());
                }
                add_fk(&self.config, &mut entity.data, parent);
                assert(entity@ == scalar_entity(cfg, entity_type@, parent_view(*parent), iv[j as int], j as int)) by {
                    assert(members_view(data@) =~= seq![(value_key(), iv[j as int]), (idx_key(), JsonView::Number(NumberView::PosInt(j as u64)))]);
                }
                let ghost ev = entity@;
                let ghost prev = entities_view(entities@);
                entities.push(entity);
                assert(entities_view(entities@) =~= prev.push(ev));
                assert(scalar_entities(cfg, entity_type@, parent_view(*parent), iv.take(j + 1)) =~= scalar_entities(cfg, entity_type@, parent_view(*parent), iv.take(j as int)).push(ev));
                assert(entities_view(entities@) =~= start + scalar_entities(cfg, entity_type@, parent_view(*parent), iv.take(j + 1)));
                j = j + 1;
            }
            assert(iv.take(items.len() as int) =~= iv);
        }
    }

    /// Whether most elements of `arr` are objects.
    fn is_entity_array(arr: &Vec<JsonValue>) -> (r: bool)
        ensures
            r == is_entity_array(values_view(arr@)),
    {
        let ghost iv = values_view(arr@);
        if arr.len() == 0 {
            return false;
        }
        let mut count: usize = 0;
        let mut i: usize = 0;
        while i < arr.len()
            invariant
                i <= arr.len(),
                iv == values_view(arr@),
                count == object_count(iv.take(i as int)),
                count <= i,
            decreases arr.len() - i,
        {
            proof {
                lemma_object_count_step(iv, i as int);
            }
            if let JsonValue::Object(_) = &arr[i] {
                count = count + 1;
            }
            i = i + 1;
        }
        assert(iv.take(arr.len() as int) =~= iv);
        count > arr.len() / 2
    }

    /// Whether an object has an `id` member or more than two members.
    fn should_extract_object(value: &JsonValue) -> (r: bool)
        ensures
            r == is_big_object(value@),
    {
        match value {
            JsonValue::Object(m) => {
                let key = String::from_str("id");
                proof {
                    reveal_strlit("id");
                    assert(key@ =~= id_key());
                    assert(value@->Object_0 =~= members_view(m@));
                }
                find_key(m, &key).is_some() || m.len() > 2
            },
            _ => false,
        }
    }

    /// Whether the member `k: x` is extracted rather than kept inline.
    fn extracts_member(&self, k: &String, x: &JsonValue) -> (r: bool)
        ensures
            r == extracts(self.config, k@, x@),
    {
        if self.is_scalar_field(k) {
            return false;
        }
        match x {
            JsonValue::Array(_) => true,
            JsonValue::Object(_) => Self::should_extract_object(x),
            _ => false,
        }
    }

    /// Whether `field_name` is one of the always-inline fields.
    fn is_scalar_field(&self, field_name: &String) -> (r: bool)
        ensures
            r == self.config.is_scalar_field(field_name@),
    {
        self.config.has_scalar_field(field_name)
    }
}


/// `e` is the entity that the parent reference `p` names.
pub open spec fn names_entity(p: ParentView, e: EntityView) -> bool {
    e.entity_type == p.entity_type && e.id == Some(p.id)
}

/// The (type, identifier) a parent reference names.
pub open spec fn target_of(parent: Option<ParentView>) -> Option<(Seq<char>, Seq<char>)> {
    match parent {
        Some(p) => Some((p.entity_type, p.id)),
        None => None,
    }
}

/// Every entity of `es` that has a parent names either `target` or an
/// entity earlier in `es`.
pub open spec fn linked(es: Seq<EntityView>, target: Option<(Seq<char>, Seq<char>)>) -> bool {
    forall|j: int|
        #![trigger es[j]]
        0 <= j < es.len() && es[j].parent is Some ==> (target_of(es[j].parent) == target && target is Some)
            || exists|i: int| 0 <= i < j && names_entity(es[j].parent->0, #[trigger] es[i])
}

pub proof fn lemma_linked_concat(a: Seq<EntityView>, b: Seq<EntityView>, t: Option<(Seq<char>, Seq<char>)>)
    requires
        linked(a, t),
        linked(b, t),
    ensures
        linked(a + b, t),
{
    let c = a + b;
    assert forall|j: int|
        #![trigger c[j]]
        0 <= j < c.len() && c[j].parent is Some implies (target_of(c[j].parent) == t && t is Some)
            || exists|i: int| 0 <= i < j && names_entity(c[j].parent->0, #[trigger] c[i]) by {
        if j < a.len() {
            assert(c[j] == a[j]);
            if !(target_of(c[j].parent) == t && t is Some) {
                let i = choose|i: int| 0 <= i < j && names_entity(a[j].parent->0, #[trigger] a[i]);
                assert(c[i] == a[i]);
            }
        } else {
            let jb = j - a.len();
            assert(c[j] == b[jb]);
            if !(target_of(c[j].parent) == t && t is Some) {
                let i = choose|i: int| 0 <= i < jb && names_entity(b[jb].parent->0, #[trigger] b[i]);
                assert(c[i + a.len()] == b[i]);
            }
        }
    }
}

/// The melt of a value keeps parents before children, and never moves the
/// counter back.
proof fn lemma_melt_value_linked(
    cfg: MeltConfig,
    v: JsonView,
    ty: Seq<char>,
    parent: Option<ParentView>,
    depth: nat,
    c: u64,
)
    ensures
        linked(melt_value(cfg, v, ty, parent, depth, c).0, target_of(parent)),
        melt_value(cfg, v, ty, parent, depth, c).1 >= c,
    decreases v, 1nat,
{
    if depth > cfg.max_depth {
    } else {
        match v {
            JsonView::Object(m) => {
                let row = kept_row(cfg, m);
                let (id, c1) = resolve_id(row, c);
                let e = EntityView {
                    entity_type: ty,
                    data: with_fk(cfg, row, parent),
                    id: Some(id),
                    parent,
                };
                let (rest, c2) = melt_fields(cfg, m, m.len(), ty, id, depth + 1, c1);
                lemma_melt_fields_linked(cfg, m, m.len(), ty, id, depth + 1, c1);
                let es = seq![e] + rest;
                assert(melt_value(cfg, v, ty, parent, depth, c).0 == es);
                assert forall|j: int|
                    #![trigger es[j]]
                    0 <= j < es.len() && es[j].parent is Some implies (target_of(es[j].parent)
                        == target_of(parent) && target_of(parent) is Some) || exists|i: int|
                        0 <= i < j && names_entity(es[j].parent->0, #[trigger] es[i]) by {
                    if j > 0 {
                        assert(es[j] == rest[j - 1]);
                        if target_of(rest[j - 1].parent) == Some((ty, id)) {
                            assert(names_entity(es[j].parent->0, es[0]));
                        } else {
                            let i = choose|i: int| 0 <= i < j - 1 && names_entity(rest[j - 1].parent->0, #[trigger] rest[i]);
                            assert(es[i + 1] == rest[i]);
                        }
                    }
                }
            },
            JsonView::Array(items) => {
                if is_entity_array(items) {
                    lemma_melt_items_linked(cfg, items, items.len(), ty, parent, depth, c);
                } else {
                    let es = scalar_entities(cfg, ty, parent, items);
                    assert forall|j: int|
                        #![trigger es[j]]
                        0 <= j < es.len() && es[j].parent is Some implies (target_of(es[j].parent)
                            == target_of(parent) && target_of(parent) is Some) || exists|i: int|
                            0 <= i < j && names_entity(es[j].parent->0, #[trigger] es[i]) by {}
                }
            },
            _ => {},
        }
    }
}

proof fn lemma_melt_fields_linked(
    cfg: MeltConfig,
    m: RowView,
    n: nat,
    ty: Seq<char>,
    id: Seq<char>,
    depth: nat,
    c: u64,
)
    ensures
        linked(melt_fields(cfg, m, n, ty, id, depth, c).0, Some((ty, id))),
        melt_fields(cfg, m, n, ty, id, depth, c).1 >= c,
    decreases m, n,
{
    if n == 0 || n > m.len() {
    } else {
        let (prev, c1) = melt_fields(cfg, m, (n - 1) as nat, ty, id, depth, c);
        lemma_melt_fields_linked(cfg, m, (n - 1) as nat, ty, id, depth, c);
        let k = m[n - 1].0;
        let x = m[n - 1].1;
        if extracts(cfg, k, x) {
            let p = ParentView { entity_type: ty, id, field_name: k };
            assert(decreases_to!(m => m[n - 1]));
            lemma_melt_value_linked(cfg, x, child_type(cfg, ty, k), Some(p), depth, c1);
            let (more, c2) = melt_value(cfg, x, child_type(cfg, ty, k), Some(p), depth, c1);
            lemma_linked_concat(prev, more, Some((ty, id)));
        }
    }
}

proof fn lemma_melt_items_linked(
    cfg: MeltConfig,
    items: Seq<JsonView>,
    n: nat,
    ty: Seq<char>,
    parent: Option<ParentView>,
    depth: nat,
    c: u64,
)
    ensures
        linked(melt_items(cfg, items, n, ty, parent, depth, c).0, target_of(parent)),
        melt_items(cfg, items, n, ty, parent, depth, c).1 >= c,
    decreases items, n,
{
    if n == 0 || n > items.len() {
    } else {
        let (prev, c1) = melt_items(cfg, items, (n - 1) as nat, ty, parent, depth, c);
        lemma_melt_items_linked(cfg, items, (n - 1) as nat, ty, parent, depth, c);
        lemma_melt_value_linked(cfg, items[n - 1], ty, parent, depth, c1);
        let (more, c2) = melt_value(cfg, items[n - 1], ty, parent, depth, c1);
        lemma_linked_concat(prev, more, target_of(parent));
    }
}

/// In the melt of a document, an entity with a parent comes after an
/// entity that the parent reference names: parents precede their children.
pub proof fn law_parents_precede_children(cfg: MeltConfig, v: JsonView, c: u64)
    ensures
        ({
            let es = melt_document(cfg, v, c).0;
            forall|j: int|
                0 <= j < es.len() && (#[trigger] es[j]).parent is Some ==> exists|i: int|
                    0 <= i < j && names_entity(es[j].parent->0, #[trigger] es[i])
        }),
{
    lemma_melt_value_linked(cfg, v, root_type(), None, 0, c);
}

/// Rows keep their keys distinct.
proof fn lemma_kept_row_distinct(cfg: MeltConfig, m: RowView)
    ensures
        distinct_keys(kept_row(cfg, m)),
    decreases m.len(),
{
    if m.len() > 0 {
        lemma_kept_row_distinct(cfg, m.drop_last());
        if !extracts(cfg, m.last().0, m.last().1) {
            crate::assoc::lemma_insert_distinct(kept_row(cfg, m.drop_last()), m.last().0, m.last().1);
        }
    }
}

/// A member kept inline is found in the row under its key, and a key the
/// object lacks is not in the row.
proof fn lemma_kept_row_lookup(cfg: MeltConfig, m: RowView, k: Seq<char>)
    requires
        distinct_keys(m),
    ensures
        lookup(m, k) is Some && !extracts(cfg, k, lookup(m, k)->0) ==> lookup(kept_row(cfg, m), k) == lookup(m, k),
        !has_key(m, k) ==> lookup(kept_row(cfg, m), k) is None,
    decreases m.len(),
{
    if m.len() == 0 {
    } else {
        let d = m.drop_last();
        let (kl, xl) = m.last();
        assert(distinct_keys(d));
        lemma_kept_row_lookup(cfg, d, k);
        lemma_kept_row_distinct(cfg, d);
        crate::assoc::lemma_lookup_last(m);
        assert(m =~= d.push((kl, xl)));
        if kl == k {
            if !extracts(cfg, kl, xl) {
                crate::assoc::lemma_insert_distinct(kept_row(cfg, d), kl, xl);
            }
        } else {
            crate::assoc::lemma_lookup_push_other(d, kl, xl, k);
            if !extracts(cfg, kl, xl) {
                crate::assoc::lemma_lookup_insert_other(kept_row(cfg, d), kl, xl, k);
            }
            assert(has_key(m, k) == has_key(d, k)) by {
                if has_key(m, k) {
                    let i = choose|i: int| 0 <= i < m.len() && m[i].0 == k;
                    assert(d[i].0 == k);
                }
                if has_key(d, k) {
                    let i = choose|i: int| 0 <= i < d.len() && d[i].0 == k;
                    assert(m[i].0 == k);
                }
            }
        }
    }
}

/// A member kept inline is found in the row with the value of the last
/// member of that name.
proof fn lemma_kept_row_last(cfg: MeltConfig, m: RowView, k: Seq<char>)
    requires
        last_value(m, k) is Some,
        !extracts(cfg, k, last_value(m, k)->0),
    ensures
        lookup(kept_row(cfg, m), k) == last_value(m, k),
    decreases m.len(),
{
    let d = m.drop_last();
    let (kl, xl) = m.last();
    if kl == k {
        crate::assoc::lemma_lookup_insert_same(kept_row(cfg, d), kl, xl);
    } else {
        lemma_kept_row_last(cfg, d, k);
        if !extracts(cfg, kl, xl) {
            crate::assoc::lemma_lookup_insert_other(kept_row(cfg, d), kl, xl, k);
        }
    }
}

/// An object whose (last) `id` member is a number or a string is emitted
/// first, identified by that number's text or that string.
pub proof fn law_root_id_from_member(cfg: MeltConfig, m: RowView, c: u64)
    requires
        last_value(m, id_key()) matches Some(x) && (x is Number || x is String),
    ensures
        ({
            let es = melt_document(cfg, JsonView::Object(m), c).0;
            &&& es.len() > 0
            &&& es[0].id == Some(
                match last_value(m, id_key())->0 {
                    JsonView::Number(n) => crate::value::number_text(n),
                    JsonView::String(s) => s,
                    _ => Seq::empty(),
                },
            )
        }),
{
    lemma_kept_row_last(cfg, m, id_key());
}

/// Objects without an `id` member get synthetic identifiers; melted one
/// after the other by the same counter, the second gets a larger number.
pub proof fn law_generated_ids_increase(cfg: MeltConfig, m1: RowView, m2: RowView, c: u64)
    requires
        distinct_keys(m1),
        distinct_keys(m2),
        !has_key(m1, id_key()),
        !has_key(m2, id_key()),
        melt_document(cfg, JsonView::Object(m1), c).1 < u64::MAX,
    ensures
        ({
            let (es1, c1) = melt_document(cfg, JsonView::Object(m1), c);
            let (es2, c2) = melt_document(cfg, JsonView::Object(m2), c1);
            &&& es1.len() > 0 && es2.len() > 0
            &&& es1[0].id == Some(gen_id(next_counter(c)))
            &&& es2[0].id == Some(gen_id(next_counter(c1)))
            &&& next_counter(c) < next_counter(c1)
        }),
{
    lemma_kept_row_lookup(cfg, m1, id_key());
    lemma_kept_row_lookup(cfg, m2, id_key());
    let row = kept_row(cfg, m1);
    let (id, d1) = resolve_id(row, c);
    lemma_melt_fields_linked(cfg, m1, m1.len(), root_type(), id, 1, d1);
}


/// When parent ids are on, an entity with a parent carries the parent's
/// identifier in the column `field name + id_prefix`.
pub open spec fn fk_stamped(cfg: MeltConfig, e: EntityView) -> bool {
    match e.parent {
        Some(p) => cfg.include_parent_ids ==> lookup(e.data, p.field_name + cfg.id_prefix@) == Some(
            JsonView::String(p.id),
        ),
        None => true,
    }
}

/// Every entity of `es` is stamped.
pub open spec fn all_stamped(cfg: MeltConfig, es: Seq<EntityView>) -> bool {
    forall|j: int| 0 <= j < es.len() ==> fk_stamped(cfg, #[trigger] es[j])
}

pub proof fn lemma_stamped_concat(cfg: MeltConfig, a: Seq<EntityView>, b: Seq<EntityView>)
    requires
        all_stamped(cfg, a),
        all_stamped(cfg, b),
    ensures
        all_stamped(cfg, a + b),
{
    assert forall|j: int| 0 <= j < (a + b).len() implies fk_stamped(cfg, #[trigger] (a + b)[j]) by {
        if j < a.len() {
            assert((a + b)[j] == a[j]);
        } else {
            assert((a + b)[j] == b[j - a.len()]);
        }
    }
}

/// A row given its parent's column is stamped.
pub proof fn lemma_with_fk_stamped(cfg: MeltConfig, e: EntityView, row: RowView)
    requires
        e.data == with_fk(cfg, row, e.parent),
    ensures
        fk_stamped(cfg, e),
{
    if let Some(p) = e.parent {
        if cfg.include_parent_ids {
            crate::assoc::lemma_lookup_insert_same(row, p.field_name + cfg.id_prefix@, JsonView::String(p.id));
        }
    }
}

/// The wrapped entities of a scalar array are stamped.
pub proof fn lemma_scalar_entities_stamped(cfg: MeltConfig, ty: Seq<char>, parent: Option<ParentView>, items: Seq<JsonView>)
    ensures
        all_stamped(cfg, scalar_entities(cfg, ty, parent, items)),
{
    let es = scalar_entities(cfg, ty, parent, items);
    assert forall|j: int| 0 <= j < es.len() implies fk_stamped(cfg, #[trigger] es[j]) by {
        lemma_with_fk_stamped(
            cfg,
            es[j],
            seq![(value_key(), items[j]), (idx_key(), JsonView::Number(NumberView::PosInt(j as u64)))],
        );
    }
}

proof fn lemma_melt_value_stamped(
    cfg: MeltConfig,
    v: JsonView,
    ty: Seq<char>,
    parent: Option<ParentView>,
    depth: nat,
    c: u64,
)
    ensures
        all_stamped(cfg, melt_value(cfg, v, ty, parent, depth, c).0),
    decreases v, 1nat,
{
    if depth <= cfg.max_depth {
        match v {
            JsonView::Object(m) => {
                let row = kept_row(cfg, m);
                let (id, c1) = resolve_id(row, c);
                let e = EntityView { entity_type: ty, data: with_fk(cfg, row, parent), id: Some(id), parent };
                lemma_with_fk_stamped(cfg, e, row);
                lemma_melt_fields_stamped(cfg, m, m.len(), ty, id, depth + 1, c1);
                let rest = melt_fields(cfg, m, m.len(), ty, id, depth + 1, c1).0;
                assert(all_stamped(cfg, seq![e]));
                lemma_stamped_concat(cfg, seq![e], rest);
            },
            JsonView::Array(items) => {
                if is_entity_array(items) {
                    lemma_melt_items_stamped(cfg, items, items.len(), ty, parent, depth, c);
                } else {
                    lemma_scalar_entities_stamped(cfg, ty, parent, items);
                }
            },
            _ => {},
        }
    }
}

proof fn lemma_melt_fields_stamped(
    cfg: MeltConfig,
    m: RowView,
    n: nat,
    ty: Seq<char>,
    id: Seq<char>,
    depth: nat,
    c: u64,
)
    ensures
        all_stamped(cfg, melt_fields(cfg, m, n, ty, id, depth, c).0),
    decreases m, n,
{
    if n > 0 && n <= m.len() {
        lemma_melt_fields_stamped(cfg, m, (n - 1) as nat, ty, id, depth, c);
        let (prev, c1) = melt_fields(cfg, m, (n - 1) as nat, ty, id, depth, c);
        let k = m[n - 1].0;
        let x = m[n - 1].1;
        if extracts(cfg, k, x) {
            let p = ParentView { entity_type: ty, id, field_name: k };
            assert(decreases_to!(m => m[n - 1]));
            lemma_melt_value_stamped(cfg, x, child_type(cfg, ty, k), Some(p), depth, c1);
            let more = melt_value(cfg, x, child_type(cfg, ty, k), Some(p), depth, c1).0;
            lemma_stamped_concat(cfg, prev, more);
        }
    }
}

proof fn lemma_melt_items_stamped(
    cfg: MeltConfig,
    items: Seq<JsonView>,
    n: nat,
    ty: Seq<char>,
    parent: Option<ParentView>,
    depth: nat,
    c: u64,
)
    ensures
        all_stamped(cfg, melt_items(cfg, items, n, ty, parent, depth, c).0),
    decreases items, n,
{
    if n > 0 && n <= items.len() {
        lemma_melt_items_stamped(cfg, items, (n - 1) as nat, ty, parent, depth, c);
        let (prev, c1) = melt_items(cfg, items, (n - 1) as nat, ty, parent, depth, c);
        lemma_melt_value_stamped(cfg, items[n - 1], ty, parent, depth, c1);
        let more = melt_value(cfg, items[n - 1], ty, parent, depth, c1).0;
        lemma_stamped_concat(cfg, prev, more);
    }
}

/// In the melt of a document, with parent ids on, every entity with a
/// parent carries the parent's identifier in the column named by the
/// parent's field and the id prefix.
pub proof fn law_children_carry_parent_id(cfg: MeltConfig, v: JsonView, c: u64)
    ensures
        all_stamped(cfg, melt_document(cfg, v, c).0),
{
    lemma_melt_value_stamped(cfg, v, root_type(), None, 0, c);
}

} // verus!
