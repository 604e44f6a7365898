//! The melt that follows a compiled plan instead of inspecting each node.
use vstd::prelude::*;
use vstd::string::*;
use crate::assoc::{assoc_view, lookup, assoc_insert, assoc_set, assoc_get, has_key, distinct_keys, last_value};
use crate::value::{JsonValue, JsonView, JsonNumber, NumberView, members_view, values_view};
use crate::entity::{
    RowView, resolve_id, Entity, EntityView, ParentRef, ParentView, MeltConfig,
    entities_view, parent_view,
};
use crate::extractor::{
    with_fk, scalar_entities, scalar_entity, value_key, idx_key, root_type, add_fk, linked, target_of,
    names_entity, all_stamped, lemma_stamped_concat, lemma_with_fk_stamped,
};
use crate::plan::{
    ArrayType, RuleView, PlanView, PlansView, FieldRule, EntityPlan, MeltPlan, names_view, compile_schema,
    compile_properties, node_type, properties_of, type_key, properties_key, object_name, array_name,
    root_name,
};
use crate::schema::{
    schema_of, schema_of_stats, stats_of, absorb, absorb_members, empty_stats, props_schema, kind_name,
    kind_at, count_set, first_kind_from, JsonType, StatsView,
};

verus! {

/// `plan` extracts the member `k`: it is not listed as inline and its rule
/// makes it a nested entity or an array of entities.
pub open spec fn plan_extracts(plan: PlanView, k: Seq<char>) -> bool {
    !plan.scalar_fields.contains(k) && match lookup(plan.nested_fields, k) {
        Some(RuleView::Nested(_)) => true,
        Some(RuleView::Array(_, _)) => true,
        _ => false,
    }
}

/// The row of an object under `plan`: every member the plan does not
/// extract (listed as inline, ruled `Scalar`, or unknown to the plan), each
/// set in turn.
pub open spec fn plan_row(plan: PlanView, m: RowView) -> RowView
    decreases m.len(),
{
    if m.len() == 0 {
        Seq::empty()
    } else {
        let rest = plan_row(plan, m.drop_last());
        let k = m.last().0;
        if !plan_extracts(plan, k) {
            assoc_insert(rest, k, m.last().1)
        } else {
            rest
        }
    }
}

/// The melt of `v` as type `ty` under the plans: nothing for a type without
/// a plan; an object's entity and then its planned fields; each element of an
/// array as a sibling of the same type and parent.
pub open spec fn planned_value(
    plans: PlansView,
    cfg: MeltConfig,
    v: JsonView,
    ty: Seq<char>,
    parent: Option<ParentView>,
    c: u64,
) -> (Seq<EntityView>, u64)
    decreases v, 1nat,
{
    match lookup(plans, ty) {
        None => (Seq::empty(), c),
        Some(plan) => match v {
            JsonView::Object(m) => {
                let row = plan_row(plan, m);
                let (id, c1) = resolve_id(row, c);
                let e = EntityView {
                    entity_type: ty,
                    data: with_fk(cfg, row, parent),
                    id: Some(id),
                    parent,
                };
                let (rest, c2) = planned_fields(plans, cfg, plan, m, m.len(), ty, id, c1);
                (seq![e] + rest, c2)
            },
            JsonView::Array(items) => planned_items(plans, cfg, items, items.len(), ty, parent, c),
            _ => (Seq::empty(), c),
        },
    }
}

/// The melt of the planned nested members among the first `n` of `m`.
pub open spec fn planned_fields(
    plans: PlansView,
    cfg: MeltConfig,
    plan: PlanView,
    m: RowView,
    n: nat,
    ty: Seq<char>,
    id: Seq<char>,
    c: u64,
) -> (Seq<EntityView>, u64)
    decreases m, n,
{
    if n == 0 || n > m.len() {
        (Seq::empty(), c)
    } else {
        let (prev, c1) = planned_fields(plans, cfg, plan, m, (n - 1) as nat, ty, id, c);
        let k = m[n - 1].0;
        let x = m[n - 1].1;
        let p = Some(ParentView { entity_type: ty, id, field_name: k });
        if plan.scalar_fields.contains(k) {
            (prev, c1)
        } else {
            match lookup(plan.nested_fields, k) {
                Some(RuleView::Array(nt, kind)) => {
                    let (more, c2) = planned_elements(plans, cfg, x, nt, kind, p, c1);
                    (prev + more, c2)
                },
                Some(RuleView::Nested(nt)) => {
                    let (more, c2) = planned_value(plans, cfg, x, nt, p, c1);
                    (prev + more, c2)
                },
                _ => (prev, c1),
            }
        }
    }
}

/// The melt of an array field by its element kind.
pub open spec fn planned_elements(
    plans: PlansView,
    cfg: MeltConfig,
    x: JsonView,
    ty: Seq<char>,
    kind: ArrayType,
    parent: Option<ParentView>,
    c: u64,
) -> (Seq<EntityView>, u64)
    decreases x, 0nat,
{
    match x {
        JsonView::Array(items) => match kind {
            ArrayType::Objects => planned_items(plans, cfg, items, items.len(), ty, parent, c),
            ArrayType::Scalars => (scalar_entities(cfg, ty, parent, items), c),
            ArrayType::Empty => (Seq::empty(), c),
        },
        _ => (Seq::empty(), c),
    }
}

/// The melt of the first `n` elements, each as type `ty` with the same parent.
pub open spec fn planned_items(
    plans: PlansView,
    cfg: MeltConfig,
    items: Seq<JsonView>,
    n: nat,
    ty: Seq<char>,
    parent: Option<ParentView>,
    c: u64,
) -> (Seq<EntityView>, u64)
    decreases items, n,
{
    if n == 0 || n > items.len() {
        (Seq::empty(), c)
    } else {
        let (prev, c1) = planned_items(plans, cfg, items, (n - 1) as nat, ty, parent, c);
        let (more, c2) = planned_value(plans, cfg, items[n - 1], ty, parent, c1);
        (prev + more, c2)
    }
}

/// Whether `x` is among the names `v`.
pub(crate) fn names_contain(v: &Vec<String>, x: &String) -> (r: bool)
    ensures
        r == names_view(v@).contains(x@),
{
    let mut i: usize = 0;
    while i < v.len()
        invariant
            i <= v.len(),
            forall|j: int| 0 <= j < i ==> (#[trigger] v@[j])@ != x@,
        decreases v.len() - i,
    {
        if v[i] == *x {
            assert(names_view(v@)[i as int] == x@);
            return true;
        }
        i = i + 1;
    }
    proof {
        if names_view(v@).contains(x@) {
            let j = choose|j: int| 0 <= j < names_view(v@).len() && names_view(v@)[j] == x@;
            assert(v@[j]@ == x@);
        }
    }
    false
}

/// The melt driven by a compiled plan. Synthetic identifiers come from a
/// counter owned by the melter.
pub struct PlannedMelter {
    plan: MeltPlan,
    id_counter: u64,
}

/// The plans of a compiled plan, as views.
pub open spec fn plans_of(plan: MeltPlan) -> PlansView {
    assoc_view(plan.entity_plans@)
}

/// The melt of a whole document under a compiled plan.
pub open spec fn planned_document(plan: MeltPlan, v: JsonView, c: u64) -> (Seq<EntityView>, u64) {
    planned_value(plans_of(plan), plan.config, v, root_type(), None, c)
}

impl PlannedMelter {
    /// The plan this melter follows.
    pub closed spec fn spec_plan(&self) -> MeltPlan {
        self.plan
    }

    /// The last synthetic identifier number handed out (zero before any).
    pub closed spec fn counter(&self) -> u64 {
        self.id_counter
    }

    /// A melter that follows `plan`, with a fresh counter.
    pub fn new(plan: MeltPlan) -> (r: PlannedMelter)
        ensures
            r.spec_plan() == plan,
            r.counter() == 0,
    {
        PlannedMelter { plan, id_counter: 0 }
    }

    /// A melter whose plan is compiled from the schema of sample documents.
    pub fn from_examples(examples: &Vec<JsonValue>, config: MeltConfig) -> (r: PlannedMelter)
        ensures
            plans_of(r.spec_plan()) == compile_schema(config, schema_of(values_view(examples@))),
            crate::plan::plans_wf(plans_of(r.spec_plan())),
            r.spec_plan().config == config,
            r.counter() == 0,
    {
        PlannedMelter::new(MeltPlan::from_examples(examples, config))
    }

    /// Melts one document by the plan.
    pub fn melt(&mut self, value: JsonValue) -> (r: Vec<Entity>)
        ensures
            final(self).spec_plan() == old(self).spec_plan(),
            (entities_view(r@), final(self).counter()) == planned_document(
                old(self).spec_plan(),
                value@,
                old(self).counter(),
            ),
    {
        let mut entities: Vec<Entity> = Vec::new();
        let root = String::from_str("root");
        proof {
            reveal_strlit("root");
            assert(root@ =~= root_type());
        }
        extract_with_plan(&self.plan, &mut self.id_counter, &value, &root, &None, &mut entities);
        assert(entities_view(entities@) =~= planned_document(self.plan, value@, old(self).id_counter).0);
        entities
    }
}

/// Appends the planned melt of `value` as type `entity_type`.
fn extract_with_plan(
    plan: &MeltPlan,
    counter: &mut u64,
    value: &JsonValue,
    entity_type: &String,
    parent: &Option<ParentRef>,
    entities: &mut Vec<Entity>,
)
    ensures
        ({
            let (es, c) = planned_value(plans_of(*plan), plan.config, value@, entity_type@, parent_view(*parent), *old(counter));
            entities_view(final(entities)@) == entities_view(old(entities)@) + es && *final(counter) == c
        }),
    decreases value, 2nat,
{
    let entity_plan = match plan.get_plan(entity_type) {
        Some(p) => p,
        None => {
            assert(entities_view(entities@) =~= entities_view(old(entities)@) + Seq::<EntityView>::empty());
            return ;
        },
    };
    match value {
        JsonValue::Object(_) => {
            extract_object_with_plan(plan, counter, value, entity_plan, entity_type, parent, entities);
        },
        JsonValue::Array(_) => {
            extract_array_with_plan(plan, counter, value, entity_type, parent, entities);
        },
        _ => {
            assert(entities_view(entities@) =~= entities_view(old(entities)@) + Seq::<EntityView>::empty());
        },
    }
}

/// Emits an object's entity by the plan of its type, then its planned fields.
fn extract_object_with_plan(
    plan: &MeltPlan,
    counter: &mut u64,
    value: &JsonValue,
    entity_plan: &EntityPlan,
    entity_type: &String,
    parent: &Option<ParentRef>,
    entities: &mut Vec<Entity>,
)
    requires
        value is Object,
        lookup(plans_of(*plan), entity_type@) == Some(entity_plan@),
    ensures
        ({
            let (es, c) = planned_value(plans_of(*plan), plan.config, value@, entity_type@, parent_view(*parent), *old(counter));
            entities_view(final(entities)@) == entities_view(old(entities)@) + es && *final(counter) == c
        }),
    decreases value, 1nat,
{
    let members = match value {
        JsonValue::Object(m) => m,
        _ => {
            return ;
        },
    };
    let ghost pv = entity_plan@;
    let ghost mv = members_view(members@);
    let ghost plans = plans_of(*plan);
    let ghost cfg = plan.config;
    assert(value@ == JsonView::Object(mv)) by {
        assert(value@->Object_0 =~= mv);
    }
    let mut entity_data: Vec<(String, JsonValue)> = Vec::new();
    let mut i: usize = 0;
    while i < members.len()
        invariant
            i <= members.len(),
            mv == members_view(members@),
            pv == entity_plan@,
            members_view(entity_data@) == plan_row(pv, mv.take(i as int)),
        decreases members.len() - i,
    {
        assert(mv.take(i + 1).drop_last() =~= mv.take(i as int));
        let k = &members[i].0;
        let inline = names_contain(&entity_plan.scalar_fields, k) || match assoc_get(
            &entity_plan.nested_fields,
            k,
        ) {
            Some(FieldRule::NestedEntity { .. }) => false,
            Some(FieldRule::ArrayEntity { .. }) => false,
            _ => true,
        };
        if inline {
            assoc_set(&mut entity_data, k.clone(), members[i].1.copy());
        }
        i = i + 1;
    }
    assert(mv.take(members.len() as int) =~= mv);
    let mut entity = Entity::new(entity_type.clone(), entity_data);
    if let Some(p) = parent {
        entity = entity.with_parent(p.copy());
    }
    let entity_id = entity.get_or_generate_id(counter);
    add_fk(&plan.config, &mut entity.data, parent);
    entities.push(entity);
    let ghost start = entities_view(entities@);
    let ghost c1 = *counter;
    assert(start =~= entities_view(old(entities)@).push(entity@));
    let mut j: usize = 0;
    while j < members.len()
        invariant
            j <= members.len(),
            *value == JsonValue::Object(*members),
            mv == members_view(members@),
            pv == entity_plan@,
            plans == plans_of(*plan),
            cfg == plan.config,
            ({
                let (es, c) = planned_fields(plans, cfg, pv, mv, j as nat, entity_type@, entity_id@, c1);
                entities_view(entities@) == start + es && *counter == c
            }),
        decreases members.len() - j,
    {
        let k = &members[j].0;
        let x = &members[j].1;
        proof {
            assert(decreases_to!(*value => value->Object_0));
            assert(decreases_to!(value->Object_0 => value->Object_0@));
            assert(decreases_to!(value->Object_0@ => value->Object_0@[j as int]));
            assert(decreases_to!(value->Object_0@[j as int] => value->Object_0@[j as int].1));
        }
        if !names_contain(&entity_plan.scalar_fields, k) {
            match assoc_get(&entity_plan.nested_fields, k) {
                Some(FieldRule::ArrayEntity { entity_type: nested_type, element_type }) => {
                    let parent_ref = ParentRef {
                        entity_type: entity_type.clone(),
                        id: entity_id.copy(),
                        field_name: k.clone(),
                    };
                    extract_array_elements(plan, counter, x, nested_type, *element_type, &Some(parent_ref), entities);
                },
                Some(FieldRule::NestedEntity { entity_type: nested_type }) => {
                    let parent_ref = ParentRef {
                        entity_type: entity_type.clone(),
                        id: entity_id.copy(),
                        field_name: k.clone(),
                    };
                    extract_with_plan(plan, counter, x, nested_type, &Some(parent_ref), entities);
                },
                _ => {},
            }
        }
        assert(entities_view(entities@) =~= start + planned_fields(plans, cfg, pv, mv, (j + 1) as nat, entity_type@, entity_id@, c1).0);
        j = j + 1;
    }
    assert(entities_view(entities@) =~= entities_view(old(entities)@) + planned_value(plans, cfg, value@, entity_type@, parent_view(*parent), *old(counter)).0);
}

/// Emits each element of an array met where an entity was expected, as a
/// sibling of the same type and parent.
fn extract_array_with_plan(
    plan: &MeltPlan,
    counter: &mut u64,
    value: &JsonValue,
    entity_type: &String,
    parent: &Option<ParentRef>,
    entities: &mut Vec<Entity>,
)
    requires
        value is Array,
        lookup(plans_of(*plan), entity_type@) is Some,
    ensures
        ({
            let (es, c) = planned_value(plans_of(*plan), plan.config, value@, entity_type@, parent_view(*parent), *old(counter));
            entities_view(final(entities)@) == entities_view(old(entities)@) + es && *final(counter) == c
        }),
    decreases value, 1nat,
{
    let items = match value {
        JsonValue::Array(a) => a,
        _ => {
            return ;
        },
    };
    let ghost iv = values_view(items@);
    assert(value@ == JsonView::Array(iv)) by {
        assert(value@->Array_0 =~= iv);
    }
    extract_items(plan, counter, value, items, entity_type, parent, entities);
}

/// Emits each of `items`, the elements of `value`, as type `entity_type`.
fn extract_items(
    plan: &MeltPlan,
    counter: &mut u64,
    value: &JsonValue,
    items: &Vec<JsonValue>,
    entity_type: &String,
    parent: &Option<ParentRef>,
    entities: &mut Vec<Entity>,
)
    requires
        *value == JsonValue::Array(*items),
    ensures
        ({
            let iv = values_view(items@);
            let (es, c) = planned_items(plans_of(*plan), plan.config, iv, iv.len(), entity_type@, parent_view(*parent), *old(counter));
            entities_view(final(entities)@) == entities_view(old(entities)@) + es && *final(counter) == c
        }),
    decreases value, 0nat,
{
    let ghost iv = values_view(items@);
    let ghost plans = plans_of(*plan);
    let ghost cfg = plan.config;
    let ghost start = entities_view(entities@);
    let ghost c0 = *counter;
    let mut j: usize = 0;
    while j < items.len()
        invariant
            j <= items.len(),
            *value == JsonValue::Array(*items),
            iv == values_view(items@),
            plans == plans_of(*plan),
            cfg == plan.config,
            ({
                let (es, c) = planned_items(plans, cfg, iv, j as nat, entity_type@, parent_view(*parent), c0);
                entities_view(entities@) == start + es && *counter == c
            }),
        decreases items.len() - j,
    {
        proof {
            assert(decreases_to!(*value => value->Array_0));
            assert(decreases_to!(value->Array_0 => value->Array_0@));
            assert(decreases_to!(value->Array_0@ => value->Array_0@[j as int]));
        }
        extract_with_plan(plan, counter, &items[j], entity_type, parent, entities);
        assert(entities_view(entities@) =~= start + planned_items(plans, cfg, iv, (j + 1) as nat, entity_type@, parent_view(*parent), c0).0);
        j = j + 1;
    }
}

/// Emits the entities of an array field by its element kind: each object
/// melted, each scalar wrapped with its position, or nothing.
fn extract_array_elements(
    plan: &MeltPlan,
    counter: &mut u64,
    value: &JsonValue,
    entity_type: &String,
    element_type: ArrayType,
    parent: &Option<ParentRef>,
    entities: &mut Vec<Entity>,
)
    ensures
        ({
            let (es, c) = planned_elements(plans_of(*plan), plan.config, value@, entity_type@, element_type, parent_view(*parent), *old(counter));
            entities_view(final(entities)@) == entities_view(old(entities)@) + es && *final(counter) == c
        }),
    decreases value, 1nat,
{
    let items = match value {
        JsonValue::Array(a) => a,
        _ => {
            assert(entities_view(entities@) =~= entities_view(old(entities)@) + Seq::<EntityView>::empty());
            return ;
        },
    };
    let ghost iv = values_view(items@);
    let ghost cfg = plan.config;
    assert(value@ == JsonView::Array(iv)) by {
        assert(value@->Array_0 =~= iv);
    }
    match element_type {
        ArrayType::Objects => {
            extract_items(plan, counter, value, items, entity_type, parent, entities);
        },
        ArrayType::Scalars => {
            let ghost start = entities_view(entities@);
            let value_name = String::from_str("value");
            let idx_name = String::from_str("_idx");
            proof {
                reveal_strlit("value");
                reveal_strlit("_idx");
                assert(value_name@ =~= value_key());
                assert(idx_name@ =~= idx_key());
            }
            let mut j: usize = 0;
            while j < items.len()
                invariant
                    j <= items.len(),
                    iv == values_view(items@),
                    cfg == plan.config,
                    *counter == *old(counter),
                    value_name@ == value_key(),
                    idx_name@ == idx_key(),
                    entities_view(entities@) == start + scalar_entities(cfg, entity_type@, parent_view(*parent), iv.take(j as int)),
                decreases items.len() - j,
            {
                let mut data: Vec<(String, JsonValue)> = Vec::new();
                data.push((value_name.clone(), items[j].copy()));
                data.push((idx_name.clone(), JsonValue::Number(JsonNumber::PosInt(j as u64))));
                let mut entity = Entity::new(entity_type.clone(), data);
                if let Some(p) = parent {
                    entity = entity.with_parent(p.copy());
                }
                add_fk(&plan.config, &mut entity.data, parent);
                assert(entity@ == scalar_entity(cfg, entity_type@, parent_view(*parent), iv[j as int], j as int)) by {
                    assert(members_view(data@) =~= seq![(value_key(), iv[j as int]), (idx_key(), JsonView::Number(NumberView::PosInt(j as u64)))]);
                }
                let ghost ev = entity@;
                let ghost prev = entities_view(entities@);
                entities.push(entity);
                assert(entities_view(entities@) =~= prev.push(ev));
                assert(scalar_entities(cfg, entity_type@, parent_view(*parent), iv.take(j + 1)) =~= scalar_entities(cfg, entity_type@, parent_view(*parent), iv.take(j as int)).push(ev));
                j = j + 1;
            }
            assert(iv.take(items.len() as int) =~= iv);
        },
        ArrayType::Empty => {
            assert(entities_view(entities@) =~= entities_view(old(entities)@) + Seq::<EntityView>::empty());
        },
    }
}


/// A value that is neither an array nor an object.
pub open spec fn is_scalar(v: JsonView) -> bool {
    !(v is Array) && !(v is Object)
}

/// An object whose members all hold scalars, under distinct names.
pub open spec fn flat_object(m: RowView) -> bool {
    &&& distinct_keys(m)
    &&& forall|i: int| 0 <= i < m.len() ==> is_scalar(#[trigger] m[i].1)
}

/// The first member of a list is found under its key.
proof fn lemma_lookup_first<V>(m: Seq<(Seq<char>, V)>)
    requires
        m.len() > 0,
    ensures
        lookup(m, m[0].0) == Some(m[0].1),
{
    assert(crate::assoc::key_at(m, m[0].0, 0));
    crate::assoc::lemma_key_pos(m, m[0].0);
}

/// The second member of a list is found under its key when the first has another.
proof fn lemma_lookup_second<V>(m: Seq<(Seq<char>, V)>)
    requires
        m.len() > 1,
        m[0].0 != m[1].0,
    ensures
        lookup(m, m[1].0) == Some(m[1].1),
{
    assert(crate::assoc::key_at(m, m[1].0, 1));
    crate::assoc::lemma_key_pos(m, m[1].0);
}

/// Adding a name keeps the names there and makes it present.
proof fn lemma_set_add(s: Seq<Seq<char>>, x: Seq<char>)
    ensures
        crate::plan::set_add(s, x).contains(x),
        forall|y: Seq<char>| s.contains(y) ==> crate::plan::set_add(s, x).contains(y),
{
    if !s.contains(x) {
        let r = s.push(x);
        assert(r[s.len() as int] == x);
        assert forall|y: Seq<char>| s.contains(y) implies r.contains(y) by {
            let i = choose|i: int| 0 <= i < s.len() && s[i] == y;
            assert(r[i] == y);
        }
    }
}

/// Under a plan that keeps every name of a flat object inline, its row is
/// the one the direct melt builds.
proof fn lemma_flat_rows(cfg: MeltConfig, plan: PlanView, m: RowView)
    requires
        flat_object(m),
        forall|i: int| 0 <= i < m.len() ==> plan.scalar_fields.contains(#[trigger] m[i].0),
    ensures
        plan_row(plan, m) == crate::extractor::kept_row(cfg, m),
    decreases m.len(),
{
    if m.len() > 0 {
        let d = m.drop_last();
        assert(forall|i: int| 0 <= i < d.len() ==> d[i] == m[i]);
        lemma_flat_rows(cfg, plan, d);
        assert(plan.scalar_fields.contains(m[m.len() - 1].0));
    }
}

/// Neither melt emits anything for the members of a flat object.
proof fn lemma_flat_fields(
    plans: PlansView,
    cfg: MeltConfig,
    plan: PlanView,
    m: RowView,
    n: nat,
    ty: Seq<char>,
    id: Seq<char>,
    c: u64,
)
    requires
        flat_object(m),
        n <= m.len(),
        forall|i: int| 0 <= i < m.len() ==> plan.scalar_fields.contains(#[trigger] m[i].0),
    ensures
        planned_fields(plans, cfg, plan, m, n, ty, id, c) == (Seq::<EntityView>::empty(), c),
        crate::extractor::melt_fields(cfg, m, n, ty, id, 1, c) == (Seq::<EntityView>::empty(), c),
    decreases n,
{
    if n > 0 {
        lemma_flat_fields(plans, cfg, plan, m, (n - 1) as nat, ty, id, c);
        assert(plan.scalar_fields.contains(m[n - 1].0));
        assert(is_scalar(m[n - 1].1));
    }
}

/// The planned melt of a value keeps parents before children.
proof fn lemma_planned_value_linked(
    plans: PlansView,
    cfg: MeltConfig,
    v: JsonView,
    ty: Seq<char>,
    parent: Option<ParentView>,
    c: u64,
)
    ensures
        linked(planned_value(plans, cfg, v, ty, parent, c).0, target_of(parent)),
    decreases v, 1nat,
{
    match lookup(plans, ty) {
        None => {},
        Some(plan) => match v {
            JsonView::Object(m) => {
                let row = plan_row(plan, m);
                let (id, c1) = resolve_id(row, c);
                let e = EntityView { entity_type: ty, data: with_fk(cfg, row, parent), id: Some(id), parent };
                let (rest, c2) = planned_fields(plans, cfg, plan, m, m.len(), ty, id, c1);
                lemma_planned_fields_linked(plans, cfg, plan, m, m.len(), ty, id, c1);
                let es = seq![e] + rest;
                assert forall|j: int|
                    #![trigger es[j]]
                    0 <= j < es.len() && es[j].parent is Some implies (target_of(es[j].parent)
                        == target_of(parent) && target_of(parent) is Some) || exists|i: int|
                        0 <= i < j && names_entity(es[j].parent->0, #[trigger] es[i]) by {
                    if j > 0 {
                        assert(es[j] == rest[j - 1]);
                        if target_of(rest[j - 1].parent) == Some((ty, id)) {
                            assert(names_entity(es[j].parent->0, es[0]));
                        } else {
                            let i = choose|i: int| 0 <= i < j - 1 && names_entity(rest[j - 1].parent->0, #[trigger] rest[i]);
                            assert(es[i + 1] == rest[i]);
                        }
                    }
                }
            },
            JsonView::Array(items) => {
                lemma_planned_items_linked(plans, cfg, items, items.len(), ty, parent, c);
            },
            _ => {},
        },
    }
}

proof fn lemma_planned_fields_linked(
    plans: PlansView,
    cfg: MeltConfig,
    plan: PlanView,
    m: RowView,
    n: nat,
    ty: Seq<char>,
    id: Seq<char>,
    c: u64,
)
    ensures
        linked(planned_fields(plans, cfg, plan, m, n, ty, id, c).0, Some((ty, id))),
    decreases m, n,
{
    if n == 0 || n > m.len() {
    } else {
        let (prev, c1) = planned_fields(plans, cfg, plan, m, (n - 1) as nat, ty, id, c);
        lemma_planned_fields_linked(plans, cfg, plan, m, (n - 1) as nat, ty, id, c);
        let k = m[n - 1].0;
        let x = m[n - 1].1;
        let p = Some(ParentView { entity_type: ty, id, field_name: k });
        assert(decreases_to!(m => m[n - 1]));
        if !plan.scalar_fields.contains(k) {
            match lookup(plan.nested_fields, k) {
                Some(RuleView::Array(nt, kind)) => {
                    lemma_planned_elements_linked(plans, cfg, x, nt, kind, p, c1);
                    let (more, c2) = planned_elements(plans, cfg, x, nt, kind, p, c1);
                    crate::extractor::lemma_linked_concat(prev, more, Some((ty, id)));
                },
                Some(RuleView::Nested(nt)) => {
                    lemma_planned_value_linked(plans, cfg, x, nt, p, c1);
                    let (more, c2) = planned_value(plans, cfg, x, nt, p, c1);
                    crate::extractor::lemma_linked_concat(prev, more, Some((ty, id)));
                },
                _ => {},
            }
        }
    }
}

proof fn lemma_planned_elements_linked(
    plans: PlansView,
    cfg: MeltConfig,
    x: JsonView,
    ty: Seq<char>,
    kind: ArrayType,
    parent: Option<ParentView>,
    c: u64,
)
    ensures
        linked(planned_elements(plans, cfg, x, ty, kind, parent, c).0, target_of(parent)),
    decreases x, 0nat,
{
    match x {
        JsonView::Array(items) => match kind {
            ArrayType::Objects => {
                lemma_planned_items_linked(plans, cfg, items, items.len(), ty, parent, c);
            },
            ArrayType::Scalars => {
                let es = scalar_entities(cfg, ty, parent, items);
                assert forall|j: int|
                    #![trigger es[j]]
                    0 <= j < es.len() && es[j].parent is Some implies (target_of(es[j].parent)
                        == target_of(parent) && target_of(parent) is Some) || exists|i: int|
                        0 <= i < j && names_entity(es[j].parent->0, #[trigger] es[i]) by {}
            },
            ArrayType::Empty => {},
        },
        _ => {},
    }
}

proof fn lemma_planned_items_linked(
    plans: PlansView,
    cfg: MeltConfig,
    items: Seq<JsonView>,
    n: nat,
    ty: Seq<char>,
    parent: Option<ParentView>,
    c: u64,
)
    ensures
        linked(planned_items(plans, cfg, items, n, ty, parent, c).0, target_of(parent)),
    decreases items, n,
{
    if n == 0 || n > items.len() {
    } else {
        let (prev, c1) = planned_items(plans, cfg, items, (n - 1) as nat, ty, parent, c);
        lemma_planned_items_linked(plans, cfg, items, (n - 1) as nat, ty, parent, c);
        lemma_planned_value_linked(plans, cfg, items[n - 1], ty, parent, c1);
        let (more, c2) = planned_value(plans, cfg, items[n - 1], ty, parent, c1);
        crate::extractor::lemma_linked_concat(prev, more, target_of(parent));
    }
}

/// In the planned melt of a document, an entity with a parent comes after
/// an entity that the parent reference names.
pub proof fn law_planned_parents_precede_children(plan: MeltPlan, v: JsonView, c: u64)
    ensures
        ({
            let es = planned_document(plan, v, c).0;
            forall|j: int|
                0 <= j < es.len() && (#[trigger] es[j]).parent is Some ==> exists|i: int|
                    0 <= i < j && names_entity(es[j].parent->0, #[trigger] es[i])
        }),
{
    lemma_planned_value_linked(plans_of(plan), plan.config, v, root_type(), None, c);
}


/// Statistics that saw neither an array nor an object.
pub open spec fn scalar_stats(st: StatsView) -> bool {
    st.kinds.len() == 7 && !st.kinds[0] && !st.kinds[5]
}

/// Every property statistics of the list saw only scalars.
pub open spec fn scalar_props(ps: Seq<(Seq<char>, StatsView)>) -> bool {
    forall|i: int| 0 <= i < ps.len() ==> scalar_stats(#[trigger] ps[i].1)
}

/// Samples that are all flat objects.
pub open spec fn flat_samples(s: Seq<JsonView>) -> bool {
    forall|i: int| 0 <= i < s.len() ==> (#[trigger] s[i]) is Object && flat_object(s[i]->Object_0)
}

proof fn lemma_absorb_scalar(st: StatsView, x: JsonView)
    requires
        scalar_stats(st),
        is_scalar(x),
    ensures
        scalar_stats(absorb(st, x)),
{
}

proof fn lemma_insert_scalar_props(ps: Seq<(Seq<char>, StatsView)>, k: Seq<char>, st: StatsView)
    requires
        scalar_props(ps),
        scalar_stats(st),
    ensures
        scalar_props(assoc_insert(ps, k, st)),
{
    let r = assoc_insert(ps, k, st);
    if has_key(ps, k) {
        crate::assoc::lemma_key_pos(ps, k);
        let p = crate::assoc::key_pos(ps, k);
        assert forall|i: int| 0 <= i < r.len() implies scalar_stats(#[trigger] r[i].1) by {
            if i != p {
                assert(r[i] == ps[i]);
            }
        }
    } else {
        assert forall|i: int| 0 <= i < r.len() implies scalar_stats(#[trigger] r[i].1) by {
            if i < ps.len() {
                assert(r[i] == ps[i]);
            }
        }
    }
}

proof fn lemma_absorb_members_scalar(props: Seq<(Seq<char>, StatsView)>, m: RowView, n: nat)
    requires
        scalar_props(props),
        forall|j: int| 0 <= j < m.len() ==> is_scalar(#[trigger] m[j].1),
        n <= m.len(),
    ensures
        scalar_props(absorb_members(props, m, n)),
    decreases n,
{
    if n > 0 {
        lemma_absorb_members_scalar(props, m, (n - 1) as nat);
        let ps = absorb_members(props, m, (n - 1) as nat);
        let cur = match lookup(ps, m[n - 1].0) {
            Some(b) => b,
            None => empty_stats(),
        };
        if has_key(ps, m[n - 1].0) {
            crate::assoc::lemma_key_pos(ps, m[n - 1].0);
        }
        assert(scalar_stats(cur));
        assert(is_scalar(m[n - 1].1));
        lemma_absorb_scalar(cur, m[n - 1].1);
        lemma_insert_scalar_props(ps, m[n - 1].0, absorb(cur, m[n - 1].1));
    }
}

/// The statistics of flat objects: only objects seen, and property
/// statistics that saw only scalars.
proof fn lemma_flat_stats(s: Seq<JsonView>)
    requires
        flat_samples(s),
    ensures
        stats_of(s).kinds =~= Seq::new(7, |i: int| i == 5 && s.len() > 0),
        scalar_props(stats_of(s).props),
        stats_of(s).object == (s.len() > 0),
    decreases s.len(),
{
    if s.len() > 0 {
        let d = s.drop_last();
        let v = s.last();
        assert(s =~= d.push(v));
        assert(flat_samples(d)) by {
            assert forall|i: int| 0 <= i < d.len() implies (#[trigger] d[i]) is Object && flat_object(d[i]->Object_0) by {
                assert(d[i] == s[i]);
            }
        }
        lemma_flat_stats(d);
        crate::schema::lemma_stats_push(d, v);
        assert(v == s[s.len() - 1]);
        let m = v->Object_0;
        lemma_absorb_members_scalar(stats_of(d).props, m, m.len());
    }
}

/// The schema of statistics that saw only scalars names neither `array`
/// nor `object` as its single type.
proof fn lemma_scalar_stats_type(st: StatsView)
    requires
        scalar_stats(st),
    ensures
        node_type(schema_of_stats(st)) != Some(array_name()),
        node_type(schema_of_stats(st)) != Some(object_name()),
{
    let k = st.kinds;
    reveal_with_fuel(count_set, 8);
    reveal_with_fuel(first_kind_from, 8);
    assert(kind_name(JsonType::Number)[0] != object_name()[0]);
    assert(kind_name(JsonType::String)[0] != object_name()[0]);
    let sch = schema_of_stats(st);
    let count = count_set(k, 7);
    if count == 0 {
    } else if count == 1 {
        let t = kind_at(first_kind_from(k, 0, 7));
        assert(t != JsonType::Array && t != JsonType::Object);
        let members = sch->Object_0;
        lemma_lookup_first(members);
    } else if count == 2 && k[3] {
        let t = kind_at(first_kind_from(k, 0, 3));
        assert(t != JsonType::Array && t != JsonType::Object);
        let inner = crate::schema::single_schema(st, t);
        let m = inner->Object_0;
        lemma_lookup_first(m);
        assert(distinct_keys(m));
        crate::assoc::lemma_insert_distinct(
            m,
            type_key(),
            JsonView::Array(seq![JsonView::String(m[0].1->String_0), JsonView::String(kind_name(JsonType::Null))]),
        );
    } else {
        lemma_lookup_first(sch->Object_0);
    }
}

/// Compiling property schemas that saw only scalars keeps every name
/// inline and reaches no other type.
proof fn lemma_scalar_compile(cfg: MeltConfig, props: Seq<(Seq<char>, StatsView)>, n: nat, plans: PlansView)
    requires
        scalar_props(props),
        n <= props.len(),
    ensures
        ({
            let (plan, ps) = compile_properties(cfg, props_schema(props), n, root_name(), 0, plans);
            &&& ps == plans
            &&& plan.entity_type == root_name()
            &&& plan.nested_fields.len() == 0
            &&& forall|i: int| 0 <= i < n ==> plan.scalar_fields.contains(#[trigger] props[i].0)
        }),
    decreases n,
{
    let ps_schema = props_schema(props);
    if n > 0 {
        lemma_scalar_compile(cfg, props, (n - 1) as nat, plans);
        let (plan, ps) = compile_properties(cfg, ps_schema, (n - 1) as nat, root_name(), 0, plans);
        assert(ps_schema[n - 1] == (props[n - 1].0, schema_of_stats(props[n - 1].1)));
        assert(scalar_stats(props[n - 1].1));
        lemma_scalar_stats_type(props[n - 1].1);
        let (plan2, ps2) = compile_properties(cfg, ps_schema, n, root_name(), 0, plans);
        lemma_set_add(plan.scalar_fields, props[n - 1].0);
        assert(plan2.scalar_fields == crate::plan::set_add(plan.scalar_fields, props[n - 1].0));
        assert forall|i: int| 0 <= i < n implies plan2.scalar_fields.contains(#[trigger] props[i].0) by {
            if i < n - 1 {
                assert(plan.scalar_fields.contains(props[i].0));
            }
        }
    }
}

/// For samples that are all flat objects, the plan compiled from their
/// schema melts each of them exactly as the direct melt does: same
/// entities, same counter.
pub proof fn law_planned_matches_direct_on_flat_samples(
    cfg: MeltConfig,
    samples: Seq<JsonView>,
    i: int,
    c: u64,
)
    requires
        flat_samples(samples),
        0 <= i < samples.len(),
    ensures
        planned_value(compile_schema(cfg, schema_of(samples)), cfg, samples[i], root_type(), None, c)
            == crate::extractor::melt_document(cfg, samples[i], c),
{
    let st = stats_of(samples);
    lemma_flat_stats(samples);
    assert(count_set(st.kinds, 7) == 1) by {
        reveal_with_fuel(count_set, 8);
    }
    assert(first_kind_from(st.kinds, 0, 7) == 5) by {
        reveal_with_fuel(first_kind_from, 8);
    }
    let schema = schema_of(samples);
    let members = schema->Object_0;
    assert(members[0] == (type_key(), JsonView::String(object_name())));
    assert(members[1] == (properties_key(), JsonView::Object(props_schema(st.props))));
    lemma_lookup_first(members);
    lemma_lookup_second(members);
    assert(node_type(schema) == Some(object_name()));
    assert(properties_of(schema) == Some(props_schema(st.props)));
    lemma_scalar_compile(cfg, st.props, st.props.len(), Seq::empty());
    let (plan, ps) = compile_properties(cfg, props_schema(st.props), st.props.len(), root_name(), 0, Seq::empty());
    let plans = compile_schema(cfg, schema);
    assert(plans == assoc_insert(Seq::<(Seq<char>, PlanView)>::empty(), root_name(), plan));
    crate::assoc::lemma_insert_distinct(Seq::<(Seq<char>, PlanView)>::empty(), root_name(), plan);
    assert(root_type() == root_name());
    assert(lookup(plans, root_type()) == Some(plan));
    let m = samples[i]->Object_0;
    assert(samples[i] == JsonView::Object(m));
    assert(flat_object(m));
    crate::schema::lemma_stats_facts(samples);
    assert forall|j: int| 0 <= j < m.len() implies plan.scalar_fields.contains(#[trigger] m[j].0) by {
        let key = m[j].0;
        assert(has_key(samples[i]->Object_0, key));
        assert(crate::schema::some_object_has(samples, key));
        assert(has_key(st.props, key));
        let q = choose|q: int| 0 <= q < st.props.len() && st.props[q].0 == key;
        assert(plan.scalar_fields.contains(st.props[q].0));
    }
    lemma_flat_rows(cfg, plan, m);
    let row = plan_row(plan, m);
    let (id, c1) = resolve_id(row, c);
    lemma_flat_fields(plans, cfg, plan, m, m.len(), root_type(), id, c1);
}


/// The direct melt of the first `n` documents, one after the other with one counter.
pub open spec fn melt_all(cfg: MeltConfig, docs: Seq<JsonView>, n: nat, c: u64) -> (Seq<EntityView>, u64)
    decreases n,
{
    if n == 0 || n > docs.len() {
        (Seq::empty(), c)
    } else {
        let (a, c1) = melt_all(cfg, docs, (n - 1) as nat, c);
        let (b, c2) = crate::extractor::melt_document(cfg, docs[n - 1], c1);
        (a + b, c2)
    }
}

/// The planned melt of the first `n` documents, one after the other with one counter.
pub open spec fn planned_all(
    plans: PlansView,
    cfg: MeltConfig,
    docs: Seq<JsonView>,
    n: nat,
    c: u64,
) -> (Seq<EntityView>, u64)
    decreases n,
{
    if n == 0 || n > docs.len() {
        (Seq::empty(), c)
    } else {
        let (a, c1) = planned_all(plans, cfg, docs, (n - 1) as nat, c);
        let (b, c2) = planned_value(plans, cfg, docs[n - 1], root_type(), None, c1);
        (a + b, c2)
    }
}

/// Melting flat sample objects with the plan compiled from their own
/// schema gives, entity for entity, what the direct melt gives.
pub proof fn law_planned_round_trip_on_flat_samples(cfg: MeltConfig, samples: Seq<JsonView>, n: nat, c: u64)
    requires
        flat_samples(samples),
        n <= samples.len(),
    ensures
        planned_all(compile_schema(cfg, schema_of(samples)), cfg, samples, n, c) == melt_all(cfg, samples, n, c),
    decreases n,
{
    if n > 0 {
        law_planned_round_trip_on_flat_samples(cfg, samples, (n - 1) as nat, c);
        let c1 = melt_all(cfg, samples, (n - 1) as nat, c).1;
        law_planned_matches_direct_on_flat_samples(cfg, samples, n - 1, c1);
    }
}


/// A member the plan does not extract (listed inline, ruled `Scalar`, or
/// unknown to the plan) stays in the row, with the value of the last member
/// of that name.
pub proof fn law_unextracted_member_stays_inline(plan: PlanView, m: RowView, k: Seq<char>)
    requires
        last_value(m, k) is Some,
        !plan_extracts(plan, k),
    ensures
        lookup(plan_row(plan, m), k) == last_value(m, k),
    decreases m.len(),
{
    let d = m.drop_last();
    let (kl, xl) = m.last();
    if kl == k {
        crate::assoc::lemma_lookup_insert_same(plan_row(plan, d), kl, xl);
    } else {
        law_unextracted_member_stays_inline(plan, d, k);
        if !plan_extracts(plan, kl) {
            crate::assoc::lemma_lookup_insert_other(plan_row(plan, d), kl, xl, k);
        }
    }
}


proof fn lemma_planned_value_stamped(
    plans: PlansView,
    cfg: MeltConfig,
    v: JsonView,
    ty: Seq<char>,
    parent: Option<ParentView>,
    c: u64,
)
    ensures
        all_stamped(cfg, planned_value(plans, cfg, v, ty, parent, c).0),
    decreases v, 1nat,
{
    match lookup(plans, ty) {
        None => {},
        Some(plan) => match v {
            JsonView::Object(m) => {
                let row = plan_row(plan, m);
                let (id, c1) = resolve_id(row, c);
                let e = EntityView { entity_type: ty, data: with_fk(cfg, row, parent), id: Some(id), parent };
                lemma_with_fk_stamped(cfg, e, row);
                lemma_planned_fields_stamped(plans, cfg, plan, m, m.len(), ty, id, c1);
                let rest = planned_fields(plans, cfg, plan, m, m.len(), ty, id, c1).0;
                assert(all_stamped(cfg, seq![e]));
                lemma_stamped_concat(cfg, seq![e], rest);
            },
            JsonView::Array(items) => {
                lemma_planned_items_stamped(plans, cfg, items, items.len(), ty, parent, c);
            },
            _ => {},
        },
    }
}

proof fn lemma_planned_fields_stamped(
    plans: PlansView,
    cfg: MeltConfig,
    plan: PlanView,
    m: RowView,
    n: nat,
    ty: Seq<char>,
    id: Seq<char>,
    c: u64,
)
    ensures
        all_stamped(cfg, planned_fields(plans, cfg, plan, m, n, ty, id, c).0),
    decreases m, n,
{
    if n > 0 && n <= m.len() {
        lemma_planned_fields_stamped(plans, cfg, plan, m, (n - 1) as nat, ty, id, c);
        let (prev, c1) = planned_fields(plans, cfg, plan, m, (n - 1) as nat, ty, id, c);
        let k = m[n - 1].0;
        let x = m[n - 1].1;
        let p = Some(ParentView { entity_type: ty, id, field_name: k });
        assert(decreases_to!(m => m[n - 1]));
        if !plan.scalar_fields.contains(k) {
            match lookup(plan.nested_fields, k) {
                Some(RuleView::Array(nt, kind)) => {
                    lemma_planned_elements_stamped(plans, cfg, x, nt, kind, p, c1);
                    lemma_stamped_concat(cfg, prev, planned_elements(plans, cfg, x, nt, kind, p, c1).0);
                },
                Some(RuleView::Nested(nt)) => {
                    lemma_planned_value_stamped(plans, cfg, x, nt, p, c1);
                    lemma_stamped_concat(cfg, prev, planned_value(plans, cfg, x, nt, p, c1).0);
                },
                _ => {},
            }
        }
    }
}

proof fn lemma_planned_elements_stamped(
    plans: PlansView,
    cfg: MeltConfig,
    x: JsonView,
    ty: Seq<char>,
    kind: ArrayType,
    parent: Option<ParentView>,
    c: u64,
)
    ensures
        all_stamped(cfg, planned_elements(plans, cfg, x, ty, kind, parent, c).0),
    decreases x, 0nat,
{
    match x {
        JsonView::Array(items) => match kind {
            ArrayType::Objects => {
                lemma_planned_items_stamped(plans, cfg, items, items.len(), ty, parent, c);
            },
            ArrayType::Scalars => {
                crate::extractor::lemma_scalar_entities_stamped(cfg, ty, parent, items);
            },
            ArrayType::Empty => {},
        },
        _ => {},
    }
}

proof fn lemma_planned_items_stamped(
    plans: PlansView,
    cfg: MeltConfig,
    items: Seq<JsonView>,
    n: nat,
    ty: Seq<char>,
    parent: Option<ParentView>,
    c: u64,
)
    ensures
        all_stamped(cfg, planned_items(plans, cfg, items, n, ty, parent, c).0),
    decreases items, n,
{
    if n > 0 && n <= items.len() {
        lemma_planned_items_stamped(plans, cfg, items, (n - 1) as nat, ty, parent, c);
        let (prev, c1) = planned_items(plans, cfg, items, (n - 1) as nat, ty, parent, c);
        lemma_planned_value_stamped(plans, cfg, items[n - 1], ty, parent, c1);
        lemma_stamped_concat(cfg, prev, planned_value(plans, cfg, items[n - 1], ty, parent, c1).0);
    }
}

/// In the planned melt of a document, with parent ids on, every entity
/// with a parent carries the parent's identifier in the column named by the
/// parent's field and the id prefix.
pub proof fn law_planned_children_carry_parent_id(plan: MeltPlan, v: JsonView, c: u64)
    ensures
        all_stamped(plan.config, planned_document(plan, v, c).0),
{
    lemma_planned_value_stamped(plans_of(plan), plan.config, v, root_type(), None, c);
}

} // verus!
