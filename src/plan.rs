//! Extraction plans: per entity type, which fields stay inline and which
//! become entities, compiled once from a schema.
use vstd::prelude::*;
use vstd::string::*;
use crate::assoc::{
    assoc_view, has_key, lookup, key_pos, lemma_key_pos, assoc_insert, assoc_set, find_key,
    assoc_get, distinct_keys,
};
use crate::value::{JsonValue, JsonView, members_view, values_view};
use crate::schema::{infer_schema_streaming, schema_of};
use crate::entity::{RowView, MeltConfig, id_key};
use crate::extractor::child_type;
use crate::text::concat3;

verus! {

/// What the elements of an array field are taken to be.
#[derive(Debug, Clone, Copy, PartialEq, Eq, Structural)]
pub enum ArrayType {
    /// Objects, each melted as an entity.
    Objects,
    /// Scalars, each wrapped with its position.
    Scalars,
    /// Unknown: the sampled arrays were all empty; nothing is emitted.
    Empty,
}

/// The view of a [`FieldRule`].
pub enum RuleView {
    Scalar,
    Nested(Seq<char>),
    Array(Seq<char>, ArrayType),
}

/// How one field of an entity type is handled.
#[derive(Debug)]
pub enum FieldRule {
    /// Kept inline in the parent's row.
    Scalar,
    /// Extracted as an entity of the given type.
    NestedEntity { entity_type: String },
    /// Each element extracted as an entity of the given type.
    ArrayEntity { entity_type: String, element_type: ArrayType },
}

impl View for FieldRule {
    type V = RuleView;

    open spec fn view(&self) -> RuleView {
        match self {
            FieldRule::Scalar => RuleView::Scalar,
            FieldRule::NestedEntity { entity_type } => RuleView::Nested(entity_type@),
            FieldRule::ArrayEntity { entity_type, element_type } => RuleView::Array(
                entity_type@,
                *element_type,
            ),
        }
    }
}

impl FieldRule {
    /// A copy of this rule.
    pub fn copy(&self) -> (r: FieldRule)
        ensures
            r@ == self@,
    {
        match self {
            FieldRule::Scalar => FieldRule::Scalar,
            FieldRule::NestedEntity { entity_type } => FieldRule::NestedEntity {
                entity_type: entity_type.clone(),
            },
            FieldRule::ArrayEntity { entity_type, element_type } => FieldRule::ArrayEntity {
                entity_type: entity_type.clone(),
                element_type: *element_type,
            },
        }
    }
}

/// The view of an [`EntityPlan`].
pub struct PlanView {
    pub entity_type: Seq<char>,
    pub scalar_fields: Seq<Seq<char>>,
    pub nested_fields: Seq<(Seq<char>, RuleView)>,
    pub has_id_field: bool,
}

/// The plan of one entity type.
#[derive(Debug)]
pub struct EntityPlan {
    /// The entity type this plan is for.
    pub entity_type: String,
    /// Fields kept inline, each once.
    pub scalar_fields: Vec<String>,
    /// Fields extracted, each with its rule, each once.
    pub nested_fields: Vec<(String, FieldRule)>,
    /// Whether the type has an `id` field.
    pub has_id_field: bool,
}

/// The views of a list of names.
pub open spec fn names_view(v: Seq<String>) -> Seq<Seq<char>> {
    Seq::new(v.len(), |i: int| v[i]@)
}

impl View for EntityPlan {
    type V = PlanView;

    open spec fn view(&self) -> PlanView {
        PlanView {
            entity_type: self.entity_type@,
            scalar_fields: names_view(self.scalar_fields@),
            nested_fields: assoc_view(self.nested_fields@),
            has_id_field: self.has_id_field,
        }
    }
}

/// Plans keyed by entity type, as views.
pub type PlansView = Seq<(Seq<char>, PlanView)>;

/// A whole plan: one entry per entity type reached while compiling, and the
/// configuration it was compiled with.
#[derive(Debug)]
pub struct MeltPlan {
    pub entity_plans: Vec<(String, EntityPlan)>,
    pub config: MeltConfig,
}

/// `s` with `x` added unless it is there already.
pub open spec fn set_add(s: Seq<Seq<char>>, x: Seq<char>) -> Seq<Seq<char>> {
    if s.contains(x) {
        s
    } else {
        s.push(x)
    }
}

/// The member `k` of an object value.
pub open spec fn json_get(v: JsonView, k: Seq<char>) -> Option<JsonView> {
    match v {
        JsonView::Object(m) => lookup(m, k),
        _ => None,
    }
}

/// The name `type`.
pub open spec fn type_key() -> Seq<char> {
    seq!['t', 'y', 'p', 'e']
}

/// The name `items`.
pub open spec fn items_key() -> Seq<char> {
    seq!['i', 't', 'e', 'm', 's']
}

/// The name `properties`.
pub open spec fn properties_key() -> Seq<char> {
    seq!['p', 'r', 'o', 'p', 'e', 'r', 't', 'i', 'e', 's']
}

/// The type name `object`.
pub open spec fn object_name() -> Seq<char> {
    seq!['o', 'b', 'j', 'e', 'c', 't']
}

/// The type name `array`.
pub open spec fn array_name() -> Seq<char> {
    seq!['a', 'r', 'r', 'a', 'y']
}

/// The `type` of a schema node when it is a single string.
pub open spec fn node_type(s: JsonView) -> Option<Seq<char>> {
    match json_get(s, type_key()) {
        Some(JsonView::String(t)) => Some(t),
        _ => None,
    }
}

/// The `properties` of a schema node when they are an object.
pub open spec fn properties_of(s: JsonView) -> Option<RowView> {
    match json_get(s, properties_key()) {
        Some(JsonView::Object(m)) => Some(m),
        _ => None,
    }
}

/// An object schema worth an entity of its own: its properties include `id`
/// or number more than two.
pub open spec fn schema_extracts_object(s: JsonView) -> bool {
    match properties_of(s) {
        Some(p) => has_key(p, id_key()) || p.len() > 2,
        None => false,
    }
}

/// The element kind of an array field's schema: objects when `items` is of
/// type `object`, scalars when `items` is anything else, empty without `items`.
pub open spec fn element_kind(s: JsonView) -> ArrayType {
    match json_get(s, items_key()) {
        Some(it) => if node_type(it) == Some(object_name()) {
            ArrayType::Objects
        } else {
            ArrayType::Scalars
        },
        None => ArrayType::Empty,
    }
}

/// A member found by name is smaller than the object it was found in.
pub proof fn lemma_get_decreases(v: JsonView, k: Seq<char>)
    requires
        json_get(v, k) is Some,
    ensures
        decreases_to!(v => json_get(v, k)->0),
{
    let m = v->Object_0;
    lemma_key_pos(m, k);
    let i = key_pos(m, k);
    assert(decreases_to!(v => v->Object_0));
    assert(decreases_to!(m => m[i]));
    assert(decreases_to!(m[i] => m[i].1));
}

/// An empty plan for type `ty`.
pub open spec fn empty_plan(ty: Seq<char>) -> PlanView {
    PlanView { entity_type: ty, scalar_fields: Seq::empty(), nested_fields: Seq::empty(), has_id_field: false }
}

/// `plan` with `name` inline.
pub open spec fn plan_inline(plan: PlanView, name: Seq<char>) -> PlanView {
    PlanView { scalar_fields: set_add(plan.scalar_fields, name), ..plan }
}

/// `plan` with `name` extracted by `rule`.
pub open spec fn plan_nested(plan: PlanView, name: Seq<char>, rule: RuleView) -> PlanView {
    PlanView { nested_fields: assoc_insert(plan.nested_fields, name, rule), ..plan }
}

/// The plans after compiling schema node `s` as entity type `ty` at level `depth`.
pub open spec fn compile_node(
    cfg: MeltConfig,
    s: JsonView,
    ty: Seq<char>,
    depth: nat,
    plans: PlansView,
) -> PlansView
    decreases s, 0nat,
{
    if depth > cfg.max_depth {
        plans
    } else if node_type(s) == Some(object_name()) {
        let (plan, ps) = match properties_of(s) {
            Some(props) => {
                proof {
                    lemma_get_decreases(s, properties_key());
                    let g = json_get(s, properties_key())->0;
                    assert(decreases_to!(g => g->Object_0));
                }
                compile_properties(cfg, props, props.len(), ty, depth, plans)
            },
            None => (empty_plan(ty), plans),
        };
        assoc_insert(ps, ty, plan)
    } else if node_type(s) == Some(array_name()) {
        match json_get(s, items_key()) {
            Some(it) => {
                proof {
                    lemma_get_decreases(s, items_key());
                }
                compile_node(cfg, it, ty, depth, plans)
            },
            None => plans,
        }
    } else {
        plans
    }
}

/// The plan of type `ty` from its first `n` properties, and the plans of the
/// types reached through them.
pub open spec fn compile_properties(
    cfg: MeltConfig,
    props: RowView,
    n: nat,
    ty: Seq<char>,
    depth: nat,
    plans: PlansView,
) -> (PlanView, PlansView)
    decreases props, n,
{
    if n == 0 || n > props.len() {
        (empty_plan(ty), plans)
    } else {
        let (plan, ps) = compile_properties(cfg, props, (n - 1) as nat, ty, depth, plans);
        let name = props[n - 1].0;
        let fs = props[n - 1].1;
        let nt = child_type(cfg, ty, name);
        if cfg.is_scalar_field(name) {
            (plan_inline(plan, name), ps)
        } else if name == id_key() {
            (PlanView { has_id_field: true, ..plan_inline(plan, name) }, ps)
        } else if node_type(fs) == Some(array_name()) {
            let plan2 = plan_nested(plan, name, RuleView::Array(nt, element_kind(fs)));
            match json_get(fs, items_key()) {
                Some(it) => {
                    proof {
                        lemma_get_decreases(fs, items_key());
                        assert(decreases_to!(props => props[n - 1]));
                    }
                    (plan2, compile_node(cfg, it, nt, depth + 1, ps))
                },
                None => (plan2, ps),
            }
        } else if node_type(fs) == Some(object_name()) && schema_extracts_object(fs) {
            proof {
                assert(decreases_to!(props => props[n - 1]));
            }
            (plan_nested(plan, name, RuleView::Nested(nt)), compile_node(cfg, fs, nt, depth + 1, ps))
        } else {
            (plan_inline(plan, name), ps)
        }
    }
}

/// The type name of top-level entities.
pub open spec fn root_name() -> Seq<char> {
    seq!['r', 'o', 'o', 't']
}

/// The plans compiled from a whole schema.
pub open spec fn compile_schema(cfg: MeltConfig, s: JsonView) -> PlansView {
    compile_node(cfg, s, root_name(), 0, Seq::empty())
}

/// A plan lists each inline name once and each extracted name once.
pub open spec fn plan_wf(p: PlanView) -> bool {
    p.scalar_fields.no_duplicates() && distinct_keys(p.nested_fields)
}

/// Plans have one entry per entity type, each well formed.
pub open spec fn plans_wf(ps: PlansView) -> bool {
    &&& distinct_keys(ps)
    &&& forall|i: int| 0 <= i < ps.len() ==> plan_wf(#[trigger] ps[i].1)
}

proof fn lemma_set_add_no_duplicates(s: Seq<Seq<char>>, x: Seq<char>)
    requires
        s.no_duplicates(),
    ensures
        set_add(s, x).no_duplicates(),
{
    if !s.contains(x) {
        let r = s.push(x);
        assert forall|i: int, j: int| 0 <= i < r.len() && 0 <= j < r.len() && i != j implies r[i] != r[j] by {
            if j == s.len() && i < s.len() {
                assert(s[i] != x);
            } else if i == s.len() && j < s.len() {
                assert(s[j] != x);
            }
        }
    }
}

proof fn lemma_insert_plans_wf(ps: PlansView, k: Seq<char>, p: PlanView)
    requires
        plans_wf(ps),
        plan_wf(p),
    ensures
        plans_wf(assoc_insert(ps, k, p)),
{
    crate::assoc::lemma_insert_distinct(ps, k, p);
    let r = assoc_insert(ps, k, p);
    if has_key(ps, k) {
        lemma_key_pos(ps, k);
        let q = key_pos(ps, k);
        assert forall|i: int| 0 <= i < r.len() implies plan_wf(#[trigger] r[i].1) by {
            if i != q {
                assert(r[i] == ps[i]);
            }
        }
    } else {
        assert forall|i: int| 0 <= i < r.len() implies plan_wf(#[trigger] r[i].1) by {
            if i < ps.len() {
                assert(r[i] == ps[i]);
            }
        }
    }
}

/// Compiling keeps plans well formed.
proof fn lemma_compile_node_wf(cfg: MeltConfig, s: JsonView, ty: Seq<char>, depth: nat, plans: PlansView)
    requires
        plans_wf(plans),
    ensures
        plans_wf(compile_node(cfg, s, ty, depth, plans)),
    decreases s, 0nat,
{
    if depth > cfg.max_depth {
    } else if node_type(s) == Some(object_name()) {
        match properties_of(s) {
            Some(props) => {
                lemma_get_decreases(s, properties_key());
                let g = json_get(s, properties_key())->0;
                assert(decreases_to!(g => g->Object_0));
                lemma_compile_properties_wf(cfg, props, props.len(), ty, depth, plans);
                let (plan, ps) = compile_properties(cfg, props, props.len(), ty, depth, plans);
                lemma_insert_plans_wf(ps, ty, plan);
            },
            None => {
                lemma_insert_plans_wf(plans, ty, empty_plan(ty));
            },
        }
    } else if node_type(s) == Some(array_name()) {
        match json_get(s, items_key()) {
            Some(it) => {
                lemma_get_decreases(s, items_key());
                lemma_compile_node_wf(cfg, it, ty, depth, plans);
            },
            None => {},
        }
    }
}

proof fn lemma_compile_properties_wf(
    cfg: MeltConfig,
    props: RowView,
    n: nat,
    ty: Seq<char>,
    depth: nat,
    plans: PlansView,
)
    requires
        plans_wf(plans),
    ensures
        plan_wf(compile_properties(cfg, props, n, ty, depth, plans).0),
        plans_wf(compile_properties(cfg, props, n, ty, depth, plans).1),
    decreases props, n,
{
    if n == 0 || n > props.len() {
        assert(empty_plan(ty).scalar_fields.no_duplicates());
    } else {
        lemma_compile_properties_wf(cfg, props, (n - 1) as nat, ty, depth, plans);
        let (plan, ps) = compile_properties(cfg, props, (n - 1) as nat, ty, depth, plans);
        let name = props[n - 1].0;
        let fs = props[n - 1].1;
        let nt = child_type(cfg, ty, name);
        lemma_set_add_no_duplicates(plan.scalar_fields, name);
        crate::assoc::lemma_insert_distinct(plan.nested_fields, name, RuleView::Array(nt, element_kind(fs)));
        crate::assoc::lemma_insert_distinct(plan.nested_fields, name, RuleView::Nested(nt));
        assert(decreases_to!(props => props[n - 1]));
        if cfg.is_scalar_field(name) || name == id_key() {
        } else if node_type(fs) == Some(array_name()) {
            match json_get(fs, items_key()) {
                Some(it) => {
                    lemma_get_decreases(fs, items_key());
                    lemma_compile_node_wf(cfg, it, nt, depth + 1, ps);
                },
                None => {},
            }
        } else if node_type(fs) == Some(object_name()) && schema_extracts_object(fs) {
            lemma_compile_node_wf(cfg, fs, nt, depth + 1, ps);
        }
    }
}

/// Compiled plans are well formed: one entry per entity type, each name once.
pub proof fn lemma_compile_schema_wf(cfg: MeltConfig, s: JsonView)
    ensures
        plans_wf(compile_schema(cfg, s)),
{
    lemma_compile_node_wf(cfg, s, root_name(), 0, Seq::empty());
}

/// Adds `x` to the names `v` unless it is there already.
pub(crate) fn add_name(v: &mut Vec<String>, x: String)
    ensures
        names_view(final(v)@) == set_add(names_view(old(v)@), x@),
{
    let mut i: usize = 0;
    while i < v.len()
        invariant
            i <= v.len(),
            forall|j: int| 0 <= j < i ==> (#[trigger] v@[j])@ != x@,
        decreases v.len() - i,
    {
        if v[i] == x {
            assert(names_view(v@)[i as int] == x@);
            return ;
        }
        i = i + 1;
    }
    let ghost before = names_view(v@);
    assert(!before.contains(x@)) by {
        if before.contains(x@) {
            let j = choose|j: int| 0 <= j < before.len() && before[j] == x@;
            assert(v@[j]@ == x@);
        }
    }
    v.push(x);
    assert(names_view(v@) =~= before.push(x@));
}

/// The member `k` of an object value.
pub(crate) fn get_member<'a>(v: &'a JsonValue, k: &String) -> (r: Option<&'a JsonValue>)
    ensures
        r is None <==> json_get(v@, k@) is None,
        r matches Some(x) ==> json_get(v@, k@) == Some(x@) && decreases_to!(*v => *x),
{
    match v {
        JsonValue::Object(m) => {
            assert(v@->Object_0 =~= members_view(m@));
            match find_key(m, k) {
                Some(i) => {
                    proof {
                        lemma_key_pos(members_view(m@), k@);
                        assert(decreases_to!(*v => v->Object_0));
                        assert(decreases_to!(v->Object_0 => v->Object_0@));
                        assert(decreases_to!(v->Object_0@ => v->Object_0@[i as int]));
                        assert(decreases_to!(v->Object_0@[i as int] => v->Object_0@[i as int].1));
                    }
                    Some(&m[i].1)
                },
                None => None,
            }
        },
        _ => None,
    }
}

/// Whether the `type` of schema node `s` is the string `name`.
fn has_node_type(s: &JsonValue, name: &String) -> (r: bool)
    ensures
        r == (node_type(s@) == Some(name@)),
{
    let type_k = String::from_str("type");
    proof {
        reveal_strlit("type");
        assert(type_k@ =~= type_key());
    }
    match get_member(s, &type_k) {
        Some(JsonValue::String(t)) => *t == *name,
        _ => false,
    }
}

/// The element kind of an array field's schema.
fn element_kind_of(s: &JsonValue) -> (r: ArrayType)
    ensures
        r == element_kind(s@),
{
    let items_k = String::from_str("items");
    let object_n = String::from_str("object");
    proof {
        reveal_strlit("items");
        reveal_strlit("object");
        assert(items_k@ =~= items_key());
        assert(object_n@ =~= object_name());
    }
    match get_member(s, &items_k) {
        Some(it) => if has_node_type(it, &object_n) {
            ArrayType::Objects
        } else {
            ArrayType::Scalars
        },
        None => ArrayType::Empty,
    }
}

impl MeltPlan {
    /// Infers a schema from sample documents and compiles it into a plan.
    pub fn from_examples(examples: &Vec<JsonValue>, config: MeltConfig) -> (r: MeltPlan)
        ensures
            assoc_view(r.entity_plans@) == compile_schema(config, schema_of(values_view(examples@))),
            plans_wf(assoc_view(r.entity_plans@)),
            r.config == config,
    {
        let schema = infer_schema_streaming(examples);
        Self::from_schema(&schema, config)
    }

    /// Compiles a schema into a plan: one entry per entity type reached.
    pub fn from_schema(schema: &JsonValue, config: MeltConfig) -> (r: MeltPlan)
        ensures
            assoc_view(r.entity_plans@) == compile_schema(config, schema@),
            plans_wf(assoc_view(r.entity_plans@)),
            r.config == config,
    {
        let mut entity_plans: Vec<(String, EntityPlan)> = Vec::new();
        let root = String::from_str("root");
        proof {
            reveal_strlit("root");
            assert(root@ =~= root_name());
            assert(assoc_view(entity_plans@) =~= Seq::<(Seq<char>, PlanView)>::empty());
        }
        Self::analyze_schema(schema, &root, &config, &mut entity_plans, 0);
        proof {
            lemma_compile_schema_wf(config, schema@);
        }
        MeltPlan { entity_plans, config }
    }

    /// Compiles schema node `schema` as entity type `entity_type` at level `depth`.
    fn analyze_schema(
        schema: &JsonValue,
        entity_type: &String,
        config: &MeltConfig,
        plans: &mut Vec<(String, EntityPlan)>,
        depth: usize,
    )
        ensures
            assoc_view(final(plans)@) == compile_node(
                *config,
                schema@,
                entity_type@,
                depth as nat,
                assoc_view(old(plans)@),
            ),
        decreases schema, 1nat,
    {
        if depth > config.max_depth {
            return ;
        }
        let object_n = String::from_str("object");
        let array_n = String::from_str("array");
        proof {
            reveal_strlit("object");
            reveal_strlit("array");
            assert(object_n@ =~= object_name());
            assert(array_n@ =~= array_name());
        }
        if has_node_type(schema, &object_n) {
            Self::analyze_object_schema(schema, entity_type, config, plans, depth);
        } else if has_node_type(schema, &array_n) {
            Self::analyze_array_schema(schema, entity_type, config, plans, depth);
        }
    }

    /// Compiles an object schema: the plan of `entity_type` from its properties.
    fn analyze_object_schema(
        schema: &JsonValue,
        entity_type: &String,
        config: &MeltConfig,
        plans: &mut Vec<(String, EntityPlan)>,
        depth: usize,
    )
        requires
            depth <= config.max_depth,
            node_type(schema@) == Some(object_name()),
        ensures
            assoc_view(final(plans)@) == compile_node(
                *config,
                schema@,
                entity_type@,
                depth as nat,
                assoc_view(old(plans)@),
            ),
        decreases schema, 0nat,
    {
        let ghost cfg = *config;
        let ghost plans0 = assoc_view(plans@);
        let mut scalar_fields: Vec<String> = Vec::new();
        let mut nested_fields: Vec<(String, FieldRule)> = Vec::new();
        let mut has_id_field = false;
        let props_k = String::from_str("properties");
        let id_k = String::from_str("id");
        let array_n = String::from_str("array");
        let object_n = String::from_str("object");
        let items_k = String::from_str("items");
        proof {
            reveal_strlit("properties");
            reveal_strlit("id");
            reveal_strlit("array");
            reveal_strlit("object");
            reveal_strlit("items");
            assert(props_k@ =~= properties_key());
            assert(id_k@ =~= id_key());
            assert(array_n@ =~= array_name());
            assert(object_n@ =~= object_name());
            assert(items_k@ =~= items_key());
            assert(names_view(scalar_fields@) =~= Seq::<Seq<char>>::empty());
            assert(assoc_view(nested_fields@) =~= Seq::<(Seq<char>, RuleView)>::empty());
        }
        if let Some(JsonValue::Object(props)) = get_member(schema, &props_k) {
            let ghost pv = members_view(props@);
            let ghost pval = json_get(schema@, properties_key())->0;
            assert(pval->Object_0 =~= pv);
            let mut i: usize = 0;
            while i < props.len()
                invariant
                    i <= props.len(),
                    pv == members_view(props@),
                    cfg == *config,
                    depth <= cfg.max_depth,
                    props_k@ == properties_key(),
                    id_k@ == id_key(),
                    array_n@ == array_name(),
                    object_n@ == object_name(),
                    items_k@ == items_key(),
                    decreases_to!(*schema => *props),
                    ({
                        let (plan, ps) = compile_properties(cfg, pv, i as nat, entity_type@, depth as nat, plans0);
                        &&& plan == (PlanView {
                            entity_type: entity_type@,
                            scalar_fields: names_view(scalar_fields@),
                            nested_fields: assoc_view(nested_fields@),
                            has_id_field,
                        })
                        &&& ps == assoc_view(plans@)
                    }),
                decreases props.len() - i,
            {
                let name = &props[i].0;
                let fs = &props[i].1;
                proof {
                    assert(decreases_to!(*props => props@));
                    assert(decreases_to!(props@ => props@[i as int]));
                    assert(decreases_to!(props@[i as int] => props@[i as int].1));
                }
                if config.has_scalar_field(name) {
                    add_name(&mut scalar_fields, name.clone());
                } else if *name == id_k {
                    has_id_field = true;
                    add_name(&mut scalar_fields, name.clone());
                } else if has_node_type(fs, &array_n) {
                    let nested_type = concat3(entity_type, &config.separator, name);
                    let kind = element_kind_of(fs);
                    assoc_set(
                        &mut nested_fields,
                        name.clone(),
                        FieldRule::ArrayEntity { entity_type: nested_type.clone(), element_type: kind },
                    );
                    if let Some(items) = get_member(fs, &items_k) {
                        if depth < config.max_depth {
                            Self::analyze_schema(items, &nested_type, config, plans, depth + 1);
                        } else {
                            assert(compile_node(cfg, items@, nested_type@, (depth + 1) as nat, assoc_view(plans@)) == assoc_view(plans@));
                        }
                    }
                } else if has_node_type(fs, &object_n) && Self::should_extract_object_from_schema(fs) {
                    let nested_type = concat3(entity_type, &config.separator, name);
                    assoc_set(
                        &mut nested_fields,
                        name.clone(),
                        FieldRule::NestedEntity { entity_type: nested_type.clone() },
                    );
                    if depth < config.max_depth {
                        Self::analyze_schema(fs, &nested_type, config, plans, depth + 1);
                    } else {
                        assert(compile_node(cfg, fs@, nested_type@, (depth + 1) as nat, assoc_view(plans@)) == assoc_view(plans@));
                    }
                } else {
                    add_name(&mut scalar_fields, name.clone());
                }
                i = i + 1;
            }
            assert(properties_of(schema@) == Some(pv));
        }
        let ghost plan_v = PlanView {
            entity_type: entity_type@,
            scalar_fields: names_view(scalar_fields@),
            nested_fields: assoc_view(nested_fields@),
            has_id_field,
        };
        let plan = EntityPlan {
            entity_type: entity_type.clone(),
            scalar_fields,
            nested_fields,
            has_id_field,
        };
        assert(plan@ == plan_v);
        assoc_set(plans, entity_type.clone(), plan);
    }

    /// Compiles an array schema: its `items` under the same entity type.
    fn analyze_array_schema(
        schema: &JsonValue,
        entity_type: &String,
        config: &MeltConfig,
        plans: &mut Vec<(String, EntityPlan)>,
        depth: usize,
    )
        requires
            depth <= config.max_depth,
            node_type(schema@) == Some(array_name()),
            node_type(schema@) != Some(object_name()),
        ensures
            assoc_view(final(plans)@) == compile_node(
                *config,
                schema@,
                entity_type@,
                depth as nat,
                assoc_view(old(plans)@),
            ),
        decreases schema, 0nat,
    {
        let items_k = String::from_str("items");
        proof {
            reveal_strlit("items");
            assert(items_k@ =~= items_key());
        }
        if let Some(items) = get_member(schema, &items_k) {
            Self::analyze_schema(items, entity_type, config, plans, depth);
        }
    }

    /// Whether an object schema's properties include `id` or number more than two.
    fn should_extract_object_from_schema(schema: &JsonValue) -> (r: bool)
        ensures
            r == schema_extracts_object(schema@),
    {
        let props_k = String::from_str("properties");
        let id_k = String::from_str("id");
        proof {
            reveal_strlit("properties");
            reveal_strlit("id");
            assert(props_k@ =~= properties_key());
            assert(id_k@ =~= id_key());
        }
        match get_member(schema, &props_k) {
            Some(JsonValue::Object(props)) => {
                proof {
                    let pval = json_get(schema@, properties_key())->0;
                    assert(pval->Object_0 =~= members_view(props@));
                }
                find_key(props, &id_k).is_some() || props.len() > 2
            },
            _ => false,
        }
    }

    /// The plan of an entity type, if compiling reached it.
    pub fn get_plan(&self, entity_type: &String) -> (r: Option<&EntityPlan>)
        ensures
            r is None <==> lookup(assoc_view(self.entity_plans@), entity_type@) is None,
            r matches Some(p) ==> lookup(assoc_view(self.entity_plans@), entity_type@) == Some(p@),
    {
        assoc_get(&self.entity_plans, entity_type)
    }
}

} // verus!
