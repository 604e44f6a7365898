//! Entities, their identifiers and parent links, and the melt configuration.
use vstd::prelude::*;
use vstd::string::*;
use crate::text::{decimal, push_decimal};
use crate::value::{JsonValue, JsonView, number_text, members_view};
use crate::assoc::{lookup, assoc_get, assoc_insert, assoc_set};

verus! {

/// Ordered members of an entity row, as views.
pub type RowView = Seq<(Seq<char>, JsonView)>;

/// The identifier of an entity, as text.
#[derive(Debug, Clone, PartialEq, Eq, Hash)]
pub struct EntityId(pub String);

impl View for EntityId {
    type V = Seq<char>;

    open spec fn view(&self) -> Seq<char> {
        self.0@
    }
}

impl EntityId {
    /// An identifier with the given text.
    pub fn new(id: String) -> (r: EntityId)
        ensures
            r@ == id@,
    {
        EntityId(id)
    }

    /// A copy of this identifier.
    pub fn copy(&self) -> (r: EntityId)
        ensures
            r@ == self@,
    {
        EntityId(self.0.clone())
    }
}

/// The view of a [`ParentRef`].
pub struct ParentView {
    pub entity_type: Seq<char>,
    pub id: Seq<char>,
    pub field_name: Seq<char>,
}

/// The parent that emitted an entity, and the field of the parent it came from.
#[derive(Debug, Clone)]
pub struct ParentRef {
    pub entity_type: String,
    pub id: EntityId,
    pub field_name: String,
}

impl View for ParentRef {
    type V = ParentView;

    open spec fn view(&self) -> ParentView {
        ParentView { entity_type: self.entity_type@, id: self.id@, field_name: self.field_name@ }
    }
}

impl ParentRef {
    /// A copy of this reference.
    pub fn copy(&self) -> (r: ParentRef)
        ensures
            r@ == self@,
    {
        ParentRef {
            entity_type: self.entity_type.clone(),
            id: self.id.copy(),
            field_name: self.field_name.clone(),
        }
    }
}

/// The view of an optional parent.
pub open spec fn parent_view(p: Option<ParentRef>) -> Option<ParentView> {
    match p {
        Some(r) => Some(r@),
        None => None,
    }
}

/// The view of an [`Entity`].
pub struct EntityView {
    pub entity_type: Seq<char>,
    pub data: RowView,
    pub id: Option<Seq<char>>,
    pub parent: Option<ParentView>,
}

/// One flat record: its type name, its row, its identifier and its parent.
#[derive(Debug, Clone)]
pub struct Entity {
    pub entity_type: String,
    pub data: Vec<(String, JsonValue)>,
    pub id: Option<EntityId>,
    pub parent: Option<ParentRef>,
}

impl View for Entity {
    type V = EntityView;

    open spec fn view(&self) -> EntityView {
        EntityView {
            entity_type: self.entity_type@,
            data: members_view(self.data@),
            id: match self.id {
                Some(i) => Some(i@),
                None => None,
            },
            parent: parent_view(self.parent),
        }
    }
}

/// The views of a list of entities.
pub open spec fn entities_view(es: Seq<Entity>) -> Seq<EntityView> {
    Seq::new(es.len(), |i: int| es[i]@)
}

/// The name of the identifying member.
pub open spec fn id_key() -> Seq<char> {
    seq!['i', 'd']
}

/// The identifier a row carries itself: a number as its text, or a string.
pub open spec fn own_id(data: RowView) -> Option<Seq<char>> {
    match lookup(data, id_key()) {
        Some(JsonView::Number(n)) => Some(number_text(n)),
        Some(JsonView::String(s)) => Some(s),
        _ => None,
    }
}

/// The counter after one more synthetic identifier (it stops at the top).
pub open spec fn next_counter(c: u64) -> u64 {
    if c < u64::MAX {
        (c + 1) as u64
    } else {
        c
    }
}

/// A synthetic identifier: `_gen_` and the counter value.
pub open spec fn gen_id(n: u64) -> Seq<char> {
    seq!['_', 'g', 'e', 'n', '_'] + decimal(n as nat)
}

/// The identifier a row resolves to, and the counter afterwards.
pub open spec fn resolve_id(data: RowView, c: u64) -> (Seq<char>, u64) {
    match own_id(data) {
        Some(t) => (t, c),
        None => (gen_id(next_counter(c)), next_counter(c)),
    }
}

impl Entity {
    /// An entity of the given type and row, without identifier or parent.
    pub fn new(entity_type: String, data: Vec<(String, JsonValue)>) -> (r: Entity)
        ensures
            r@ == (EntityView {
                entity_type: entity_type@,
                data: members_view(data@),
                id: None,
                parent: None,
            }),
    {
        Entity { entity_type, data, id: None, parent: None }
    }

    /// This entity with the given identifier.
    pub fn with_id(self, id: EntityId) -> (r: Entity)
        ensures
            r@ == (EntityView { id: Some(id@), ..self@ }),
    {
        let mut e = self;
        e.id = Some(id);
        e
    }

    /// This entity with the given parent.
    pub fn with_parent(self, parent: ParentRef) -> (r: Entity)
        ensures
            r@ == (EntityView { parent: Some(parent@), ..self@ }),
    {
        let mut e = self;
        e.parent = Some(parent);
        e
    }

    /// The identifier of this entity. One already set is kept; otherwise the
    /// row's own `id` member (a number or a string) is used, and failing that
    /// a synthetic identifier is drawn from `counter`. The result is stored.
    pub fn get_or_generate_id(&mut self, counter: &mut u64) -> (r: EntityId)
        ensures
            old(self)@.id matches Some(i) ==> r@ == i && final(self)@ == old(self)@
                && *final(counter) == *old(counter),
            old(self)@.id is None ==> (r@, *final(counter)) == resolve_id(old(self)@.data, *old(counter))
                && final(self)@ == (EntityView { id: Some(r@), ..old(self)@ }),
    {
        match &self.id {
            Some(i) => {
                return i.copy();
            },
            None => {},
        }
        let key = String::from_str("id");
        proof {
            reveal_strlit("id");
            assert(key@ =~= id_key());
        }
        let text: Option<String> = match assoc_get(&self.data, &key) {
            Some(JsonValue::Number(n)) => Some(n.to_text()),
            Some(JsonValue::String(s)) => Some(s.clone()),
            _ => None,
        };
        let id = match text {
            Some(t) => EntityId::new(t),
            None => {
                if *counter < u64::MAX {
                    *counter = *counter + 1;
                }
                let mut s = String::from_str("_gen_");
                proof {
                    reveal_strlit("_gen_");
                }
                push_decimal(&mut s, *counter);
                assert(s@ =~= gen_id(*counter));
                EntityId::new(s)
            },
        };
        self.id = Some(id.copy());
        id
    }
}

/// Options of the melt.
#[derive(Debug, Clone)]
pub struct MeltConfig {
    /// Deepest nesting level whose entities are still emitted (the root is level 0).
    pub max_depth: usize,
    /// Kept for callers that set it; the melt does not read it.
    pub fk_prefix: String,
    /// Appended to a field name to name the foreign-key column.
    pub id_prefix: String,
    /// Placed between a parent's type name and a field name.
    pub separator: String,
    /// Whether children carry their parent's identifier.
    pub include_parent_ids: bool,
    /// Fields that always stay in their parent's row.
    pub scalar_fields: Vec<String>,
}

impl MeltConfig {
    /// `name` is one of the always-inline fields.
    pub open spec fn is_scalar_field(&self, name: Seq<char>) -> bool {
        exists|i: int| 0 <= i < self.scalar_fields.len() && (#[trigger] self.scalar_fields@[i])@ == name
    }

    /// Whether `name` is one of the always-inline fields.
    pub fn has_scalar_field(&self, name: &String) -> (r: bool)
        ensures
            r == self.is_scalar_field(name@),
    {
        let mut i: usize = 0;
        while i < self.scalar_fields.len()
            invariant
                i <= self.scalar_fields.len(),
                forall|j: int| 0 <= j < i ==> (#[trigger] self.scalar_fields@[j])@ != name@,
            decreases self.scalar_fields.len() - i,
        {
            if self.scalar_fields[i] == *name {
                return true;
            }
            i = i + 1;
        }
        false
    }

    /// A copy of this configuration.
    pub fn copy(&self) -> (r: MeltConfig)
        ensures
            r.max_depth == self.max_depth,
            r.fk_prefix@ == self.fk_prefix@,
            r.id_prefix@ == self.id_prefix@,
            r.separator@ == self.separator@,
            r.include_parent_ids == self.include_parent_ids,
            r.scalar_fields@.len() == self.scalar_fields@.len(),
            forall|i: int| 0 <= i < r.scalar_fields@.len() ==> (#[trigger] r.scalar_fields@[i])@ == self.scalar_fields@[i]@,
    {
        let mut fields: Vec<String> = Vec::new();
        let mut i: usize = 0;
        while i < self.scalar_fields.len()
            invariant
                i <= self.scalar_fields.len(),
                fields.len() == i,
                forall|j: int| 0 <= j < i ==> (#[trigger] fields@[j])@ == self.scalar_fields@[j]@,
            decreases self.scalar_fields.len() - i,
        {
            fields.push(self.scalar_fields[i].clone());
            i = i + 1;
        }
        MeltConfig {
            max_depth: self.max_depth,
            fk_prefix: self.fk_prefix.clone(),
            id_prefix: self.id_prefix.clone(),
            separator: self.separator.clone(),
            include_parent_ids: self.include_parent_ids,
            scalar_fields: fields,
        }
    }
}

impl Default for MeltConfig {
    /// Depth ten, separator `_`, foreign keys named `<field>_id`, parent ids on.
    fn default() -> (r: MeltConfig)
        ensures
            r.max_depth == 10,
            r.fk_prefix@ == Seq::<char>::empty(),
            r.id_prefix@ == seq!['_', 'i', 'd'],
            r.separator@ == seq!['_'],
            r.include_parent_ids,
            r.scalar_fields@.len() == 0,
    {
        proof {
            reveal_strlit("");
            reveal_strlit("_id");
            reveal_strlit("_");
        }
        MeltConfig {
            max_depth: 10,
            fk_prefix: String::from_str(""),
            id_prefix: String::from_str("_id"),
            separator: String::from_str("_"),
            include_parent_ids: true,
            scalar_fields: Vec::new(),
        }
    }
}


/// A copy of a row.
pub fn copy_row(m: &Vec<(String, JsonValue)>) -> (r: Vec<(String, JsonValue)>)
    ensures
        members_view(r@) == members_view(m@),
{
    let mut out: Vec<(String, JsonValue)> = Vec::new();
    let mut i: usize = 0;
    while i < m.len()
        invariant
            i <= m.len(),
            members_view(out@) =~= members_view(m@).take(i as int),
        decreases m.len() - i,
    {
        let ghost prev = members_view(out@);
        let k = m[i].0.clone();
        let v = m[i].1.copy();
        let ghost kv = (k@, v@);
        out.push((k, v));
        assert(members_view(out@) =~= prev.push(kv));
        i = i + 1;
    }
    assert(members_view(m@).take(m.len() as int) =~= members_view(m@));
    out
}

/// The key `_entity_type`.
pub open spec fn entity_type_key() -> Seq<char> {
    seq!['_', 'e', 'n', 't', 'i', 't', 'y', '_', 't', 'y', 'p', 'e']
}

/// The key `_entity_id`.
pub open spec fn entity_id_key() -> Seq<char> {
    seq!['_', 'e', 'n', 't', 'i', 't', 'y', '_', 'i', 'd']
}

/// The key `_parent_type`.
pub open spec fn parent_type_key() -> Seq<char> {
    seq!['_', 'p', 'a', 'r', 'e', 'n', 't', '_', 't', 'y', 'p', 'e']
}

/// The key `_parent_id`.
pub open spec fn parent_id_key() -> Seq<char> {
    seq!['_', 'p', 'a', 'r', 'e', 'n', 't', '_', 'i', 'd']
}

/// The key `_parent_field`.
pub open spec fn parent_field_key() -> Seq<char> {
    seq!['_', 'p', 'a', 'r', 'e', 'n', 't', '_', 'f', 'i', 'e', 'l', 'd']
}

/// The row of `e` with its type, and with its parent's type and identifier
/// when it has a parent.
pub open spec fn typed_row(e: EntityView) -> RowView {
    let r = assoc_insert(e.data, entity_type_key(), JsonView::String(e.entity_type));
    match e.parent {
        Some(p) => assoc_insert(
            assoc_insert(r, parent_type_key(), JsonView::String(p.entity_type)),
            parent_id_key(),
            JsonView::String(p.id),
        ),
        None => r,
    }
}

/// The row of `e` for a single mixed stream: its type, its identifier when
/// it has one, and its parent's type and identifier when it has a parent.
pub open spec fn tagged_row(e: EntityView) -> RowView {
    let r = assoc_insert(e.data, entity_type_key(), JsonView::String(e.entity_type));
    let r2 = match e.id {
        Some(i) => assoc_insert(r, entity_id_key(), JsonView::String(i)),
        None => r,
    };
    match e.parent {
        Some(p) => assoc_insert(
            assoc_insert(r2, parent_type_key(), JsonView::String(p.entity_type)),
            parent_id_key(),
            JsonView::String(p.id),
        ),
        None => r2,
    }
}

/// The row of `e` with its lineage: its type, and its parent's type,
/// identifier and field when it has a parent.
pub open spec fn lineage_row(e: EntityView) -> RowView {
    match e.parent {
        Some(p) => assoc_insert(typed_row(e), parent_field_key(), JsonView::String(p.field_name)),
        None => typed_row(e),
    }
}

impl Entity {
    /// Adds the parent's type and identifier columns when there is a parent.
    fn add_parent_columns(&self, row: &mut Vec<(String, JsonValue)>)
        ensures
            members_view(final(row)@) == match self@.parent {
                Some(p) => assoc_insert(
                    assoc_insert(members_view(old(row)@), parent_type_key(), JsonView::String(p.entity_type)),
                    parent_id_key(),
                    JsonView::String(p.id),
                ),
                None => members_view(old(row)@),
            },
    {
        if let Some(p) = &self.parent {
            let pt = String::from_str("_parent_type");
            let pi = String::from_str("_parent_id");
            proof {
                reveal_strlit("_parent_type");
                reveal_strlit("_parent_id");
                assert(pt@ =~= parent_type_key());
                assert(pi@ =~= parent_id_key());
            }
            assoc_set(row, pt, JsonValue::String(p.entity_type.clone()));
            assoc_set(row, pi, JsonValue::String(p.id.0.clone()));
        }
    }

    /// This entity's row with its type, its identifier when it has one, and
    /// its parent's type and identifier when it has a parent: one line of a
    /// single mixed stream.
    pub fn tagged_row(&self) -> (r: Vec<(String, JsonValue)>)
        ensures
            members_view(r@) == tagged_row(self@),
    {
        let mut row = copy_row(&self.data);
        let et = String::from_str("_entity_type");
        proof {
            reveal_strlit("_entity_type");
            reveal_strlit("_entity_id");
            assert(et@ =~= entity_type_key());
        }
        assoc_set(&mut row, et, JsonValue::String(self.entity_type.clone()));
        if let Some(id) = &self.id {
            let ei = String::from_str("_entity_id");
            assert(ei@ =~= entity_id_key());
            assoc_set(&mut row, ei, JsonValue::String(id.0.clone()));
        }
        self.add_parent_columns(&mut row);
        row
    }

    /// This entity's row with its type, and its parent's type, identifier
    /// and field when it has a parent.
    pub fn lineage_row(&self) -> (r: Vec<(String, JsonValue)>)
        ensures
            members_view(r@) == lineage_row(self@),
    {
        let mut row = copy_row(&self.data);
        let et = String::from_str("_entity_type");
        proof {
            reveal_strlit("_entity_type");
            assert(et@ =~= entity_type_key());
        }
        assoc_set(&mut row, et, JsonValue::String(self.entity_type.clone()));
        self.add_parent_columns(&mut row);
        if let Some(p) = &self.parent {
            let pf = String::from_str("_parent_field");
            proof {
                reveal_strlit("_parent_field");
                assert(pf@ =~= parent_field_key());
            }
            assoc_set(&mut row, pf, JsonValue::String(p.field_name.clone()));
        }
        row
    }
}

} // verus!
