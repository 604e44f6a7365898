//! The streaming schema accumulator: statistics gathered one value at a
//! time, turned into a schema once at the end.
use vstd::prelude::*;
use vstd::string::*;
use crate::assoc::{assoc_view, has_key, lookup, assoc_insert, assoc_set, assoc_get, find_key};
use crate::value::{JsonValue, JsonView, NumberView, members_view, values_view};
use crate::format::{format_of, detect_format, opt_view};
use crate::plan::{type_key, items_key, properties_key, names_view};
use crate::text::chars_of;

verus! {

/// The top-level kind of a JSON value, in alphabetical order of the names.
#[derive(Debug, Clone, Copy, PartialEq, Eq, Structural)]
pub enum JsonType {
    Array,
    Boolean,
    Integer,
    Null,
    Number,
    Object,
    String,
}

/// The kind of a value: integers are numbers that fit in an `i64`.
pub open spec fn kind_of(v: JsonView) -> JsonType {
    match v {
        JsonView::Null => JsonType::Null,
        JsonView::Bool(_) => JsonType::Boolean,
        JsonView::Number(NumberView::PosInt(u)) => if u <= i64::MAX as u64 {
            JsonType::Integer
        } else {
            JsonType::Number
        },
        JsonView::Number(NumberView::NegInt(_)) => JsonType::Integer,
        JsonView::Number(NumberView::Float(_)) => JsonType::Number,
        JsonView::String(_) => JsonType::String,
        JsonView::Array(_) => JsonType::Array,
        JsonView::Object(_) => JsonType::Object,
    }
}

/// The position of a kind in alphabetical order.
pub open spec fn kind_index(t: JsonType) -> int {
    match t {
        JsonType::Array => 0,
        JsonType::Boolean => 1,
        JsonType::Integer => 2,
        JsonType::Null => 3,
        JsonType::Number => 4,
        JsonType::Object => 5,
        JsonType::String => 6,
    }
}

/// The kind at a position in alphabetical order.
pub open spec fn kind_at(i: int) -> JsonType {
    if i == 0 {
        JsonType::Array
    } else if i == 1 {
        JsonType::Boolean
    } else if i == 2 {
        JsonType::Integer
    } else if i == 3 {
        JsonType::Null
    } else if i == 4 {
        JsonType::Number
    } else if i == 5 {
        JsonType::Object
    } else {
        JsonType::String
    }
}

/// The schema name of a kind.
pub open spec fn kind_name(t: JsonType) -> Seq<char> {
    match t {
        JsonType::Array => seq!['a', 'r', 'r', 'a', 'y'],
        JsonType::Boolean => seq!['b', 'o', 'o', 'l', 'e', 'a', 'n'],
        JsonType::Integer => seq!['i', 'n', 't', 'e', 'g', 'e', 'r'],
        JsonType::Null => seq!['n', 'u', 'l', 'l'],
        JsonType::Number => seq!['n', 'u', 'm', 'b', 'e', 'r'],
        JsonType::Object => seq!['o', 'b', 'j', 'e', 'c', 't'],
        JsonType::String => seq!['s', 't', 'r', 'i', 'n', 'g'],
    }
}

/// What is known of the strings seen: whether any was, the format of the
/// first one, and whether every one since had that same format.
pub struct StringStatsView {
    pub seen: bool,
    pub format: Option<Seq<char>>,
    pub consistent: bool,
}

/// String statistics before any string.
pub open spec fn no_strings() -> StringStatsView {
    StringStatsView { seen: false, format: None, consistent: false }
}

/// String statistics after one more string, of detected format `f`.
pub open spec fn add_format(st: StringStatsView, f: Option<Seq<char>>) -> StringStatsView {
    if !st.seen {
        StringStatsView { seen: true, format: f, consistent: f is Some }
    } else {
        StringStatsView { consistent: st.consistent && f == st.format, ..st }
    }
}

/// The common format: the one every string seen had, if there is one.
pub open spec fn consensus(st: StringStatsView) -> Option<Seq<char>> {
    if st.seen && st.consistent {
        st.format
    } else {
        None
    }
}

/// The statistics of a schema accumulator.
pub struct StatsView {
    /// For each kind, in alphabetical order, whether a value of it was seen.
    pub kinds: Seq<bool>,
    pub strings: StringStatsView,
    /// The statistics of all array elements seen, once an array was.
    pub items: Option<Box<StatsView>>,
    /// Whether an object was seen.
    pub object: bool,
    /// Per property name, in order of first appearance, its statistics.
    pub props: Seq<(Seq<char>, StatsView)>,
    /// The names present in every object seen so far.
    pub required: Seq<Seq<char>>,
}

/// The statistics before any value.
pub open spec fn empty_stats() -> StatsView {
    StatsView {
        kinds: Seq::new(7, |i: int| false),
        strings: no_strings(),
        items: None,
        object: false,
        props: Seq::empty(),
        required: Seq::empty(),
    }
}

/// The distinct names among the first `n` members of `m`, in order.
pub open spec fn key_list(m: Seq<(Seq<char>, JsonView)>, n: nat) -> Seq<Seq<char>>
    decreases n,
{
    if n == 0 || n > m.len() {
        Seq::empty()
    } else {
        let ks = key_list(m, (n - 1) as nat);
        if ks.contains(m[n - 1].0) {
            ks
        } else {
            ks.push(m[n - 1].0)
        }
    }
}

/// The names of `req` that `m` has.
pub open spec fn keep_present(req: Seq<Seq<char>>, m: Seq<(Seq<char>, JsonView)>) -> Seq<Seq<char>>
    decreases req.len(),
{
    if req.len() == 0 {
        Seq::empty()
    } else {
        let rest = keep_present(req.drop_last(), m);
        if has_key(m, req.last()) {
            rest.push(req.last())
        } else {
            rest
        }
    }
}

/// The statistics after one more value.
pub open spec fn absorb(st: StatsView, v: JsonView) -> StatsView
    decreases v, 1nat,
{
    let st1 = StatsView { kinds: st.kinds.update(kind_index(kind_of(v)), true), ..st };
    match v {
        JsonView::String(s) => StatsView { strings: add_format(st1.strings, format_of(s)), ..st1 },
        JsonView::Array(items) => {
            let base = match st1.items {
                Some(b) => *b,
                None => empty_stats(),
            };
            StatsView { items: Some(Box::new(absorb_all(base, items, items.len()))), ..st1 }
        },
        JsonView::Object(m) => {
            let required = if st1.object {
                keep_present(st1.required, m)
            } else {
                key_list(m, m.len())
            };
            StatsView {
                object: true,
                props: absorb_members(st1.props, m, m.len()),
                required,
                ..st1
            }
        },
        _ => st1,
    }
}

/// The statistics after the first `n` of `items`, one after the other.
pub open spec fn absorb_all(st: StatsView, items: Seq<JsonView>, n: nat) -> StatsView
    decreases items, n,
{
    if n == 0 || n > items.len() {
        st
    } else {
        absorb(absorb_all(st, items, (n - 1) as nat), items[n - 1])
    }
}

/// The property statistics after the first `n` members of `m`: each value
/// goes to the statistics of its name, new names last.
pub open spec fn absorb_members(
    props: Seq<(Seq<char>, StatsView)>,
    m: Seq<(Seq<char>, JsonView)>,
    n: nat,
) -> Seq<(Seq<char>, StatsView)>
    decreases m, n,
{
    if n == 0 || n > m.len() {
        props
    } else {
        let ps = absorb_members(props, m, (n - 1) as nat);
        let cur = match lookup(ps, m[n - 1].0) {
            Some(b) => b,
            None => empty_stats(),
        };
        assoc_insert(ps, m[n - 1].0, absorb(cur, m[n - 1].1))
    }
}

/// The statistics of a sequence of values.
pub open spec fn stats_of(samples: Seq<JsonView>) -> StatsView {
    absorb_all(empty_stats(), samples, samples.len())
}

/// How many of the first `n` flags are set.
pub open spec fn count_set(flags: Seq<bool>, n: nat) -> nat
    decreases n,
{
    if n == 0 || n > flags.len() {
        0
    } else {
        count_set(flags, (n - 1) as nat) + if flags[n - 1] {
            1nat
        } else {
            0nat
        }
    }
}

/// The first kind seen other than `skip`, if any.
pub open spec fn first_kind_from(flags: Seq<bool>, i: nat, skip: int) -> int
    decreases 7 - i,
{
    if i >= 7 {
        7
    } else if flags[i as int] && i != skip {
        i as int
    } else {
        first_kind_from(flags, i + 1, skip)
    }
}

/// The names of the kinds seen among the first `n`, as a JSON array.
pub open spec fn kind_names(flags: Seq<bool>, n: nat) -> Seq<JsonView>
    decreases n,
{
    if n == 0 || n > flags.len() {
        Seq::empty()
    } else {
        let rest = kind_names(flags, (n - 1) as nat);
        if flags[n - 1] {
            rest.push(JsonView::String(kind_name(kind_at(n - 1))))
        } else {
            rest
        }
    }
}

/// `a` sorts before or equal to `b` when the two agree before position `i`,
/// comparing characters by code.
pub open spec fn lex_le_from(a: Seq<char>, b: Seq<char>, i: nat) -> bool
    decreases a.len() - i,
{
    if i >= a.len() {
        true
    } else if i >= b.len() {
        false
    } else if a[i as int] != b[i as int] {
        (a[i as int] as int) < (b[i as int] as int)
    } else {
        lex_le_from(a, b, i + 1)
    }
}

/// `a` sorts before or equal to `b`, comparing characters by code.
pub open spec fn lex_le(a: Seq<char>, b: Seq<char>) -> bool {
    lex_le_from(a, b, 0)
}

/// Where `x` goes in `t`, searching from `i`: before the first element it
/// sorts before or equal to.
pub open spec fn insert_pos(t: Seq<Seq<char>>, x: Seq<char>, i: nat) -> nat
    decreases t.len() - i,
{
    if i >= t.len() {
        t.len()
    } else if lex_le(x, t[i as int]) {
        i
    } else {
        insert_pos(t, x, i + 1)
    }
}

/// The names sorted by insertion.
pub open spec fn sort_names(s: Seq<Seq<char>>) -> Seq<Seq<char>>
    decreases s.len(),
{
    if s.len() == 0 {
        Seq::empty()
    } else {
        let t = sort_names(s.drop_last());
        t.insert(insert_pos(t, s.last(), 0) as int, s.last())
    }
}

/// The name `format`.
pub open spec fn format_key() -> Seq<char> {
    seq!['f', 'o', 'r', 'm', 'a', 't']
}

/// The name `required`.
pub open spec fn required_key() -> Seq<char> {
    seq!['r', 'e', 'q', 'u', 'i', 'r', 'e', 'd']
}

/// A schema node with just a `type`.
pub open spec fn typed(t: JsonType) -> Seq<(Seq<char>, JsonView)> {
    seq![(type_key(), JsonView::String(kind_name(t)))]
}

/// Names as JSON strings.
pub open spec fn names_json(s: Seq<Seq<char>>) -> Seq<JsonView> {
    Seq::new(s.len(), |i: int| JsonView::String(s[i]))
}

/// Some value of each kind was seen.
pub open spec fn any_seen(st: StatsView) -> bool {
    count_set(st.kinds, 7) > 0
}

/// The schema of the statistics.
pub open spec fn schema_of_stats(st: StatsView) -> JsonView
    decreases st, 1nat,
{
    let count = count_set(st.kinds, 7);
    if count == 0 {
        JsonView::Object(Seq::empty())
    } else if count == 1 {
        single_schema(st, kind_at(first_kind_from(st.kinds, 0, 7)))
    } else if count == 2 && st.kinds[3] {
        nullable(single_schema(st, kind_at(first_kind_from(st.kinds, 0, 3))))
    } else {
        JsonView::Object(seq![(type_key(), JsonView::Array(kind_names(st.kinds, 7)))])
    }
}

/// The schema of one kind from the statistics.
pub open spec fn single_schema(st: StatsView, t: JsonType) -> JsonView
    decreases st, 0nat,
{
    match t {
        JsonType::String => match consensus(st.strings) {
            Some(f) => JsonView::Object(typed(t).push((format_key(), JsonView::String(f)))),
            None => JsonView::Object(typed(t)),
        },
        JsonType::Array => array_schema(st.items),
        JsonType::Object => if st.object {
            object_schema(st.props, st.required)
        } else {
            JsonView::Object(typed(t))
        },
        _ => JsonView::Object(typed(t)),
    }
}

/// The schema of arrays: their `items` when an element was seen.
pub open spec fn array_schema(items: Option<Box<StatsView>>) -> JsonView
    decreases items, 0nat,
{
    match items {
        Some(b) => if any_seen(*b) {
            JsonView::Object(typed(JsonType::Array).push((items_key(), schema_of_stats(*b))))
        } else {
            JsonView::Object(typed(JsonType::Array))
        },
        None => JsonView::Object(typed(JsonType::Array)),
    }
}

/// The schema of objects: their properties, and the names every object
/// had, sorted, when there are any.
pub open spec fn object_schema(props: Seq<(Seq<char>, StatsView)>, required: Seq<Seq<char>>) -> JsonView
    decreases props, 1nat,
{
    let base = typed(JsonType::Object).push((properties_key(), JsonView::Object(props_schema(props))));
    if required.len() > 0 {
        JsonView::Object(base.push((required_key(), JsonView::Array(names_json(sort_names(required))))))
    } else {
        JsonView::Object(base)
    }
}

/// The schema of each property, in order.
pub open spec fn props_schema(props: Seq<(Seq<char>, StatsView)>) -> Seq<(Seq<char>, JsonView)>
    decreases props, 0nat,
{
    Seq::new(
        props.len(),
        |i: int|
            if 0 <= i < props.len() {
                (props[i].0, schema_of_stats(props[i].1))
            } else {
                (Seq::empty(), JsonView::Null)
            },
    )
}

/// A schema whose single `type` also admits `null`.
pub open spec fn nullable(s: JsonView) -> JsonView {
    match s {
        JsonView::Object(m) => match lookup(m, type_key()) {
            Some(JsonView::String(t)) => JsonView::Object(
                assoc_insert(
                    m,
                    type_key(),
                    JsonView::Array(seq![JsonView::String(t), JsonView::String(kind_name(JsonType::Null))]),
                ),
            ),
            _ => s,
        },
        _ => s,
    }
}

/// The schema inferred from a sequence of values.
pub open spec fn schema_of(samples: Seq<JsonView>) -> JsonView {
    schema_of_stats(stats_of(samples))
}

impl JsonType {
    /// The kind of a value.
    pub fn from_value(value: &JsonValue) -> (r: JsonType)
        ensures
            r == kind_of(value@),
    {
        match value {
            JsonValue::Null => JsonType::Null,
            JsonValue::Bool(_) => JsonType::Boolean,
            JsonValue::Number(crate::value::JsonNumber::PosInt(u)) => {
                if *u <= i64::MAX as u64 {
                    JsonType::Integer
                } else {
                    JsonType::Number
                }
            },
            JsonValue::Number(crate::value::JsonNumber::NegInt(_)) => JsonType::Integer,
            JsonValue::Number(crate::value::JsonNumber::Float(_)) => JsonType::Number,
            JsonValue::String(_) => JsonType::String,
            JsonValue::Array(_) => JsonType::Array,
            JsonValue::Object(_) => JsonType::Object,
        }
    }

    /// The schema name of this kind.
    pub fn to_str(self) -> (r: &'static str)
        ensures
            r@ == kind_name(self),
    {
        proof {
            reveal_strlit("null");
            reveal_strlit("boolean");
            reveal_strlit("integer");
            reveal_strlit("number");
            reveal_strlit("string");
            reveal_strlit("array");
            reveal_strlit("object");
        }
        match self {
            JsonType::Null => "null",
            JsonType::Boolean => "boolean",
            JsonType::Integer => "integer",
            JsonType::Number => "number",
            JsonType::String => "string",
            JsonType::Array => "array",
            JsonType::Object => "object",
        }
    }

    /// The position of this kind in alphabetical order.
    fn index(self) -> (r: usize)
        ensures
            r as int == kind_index(self),
            kind_at(r as int) == self,
    {
        match self {
            JsonType::Array => 0,
            JsonType::Boolean => 1,
            JsonType::Integer => 2,
            JsonType::Null => 3,
            JsonType::Number => 4,
            JsonType::Object => 5,
            JsonType::String => 6,
        }
    }

    /// The kind at a position in alphabetical order.
    fn at(i: usize) -> (r: JsonType)
        ensures
            r == kind_at(i as int),
    {
        if i == 0 {
            JsonType::Array
        } else if i == 1 {
            JsonType::Boolean
        } else if i == 2 {
            JsonType::Integer
        } else if i == 3 {
            JsonType::Null
        } else if i == 4 {
            JsonType::Number
        } else if i == 5 {
            JsonType::Object
        } else {
            JsonType::String
        }
    }
}

/// A string value holding `s`.
pub(crate) fn text_value(s: &str) -> (r: JsonValue)
    ensures
        r@ == JsonView::String(s@),
{
    JsonValue::String(String::from_str(s))
}

/// The member `"type": <name of t>`.
fn type_member(t: JsonType) -> (r: (String, JsonValue))
    ensures
        r.0@ == type_key(),
        r.1@ == JsonView::String(kind_name(t)),
{
    proof {
        reveal_strlit("type");
    }
    (String::from_str("type"), text_value(t.to_str()))
}

/// Statistics of the strings seen.
#[derive(Debug)]
struct StringStats {
    seen: bool,
    format: Option<String>,
    consistent: bool,
}

impl View for StringStats {
    type V = StringStatsView;

    closed spec fn view(&self) -> StringStatsView {
        StringStatsView { seen: self.seen, format: opt_view(self.format), consistent: self.consistent }
    }
}

impl StringStats {
    fn new() -> (r: StringStats)
        ensures
            r@ == no_strings(),
    {
        StringStats { seen: false, format: None, consistent: false }
    }

    /// Records one more string.
    fn add_string(&mut self, s: &str)
        ensures
            final(self)@ == add_format(old(self)@, format_of(s@)),
    {
        let f = detect_format(s);
        if !self.seen {
            self.seen = true;
            self.consistent = f.is_some();
            self.format = f;
        } else if self.consistent {
            let same = match (&f, &self.format) {
                (Some(a), Some(b)) => *a == *b,
                (None, None) => true,
                _ => false,
            };
            self.consistent = same;
        }
    }

    /// The format every string seen had, if there is one.
    fn get_format(&self) -> (r: Option<String>)
        ensures
            opt_view(r) == consensus(self@),
    {
        if self.seen && self.consistent {
            match &self.format {
                Some(f) => Some(f.clone()),
                None => None,
            }
        } else {
            None
        }
    }
}

/// The statistics of all elements of all arrays seen.
#[derive(Debug)]
struct ArrayBuilder {
    items_builder: Box<SchemaBuilder>,
}

/// The statistics of all objects seen.
#[derive(Debug)]
struct ObjectBuilder {
    /// Per property name, in order of first appearance, its accumulator.
    properties: Vec<(String, SchemaBuilder)>,
    /// The names present in every object seen so far.
    required: Vec<String>,
    /// Whether an object was seen.
    sampled: bool,
}

/// Accumulates statistics over a stream of values and builds one schema
/// from them: the kinds seen, the common string format, the statistics of
/// all array elements together, and per property of all objects.
#[derive(Debug)]
pub struct SchemaBuilder {
    type_counts: [usize; 7],
    string_stats: Option<StringStats>,
    array_builder: Option<ArrayBuilder>,
    object_builder: Option<ObjectBuilder>,
}

impl SchemaBuilder {
    /// The statistics gathered so far.
    pub closed spec fn stats(&self) -> StatsView
        decreases self,
    {
        StatsView {
            kinds: Seq::new(7, |i: int| self.type_counts@[i] > 0),
            strings: match self.string_stats {
                Some(st) => st@,
                None => no_strings(),
            },
            items: match self.array_builder {
                Some(a) => Some(Box::new(a.items_builder.stats())),
                None => None,
            },
            object: match self.object_builder {
                Some(o) => o.sampled,
                None => false,
            },
            props: match self.object_builder {
                Some(o) => Seq::new(
                    o.properties.len() as nat,
                    |i: int|
                        if 0 <= i < o.properties.len() {
                            (o.properties[i].0@, o.properties[i].1.stats())
                        } else {
                            (Seq::empty(), empty_stats())
                        },
                ),
                None => Seq::empty(),
            },
            required: match self.object_builder {
                Some(o) => names_view(o.required@),
                None => Seq::empty(),
            },
        }
    }

    /// An accumulator that has seen nothing.
    pub fn new() -> (r: SchemaBuilder)
        ensures
            r.stats() == empty_stats(),
    {
        let r = SchemaBuilder {
            type_counts: [0usize; 7],
            string_stats: None,
            array_builder: None,
            object_builder: None,
        };
        assert(r.stats().kinds =~= empty_stats().kinds);
        assert(r.stats().props =~= empty_stats().props);
        r
    }

    /// Records one more value.
    pub fn add_value(&mut self, value: &JsonValue)
        ensures
            final(self).stats() == absorb(old(self).stats(), value@),
        decreases value, 1nat,
    {
        let ghost st0 = self.stats();
        let kind = JsonType::from_value(value);
        let i = kind.index();
        let c = self.type_counts[i];
        self.type_counts.set(i, c.saturating_add(1));
        let ghost st1 = StatsView { kinds: st0.kinds.update(kind_index(kind_of(value@)), true), ..st0 };
        assert(self.stats().kinds =~= st1.kinds);
        assert(self.stats() == st1) by {
            assert(self.stats().props =~= st1.props);
        }
        match value {
            JsonValue::String(s) => {
                if self.string_stats.is_none() {
                    self.string_stats = Some(StringStats::new());
                }
                match &mut self.string_stats {
                    Some(stats) => stats.add_string(s.as_str()),
                    None => {},
                }
                assert(self.stats().props =~= st1.props);
                assert(self.stats().kinds =~= st1.kinds);
            },
            JsonValue::Array(items) => {
                if self.array_builder.is_none() {
                    self.array_builder = Some(ArrayBuilder::new());
                }
                match &mut self.array_builder {
                    Some(builder) => builder.add_array(value, items),
                    None => {},
                }
                assert(values_view(items@) =~= value@->Array_0);
                assert(self.stats().props =~= st1.props);
                assert(self.stats().kinds =~= st1.kinds);
            },
            JsonValue::Object(members) => {
                if self.object_builder.is_none() {
                    self.object_builder = Some(ObjectBuilder::new());
                    assert(self.stats().props =~= st1.props);
                    assert(self.stats().required =~= st1.required);
                }
                assert(self.stats().props == st1.props);
                proof {
                    lemma_props_view(*self);
                }
                match &mut self.object_builder {
                    Some(builder) => builder.add_object(value, members),
                    None => {},
                }
                assert(members_view(members@) =~= value@->Object_0);
                proof {
                    lemma_props_view(*self);
                }
                assert(self.stats().kinds =~= st1.kinds);
                assert(self.stats().props =~= absorb(st0, value@).props);
            },
            _ => {},
        }
    }
}

impl Default for SchemaBuilder {
    /// An accumulator that has seen nothing.
    fn default() -> (r: SchemaBuilder)
        ensures
            r.stats() == empty_stats(),
    {
        SchemaBuilder::new()
    }
}

/// The property statistics of an accumulator are those of its object part.
proof fn lemma_props_view(sb: SchemaBuilder)
    requires
        sb.object_builder is Some,
    ensures
        sb.stats().props == assoc_view(sb.object_builder->Some_0.properties@),
{
    assert(sb.stats().props =~= assoc_view(sb.object_builder->Some_0.properties@));
}

impl View for SchemaBuilder {
    type V = StatsView;

    closed spec fn view(&self) -> StatsView {
        self.stats()
    }
}

impl ArrayBuilder {
    /// The schema of the arrays seen: `items` when an element was seen.
    fn build(&self) -> (r: JsonValue)
        ensures
            r@ == array_schema(Some(Box::new(self.items_builder.stats()))),
        decreases self, 0nat,
    {
        let mut schema: Vec<(String, JsonValue)> = Vec::new();
        schema.push(type_member(JsonType::Array));
        assert(members_view(schema@) =~= typed(JsonType::Array));
        if self.items_builder.kinds_seen() > 0 {
            proof {
                assert(decreases_to!(*self => self.items_builder));
            }
            let items = self.items_builder.build_schema();
            let items_k = String::from_str("items");
            proof {
                reveal_strlit("items");
                assert(items_k@ =~= items_key());
            }
            schema.push((items_k, items));
            assert(members_view(schema@) =~= typed(JsonType::Array).push((items_key(), items@)));
        }
        let r = JsonValue::Object(schema);
        assert(r@->Object_0 =~= members_view(schema@));
        r
    }

    fn new() -> (r: ArrayBuilder)
        ensures
            r.items_builder.stats() == empty_stats(),
    {
        ArrayBuilder { items_builder: Box::new(SchemaBuilder::new()) }
    }

    /// Records every element of one array.
    fn add_array(&mut self, value: &JsonValue, arr: &Vec<JsonValue>)
        requires
            *value == JsonValue::Array(*arr),
        ensures
            final(self).items_builder.stats() == absorb_all(
                old(self).items_builder.stats(),
                values_view(arr@),
                arr@.len(),
            ),
        decreases value, 0nat,
    {
        let ghost iv = values_view(arr@);
        let ghost st0 = self.items_builder.stats();
        let mut i: usize = 0;
        while i < arr.len()
            invariant
                i <= arr.len(),
                *value == JsonValue::Array(*arr),
                iv == values_view(arr@),
                self.items_builder.stats() == absorb_all(st0, iv, i as nat),
            decreases arr.len() - i,
        {
            proof {
                assert(decreases_to!(*value => value->Array_0));
                assert(decreases_to!(value->Array_0 => value->Array_0@));
                assert(decreases_to!(value->Array_0@ => value->Array_0@[i as int]));
            }
            self.items_builder.add_value(&arr[i]);
            i = i + 1;
        }
    }
}

impl ObjectBuilder {
    /// The schema of the objects seen: each property's schema, and the
    /// names every object had, sorted.
    fn build(&self) -> (r: JsonValue)
        ensures
            r@ == object_schema(assoc_view(self.properties@), names_view(self.required@)),
        decreases self, 0nat,
    {
        let ghost pv = assoc_view(self.properties@);
        let mut schema: Vec<(String, JsonValue)> = Vec::new();
        schema.push(type_member(JsonType::Object));
        assert(members_view(schema@) =~= typed(JsonType::Object));
        let mut props: Vec<(String, JsonValue)> = Vec::new();
        let mut i: usize = 0;
        while i < self.properties.len()
            invariant
                i <= self.properties.len(),
                pv == assoc_view(self.properties@),
                members_view(props@) =~= Seq::new(i as nat, |j: int| (pv[j].0, schema_of_stats(pv[j].1))),
            decreases self.properties.len() - i,
        {
            proof {
                assert(decreases_to!(*self => self.properties));
                assert(decreases_to!(self.properties => self.properties@));
                assert(decreases_to!(self.properties@ => self.properties@[i as int]));
                assert(decreases_to!(self.properties@[i as int] => self.properties@[i as int].1));
            }
            let sub = self.properties[i].1.build_schema();
            let ghost prev = members_view(props@);
            let k = self.properties[i].0.clone();
            let ghost kv = k@;
            let ghost sv = sub@;
            props.push((k, sub));
            assert(members_view(props@) =~= prev.push((kv, sv)));
            i = i + 1;
            assert(members_view(props@) =~= Seq::new(i as nat, |j: int| (pv[j].0, schema_of_stats(pv[j].1))));
        }
        let props_value = JsonValue::Object(props);
        assert(props_value@->Object_0 =~= members_view(props@));
        assert(members_view(props@) =~= props_schema(pv));
        let props_k = String::from_str("properties");
        proof {
            reveal_strlit("properties");
            assert(props_k@ =~= properties_key());
        }
        schema.push((props_k, props_value));
        let ghost base = typed(JsonType::Object).push((properties_key(), JsonView::Object(props_schema(pv))));
        assert(members_view(schema@) =~= base);
        if self.required.len() > 0 {
            let sorted = sorted_names(&self.required);
            let names = names_to_json(&sorted);
            let req = JsonValue::Array(names);
            assert(req@->Array_0 =~= names_json(sort_names(names_view(self.required@))));
            let required_k = String::from_str("required");
            proof {
                reveal_strlit("required");
                assert(required_k@ =~= required_key());
            }
            schema.push((required_k, req));
            assert(members_view(schema@) =~= base.push((required_key(), JsonView::Array(names_json(sort_names(names_view(self.required@)))))));
        }
        let r = JsonValue::Object(schema);
        assert(r@->Object_0 =~= members_view(schema@));
        r
    }

    fn new() -> (r: ObjectBuilder)
        ensures
            r.properties@.len() == 0,
            r.required@.len() == 0,
            !r.sampled,
    {
        ObjectBuilder { properties: Vec::new(), required: Vec::new(), sampled: false }
    }

    /// Records one object: each member's value goes to its property's
    /// accumulator, and the names required so far are narrowed to its own.
    fn add_object(&mut self, value: &JsonValue, obj: &Vec<(String, JsonValue)>)
        requires
            *value == JsonValue::Object(*obj),
        ensures
            assoc_view(final(self).properties@) == absorb_members(
                assoc_view(old(self).properties@),
                members_view(obj@),
                obj@.len(),
            ),
            names_view(final(self).required@) == if old(self).sampled {
                keep_present(names_view(old(self).required@), members_view(obj@))
            } else {
                key_list(members_view(obj@), obj@.len())
            },
            final(self).sampled,
        decreases value, 0nat,
    {
        let ghost mv = members_view(obj@);
        let ghost p0 = assoc_view(self.properties@);
        let mut i: usize = 0;
        while i < obj.len()
            invariant
                i <= obj.len(),
                *value == JsonValue::Object(*obj),
                mv == members_view(obj@),
                assoc_view(self.properties@) == absorb_members(p0, mv, i as nat),
                self.required@ == old(self).required@,
                self.sampled == old(self).sampled,
            decreases obj.len() - i,
        {
            let key = &obj[i].0;
            let ghost ps = assoc_view(self.properties@);
            let idx = match find_key(&self.properties, key) {
                Some(j) => j,
                None => {
                    self.properties.push((key.clone(), SchemaBuilder::new()));
                    assert(assoc_view(self.properties@) =~= ps.push((key@, empty_stats())));
                    self.properties.len() - 1
                },
            };
            proof {
                assert(decreases_to!(*value => value->Object_0));
                assert(decreases_to!(value->Object_0 => value->Object_0@));
                assert(decreases_to!(value->Object_0@ => value->Object_0@[i as int]));
                assert(decreases_to!(value->Object_0@[i as int] => value->Object_0@[i as int].1));
            }
            self.properties[idx].1.add_value(&obj[i].1);
            assert(assoc_view(self.properties@) =~= absorb_members(p0, mv, (i + 1) as nat));
            i = i + 1;
        }
        if self.sampled {
            let ghost req0 = names_view(self.required@);
            let mut kept: Vec<String> = Vec::new();
            let mut j: usize = 0;
            while j < self.required.len()
                invariant
                    j <= self.required.len(),
                    req0 == names_view(self.required@),
                    mv == members_view(obj@),
                    names_view(kept@) == keep_present(req0.take(j as int), mv),
                decreases self.required.len() - j,
            {
                assert(req0.take(j + 1).drop_last() =~= req0.take(j as int));
                if find_key(obj, &self.required[j]).is_some() {
                    kept.push(self.required[j].clone());
                    assert(names_view(kept@) =~= keep_present(req0.take(j + 1), mv));
                } else {
                    assert(names_view(kept@) =~= keep_present(req0.take(j + 1), mv));
                }
                j = j + 1;
            }
            assert(req0.take(self.required.len() as int) =~= req0);
            self.required = kept;
        } else {
            let mut keys: Vec<String> = Vec::new();
            let mut j: usize = 0;
            while j < obj.len()
                invariant
                    j <= obj.len(),
                    mv == members_view(obj@),
                    names_view(keys@) == key_list(mv, j as nat),
                decreases obj.len() - j,
            {
                crate::plan::add_name(&mut keys, obj[j].0.clone());
                j = j + 1;
            }
            self.required = keys;
            self.sampled = true;
        }
    }
}

/// Whether `a` sorts before or equal to `b`.
fn names_le(a: &String, b: &String) -> (r: bool)
    ensures
        r == lex_le(a@, b@),
{
    let x = chars_of(a.as_str());
    let y = chars_of(b.as_str());
    let mut i: usize = 0;
    while i < x.len() && i < y.len() && x[i] == y[i]
        invariant
            i <= x.len(),
            i <= y.len(),
            x@ == a@,
            y@ == b@,
            lex_le_from(a@, b@, 0) == lex_le_from(a@, b@, i as nat),
        decreases x.len() - i,
    {
        i = i + 1;
    }
    if i >= x.len() {
        true
    } else if i >= y.len() {
        false
    } else {
        x[i] < y[i]
    }
}

/// The names sorted by insertion.
pub(crate) fn sorted_names(v: &Vec<String>) -> (r: Vec<String>)
    ensures
        names_view(r@) == sort_names(names_view(v@)),
{
    let ghost nv = names_view(v@);
    let mut t: Vec<String> = Vec::new();
    let mut i: usize = 0;
    while i < v.len()
        invariant
            i <= v.len(),
            nv == names_view(v@),
            names_view(t@) == sort_names(nv.take(i as int)),
        decreases v.len() - i,
    {
        assert(nv.take(i + 1).drop_last() =~= nv.take(i as int));
        let x = &v[i];
        let ghost tv = names_view(t@);
        let mut j: usize = 0;
        while j < t.len() && !names_le(x, &t[j])
            invariant
                j <= t.len(),
                tv == names_view(t@),
                insert_pos(tv, x@, 0) == insert_pos(tv, x@, j as nat),
            decreases t.len() - j,
        {
            j = j + 1;
        }
        t.insert(j, x.clone());
        assert(names_view(t@) =~= tv.insert(j as int, x@));
        i = i + 1;
    }
    assert(nv.take(v.len() as int) =~= nv);
    t
}

/// The names as JSON strings.
pub(crate) fn names_to_json(v: &Vec<String>) -> (r: Vec<JsonValue>)
    ensures
        values_view(r@) == names_json(names_view(v@)),
{
    let mut out: Vec<JsonValue> = Vec::new();
    let mut i: usize = 0;
    while i < v.len()
        invariant
            i <= v.len(),
            values_view(out@) =~= names_json(names_view(v@).take(i as int)),
        decreases v.len() - i,
    {
        let ghost prev = values_view(out@);
        let x = JsonValue::String(v[i].clone());
        let ghost xv = x@;
        out.push(x);
        assert(values_view(out@) =~= prev.push(xv));
        i = i + 1;
        assert(values_view(out@) =~= names_json(names_view(v@).take(i as int)));
    }
    assert(names_view(v@).take(v.len() as int) =~= names_view(v@));
    out
}

/// `schema` with a single `type` widened to admit `null`.
fn make_nullable(schema: JsonValue) -> (r: JsonValue)
    ensures
        r@ == nullable(schema@),
{
    let type_k = String::from_str("type");
    proof {
        reveal_strlit("type");
        reveal_strlit("null");
        assert(type_k@ =~= type_key());
    }
    match schema {
        JsonValue::Object(m) => {
            let ghost mv = members_view(m@);
            assert(schema@->Object_0 =~= mv);
            let t = match assoc_get(&m, &type_k) {
                Some(JsonValue::String(t)) => t.clone(),
                _ => {
                    return JsonValue::Object(m);
                },
            };
            let mut m2 = m;
            let mut pair: Vec<JsonValue> = Vec::new();
            pair.push(JsonValue::String(t));
            pair.push(text_value(JsonType::Null.to_str()));
            assert(values_view(pair@) =~= seq![JsonView::String(t@), JsonView::String(kind_name(JsonType::Null))]);
            let arr = JsonValue::Array(pair);
            assert(arr@->Array_0 =~= values_view(pair@));
            assoc_set(&mut m2, type_k, arr);
            let r = JsonValue::Object(m2);
            assert(r@->Object_0 =~= members_view(m2@));
            r
        },
        other => other,
    }
}

impl SchemaBuilder {
    /// How many kinds were seen.
    fn kinds_seen(&self) -> (r: usize)
        ensures
            r == count_set(self.stats().kinds, 7),
            r <= 7,
    {
        let mut n: usize = 0;
        let mut i: usize = 0;
        while i < 7
            invariant
                i <= 7,
                n == count_set(self.stats().kinds, i as nat),
                n <= i,
            decreases 7 - i,
        {
            if self.type_counts[i] > 0 {
                n = n + 1;
            }
            i = i + 1;
        }
        n
    }

    /// The first kind seen from position `from` on, other than `skip`.
    fn first_kind(&self, skip: usize) -> (r: usize)
        ensures
            r as int == first_kind_from(self.stats().kinds, 0, skip as int),
    {
        let mut i: usize = 0;
        while i < 7
            invariant
                i <= 7,
                first_kind_from(self.stats().kinds, 0, skip as int) == first_kind_from(
                    self.stats().kinds,
                    i as nat,
                    skip as int,
                ),
            decreases 7 - i,
        {
            if self.type_counts[i] > 0 && i != skip {
                return i;
            }
            i = i + 1;
        }
        7
    }

    /// Builds the schema from the statistics: nothing seen gives `{}`; one
    /// kind gives that kind's schema; a kind and `null` give that kind's
    /// schema with `type` widened to the pair; more give just the sorted
    /// list of kind names.
    pub fn build(self) -> (r: JsonValue)
        ensures
            r@ == schema_of_stats(self.stats()),
    {
        self.build_schema()
    }

    /// The schema of the statistics gathered so far.
    fn build_schema(&self) -> (r: JsonValue)
        ensures
            r@ == schema_of_stats(self.stats()),
        decreases self, 2nat,
    {
        let count = self.kinds_seen();
        if count == 0 {
            let r = JsonValue::Object(Vec::new());
            assert(r@->Object_0 =~= Seq::<(Seq<char>, JsonView)>::empty());
            return r;
        }
        if count == 1 {
            let k = self.first_kind(7);
            return self.build_single_type_schema(JsonType::at(k));
        }
        if count == 2 && self.type_counts[3] > 0 {
            let k = self.first_kind(3);
            let single = self.build_single_type_schema(JsonType::at(k));
            return make_nullable(single);
        }
        let mut names: Vec<JsonValue> = Vec::new();
        let mut i: usize = 0;
        while i < 7
            invariant
                i <= 7,
                values_view(names@) =~= kind_names(self.stats().kinds, i as nat),
            decreases 7 - i,
        {
            if self.type_counts[i] > 0 {
                let ghost prev = values_view(names@);
                let x = text_value(JsonType::at(i).to_str());
                let ghost xv = x@;
                names.push(x);
                assert(values_view(names@) =~= prev.push(xv));
            }
            i = i + 1;
            assert(values_view(names@) =~= kind_names(self.stats().kinds, i as nat));
        }
        proof {
            reveal_strlit("type");
        }
        let type_k = String::from_str("type");
        assert(type_k@ =~= type_key());
        let names_value = JsonValue::Array(names);
        assert(names_value@->Array_0 =~= values_view(names@));
        let mut members: Vec<(String, JsonValue)> = Vec::new();
        members.push((type_k, names_value));
        let r = JsonValue::Object(members);
        assert(r@->Object_0 =~= seq![(type_key(), JsonView::Array(kind_names(self.stats().kinds, 7)))]);
        r
    }

    /// The schema of kind `t` from the statistics.
    fn build_single_type_schema(&self, t: JsonType) -> (r: JsonValue)
        ensures
            r@ == single_schema(self.stats(), t),
        decreases self, 1nat,
    {
        let mut schema: Vec<(String, JsonValue)> = Vec::new();
        schema.push(type_member(t));
        assert(members_view(schema@) =~= typed(t));
        match t {
            JsonType::String => {
                if let Some(stats) = &self.string_stats {
                    if let Some(f) = stats.get_format() {
                        proof {
                            reveal_strlit("format");
                        }
                        let format_k = String::from_str("format");
                        assert(format_k@ =~= format_key());
                        schema.push((format_k, JsonValue::String(f)));
                        assert(members_view(schema@) =~= typed(t).push((format_key(), JsonView::String(self.stats().strings.format->0))));
                    }
                }
            },
            JsonType::Array => {
                if let Some(builder) = &self.array_builder {
                    proof {
                        assert(decreases_to!(*self => self.array_builder));
                        assert(decreases_to!(self.array_builder => self.array_builder->Some_0));
                    }
                    return builder.build();
                }
            },
            JsonType::Object => {
                if let Some(builder) = &self.object_builder {
                    if builder.sampled {
                        proof {
                            lemma_props_view(*self);
                            assert(decreases_to!(*self => self.object_builder));
                            assert(decreases_to!(self.object_builder => self.object_builder->Some_0));
                        }
                        return builder.build();
                    }
                }
            },
            _ => {},
        }
        let r = JsonValue::Object(schema);
        assert(r@->Object_0 =~= members_view(schema@));
        r
    }
}

/// The schema inferred from `examples`, fed one by one to a fresh accumulator.
pub fn infer_schema_streaming(examples: &Vec<JsonValue>) -> (r: JsonValue)
    ensures
        r@ == schema_of(values_view(examples@)),
{
    let ghost ev = values_view(examples@);
    let mut builder = SchemaBuilder::new();
    let mut i: usize = 0;
    while i < examples.len()
        invariant
            i <= examples.len(),
            ev == values_view(examples@),
            builder.stats() == absorb_all(empty_stats(), ev, i as nat),
        decreases examples.len() - i,
    {
        builder.add_value(&examples[i]);
        i = i + 1;
    }
    builder.build()
}


/// Some value of `s` is an object.
pub open spec fn some_object(s: Seq<JsonView>) -> bool {
    exists|i: int| 0 <= i < s.len() && s[i] is Object
}

/// Every object of `s` has the member `k`.
pub open spec fn all_objects_have(s: Seq<JsonView>, k: Seq<char>) -> bool {
    forall|i: int| 0 <= i < s.len() && s[i] is Object ==> has_key(#[trigger] s[i]->Object_0, k)
}

/// Some object of `s` has the member `k`.
pub open spec fn some_object_has(s: Seq<JsonView>, k: Seq<char>) -> bool {
    exists|i: int| 0 <= i < s.len() && s[i] is Object && has_key(#[trigger] s[i]->Object_0, k)
}

/// Some value of `s` is a string.
pub open spec fn some_string(s: Seq<JsonView>) -> bool {
    exists|i: int| 0 <= i < s.len() && s[i] is String
}

/// Every string of `s` has the detected format `f`.
pub open spec fn all_strings_have_format(s: Seq<JsonView>, f: Option<Seq<char>>) -> bool {
    forall|i: int| 0 <= i < s.len() && s[i] is String ==> format_of(#[trigger] s[i]->String_0) == f
}

/// The first string of `s`.
pub open spec fn first_string(s: Seq<JsonView>) -> Seq<char>
    decreases s.len(),
{
    if s.len() == 0 {
        Seq::empty()
    } else if some_string(s.drop_last()) {
        first_string(s.drop_last())
    } else {
        s.last()->String_0
    }
}

/// Folding only sees the first `n` values.
proof fn lemma_absorb_all_prefix(st: StatsView, a: Seq<JsonView>, b: Seq<JsonView>, n: nat)
    requires
        n <= a.len(),
        n <= b.len(),
        forall|i: int| 0 <= i < n ==> a[i] == b[i],
    ensures
        absorb_all(st, a, n) == absorb_all(st, b, n),
    decreases n,
{
    if n > 0 {
        lemma_absorb_all_prefix(st, a, b, (n - 1) as nat);
    }
}

/// The statistics of `s` followed by `v` absorb `v` into those of `s`.
pub proof fn lemma_stats_push(s: Seq<JsonView>, v: JsonView)
    ensures
        stats_of(s.push(v)) == absorb(stats_of(s), v),
{
    lemma_absorb_all_prefix(empty_stats(), s.push(v), s, s.len());
}

proof fn lemma_keep_present(req: Seq<Seq<char>>, m: Seq<(Seq<char>, JsonView)>, k: Seq<char>)
    ensures
        keep_present(req, m).contains(k) == (req.contains(k) && has_key(m, k)),
    decreases req.len(),
{
    if req.len() > 0 {
        lemma_keep_present(req.drop_last(), m, k);
        let d = req.drop_last();
        assert(req =~= d.push(req.last()));
        assert(req.contains(k) == (d.contains(k) || req.last() == k)) by {
            if req.contains(k) {
                let i = choose|i: int| 0 <= i < req.len() && req[i] == k;
                if i < d.len() {
                    assert(d[i] == k);
                }
            }
            if d.contains(k) {
                let i = choose|i: int| 0 <= i < d.len() && d[i] == k;
                assert(req[i] == k);
            }
            if req.last() == k {
                assert(req[req.len() - 1] == k);
            }
        }
        let rest = keep_present(d, m);
        if has_key(m, req.last()) {
            assert(rest.push(req.last()).contains(k) == (rest.contains(k) || req.last() == k)) by {
                let r2 = rest.push(req.last());
                if r2.contains(k) {
                    let i = choose|i: int| 0 <= i < r2.len() && r2[i] == k;
                    if i < rest.len() {
                        assert(rest[i] == k);
                    }
                }
                if rest.contains(k) {
                    let i = choose|i: int| 0 <= i < rest.len() && rest[i] == k;
                    assert(r2[i] == k);
                }
                if req.last() == k {
                    assert(r2[rest.len() as int] == k);
                }
            }
        }
    }
}

proof fn lemma_key_list(m: Seq<(Seq<char>, JsonView)>, n: nat, k: Seq<char>)
    requires
        n <= m.len(),
    ensures
        key_list(m, n).contains(k) == has_key(m.take(n as int), k),
    decreases n,
{
    if n > 0 {
        lemma_key_list(m, (n - 1) as nat, k);
        let ks = key_list(m, (n - 1) as nat);
        let t = m.take(n as int);
        let d = m.take(n - 1);
        assert(has_key(t, k) == (has_key(d, k) || m[n - 1].0 == k)) by {
            if has_key(t, k) {
                let i = choose|i: int| 0 <= i < t.len() && t[i].0 == k;
                if i < d.len() {
                    assert(d[i].0 == k);
                }
            }
            if has_key(d, k) {
                let i = choose|i: int| 0 <= i < d.len() && d[i].0 == k;
                assert(t[i].0 == k);
            }
            if m[n - 1].0 == k {
                assert(t[n - 1].0 == k);
            }
        }
        if !ks.contains(m[n - 1].0) {
            let r2 = ks.push(m[n - 1].0);
            assert(r2.contains(k) == (ks.contains(k) || m[n - 1].0 == k)) by {
                if r2.contains(k) {
                    let i = choose|i: int| 0 <= i < r2.len() && r2[i] == k;
                    if i < ks.len() {
                        assert(ks[i] == k);
                    }
                }
                if ks.contains(k) {
                    let i = choose|i: int| 0 <= i < ks.len() && ks[i] == k;
                    assert(r2[i] == k);
                }
                if m[n - 1].0 == k {
                    assert(r2[ks.len() as int] == k);
                }
            }
        }
    }
}

proof fn lemma_absorb_members_keys(
    props: Seq<(Seq<char>, StatsView)>,
    m: Seq<(Seq<char>, JsonView)>,
    n: nat,
    k: Seq<char>,
)
    requires
        n <= m.len(),
    ensures
        has_key(absorb_members(props, m, n), k) == (has_key(props, k) || has_key(m.take(n as int), k)),
    decreases n,
{
    if n > 0 {
        lemma_absorb_members_keys(props, m, (n - 1) as nat, k);
        let ps = absorb_members(props, m, (n - 1) as nat);
        let cur = match lookup(ps, m[n - 1].0) {
            Some(b) => b,
            None => empty_stats(),
        };
        crate::assoc::lemma_has_key_insert(ps, m[n - 1].0, absorb(cur, m[n - 1].1), k);
        let t = m.take(n as int);
        let d = m.take(n - 1);
        assert(has_key(t, k) == (has_key(d, k) || m[n - 1].0 == k)) by {
            if has_key(t, k) {
                let i = choose|i: int| 0 <= i < t.len() && t[i].0 == k;
                if i < d.len() {
                    assert(d[i].0 == k);
                }
            }
            if has_key(d, k) {
                let i = choose|i: int| 0 <= i < d.len() && d[i].0 == k;
                assert(t[i].0 == k);
            }
            if m[n - 1].0 == k {
                assert(t[n - 1].0 == k);
            }
        }
    }
}

/// What the statistics of `s` record, stated of `s` itself: whether an
/// object was seen, the names every object has, the names some object has,
/// and the string format consensus.
pub proof fn lemma_stats_facts(s: Seq<JsonView>)
    ensures
        stats_of(s).object == some_object(s),
        !some_object(s) ==> stats_of(s).required.len() == 0,
        some_object(s) ==> forall|k: Seq<char>|
            stats_of(s).required.contains(k) == all_objects_have(s, k),
        forall|k: Seq<char>| has_key(stats_of(s).props, k) == some_object_has(s, k),
        stats_of(s).strings.seen == some_string(s),
        some_string(s) ==> stats_of(s).strings.format == format_of(first_string(s)),
        some_string(s) ==> (stats_of(s).strings.consistent == (stats_of(s).strings.format is Some
            && all_strings_have_format(s, stats_of(s).strings.format))),
    decreases s.len(),
{
    if s.len() == 0 {
        assert(!some_object(s));
        assert(!some_string(s));
        assert forall|k: Seq<char>| has_key(stats_of(s).props, k) == some_object_has(s, k) by {}
    } else {
        let d = s.drop_last();
        let v = s.last();
        assert(s =~= d.push(v));
        lemma_stats_facts(d);
        lemma_stats_push(d, v);
        let st = stats_of(d);
        assert(forall|i: int| 0 <= i < d.len() ==> s[i] == d[i]);
        assert(some_object(s) == (some_object(d) || v is Object)) by {
            if some_object(s) {
                let i = choose|i: int| 0 <= i < s.len() && s[i] is Object;
                if i < d.len() {
                    assert(d[i] is Object);
                }
            }
            if some_object(d) {
                let i = choose|i: int| 0 <= i < d.len() && d[i] is Object;
                assert(s[i] is Object);
            }
            if v is Object {
                assert(s[s.len() - 1] is Object);
            }
        }
        assert(some_string(s) == (some_string(d) || v is String)) by {
            if some_string(s) {
                let i = choose|i: int| 0 <= i < s.len() && s[i] is String;
                if i < d.len() {
                    assert(d[i] is String);
                }
            }
            if some_string(d) {
                let i = choose|i: int| 0 <= i < d.len() && d[i] is String;
                assert(s[i] is String);
            }
            if v is String {
                assert(s[s.len() - 1] is String);
            }
        }
        assert forall|k: Seq<char>| all_objects_have(s, k) == (all_objects_have(d, k) && (v is Object
            ==> has_key(v->Object_0, k))) by {
            if all_objects_have(d, k) && (v is Object ==> has_key(v->Object_0, k)) {
                assert forall|i: int| 0 <= i < s.len() && s[i] is Object implies has_key(
                    #[trigger] s[i]->Object_0,
                    k,
                ) by {
                    if i < d.len() {
                        assert(d[i] == s[i]);
                    }
                }
            }
            if all_objects_have(s, k) {
                assert forall|i: int| 0 <= i < d.len() && d[i] is Object implies has_key(
                    #[trigger] d[i]->Object_0,
                    k,
                ) by {
                    assert(d[i] == s[i]);
                }
                if v is Object {
                    assert(s[s.len() - 1] is Object);
                }
            }
        }
        assert forall|k: Seq<char>| some_object_has(s, k) == (some_object_has(d, k) || (v is Object
            && has_key(v->Object_0, k))) by {
            if some_object_has(s, k) {
                let i = choose|i: int| 0 <= i < s.len() && s[i] is Object && has_key(#[trigger] s[i]->Object_0, k);
                if i < d.len() {
                    assert(d[i] == s[i]);
                }
            }
            if some_object_has(d, k) {
                let i = choose|i: int| 0 <= i < d.len() && d[i] is Object && has_key(#[trigger] d[i]->Object_0, k);
                assert(s[i] == d[i]);
            }
            if v is Object && has_key(v->Object_0, k) {
                assert(s[s.len() - 1] == v);
            }
        }
        assert forall|f: Option<Seq<char>>| all_strings_have_format(s, f) == (all_strings_have_format(d, f)
            && (v is String ==> format_of(v->String_0) == f)) by {
            if all_strings_have_format(d, f) && (v is String ==> format_of(v->String_0) == f) {
                assert forall|i: int| 0 <= i < s.len() && s[i] is String implies format_of(
                    #[trigger] s[i]->String_0,
                ) == f by {
                    if i < d.len() {
                        assert(d[i] == s[i]);
                    }
                }
            }
            if all_strings_have_format(s, f) {
                assert forall|i: int| 0 <= i < d.len() && d[i] is String implies format_of(
                    #[trigger] d[i]->String_0,
                ) == f by {
                    assert(d[i] == s[i]);
                }
                if v is String {
                    assert(s[s.len() - 1] is String);
                }
            }
        }
        match v {
            JsonView::Object(m) => {
                assert(m.take(m.len() as int) =~= m);
                assert forall|k: Seq<char>| has_key(stats_of(s).props, k) == some_object_has(s, k) by {
                    lemma_absorb_members_keys(st.props, m, m.len(), k);
                }
                if st.object {
                    assert forall|k: Seq<char>| stats_of(s).required.contains(k) == all_objects_have(s, k) by {
                        lemma_keep_present(st.required, m, k);
                    }
                } else {
                    assert forall|k: Seq<char>| stats_of(s).required.contains(k) == all_objects_have(s, k) by {
                        lemma_key_list(m, m.len(), k);
                        if all_objects_have(d, k) {
                        }
                        assert(!some_object(d));
                        assert forall|i: int| 0 <= i < d.len() && d[i] is Object implies has_key(
                            #[trigger] d[i]->Object_0,
                            k,
                        ) by {
                            assert(some_object(d));
                        }
                    }
                }
            },
            JsonView::String(t) => {
                assert forall|k: Seq<char>| has_key(stats_of(s).props, k) == some_object_has(s, k) by {}
                if some_string(d) {
                    assert(first_string(s) == first_string(d));
                } else {
                    assert(first_string(s) == t);
                    assert forall|f: Option<Seq<char>>| all_strings_have_format(d, f) by {
                        assert forall|i: int| 0 <= i < d.len() && d[i] is String implies format_of(
                            #[trigger] d[i]->String_0,
                        ) == f by {
                            assert(some_string(d));
                        }
                    }
                }
                if some_object(s) {
                    assert forall|k: Seq<char>| stats_of(s).required.contains(k) == all_objects_have(s, k) by {}
                }
            },
            _ => {
                assert forall|k: Seq<char>| has_key(stats_of(s).props, k) == some_object_has(s, k) by {}
                if some_object(s) {
                    assert forall|k: Seq<char>| stats_of(s).required.contains(k) == all_objects_have(s, k) by {}
                }
                if some_string(s) {
                    assert(first_string(s) == first_string(d));
                }
            },
        }
    }
}

/// The first string of `s` is one of its strings.
proof fn lemma_first_string(s: Seq<JsonView>)
    requires
        some_string(s),
    ensures
        exists|i: int| 0 <= i < s.len() && s[i] is String && s[i]->String_0 == first_string(s),
    decreases s.len(),
{
    let d = s.drop_last();
    if some_string(d) {
        lemma_first_string(d);
        let i = choose|i: int| 0 <= i < d.len() && d[i] is String && d[i]->String_0 == first_string(d);
        assert(s[i] == d[i]);
    } else {
        let i = choose|i: int| 0 <= i < s.len() && s[i] is String;
        if i < d.len() {
            assert(d[i] is String);
        }
        assert(s[s.len() - 1] is String);
    }
}

/// The common string format, stated of the samples alone: `f` exactly when
/// there is a string and every string has format `f`.
proof fn lemma_consensus(s: Seq<JsonView>, f: Seq<char>)
    ensures
        (consensus(stats_of(s).strings) == Some(f)) == (some_string(s) && all_strings_have_format(s, Some(f))),
{
    lemma_stats_facts(s);
    if some_string(s) && all_strings_have_format(s, Some(f)) {
        lemma_first_string(s);
        let i = choose|i: int| 0 <= i < s.len() && s[i] is String && s[i]->String_0 == first_string(s);
        assert(format_of(s[i]->String_0) == Some(f));
    }
}

/// What holds of the values of `s1` holds of those of `s2` when every value
/// of `s1` is one of `s2`.
proof fn lemma_values_transfer(s1: Seq<JsonView>, s2: Seq<JsonView>)
    requires
        forall|x: JsonView| s1.contains(x) ==> s2.contains(x),
    ensures
        some_object(s1) ==> some_object(s2),
        some_string(s1) ==> some_string(s2),
        forall|k: Seq<char>| all_objects_have(s2, k) ==> all_objects_have(s1, k),
        forall|k: Seq<char>| some_object_has(s1, k) ==> some_object_has(s2, k),
        forall|f: Option<Seq<char>>| all_strings_have_format(s2, f) ==> all_strings_have_format(s1, f),
{
    if some_object(s1) {
        let i = choose|i: int| 0 <= i < s1.len() && s1[i] is Object;
        assert(s1.contains(s1[i]));
        let j = choose|j: int| 0 <= j < s2.len() && s2[j] == s1[i];
        assert(s2[j] is Object);
    }
    if some_string(s1) {
        let i = choose|i: int| 0 <= i < s1.len() && s1[i] is String;
        assert(s1.contains(s1[i]));
        let j = choose|j: int| 0 <= j < s2.len() && s2[j] == s1[i];
        assert(s2[j] is String);
    }
    assert forall|k: Seq<char>| all_objects_have(s2, k) implies all_objects_have(s1, k) by {
        assert forall|i: int| 0 <= i < s1.len() && s1[i] is Object implies has_key(#[trigger] s1[i]->Object_0, k) by {
            assert(s1.contains(s1[i]));
            let j = choose|j: int| 0 <= j < s2.len() && s2[j] == s1[i];
            assert(has_key(s2[j]->Object_0, k));
        }
    }
    assert forall|k: Seq<char>| some_object_has(s1, k) implies some_object_has(s2, k) by {
        let i = choose|i: int| 0 <= i < s1.len() && s1[i] is Object && has_key(#[trigger] s1[i]->Object_0, k);
        assert(s1.contains(s1[i]));
        let j = choose|j: int| 0 <= j < s2.len() && s2[j] == s1[i];
        assert(has_key(s2[j]->Object_0, k));
    }
    assert forall|f: Option<Seq<char>>| all_strings_have_format(s2, f) implies all_strings_have_format(s1, f) by {
        assert forall|i: int| 0 <= i < s1.len() && s1[i] is String implies format_of(#[trigger] s1[i]->String_0) == f by {
            assert(s1.contains(s1[i]));
            let j = choose|j: int| 0 <= j < s2.len() && s2[j] == s1[i];
            assert(format_of(s2[j]->String_0) == f);
        }
    }
}

/// The accumulator does not depend on the order of its samples for what it
/// concludes about objects and strings: reordered samples give the same
/// required names (those every object has), the same property names (those
/// some object has), and the same common string format.
pub proof fn law_accumulator_order_free(s1: Seq<JsonView>, s2: Seq<JsonView>)
    requires
        s1.to_multiset() =~= s2.to_multiset(),
    ensures
        stats_of(s1).object == stats_of(s2).object,
        forall|k: Seq<char>|
            stats_of(s1).required.contains(k) == stats_of(s2).required.contains(k),
        forall|k: Seq<char>| has_key(stats_of(s1).props, k) == has_key(stats_of(s2).props, k),
        consensus(stats_of(s1).strings) == consensus(stats_of(s2).strings),
{
    s1.to_multiset_ensures();
    s2.to_multiset_ensures();
    assert(forall|x: JsonView| s1.contains(x) == s2.contains(x)) by {
        assert forall|x: JsonView| s1.contains(x) == s2.contains(x) by {
            assert(s1.to_multiset().count(x) == s2.to_multiset().count(x));
        }
    }
    lemma_values_transfer(s1, s2);
    lemma_values_transfer(s2, s1);
    lemma_stats_facts(s1);
    lemma_stats_facts(s2);
    assert forall|k: Seq<char>|
        stats_of(s1).required.contains(k) == stats_of(s2).required.contains(k) by {
        if some_object(s1) {
            assert(all_objects_have(s1, k) == all_objects_have(s2, k));
        } else {
            assert(!stats_of(s1).required.contains(k));
            assert(!stats_of(s2).required.contains(k));
        }
    }
    assert forall|k: Seq<char>| has_key(stats_of(s1).props, k) == has_key(stats_of(s2).props, k) by {
        assert(some_object_has(s1, k) == some_object_has(s2, k));
    }
    let c1 = consensus(stats_of(s1).strings);
    let c2 = consensus(stats_of(s2).strings);
    if c1 is Some {
        lemma_consensus(s1, c1->0);
        lemma_consensus(s2, c1->0);
    }
    if c2 is Some {
        lemma_consensus(s1, c2->0);
        lemma_consensus(s2, c2->0);
    }
}


/// Every value of `s` is a string.
pub open spec fn all_strings(s: Seq<JsonView>) -> bool {
    forall|i: int| 0 <= i < s.len() ==> (#[trigger] s[i]) is String
}

proof fn lemma_string_kinds(s: Seq<JsonView>)
    requires
        all_strings(s),
    ensures
        stats_of(s).kinds =~= Seq::new(7, |i: int| i == 6 && s.len() > 0),
    decreases s.len(),
{
    if s.len() > 0 {
        let d = s.drop_last();
        assert(s =~= d.push(s.last()));
        assert(all_strings(d)) by {
            assert forall|i: int| 0 <= i < d.len() implies (#[trigger] d[i]) is String by {
                assert(d[i] == s[i]);
            }
        }
        lemma_string_kinds(d);
        lemma_stats_push(d, s.last());
        assert(s[s.len() - 1] is String);
    }
}

/// The schema of strings carries the format `f` exactly when every string
/// has format `f` (one string without it removes the format).
pub proof fn law_string_format_consensus(s: Seq<JsonView>, f: Seq<char>)
    requires
        s.len() > 0,
        all_strings(s),
    ensures
        lookup_format(schema_of(s)) == Some(f) <==> all_strings_have_format(s, Some(f)),
{
    let st = stats_of(s);
    lemma_string_kinds(s);
    assert(count_set(st.kinds, 7) == 1) by {
        reveal_with_fuel(count_set, 8);
    }
    assert(first_kind_from(st.kinds, 0, 7) == 6) by {
        reveal_with_fuel(first_kind_from, 8);
    }
    assert(s[0] is String);
    assert(some_string(s));
    lemma_consensus(s, f);
    let c = consensus(st.strings);
    if c is Some {
        lemma_consensus(s, c->0);
        let m = typed(JsonType::String).push((format_key(), JsonView::String(c->0)));
        assert(m[1].0 == format_key());
        assert(m[0].0 != format_key());
        assert(crate::assoc::key_at(m, format_key(), 1));
        crate::assoc::lemma_key_pos(m, format_key());
    } else {
        let m = typed(JsonType::String);
        assert(!has_key(m, format_key())) by {
            if has_key(m, format_key()) {
                let i = choose|i: int| 0 <= i < m.len() && m[i].0 == format_key();
                assert(m[0].0 != format_key());
            }
        }
    }
}

/// The `format` of a schema node, if it is a string.
pub open spec fn lookup_format(schema: JsonView) -> Option<Seq<char>> {
    match crate::plan::json_get(schema, format_key()) {
        Some(JsonView::String(f)) => Some(f),
        _ => None,
    }
}

/// The schema of strings does not depend on their order.
pub proof fn law_string_schema_order_free(s1: Seq<JsonView>, s2: Seq<JsonView>)
    requires
        s1.to_multiset() =~= s2.to_multiset(),
        all_strings(s1),
    ensures
        schema_of(s1) == schema_of(s2),
{
    s1.to_multiset_ensures();
    s2.to_multiset_ensures();
    law_accumulator_order_free(s1, s2);
    assert(all_strings(s2)) by {
        assert forall|i: int| 0 <= i < s2.len() implies (#[trigger] s2[i]) is String by {
            assert(s2.contains(s2[i]));
            assert(s2.to_multiset().count(s2[i]) > 0);
            assert(s1.contains(s2[i]));
        }
    }
    lemma_string_kinds(s1);
    lemma_string_kinds(s2);
    assert(stats_of(s1).kinds == stats_of(s2).kinds);
    if s1.len() > 0 {
        assert(count_set(stats_of(s1).kinds, 7) == 1) by {
            reveal_with_fuel(count_set, 8);
        }
        assert(first_kind_from(stats_of(s1).kinds, 0, 7) == 6) by {
            reveal_with_fuel(first_kind_from, 8);
        }
    } else {
        assert(count_set(stats_of(s1).kinds, 7) == 0) by {
            reveal_with_fuel(count_set, 8);
        }
    }
}


/// Names in non-decreasing order.
pub open spec fn names_sorted(t: Seq<Seq<char>>) -> bool {
    forall|i: int, j: int| 0 <= i < j < t.len() ==> lex_le(#[trigger] t[i], #[trigger] t[j])
}

proof fn lemma_lex_total(a: Seq<char>, b: Seq<char>, i: nat)
    ensures
        lex_le_from(a, b, i) || lex_le_from(b, a, i),
    decreases a.len() - i,
{
    if i < a.len() && i < b.len() {
        if a[i as int] == b[i as int] {
            lemma_lex_total(a, b, i + 1);
        }
    }
}

proof fn lemma_lex_antisym(a: Seq<char>, b: Seq<char>, i: nat)
    requires
        i <= a.len(),
        i <= b.len(),
        forall|j: int| 0 <= j < i ==> a[j] == b[j],
        lex_le_from(a, b, i),
        lex_le_from(b, a, i),
    ensures
        a == b,
    decreases a.len() - i,
{
    if i >= a.len() {
        assert(a =~= b);
    } else if a[i as int] == b[i as int] {
        lemma_lex_antisym(a, b, i + 1);
    }
}

proof fn lemma_lex_trans(a: Seq<char>, b: Seq<char>, c: Seq<char>, i: nat)
    requires
        lex_le_from(a, b, i),
        lex_le_from(b, c, i),
    ensures
        lex_le_from(a, c, i),
    decreases a.len() - i,
{
    if i < a.len() && a[i as int] == b[i as int] && b[i as int] == c[i as int] {
        lemma_lex_trans(a, b, c, i + 1);
    }
}

proof fn lemma_insert_pos(t: Seq<Seq<char>>, x: Seq<char>, i: nat)
    requires
        i <= t.len(),
    ensures
        i <= insert_pos(t, x, i) <= t.len(),
        forall|j: int| i <= j < insert_pos(t, x, i) ==> !lex_le(x, #[trigger] t[j]),
        insert_pos(t, x, i) < t.len() ==> lex_le(x, t[insert_pos(t, x, i) as int]),
    decreases t.len() - i,
{
    if i < t.len() && !lex_le(x, t[i as int]) {
        lemma_insert_pos(t, x, i + 1);
    }
}

proof fn lemma_insert_sorted(t: Seq<Seq<char>>, x: Seq<char>)
    requires
        names_sorted(t),
    ensures
        names_sorted(t.insert(insert_pos(t, x, 0) as int, x)),
{
    lemma_insert_pos(t, x, 0);
    let p = insert_pos(t, x, 0) as int;
    let r = t.insert(p, x);
    assert forall|i: int, j: int| 0 <= i < j < r.len() implies lex_le(#[trigger] r[i], #[trigger] r[j]) by {
        if j < p {
            assert(r[i] == t[i] && r[j] == t[j]);
        } else if j == p {
            assert(r[i] == t[i]);
            assert(!lex_le(x, t[i]));
            lemma_lex_total(t[i], x, 0);
        } else if i == p {
            assert(r[j] == t[j - 1]);
            if j - 1 > p {
                lemma_lex_trans(x, t[p], t[j - 1], 0);
            }
        } else if i < p {
            assert(r[i] == t[i] && r[j] == t[j - 1]);
        } else {
            assert(r[i] == t[i - 1] && r[j] == t[j - 1]);
        }
    }
}

proof fn lemma_sort_names(s: Seq<Seq<char>>)
    ensures
        names_sorted(sort_names(s)),
        sort_names(s).to_multiset() =~= s.to_multiset(),
    decreases s.len(),
{
    if s.len() == 0 {
        assert(sort_names(s).to_multiset() =~= s.to_multiset()) by {
            s.to_multiset_ensures();
            sort_names(s).to_multiset_ensures();
        }
    } else {
        let d = s.drop_last();
        lemma_sort_names(d);
        let t = sort_names(d);
        lemma_insert_pos(t, s.last(), 0);
        lemma_insert_sorted(t, s.last());
        vstd::seq_lib::to_multiset_insert(t, insert_pos(t, s.last(), 0) as int, s.last());
        d.to_multiset_ensures();
        assert(s =~= d.push(s.last()));
    }
}

proof fn lemma_sorted_unique(a: Seq<Seq<char>>, b: Seq<Seq<char>>)
    requires
        names_sorted(a),
        names_sorted(b),
        a.to_multiset() =~= b.to_multiset(),
    ensures
        a == b,
    decreases a.len(),
{
    a.to_multiset_ensures();
    b.to_multiset_ensures();
    if a.len() == 0 {
        assert(b.len() == 0);
        assert(a =~= b);
    } else {
        assert(b.len() > 0);
        assert(a.contains(a[0]));
        assert(a.to_multiset().count(a[0]) > 0);
        assert(b.to_multiset().count(a[0]) > 0);
        assert(b.contains(a[0]));
        let k = choose|k: int| 0 <= k < b.len() && b[k] == a[0];
        assert(b.contains(b[0]));
        assert(b.to_multiset().count(b[0]) > 0);
        assert(a.to_multiset().count(b[0]) > 0);
        assert(a.contains(b[0]));
        let q = choose|q: int| 0 <= q < a.len() && a[q] == b[0];
        if k > 0 && q > 0 {
            assert(lex_le(b[0], b[k]));
            assert(lex_le(a[0], a[q]));
            lemma_lex_antisym(a[0], b[0], 0);
        }
        assert(a[0] == b[0]);
        let a1 = a.remove(0);
        let b1 = b.remove(0);
        assert(a1.to_multiset() =~= b1.to_multiset());
        assert(names_sorted(a1)) by {
            assert forall|i: int, j: int| 0 <= i < j < a1.len() implies lex_le(#[trigger] a1[i], #[trigger] a1[j]) by {
                assert(a1[i] == a[i + 1] && a1[j] == a[j + 1]);
            }
        }
        assert(names_sorted(b1)) by {
            assert forall|i: int, j: int| 0 <= i < j < b1.len() implies lex_le(#[trigger] b1[i], #[trigger] b1[j]) by {
                assert(b1[i] == b[i + 1] && b1[j] == b[j + 1]);
            }
        }
        lemma_sorted_unique(a1, b1);
        assert(a =~= seq![a[0]] + a1);
        assert(b =~= seq![b[0]] + b1);
    }
}

proof fn lemma_key_list_no_duplicates(m: Seq<(Seq<char>, JsonView)>, n: nat)
    ensures
        key_list(m, n).no_duplicates(),
    decreases n,
{
    if n > 0 && n <= m.len() {
        lemma_key_list_no_duplicates(m, (n - 1) as nat);
        let ks = key_list(m, (n - 1) as nat);
        if !ks.contains(m[n - 1].0) {
            let r = ks.push(m[n - 1].0);
            assert forall|i: int, j: int| 0 <= i < r.len() && 0 <= j < r.len() && i != j implies r[i] != r[j] by {
                if i == ks.len() {
                    assert(ks[j] != m[n - 1].0);
                } else if j == ks.len() {
                    assert(ks[i] != m[n - 1].0);
                }
            }
        }
    }
}

proof fn lemma_keep_present_no_duplicates(req: Seq<Seq<char>>, m: Seq<(Seq<char>, JsonView)>)
    requires
        req.no_duplicates(),
    ensures
        keep_present(req, m).no_duplicates(),
    decreases req.len(),
{
    if req.len() > 0 {
        let d = req.drop_last();
        assert(d.no_duplicates());
        lemma_keep_present_no_duplicates(d, m);
        let rest = keep_present(d, m);
        if has_key(m, req.last()) {
            lemma_keep_present(d, m, req.last());
            assert(!d.contains(req.last())) by {
                if d.contains(req.last()) {
                    let i = choose|i: int| 0 <= i < d.len() && d[i] == req.last();
                    assert(req[i] == req[req.len() - 1]);
                }
            }
            let r = rest.push(req.last());
            assert forall|i: int, j: int| 0 <= i < r.len() && 0 <= j < r.len() && i != j implies r[i] != r[j] by {
                if i == rest.len() {
                    assert(rest.contains(rest[j]));
                } else if j == rest.len() {
                    assert(rest.contains(rest[i]));
                }
            }
        }
    }
}

proof fn lemma_required_no_duplicates(s: Seq<JsonView>)
    ensures
        stats_of(s).required.no_duplicates(),
    decreases s.len(),
{
    if s.len() > 0 {
        let d = s.drop_last();
        let v = s.last();
        assert(s =~= d.push(v));
        lemma_required_no_duplicates(d);
        lemma_stats_push(d, v);
        if let JsonView::Object(m) = v {
            lemma_key_list_no_duplicates(m, m.len());
            lemma_keep_present_no_duplicates(stats_of(d).required, m);
        }
    }
}

/// The sorted `required` names of the accumulator, the array its schema
/// lists, do not depend on the order of the samples.
pub proof fn law_required_array_order_free(s1: Seq<JsonView>, s2: Seq<JsonView>)
    requires
        s1.to_multiset() =~= s2.to_multiset(),
    ensures
        sort_names(stats_of(s1).required) == sort_names(stats_of(s2).required),
{
    law_accumulator_order_free(s1, s2);
    let r1 = stats_of(s1).required;
    let r2 = stats_of(s2).required;
    lemma_required_no_duplicates(s1);
    lemma_required_no_duplicates(s2);
    r1.lemma_multiset_has_no_duplicates();
    r2.lemma_multiset_has_no_duplicates();
    r1.to_multiset_ensures();
    r2.to_multiset_ensures();
    assert(r1.to_multiset() =~= r2.to_multiset()) by {
        assert forall|x: Seq<char>| r1.to_multiset().count(x) == r2.to_multiset().count(x) by {
            assert(r1.contains(x) == r2.contains(x));
            if r1.contains(x) {
                assert(r1.to_multiset().contains(x));
                assert(r2.to_multiset().contains(x));
            }
        }
    }
    lemma_sort_names(r1);
    lemma_sort_names(r2);
    lemma_sorted_unique(sort_names(r1), sort_names(r2));
}

} // verus!
