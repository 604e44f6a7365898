//! Schema inference by merging: one schema per example, merged by kind
//! into one.
use vstd::prelude::*;
use vstd::string::*;
use crate::assoc::{key_pos, lemma_key_pos, find_key};
use crate::value::{JsonValue, JsonView, members_view, values_view};
use crate::entity::{RowView, copy_row};
use crate::format::{format_of, detect_format};
use crate::plan::{
    json_get, type_key, items_key, properties_key, object_name, array_name, names_view, get_member,
    add_name,
};
use crate::planned::names_contain;
use crate::schema::{
    key_list, keep_present, sort_names, names_json, format_key, required_key, kind_of, kind_name, JsonType,
    sorted_names, names_to_json,
};

verus! {

/// The nesting height of a value: zero for scalars.
pub open spec fn height(v: JsonView) -> nat
    decreases v, 1nat,
{
    match v {
        JsonView::Array(items) => 1 + items_height(items, items.len()),
        JsonView::Object(m) => 1 + members_height(m, m.len()),
        _ => 0,
    }
}

/// The greatest height among the first `n` values.
pub open spec fn items_height(items: Seq<JsonView>, n: nat) -> nat
    decreases items, n,
{
    if n == 0 || n > items.len() {
        0
    } else {
        let a = items_height(items, (n - 1) as nat);
        let b = height(items[n - 1]);
        if a >= b {
            a
        } else {
            b
        }
    }
}

/// The greatest height among the values of the first `n` members.
pub open spec fn members_height(m: RowView, n: nat) -> nat
    decreases m, n,
{
    if n == 0 || n > m.len() {
        0
    } else {
        let a = members_height(m, (n - 1) as nat);
        let b = height(m[n - 1].1);
        if a >= b {
            a
        } else {
            b
        }
    }
}

/// The greatest height in a list of values.
pub open spec fn list_height(s: Seq<JsonView>) -> nat {
    items_height(s, s.len())
}

pub proof fn lemma_items_height_bound(items: Seq<JsonView>, n: nat, i: int)
    requires
        0 <= i < n <= items.len(),
    ensures
        height(items[i]) <= items_height(items, n),
    decreases n,
{
    if i < n - 1 {
        lemma_items_height_bound(items, (n - 1) as nat, i);
    }
}

pub proof fn lemma_members_height_bound(m: RowView, n: nat, i: int)
    requires
        0 <= i < n <= m.len(),
    ensures
        height(m[i].1) <= members_height(m, n),
    decreases n,
{
    if i < n - 1 {
        lemma_members_height_bound(m, (n - 1) as nat, i);
    }
}

pub proof fn lemma_items_height_below(items: Seq<JsonView>, n: nat, h: nat)
    requires
        n <= items.len(),
        h > 0,
        forall|i: int| 0 <= i < n ==> height(#[trigger] items[i]) < h,
    ensures
        items_height(items, n) < h,
    decreases n,
{
    if n > 0 {
        lemma_items_height_below(items, (n - 1) as nat, h);
    }
}

/// A member found by name is lower than the object it was found in.
pub proof fn lemma_get_height(v: JsonView, k: Seq<char>)
    requires
        json_get(v, k) is Some,
    ensures
        height(json_get(v, k)->0) < height(v),
{
    let m = v->Object_0;
    lemma_key_pos(m, k);
    lemma_members_height_bound(m, m.len(), key_pos(m, k));
}

/// The name `null`.
pub open spec fn null_name() -> Seq<char> {
    seq!['n', 'u', 'l', 'l']
}

/// The name `string`.
pub open spec fn string_name() -> Seq<char> {
    seq!['s', 't', 'r', 'i', 'n', 'g']
}

/// The name `number`.
pub open spec fn number_name() -> Seq<char> {
    seq!['n', 'u', 'm', 'b', 'e', 'r']
}

/// The name `integer`.
pub open spec fn integer_name() -> Seq<char> {
    seq!['i', 'n', 't', 'e', 'g', 'e', 'r']
}

/// The name `anyOf`.
pub open spec fn any_of_key() -> Seq<char> {
    seq!['a', 'n', 'y', 'O', 'f']
}

/// The strings among the first `n` values.
pub open spec fn strings_in(ts: Seq<JsonView>, n: nat) -> Seq<Seq<char>>
    decreases n,
{
    if n == 0 || n > ts.len() {
        Seq::empty()
    } else {
        let rest = strings_in(ts, (n - 1) as nat);
        match ts[n - 1] {
            JsonView::String(t) => rest.push(t),
            _ => rest,
        }
    }
}

/// The type names a schema declares: its `type` string, or the strings of
/// its `type` array.
pub open spec fn declared_types(s: JsonView) -> Seq<Seq<char>> {
    match json_get(s, type_key()) {
        Some(JsonView::String(t)) => seq![t],
        Some(JsonView::Array(ts)) => strings_in(ts, ts.len()),
        _ => Seq::empty(),
    }
}

/// The type names the first `n` schemas declare, in order.
pub open spec fn all_declared(schemas: Seq<JsonView>, n: nat) -> Seq<Seq<char>>
    decreases n,
{
    if n == 0 || n > schemas.len() {
        Seq::empty()
    } else {
        all_declared(schemas, (n - 1) as nat) + declared_types(schemas[n - 1])
    }
}

/// The distinct names other than `null` among the first `n`.
pub open spec fn distinct_non_null(names: Seq<Seq<char>>, n: nat) -> Seq<Seq<char>>
    decreases n,
{
    if n == 0 || n > names.len() {
        Seq::empty()
    } else {
        let rest = distinct_non_null(names, (n - 1) as nat);
        if names[n - 1] == null_name() || rest.contains(names[n - 1]) {
            rest
        } else {
            rest.push(names[n - 1])
        }
    }
}

/// The distinct `format` strings among the first `n` schemas.
pub open spec fn formats_in(schemas: Seq<JsonView>, n: nat) -> Seq<Seq<char>>
    decreases n,
{
    if n == 0 || n > schemas.len() {
        Seq::empty()
    } else {
        let rest = formats_in(schemas, (n - 1) as nat);
        match json_get(schemas[n - 1], format_key()) {
            Some(JsonView::String(f)) => if rest.contains(f) {
                rest
            } else {
                rest.push(f)
            },
            _ => rest,
        }
    }
}

/// The `items` of the first `n` schemas that have them.
pub open spec fn items_in(schemas: Seq<JsonView>, n: nat) -> Seq<JsonView>
    decreases n,
{
    if n == 0 || n > schemas.len() {
        Seq::empty()
    } else {
        let rest = items_in(schemas, (n - 1) as nat);
        match json_get(schemas[n - 1], items_key()) {
            Some(it) => rest.push(it),
            None => rest,
        }
    }
}

/// The `properties` objects of the first `n` schemas that have them.
pub open spec fn property_rows(schemas: Seq<JsonView>, n: nat) -> Seq<RowView>
    decreases n,
{
    if n == 0 || n > schemas.len() {
        Seq::empty()
    } else {
        let rest = property_rows(schemas, (n - 1) as nat);
        match json_get(schemas[n - 1], properties_key()) {
            Some(JsonView::Object(m)) => rest.push(m),
            _ => rest,
        }
    }
}

/// The distinct property names of the first `n` rows, in order of first appearance.
pub open spec fn row_names(rows: Seq<RowView>, n: nat) -> Seq<Seq<char>>
    decreases n,
{
    if n == 0 || n > rows.len() {
        Seq::empty()
    } else {
        add_names(row_names(rows, (n - 1) as nat), rows[n - 1], rows[n - 1].len())
    }
}

/// `names` with the names of the first `n` members of `m` added, each once.
pub open spec fn add_names(names: Seq<Seq<char>>, m: RowView, n: nat) -> Seq<Seq<char>>
    decreases n,
{
    if n == 0 || n > m.len() {
        names
    } else {
        let rest = add_names(names, m, (n - 1) as nat);
        if rest.contains(m[n - 1].0) {
            rest
        } else {
            rest.push(m[n - 1].0)
        }
    }
}

/// The values under `k` in the first `n` members of `m`.
pub open spec fn member_values(m: RowView, k: Seq<char>, n: nat) -> Seq<JsonView>
    decreases n,
{
    if n == 0 || n > m.len() {
        Seq::empty()
    } else {
        let rest = member_values(m, k, (n - 1) as nat);
        if m[n - 1].0 == k {
            rest.push(m[n - 1].1)
        } else {
            rest
        }
    }
}

/// The values under `k` in the first `n` rows.
pub open spec fn values_for(rows: Seq<RowView>, k: Seq<char>, n: nat) -> Seq<JsonView>
    decreases n,
{
    if n == 0 || n > rows.len() {
        Seq::empty()
    } else {
        values_for(rows, k, (n - 1) as nat) + member_values(rows[n - 1], k, rows[n - 1].len())
    }
}

/// The names present in every one of the first `n` rows (`n` at least one).
pub open spec fn common_names(rows: Seq<RowView>, n: nat) -> Seq<Seq<char>>
    decreases n,
{
    if n == 0 || n > rows.len() {
        Seq::empty()
    } else if n == 1 {
        key_list(rows[0], rows[0].len())
    } else {
        keep_present(common_names(rows, (n - 1) as nat), rows[n - 1])
    }
}

/// The schema `{"type": "null"}`.
pub open spec fn null_schema() -> JsonView {
    JsonView::Object(seq![(type_key(), JsonView::String(null_name()))])
}

/// The merge of several schemas into one that describes all of them: the
/// one kind they declare besides `null`, merged by kind; a list of them
/// under `anyOf` when they declare several.
pub open spec fn merge(schemas: Seq<JsonView>) -> JsonView
    decreases list_height(schemas), 2nat, 0nat,
{
    if schemas.len() == 0 {
        JsonView::Object(Seq::empty())
    } else if schemas.len() == 1 {
        schemas[0]
    } else {
        let names = all_declared(schemas, schemas.len());
        let kinds = distinct_non_null(names, names.len());
        let with_null = names.contains(null_name());
        if kinds.len() == 0 {
            if with_null {
                null_schema()
            } else {
                JsonView::Object(Seq::empty())
            }
        } else if kinds.len() == 1 {
            let t = kinds[0];
            let base = seq![(type_key(), JsonView::String(t))];
            if t == object_name() {
                merge_objects(schemas, base)
            } else if t == array_name() {
                merge_arrays(schemas, base)
            } else if t == string_name() {
                let fs = formats_in(schemas, schemas.len());
                if fs.len() == 1 {
                    JsonView::Object(base.push((format_key(), JsonView::String(fs[0]))))
                } else {
                    JsonView::Object(base)
                }
            } else if t == number_name() || t == integer_name() {
                JsonView::Object(base)
            } else if with_null {
                JsonView::Object(
                    seq![(type_key(), JsonView::Array(seq![JsonView::String(t), JsonView::String(null_name())]))],
                )
            } else {
                JsonView::Object(base)
            }
        } else {
            let alts = if with_null {
                schemas.push(null_schema())
            } else {
                schemas
            };
            JsonView::Object(seq![(any_of_key(), JsonView::Array(alts))])
        }
    }
}

/// The merge of array schemas: the merge of their `items`, when any has them.
pub open spec fn merge_arrays(schemas: Seq<JsonView>, base: RowView) -> JsonView
    decreases list_height(schemas), 1nat, 0nat,
{
    let its = items_in(schemas, schemas.len());
    if its.len() > 0 {
        proof {
            lemma_items_in_lower(schemas, schemas.len());
        }
        JsonView::Object(base.push((items_key(), merge(its))))
    } else {
        JsonView::Object(base)
    }
}

/// The merge of object schemas: per property name, the merge of its
/// schemas; the names every `properties` object has are required, sorted.
pub open spec fn merge_objects(schemas: Seq<JsonView>, base: RowView) -> JsonView
    decreases list_height(schemas), 1nat, 0nat,
{
    let rows = property_rows(schemas, schemas.len());
    let names = row_names(rows, rows.len());
    let props = merge_props(schemas, rows, names, names.len());
    let with_props = base.push((properties_key(), JsonView::Object(props)));
    let common = common_names(rows, rows.len());
    if common.len() > 0 {
        JsonView::Object(with_props.push((required_key(), JsonView::Array(names_json(sort_names(common))))))
    } else {
        JsonView::Object(with_props)
    }
}

/// The merged schema of each of the first `n` names.
pub open spec fn merge_props(
    schemas: Seq<JsonView>,
    rows: Seq<RowView>,
    names: Seq<Seq<char>>,
    n: nat,
) -> RowView
    decreases list_height(schemas), 0nat, n,
{
    if n == 0 || n > names.len() {
        Seq::empty()
    } else {
        let rest = merge_props(schemas, rows, names, (n - 1) as nat);
        let vs = values_for(rows, names[n - 1], rows.len());
        if vs.len() > 0 && rows == property_rows(schemas, schemas.len()) {
            proof {
                lemma_values_for_lower(schemas, names[n - 1]);
            }
            rest.push((names[n - 1], merge(vs)))
        } else {
            rest.push((names[n - 1], JsonView::Object(Seq::empty())))
        }
    }
}

/// The `items` of the schemas are lower than the schemas.
pub proof fn lemma_items_in_lower(schemas: Seq<JsonView>, n: nat)
    requires
        n <= schemas.len(),
        items_in(schemas, n).len() > 0,
    ensures
        list_height(items_in(schemas, n)) < list_height(schemas),
{
    let its = items_in(schemas, n);
    lemma_items_in_each(schemas, n);
    let h = list_height(schemas);
    assert forall|i: int| 0 <= i < its.len() implies height(#[trigger] its[i]) < h by {}
    assert(height(its[0]) < h);
    lemma_items_height_below(its, its.len(), h);
}

pub proof fn lemma_items_in_each(schemas: Seq<JsonView>, n: nat)
    requires
        n <= schemas.len(),
    ensures
        forall|i: int| 0 <= i < items_in(schemas, n).len() ==> height(#[trigger] items_in(schemas, n)[i])
            < list_height(schemas),
    decreases n,
{
    if n > 0 {
        lemma_items_in_each(schemas, (n - 1) as nat);
        let s = schemas[n - 1];
        if json_get(s, items_key()) is Some {
            lemma_get_height(s, items_key());
            lemma_items_height_bound(schemas, schemas.len(), n - 1);
            let rest = items_in(schemas, (n - 1) as nat);
            let r = rest.push(json_get(s, items_key())->0);
            assert(items_in(schemas, n) == r);
            assert forall|i: int| 0 <= i < r.len() implies height(#[trigger] r[i]) < list_height(schemas) by {
                if i < rest.len() {
                    assert(r[i] == rest[i]);
                }
            }
        } else {
            assert(items_in(schemas, n) == items_in(schemas, (n - 1) as nat));
        }
    }
}

/// Every value under a name in the `properties` of the schemas is lower
/// than the schemas.
pub proof fn lemma_values_for_lower(schemas: Seq<JsonView>, k: Seq<char>)
    requires
        values_for(property_rows(schemas, schemas.len()), k, property_rows(schemas, schemas.len()).len()).len() > 0,
    ensures
        list_height(values_for(property_rows(schemas, schemas.len()), k, property_rows(schemas, schemas.len()).len()))
            < list_height(schemas),
{
    let rows = property_rows(schemas, schemas.len());
    let vs = values_for(rows, k, rows.len());
    let h = list_height(schemas);
    lemma_rows_lower(schemas, schemas.len());
    lemma_values_for_each(rows, k, rows.len(), h);
    assert(height(vs[0]) < h);
    lemma_items_height_below(vs, vs.len(), h);
}

/// The members of each `properties` row are at least two levels below the schemas.
pub proof fn lemma_rows_lower(schemas: Seq<JsonView>, n: nat)
    requires
        n <= schemas.len(),
    ensures
        forall|r: int, j: int|
            0 <= r < property_rows(schemas, n).len() && 0 <= j < property_rows(schemas, n)[r].len()
                ==> height(#[trigger] property_rows(schemas, n)[r][j].1) + 1 < list_height(schemas),
    decreases n,
{
    if n > 0 {
        lemma_rows_lower(schemas, (n - 1) as nat);
        let s = schemas[n - 1];
        let rest = property_rows(schemas, (n - 1) as nat);
        match json_get(s, properties_key()) {
            Some(JsonView::Object(m)) => {
                lemma_get_height(s, properties_key());
                lemma_items_height_bound(schemas, schemas.len(), n - 1);
                let rows = property_rows(schemas, n);
                assert(rows == rest.push(m));
                assert forall|r: int, j: int|
                    0 <= r < rows.len() && 0 <= j < rows[r].len() implies height(#[trigger] rows[r][j].1) + 1
                        < list_height(schemas) by {
                    if r == rest.len() {
                        lemma_members_height_bound(m, m.len(), j);
                    } else {
                        assert(rows[r] == rest[r]);
                    }
                }
            },
            _ => {},
        }
    }
}

pub proof fn lemma_member_values_each(m: RowView, k: Seq<char>, n: nat, h: nat)
    requires
        n <= m.len(),
        forall|j: int| 0 <= j < m.len() ==> height(#[trigger] m[j].1) < h,
    ensures
        forall|i: int| 0 <= i < member_values(m, k, n).len() ==> height(#[trigger] member_values(m, k, n)[i]) < h,
    decreases n,
{
    if n > 0 {
        lemma_member_values_each(m, k, (n - 1) as nat, h);
        let rest = member_values(m, k, (n - 1) as nat);
        if m[n - 1].0 == k {
            let r = rest.push(m[n - 1].1);
            assert forall|i: int| 0 <= i < r.len() implies height(#[trigger] r[i]) < h by {
                if i < rest.len() {
                    assert(r[i] == rest[i]);
                }
            }
        }
    }
}

pub proof fn lemma_values_for_each(rows: Seq<RowView>, k: Seq<char>, n: nat, h: nat)
    requires
        n <= rows.len(),
        forall|r: int, j: int| 0 <= r < rows.len() && 0 <= j < rows[r].len() ==> height(#[trigger] rows[r][j].1) + 1 < h,
    ensures
        forall|i: int| 0 <= i < values_for(rows, k, n).len() ==> height(#[trigger] values_for(rows, k, n)[i]) < h,
    decreases n,
{
    if n > 0 {
        lemma_values_for_each(rows, k, (n - 1) as nat, h);
        let m = rows[n - 1];
        assert forall|j: int| 0 <= j < m.len() implies height(#[trigger] m[j].1) < h by {
            assert(height(rows[n - 1][j].1) + 1 < h);
        }
        lemma_member_values_each(m, k, m.len(), h);
        let a = values_for(rows, k, (n - 1) as nat);
        let b = member_values(m, k, m.len());
        assert forall|i: int| 0 <= i < (a + b).len() implies height(#[trigger] (a + b)[i]) < h by {
            if i < a.len() {
                assert((a + b)[i] == a[i]);
            } else {
                assert((a + b)[i] == b[i - a.len()]);
            }
        }
    }
}

/// The schema of one example: its kind, with the format of a string, the
/// schema of each member of an object, and the merge of the schemas of the
/// elements of an array.
pub open spec fn example_schema(v: JsonView) -> JsonView
    decreases v, 1nat,
{
    match v {
        JsonView::Object(m) => JsonView::Object(
            seq![
                (type_key(), JsonView::String(object_name())),
                (properties_key(), JsonView::Object(member_schemas(m))),
            ],
        ),
        JsonView::Array(items) => if items.len() == 0 {
            JsonView::Object(seq![(type_key(), JsonView::String(array_name()))])
        } else {
            JsonView::Object(
                seq![
                    (type_key(), JsonView::String(array_name())),
                    (items_key(), merge(element_schemas(items))),
                ],
            )
        },
        JsonView::String(s) => match format_of(s) {
            Some(f) => JsonView::Object(
                seq![(type_key(), JsonView::String(string_name())), (format_key(), JsonView::String(f))],
            ),
            None => JsonView::Object(seq![(type_key(), JsonView::String(string_name()))]),
        },
        _ => JsonView::Object(seq![(type_key(), JsonView::String(kind_name(kind_of(v))))]),
    }
}

/// The schema of each member's value.
pub open spec fn member_schemas(m: RowView) -> RowView
    decreases m, 0nat,
{
    Seq::new(
        m.len(),
        |i: int|
            if 0 <= i < m.len() {
                (m[i].0, example_schema(m[i].1))
            } else {
                (Seq::empty(), JsonView::Null)
            },
    )
}

/// The schema of each element.
pub open spec fn element_schemas(items: Seq<JsonView>) -> Seq<JsonView>
    decreases items, 0nat,
{
    Seq::new(
        items.len(),
        |i: int|
            if 0 <= i < items.len() {
                example_schema(items[i])
            } else {
                JsonView::Null
            },
    )
}

/// The schema inferred from examples by merging their schemas; no examples
/// give an object schema without properties.
pub open spec fn merged_schema(examples: Seq<JsonView>) -> JsonView {
    if examples.len() == 0 {
        JsonView::Object(
            seq![(type_key(), JsonView::String(object_name())), (properties_key(), JsonView::Object(Seq::empty()))],
        )
    } else {
        merge(element_schemas(examples))
    }
}


/// A string holding `lit`.
fn lit(l: &str) -> (r: String)
    ensures
        r@ == l@,
{
    String::from_str(l)
}

/// The schema `{"type": <t>}`.
fn type_only(t: String) -> (r: Vec<(String, JsonValue)>)
    ensures
        members_view(r@) == seq![(type_key(), JsonView::String(t@))],
{
    proof {
        reveal_strlit("type");
    }
    let k = lit("type");
    assert(k@ =~= type_key());
    let mut r: Vec<(String, JsonValue)> = Vec::new();
    r.push((k, JsonValue::String(t)));
    assert(members_view(r@) =~= seq![(type_key(), JsonView::String(t@))]);
    r
}

/// The schema value `{"type": <t>}`.
fn type_schema(t: String) -> (r: JsonValue)
    ensures
        r@ == JsonView::Object(seq![(type_key(), JsonView::String(t@))]),
{
    let m = type_only(t);
    let r = JsonValue::Object(m);
    assert(r@->Object_0 =~= members_view(m@));
    r
}

/// The array value `[a, b]` of two strings.
fn string_pair(a: String, b: String) -> (r: JsonValue)
    ensures
        r@ == JsonView::Array(seq![JsonView::String(a@), JsonView::String(b@)]),
{
    let ghost av = a@;
    let ghost bv = b@;
    let mut pair: Vec<JsonValue> = Vec::new();
    pair.push(JsonValue::String(a));
    pair.push(JsonValue::String(b));
    assert(values_view(pair@) =~= seq![JsonView::String(av), JsonView::String(bv)]);
    let r = JsonValue::Array(pair);
    assert(r@->Array_0 =~= values_view(pair@));
    r
}

/// The type names a schema declares.
fn declared_type_names(s: &JsonValue) -> (r: Vec<String>)
    ensures
        names_view(r@) == declared_types(s@),
{
    proof {
        reveal_strlit("type");
    }
    let k = lit("type");
    assert(k@ =~= type_key());
    let mut out: Vec<String> = Vec::new();
    match get_member(s, &k) {
        Some(JsonValue::String(t)) => {
            out.push(t.clone());
            assert(names_view(out@) =~= seq![t@]);
        },
        Some(JsonValue::Array(ts)) => {
            let ghost tv = values_view(ts@);
            let mut i: usize = 0;
            while i < ts.len()
                invariant
                    i <= ts.len(),
                    tv == values_view(ts@),
                    names_view(out@) == strings_in(tv, i as nat),
                decreases ts.len() - i,
            {
                if let JsonValue::String(t) = &ts[i] {
                    let ghost prev = names_view(out@);
                    out.push(t.clone());
                    assert(names_view(out@) =~= prev.push(t@));
                }
                i = i + 1;
            }
            assert(json_get(s@, type_key())->0->Array_0 =~= tv);
        },
        _ => {
            assert(names_view(out@) =~= Seq::<Seq<char>>::empty());
        },
    }
    out
}

/// The merge of several schemas into one that describes all of them: the
/// one kind they declare besides `null`, merged by kind; a list of them
/// under `anyOf` when they declare several.
fn merge_schemas(schemas: &Vec<JsonValue>) -> (r: JsonValue)
    ensures
        r@ == merge(values_view(schemas@)),
    decreases list_height(values_view(schemas@)), 2nat, 0nat,
{
    let ghost sv = values_view(schemas@);
    if schemas.len() == 0 {
        let r = JsonValue::Object(Vec::new());
        assert(r@->Object_0 =~= Seq::<(Seq<char>, JsonView)>::empty());
        return r;
    }
    if schemas.len() == 1 {
        return schemas[0].copy();
    }
    proof {
        reveal_strlit("null");
        reveal_strlit("object");
        reveal_strlit("array");
        reveal_strlit("string");
        reveal_strlit("number");
        reveal_strlit("integer");
        reveal_strlit("format");
        reveal_strlit("anyOf");
    }
    let mut names: Vec<String> = Vec::new();
    let mut i: usize = 0;
    while i < schemas.len()
        invariant
            i <= schemas.len(),
            sv == values_view(schemas@),
            names_view(names@) == all_declared(sv, i as nat),
        decreases schemas.len() - i,
    {
        let more = declared_type_names(&schemas[i]);
        let mut j: usize = 0;
        let ghost before = names_view(names@);
        while j < more.len()
            invariant
                j <= more.len(),
                names_view(names@) == before + names_view(more@).take(j as int),
            decreases more.len() - j,
        {
            let ghost prev = names_view(names@);
            names.push(more[j].clone());
            assert(names_view(names@) =~= prev.push(names_view(more@)[j as int]));
            j = j + 1;
            assert(names_view(names@) =~= before + names_view(more@).take(j as int));
        }
        assert(names_view(more@).take(more.len() as int) =~= names_view(more@));
        i = i + 1;
    }
    let ghost nv = names_view(names@);
    let null_n = lit("null");
    assert(null_n@ =~= null_name());
    let mut kinds: Vec<String> = Vec::new();
    let mut k: usize = 0;
    while k < names.len()
        invariant
            k <= names.len(),
            nv == names_view(names@),
            null_n@ == null_name(),
            names_view(kinds@) == distinct_non_null(nv, k as nat),
        decreases names.len() - k,
    {
        if names[k] != null_n && !names_contain(&kinds, &names[k]) {
            let ghost prev = names_view(kinds@);
            kinds.push(names[k].clone());
            assert(names_view(kinds@) =~= prev.push(nv[k as int]));
        }
        k = k + 1;
    }
    let with_null = names_contain(&names, &null_n);
    if kinds.len() == 0 {
        if with_null {
            return type_schema(null_n);
        }
        let r = JsonValue::Object(Vec::new());
        assert(r@->Object_0 =~= Seq::<(Seq<char>, JsonView)>::empty());
        return r;
    }
    if kinds.len() == 1 {
        let t = kinds[0].clone();
        let base = type_only(t.clone());
        let object_n = lit("object");
        let array_n = lit("array");
        let string_n = lit("string");
        let number_n = lit("number");
        let integer_n = lit("integer");
        assert(object_n@ =~= object_name());
        assert(array_n@ =~= array_name());
        assert(string_n@ =~= string_name());
        assert(number_n@ =~= number_name());
        assert(integer_n@ =~= integer_name());
        if t == object_n {
            return merge_object_schemas(schemas, base);
        }
        if t == array_n {
            return merge_array_schemas(schemas, base);
        }
        if t == string_n {
            let format_k = lit("format");
            assert(format_k@ =~= format_key());
            let mut formats: Vec<String> = Vec::new();
            let mut j: usize = 0;
            while j < schemas.len()
                invariant
                    j <= schemas.len(),
                    sv == values_view(schemas@),
                    format_k@ == format_key(),
                    names_view(formats@) == formats_in(sv, j as nat),
                decreases schemas.len() - j,
            {
                if let Some(JsonValue::String(f)) = get_member(&schemas[j], &format_k) {
                    if !names_contain(&formats, f) {
                        let ghost prev = names_view(formats@);
                        formats.push(f.clone());
                        assert(names_view(formats@) =~= prev.push(f@));
                    }
                }
                j = j + 1;
            }
            let mut m = base;
            if formats.len() == 1 {
                let ghost mb = members_view(m@);
                let f = formats[0].clone();
                m.push((format_k, JsonValue::String(f)));
                assert(members_view(m@) =~= mb.push((format_key(), JsonView::String(formats_in(sv, sv.len())[0]))));
            }
            let r = JsonValue::Object(m);
            assert(r@->Object_0 =~= members_view(m@));
            return r;
        }
        if t == number_n || t == integer_n {
            let r = JsonValue::Object(base);
            assert(r@->Object_0 =~= members_view(base@));
            return r;
        }
        if with_null {
            let arr = string_pair(t, null_n);
            let type_k = lit("type");
            proof {
                reveal_strlit("type");
            }
            assert(type_k@ =~= type_key());
            let ghost av = arr@;
            let mut m: Vec<(String, JsonValue)> = Vec::new();
            m.push((type_k, arr));
            assert(members_view(m@) =~= seq![(type_key(), av)]);
            let r = JsonValue::Object(m);
            assert(r@->Object_0 =~= members_view(m@));
            return r;
        }
        let r = JsonValue::Object(base);
        assert(r@->Object_0 =~= members_view(base@));
        return r;
    }
    let mut alts: Vec<JsonValue> = Vec::new();
    let mut j: usize = 0;
    while j < schemas.len()
        invariant
            j <= schemas.len(),
            sv == values_view(schemas@),
            values_view(alts@) =~= sv.take(j as int),
        decreases schemas.len() - j,
    {
        let ghost prev = values_view(alts@);
        let c = schemas[j].copy();
        alts.push(c);
        assert(values_view(alts@) =~= prev.push(sv[j as int]));
        j = j + 1;
    }
    assert(sv.take(schemas.len() as int) =~= sv);
    if with_null {
        let ghost prev = values_view(alts@);
        let ns = type_schema(null_n);
        alts.push(ns);
        assert(values_view(alts@) =~= prev.push(null_schema()));
        assert(values_view(alts@) =~= sv.push(null_schema()));
    }
    let any_k = lit("anyOf");
    assert(any_k@ =~= any_of_key());
    let ghost altv = values_view(alts@);
    assert(altv == if with_null {
        sv.push(null_schema())
    } else {
        sv
    });
    let arr = JsonValue::Array(alts);
    assert(arr@->Array_0 =~= altv);
    let mut m: Vec<(String, JsonValue)> = Vec::new();
    m.push((any_k, arr));
    let r = JsonValue::Object(m);
    assert(r@->Object_0 =~= seq![(any_of_key(), JsonView::Array(altv))]);
    r
}

/// The merge of array schemas: the merge of their `items`, when any has them.
fn merge_array_schemas(schemas: &Vec<JsonValue>, base: Vec<(String, JsonValue)>) -> (r: JsonValue)
    ensures
        r@ == merge_arrays(values_view(schemas@), members_view(base@)),
    decreases list_height(values_view(schemas@)), 1nat, 0nat,
{
    let ghost sv = values_view(schemas@);
    let items_k = lit("items");
    proof {
        reveal_strlit("items");
    }
    assert(items_k@ =~= items_key());
    let mut its: Vec<JsonValue> = Vec::new();
    let mut j: usize = 0;
    while j < schemas.len()
        invariant
            j <= schemas.len(),
            sv == values_view(schemas@),
            items_k@ == items_key(),
            values_view(its@) == items_in(sv, j as nat),
        decreases schemas.len() - j,
    {
        if let Some(it) = get_member(&schemas[j], &items_k) {
            let ghost prev = values_view(its@);
            let c = it.copy();
            its.push(c);
            assert(values_view(its@) =~= prev.push(it@));
        }
        j = j + 1;
    }
    let mut m = base;
    if its.len() > 0 {
        proof {
            lemma_items_in_lower(sv, sv.len());
        }
        let merged = merge_schemas(&its);
        let ghost mb = members_view(m@);
        m.push((items_k, merged));
        assert(members_view(m@) =~= mb.push((items_key(), merged@)));
    }
    let r = JsonValue::Object(m);
    assert(r@->Object_0 =~= members_view(m@));
    r
}

/// The merge of object schemas: per property name, the merge of its
/// schemas; the names every `properties` object has are required, sorted.
fn merge_object_schemas(schemas: &Vec<JsonValue>, base: Vec<(String, JsonValue)>) -> (r: JsonValue)
    ensures
        r@ == merge_objects(values_view(schemas@), members_view(base@)),
    decreases list_height(values_view(schemas@)), 1nat, 0nat,
{
    let ghost sv = values_view(schemas@);
    let props_k = lit("properties");
    proof {
        reveal_strlit("properties");
        reveal_strlit("required");
    }
    assert(props_k@ =~= properties_key());
    let mut rows: Vec<Vec<(String, JsonValue)>> = Vec::new();
    let mut j: usize = 0;
    while j < schemas.len()
        invariant
            j <= schemas.len(),
            sv == values_view(schemas@),
            props_k@ == properties_key(),
            Seq::new(rows@.len(), |q: int| members_view(rows@[q]@)) =~= property_rows(sv, j as nat),
        decreases schemas.len() - j,
    {
        if let Some(JsonValue::Object(m)) = get_member(&schemas[j], &props_k) {
            let c = copy_row(m);
            assert(json_get(sv[j as int], properties_key())->0->Object_0 =~= members_view(m@));
            rows.push(c);
        }
        j = j + 1;
    }
    let ghost rv = property_rows(sv, sv.len());
    assert(Seq::new(rows@.len(), |q: int| members_view(rows@[q]@)) =~= rv);
    let mut names: Vec<String> = Vec::new();
    let mut r: usize = 0;
    while r < rows.len()
        invariant
            r <= rows.len(),
            rv.len() == rows@.len(),
            forall|q: int| 0 <= q < rows@.len() ==> members_view(#[trigger] rows@[q]@) == rv[q],
            names_view(names@) == row_names(rv, r as nat),
        decreases rows.len() - r,
    {
        let ghost start = names_view(names@);
        let mut q: usize = 0;
        while q < rows[r].len()
            invariant
                r < rows.len(),
                q <= rows@[r as int].len(),
                rv.len() == rows@.len(),
                members_view(rows@[r as int]@) == rv[r as int],
                names_view(names@) == add_names(start, rv[r as int], q as nat),
            decreases rows@[r as int].len() - q,
        {
            add_name(&mut names, rows[r][q].0.clone());
            q = q + 1;
        }
        r = r + 1;
    }
    let ghost namev = names_view(names@);
    let mut props: Vec<(String, JsonValue)> = Vec::new();
    let mut n: usize = 0;
    while n < names.len()
        invariant
            n <= names.len(),
            sv == values_view(schemas@),
            rv == property_rows(sv, sv.len()),
            rv.len() == rows@.len(),
            forall|q: int| 0 <= q < rows@.len() ==> members_view(#[trigger] rows@[q]@) == rv[q],
            namev == names_view(names@),
            members_view(props@) == merge_props(sv, rv, namev, n as nat),
        decreases names.len() - n,
    {
        let key = &names[n];
        let mut vals: Vec<JsonValue> = Vec::new();
        let mut r2: usize = 0;
        while r2 < rows.len()
            invariant
                r2 <= rows.len(),
                rv.len() == rows@.len(),
                forall|q: int| 0 <= q < rows@.len() ==> members_view(#[trigger] rows@[q]@) == rv[q],
                values_view(vals@) == values_for(rv, key@, r2 as nat),
            decreases rows.len() - r2,
        {
            let ghost start = values_view(vals@);
            let mut q: usize = 0;
            while q < rows[r2].len()
                invariant
                    r2 < rows.len(),
                    q <= rows@[r2 as int].len(),
                    rv.len() == rows@.len(),
                    members_view(rows@[r2 as int]@) == rv[r2 as int],
                    values_view(vals@) == start + member_values(rv[r2 as int], key@, q as nat),
                decreases rows@[r2 as int].len() - q,
            {
                if rows[r2][q].0 == *key {
                    let ghost prev = values_view(vals@);
                    let c = rows[r2][q].1.copy();
                    vals.push(c);
                    assert(values_view(vals@) =~= prev.push(rv[r2 as int][q as int].1));
                }
                q = q + 1;
            }
            r2 = r2 + 1;
        }
        let ghost prev = members_view(props@);
        let merged = if vals.len() > 0 {
            proof {
                lemma_values_for_lower(sv, key@);
            }
            merge_schemas(&vals)
        } else {
            let e = JsonValue::Object(Vec::new());
            assert(e@->Object_0 =~= Seq::<(Seq<char>, JsonView)>::empty());
            e
        };
        let ghost mv = merged@;
        props.push((key.clone(), merged));
        assert(members_view(props@) =~= prev.push((namev[n as int], mv)));
        n = n + 1;
    }
    let mut m = base;
    let ghost mb = members_view(m@);
    let props_value = JsonValue::Object(props);
    assert(props_value@->Object_0 =~= members_view(props@));
    m.push((props_k, props_value));
    assert(members_view(m@) =~= mb.push((properties_key(), JsonView::Object(merge_props(sv, rv, namev, namev.len())))));
    let mut common: Vec<String> = Vec::new();
    if rows.len() > 0 {
        let mut q: usize = 0;
        while q < rows[0].len()
            invariant
                rows.len() > 0,
                q <= rows@[0].len(),
                rv.len() == rows@.len(),
                members_view(rows@[0]@) == rv[0],
                names_view(common@) == key_list(rv[0], q as nat),
            decreases rows@[0].len() - q,
        {
            add_name(&mut common, rows[0][q].0.clone());
            q = q + 1;
        }
        let mut r3: usize = 1;
        while r3 < rows.len()
            invariant
                1 <= r3 <= rows.len(),
                rv.len() == rows@.len(),
                forall|q: int| 0 <= q < rows@.len() ==> members_view(#[trigger] rows@[q]@) == rv[q],
                names_view(common@) == common_names(rv, r3 as nat),
            decreases rows.len() - r3,
        {
            let ghost req0 = names_view(common@);
            let mut kept: Vec<String> = Vec::new();
            let mut q: usize = 0;
            while q < common.len()
                invariant
                    r3 < rows.len(),
                    q <= common.len(),
                    req0 == names_view(common@),
                    members_view(rows@[r3 as int]@) == rv[r3 as int],
                    names_view(kept@) == keep_present(req0.take(q as int), rv[r3 as int]),
                decreases common.len() - q,
            {
                assert(req0.take(q + 1).drop_last() =~= req0.take(q as int));
                if find_key(&rows[r3], &common[q]).is_some() {
                    kept.push(common[q].clone());
                    assert(names_view(kept@) =~= keep_present(req0.take(q + 1), rv[r3 as int]));
                } else {
                    assert(names_view(kept@) =~= keep_present(req0.take(q + 1), rv[r3 as int]));
                }
                q = q + 1;
            }
            assert(req0.take(common.len() as int) =~= req0);
            common = kept;
            r3 = r3 + 1;
        }
    } else {
        assert(names_view(common@) =~= common_names(rv, rv.len()));
    }
    if common.len() > 0 {
        let sorted = sorted_names(&common);
        let req = JsonValue::Array(names_to_json(&sorted));
        assert(req@->Array_0 =~= names_json(sort_names(names_view(common@))));
        let required_k = lit("required");
        assert(required_k@ =~= required_key());
        let ghost mb2 = members_view(m@);
        m.push((required_k, req));
        assert(members_view(m@) =~= mb2.push((required_key(), JsonView::Array(names_json(sort_names(names_view(common@)))))));
    }
    let r = JsonValue::Object(m);
    assert(r@->Object_0 =~= members_view(m@));
    r
}

/// The schema of one example.
fn infer_from_single_example(example: &JsonValue) -> (r: JsonValue)
    ensures
        r@ == example_schema(example@),
    decreases example, 1nat,
{
    proof {
        reveal_strlit("type");
        reveal_strlit("string");
        reveal_strlit("format");
    }
    match example {
        JsonValue::Object(_) => infer_object_schema(example),
        JsonValue::Array(_) => infer_array_schema(example),
        JsonValue::String(s) => {
            let string_n = lit("string");
            assert(string_n@ =~= string_name());
            let mut out = type_only(string_n);
            if let Some(f) = detect_format(s.as_str()) {
                let format_k = lit("format");
                assert(format_k@ =~= format_key());
                let ghost ob = members_view(out@);
                let ghost fv = f@;
                out.push((format_k, JsonValue::String(f)));
                assert(members_view(out@) =~= ob.push((format_key(), JsonView::String(fv))));
            }
            let r = JsonValue::Object(out);
            assert(r@->Object_0 =~= members_view(out@));
            assert(example@ == JsonView::String(s@));
            assert(members_view(out@) =~= example_schema(example@)->Object_0);
            r
        },
        _ => {
            let t = JsonType::from_value(example);
            let name = lit(t.to_str());
            assert(name@ == kind_name(kind_of(example@)));
            type_schema(name)
        },
    }
}

/// The schema of an object example: the schema of each member.
fn infer_object_schema(example: &JsonValue) -> (r: JsonValue)
    requires
        example is Object,
    ensures
        r@ == example_schema(example@),
    decreases example, 0nat,
{
    proof {
        reveal_strlit("object");
        reveal_strlit("properties");
    }
    let m = match example {
        JsonValue::Object(m) => m,
        _ => {
            return JsonValue::Null;
        },
    };
    let ghost mv = members_view(m@);
    assert(example@->Object_0 =~= mv);
    let mut props: Vec<(String, JsonValue)> = Vec::new();
    let mut i: usize = 0;
    while i < m.len()
        invariant
            i <= m.len(),
            *example == JsonValue::Object(*m),
            mv == members_view(m@),
            members_view(props@) =~= Seq::new(i as nat, |j: int| (mv[j].0, example_schema(mv[j].1))),
        decreases m.len() - i,
    {
        proof {
            assert(decreases_to!(*example => example->Object_0));
            assert(decreases_to!(example->Object_0 => example->Object_0@));
            assert(decreases_to!(example->Object_0@ => example->Object_0@[i as int]));
            assert(decreases_to!(example->Object_0@[i as int] => example->Object_0@[i as int].1));
        }
        let sub = infer_from_single_example(&m[i].1);
        let ghost prev = members_view(props@);
        let ghost sv = sub@;
        props.push((m[i].0.clone(), sub));
        assert(members_view(props@) =~= prev.push((mv[i as int].0, sv)));
        i = i + 1;
    }
    let object_n = lit("object");
    assert(object_n@ =~= object_name());
    let mut out = type_only(object_n);
    let pv = JsonValue::Object(props);
    assert(pv@->Object_0 =~= members_view(props@));
    let props_k = lit("properties");
    assert(props_k@ =~= properties_key());
    let ghost ob = members_view(out@);
    let ghost pvv = pv@;
    out.push((props_k, pv));
    assert(members_view(props@) =~= member_schemas(mv));
    assert(members_view(out@) =~= ob.push((properties_key(), pvv)));
    let r = JsonValue::Object(out);
    assert(r@->Object_0 =~= members_view(out@));
    assert(members_view(out@) =~= example_schema(example@)->Object_0);
    r
}

/// The schema of an array example: the merge of its elements' schemas.
#[verifier::rlimit(40)]
fn infer_array_schema(example: &JsonValue) -> (r: JsonValue)
    requires
        example is Array,
    ensures
        r@ == example_schema(example@),
    decreases example, 0nat,
{
    proof {
        reveal_strlit("array");
        reveal_strlit("items");
    }
    let items = match example {
        JsonValue::Array(a) => a,
        _ => {
            return JsonValue::Null;
        },
    };
    let ghost iv = values_view(items@);
    assert(example@->Array_0 =~= iv);
    let array_n = lit("array");
    assert(array_n@ =~= array_name());
    let mut out = type_only(array_n);
    if items.len() == 0 {
        let r = JsonValue::Object(out);
        assert(r@->Object_0 =~= members_view(out@));
        return r;
    }
    let mut list: Vec<JsonValue> = Vec::new();
    let mut i: usize = 0;
    while i < items.len()
        invariant
            i <= items.len(),
            *example == JsonValue::Array(*items),
            iv == values_view(items@),
            values_view(list@) =~= Seq::new(i as nat, |j: int| example_schema(iv[j])),
        decreases items.len() - i,
    {
        proof {
            assert(decreases_to!(*example => example->Array_0));
            assert(decreases_to!(example->Array_0 => example->Array_0@));
            assert(decreases_to!(example->Array_0@ => example->Array_0@[i as int]));
        }
        let sub = infer_from_single_example(&items[i]);
        let ghost prev = values_view(list@);
        let ghost sv = sub@;
        list.push(sub);
        assert(values_view(list@) =~= prev.push(sv));
        i = i + 1;
    }
    assert(values_view(list@) =~= element_schemas(iv));
    let merged = merge_schemas(&list);
    let items_k = lit("items");
    assert(items_k@ =~= items_key());
    let ghost ob = members_view(out@);
    let ghost mv = merged@;
    out.push((items_k, merged));
    assert(members_view(out@) =~= ob.push((items_key(), mv)));
    let r = JsonValue::Object(out);
    assert(r@->Object_0 =~= members_view(out@));
    assert(members_view(out@) =~= example_schema(example@)->Object_0);
    r
}

/// Infers a schema from examples by merging one schema per example: no
/// examples give an object schema without properties.
pub fn infer_schema(examples: &Vec<JsonValue>) -> (r: JsonValue)
    ensures
        r@ == merged_schema(values_view(examples@)),
{
    let ghost ev = values_view(examples@);
    proof {
        reveal_strlit("type");
        reveal_strlit("object");
        reveal_strlit("properties");
    }
    if examples.len() == 0 {
        let object_n = lit("object");
        assert(object_n@ =~= object_name());
        let mut out = type_only(object_n);
        let ghost ob = members_view(out@);
        let props_k = lit("properties");
        assert(props_k@ =~= properties_key());
        let empty = JsonValue::Object(Vec::new());
        assert(empty@->Object_0 =~= Seq::<(Seq<char>, JsonView)>::empty());
        let ghost ob = members_view(out@);
        let ghost ev2 = empty@;
        out.push((props_k, empty));
        assert(members_view(out@) =~= ob.push((properties_key(), ev2)));
        let r = JsonValue::Object(out);
        assert(r@->Object_0 =~= members_view(out@));
        assert(members_view(out@) =~= merged_schema(ev)->Object_0);
        return r;
    }
    let mut list: Vec<JsonValue> = Vec::new();
    let mut i: usize = 0;
    while i < examples.len()
        invariant
            i <= examples.len(),
            ev == values_view(examples@),
            values_view(list@) =~= element_schemas(ev.take(i as int)),
        decreases examples.len() - i,
    {
        let sub = infer_from_single_example(&examples[i]);
        let ghost prev = values_view(list@);
        let ghost sv = sub@;
        list.push(sub);
        assert(values_view(list@) =~= prev.push(sv));
        i = i + 1;
        assert(values_view(list@) =~= element_schemas(ev.take(i as int)));
    }
    assert(ev.take(examples.len() as int) =~= ev);
    merge_schemas(&list)
}

} // verus!
