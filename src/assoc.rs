//! Lists of (name, value) pairs used as maps keyed by name.
use vstd::prelude::*;

verus! {

/// The view of a keyed list.
pub open spec fn assoc_view<V: View>(m: Seq<(String, V)>) -> Seq<(Seq<char>, V::V)> {
    Seq::new(m.len(), |i: int| (m[i].0@, m[i].1@))
}


/// `i` is the first position of key `k` in `m`.
pub open spec fn key_at<V>(m: Seq<(Seq<char>, V)>, k: Seq<char>, i: int) -> bool {
    &&& 0 <= i < m.len()
    &&& m[i].0 == k
    &&& forall|j: int| 0 <= j < i ==> m[j].0 != k
}

/// `m` holds key `k`.
pub open spec fn has_key<V>(m: Seq<(Seq<char>, V)>, k: Seq<char>) -> bool {
    exists|i: int| 0 <= i < m.len() && m[i].0 == k
}

/// The first position of key `k` in `m`; meaningful when `has_key(m, k)`.
pub open spec fn key_pos<V>(m: Seq<(Seq<char>, V)>, k: Seq<char>) -> int {
    choose|i: int| key_at(m, k, i)
}

/// The value stored under `k`, if any.
pub open spec fn lookup<V>(m: Seq<(Seq<char>, V)>, k: Seq<char>) -> Option<V> {
    if has_key(m, k) {
        Some(m[key_pos(m, k)].1)
    } else {
        None
    }
}

/// `m` with `k` set to `v`: an existing key keeps its place, a new key goes last.
pub open spec fn assoc_insert<V>(m: Seq<(Seq<char>, V)>, k: Seq<char>, v: V) -> Seq<(Seq<char>, V)> {
    if has_key(m, k) {
        m.update(key_pos(m, k), (k, v))
    } else {
        m.push((k, v))
    }
}

/// No key occurs twice in `m`.
pub open spec fn distinct_keys<V>(m: Seq<(Seq<char>, V)>) -> bool {
    forall|i: int, j: int| 0 <= i < j < m.len() ==> m[i].0 != m[j].0
}

/// The first position of a key is unique, and exists whenever the key does.
pub proof fn lemma_key_pos<V>(m: Seq<(Seq<char>, V)>, k: Seq<char>)
    requires
        has_key(m, k),
    ensures
        key_at(m, k, key_pos(m, k)),
        forall|i: int| key_at(m, k, i) ==> i == key_pos(m, k),
    decreases m.len(),
{
    let d = m.drop_last();
    assert(forall|j: int| 0 <= j < d.len() ==> d[j] == m[j]);
    if has_key(d, k) {
        lemma_key_pos(d, k);
        let i = key_pos(d, k);
        assert(key_at(m, k, i));
    } else {
        let w = choose|i: int| 0 <= i < m.len() && m[i].0 == k;
        if w < d.len() {
            assert(d[w].0 == k);
        }
        assert(key_at(m, k, m.len() - 1));
    }
    let p = key_pos(m, k);
    assert forall|i: int| key_at(m, k, i) implies i == p by {
        if i < p {
            assert(m[i].0 == k);
        }
        if p < i {
            assert(m[p].0 == k);
        }
    }
}

/// Inserting into a list with distinct keys keeps them distinct.
pub proof fn lemma_insert_distinct<V>(m: Seq<(Seq<char>, V)>, k: Seq<char>, v: V)
    requires
        distinct_keys(m),
    ensures
        distinct_keys(assoc_insert(m, k, v)),
        has_key(assoc_insert(m, k, v), k),
        lookup(assoc_insert(m, k, v), k) == Some(v),
{
    let r = assoc_insert(m, k, v);
    if has_key(m, k) {
        lemma_key_pos(m, k);
    }
    assert(r[if has_key(m, k) { key_pos(m, k) } else { m.len() as int }].0 == k);
    lemma_key_pos(r, k);
    assert forall|i: int, j: int| 0 <= i < j < r.len() implies r[i].0 != r[j].0 by {
        if has_key(m, k) {
            let p = key_pos(m, k);
            if i == p {
                assert(m[j].0 != m[p].0);
            } else if j == p {
                assert(m[i].0 != m[p].0);
            }
        } else if j == m.len() {
            assert(m[i].0 != k);
        }
    }
    let q = key_pos(r, k);
    if has_key(m, k) {
        assert(key_at(r, k, key_pos(m, k)));
    } else {
        assert(key_at(r, k, m.len() as int));
    }
}

/// The first position of `k` in `m`.
pub fn find_key<V: View>(m: &Vec<(String, V)>, k: &String) -> (r: Option<usize>)
    ensures
        r is None <==> !has_key(assoc_view(m@), k@),
        r matches Some(i) ==> i == key_pos(assoc_view(m@), k@) && key_at(
            assoc_view(m@),
            k@,
            i as int,
        ),
{
    let ghost mv = assoc_view(m@);
    let mut i: usize = 0;
    while i < m.len()
        invariant
            i <= m.len(),
            mv == assoc_view(m@),
            forall|j: int| 0 <= j < i ==> mv[j].0 != k@,
        decreases m.len() - i,
    {
        if m[i].0 == *k {
            proof {
                assert(key_at(mv, k@, i as int));
                lemma_key_pos(mv, k@);
            }
            return Some(i);
        }
        i = i + 1;
    }
    None
}

/// Sets `k` to `v` in `m`.
pub fn assoc_set<V: View>(m: &mut Vec<(String, V)>, k: String, v: V)
    ensures
        assoc_view(final(m)@) == assoc_insert(assoc_view(old(m)@), k@, v@),
{
    let found = find_key(m, &k);
    let ghost kv = k@;
    let ghost vv = v@;
    match found {
        Some(i) => {
            m.set(i, (k, v));
            assert(assoc_view(m@) =~= assoc_insert(assoc_view(old(m)@), kv, vv));
        },
        None => {
            m.push((k, v));
            assert(assoc_view(m@) =~= assoc_insert(assoc_view(old(m)@), kv, vv));
        },
    }
}

/// The value stored under `k` in `m`.
pub fn assoc_get<'a, V: View>(m: &'a Vec<(String, V)>, k: &String) -> (r: Option<&'a V>)
    ensures
        r is None <==> lookup(assoc_view(m@), k@) is None,
        r matches Some(v) ==> lookup(assoc_view(m@), k@) == Some(v@),
{
    match find_key(m, k) {
        Some(i) => Some(&m[i].1),
        None => None,
    }
}


/// Adding a member under another key leaves a lookup unchanged.
pub proof fn lemma_lookup_push_other<V>(m: Seq<(Seq<char>, V)>, k2: Seq<char>, v: V, k: Seq<char>)
    requires
        k != k2,
    ensures
        lookup(m.push((k2, v)), k) == lookup(m, k),
{
    let r = m.push((k2, v));
    assert(has_key(r, k) == has_key(m, k)) by {
        if has_key(r, k) {
            let i = choose|i: int| 0 <= i < r.len() && r[i].0 == k;
            assert(m[i].0 == k);
        }
        if has_key(m, k) {
            let i = choose|i: int| 0 <= i < m.len() && m[i].0 == k;
            assert(r[i].0 == k);
        }
    }
    if has_key(m, k) {
        lemma_key_pos(m, k);
        lemma_key_pos(r, k);
        assert(key_at(r, k, key_pos(m, k)));
    }
}

/// Adding a member under a new key makes it found.
pub proof fn lemma_lookup_push_new<V>(m: Seq<(Seq<char>, V)>, k: Seq<char>, v: V)
    requires
        !has_key(m, k),
    ensures
        lookup(m.push((k, v)), k) == Some(v),
{
    let r = m.push((k, v));
    assert(r[m.len() as int].0 == k);
    lemma_key_pos(r, k);
    assert(key_at(r, k, m.len() as int));
}

/// Setting another key leaves a lookup unchanged.
pub proof fn lemma_lookup_insert_other<V>(m: Seq<(Seq<char>, V)>, k2: Seq<char>, v: V, k: Seq<char>)
    requires
        k != k2,
    ensures
        lookup(assoc_insert(m, k2, v), k) == lookup(m, k),
        has_key(assoc_insert(m, k2, v), k) == has_key(m, k),
{
    if has_key(m, k2) {
        lemma_key_pos(m, k2);
        let p = key_pos(m, k2);
        let r = m.update(p, (k2, v));
        assert(has_key(r, k) == has_key(m, k)) by {
            if has_key(r, k) {
                let i = choose|i: int| 0 <= i < r.len() && r[i].0 == k;
                assert(m[i].0 == k);
            }
            if has_key(m, k) {
                let i = choose|i: int| 0 <= i < m.len() && m[i].0 == k;
                assert(r[i].0 == k);
            }
        }
        if has_key(m, k) {
            lemma_key_pos(m, k);
            lemma_key_pos(r, k);
            let q = key_pos(m, k);
            assert(key_at(r, k, q));
        }
    } else {
        lemma_lookup_push_other(m, k2, v, k);
        let r = m.push((k2, v));
        assert(has_key(r, k) == has_key(m, k)) by {
            if has_key(r, k) {
                let i = choose|i: int| 0 <= i < r.len() && r[i].0 == k;
                assert(m[i].0 == k);
            }
            if has_key(m, k) {
                let i = choose|i: int| 0 <= i < m.len() && m[i].0 == k;
                assert(r[i].0 == k);
            }
        }
    }
}

/// Looking up the last key of a list with distinct keys finds the last value.
pub proof fn lemma_lookup_last<V>(m: Seq<(Seq<char>, V)>)
    requires
        m.len() > 0,
        distinct_keys(m),
    ensures
        lookup(m, m.last().0) == Some(m.last().1),
        !has_key(m.drop_last(), m.last().0),
{
    let d = m.drop_last();
    assert(!has_key(d, m.last().0)) by {
        if has_key(d, m.last().0) {
            let i = choose|i: int| 0 <= i < d.len() && d[i].0 == m.last().0;
            assert(m[i].0 == m[m.len() - 1].0);
        }
    }
    assert(m =~= d.push(m.last()));
    lemma_lookup_push_new(d, m.last().0, m.last().1);
}


/// After setting `k2`, exactly the old keys and `k2` are present.
pub proof fn lemma_has_key_insert<V>(m: Seq<(Seq<char>, V)>, k2: Seq<char>, v: V, k: Seq<char>)
    ensures
        has_key(assoc_insert(m, k2, v), k) == (has_key(m, k) || k == k2),
{
    if k != k2 {
        lemma_lookup_insert_other(m, k2, v, k);
    } else {
        let r = assoc_insert(m, k2, v);
        if has_key(m, k2) {
            lemma_key_pos(m, k2);
            assert(r[key_pos(m, k2)].0 == k);
        } else {
            assert(r[m.len() as int].0 == k);
        }
    }
}


/// The value of the last member named `k`, if any.
pub open spec fn last_value<V>(m: Seq<(Seq<char>, V)>, k: Seq<char>) -> Option<V>
    decreases m.len(),
{
    if m.len() == 0 {
        None
    } else if m.last().0 == k {
        Some(m.last().1)
    } else {
        last_value(m.drop_last(), k)
    }
}

/// Setting `k` makes it found with the value set.
pub proof fn lemma_lookup_insert_same<V>(m: Seq<(Seq<char>, V)>, k: Seq<char>, v: V)
    ensures
        lookup(assoc_insert(m, k, v), k) == Some(v),
{
    if has_key(m, k) {
        lemma_key_pos(m, k);
        let p = key_pos(m, k);
        let r = m.update(p, (k, v));
        assert(key_at(r, k, p));
        lemma_key_pos(r, k);
    } else {
        lemma_lookup_push_new(m, k, v);
    }
}

} // verus!
