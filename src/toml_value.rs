//! The TOML values and ordered maps that the manifest and the groups file are
//! made of, as far as the logic of this crate reads them.
use indexmap::IndexMap;
use vstd::prelude::*;

verus! {

#[verifier::external_type_specification]
#[verifier::external_body]
pub struct ExValue(toml::Value);

#[verifier::external_type_specification]
#[verifier::external_body]
pub struct ExDeError(toml::de::Error);

#[verifier::external_type_specification]
#[verifier::external_body]
pub struct ExSerError(toml::ser::Error);

#[verifier::external_type_specification]
#[verifier::external_body]
#[verifier::reject_recursive_types(K)]
#[verifier::reject_recursive_types(V)]
#[verifier::reject_recursive_types(S)]
pub struct ExIndexMap<K, V, S>(IndexMap<K, V, S>);

/// Keys and values of a table, in order.
pub type Entries = Seq<(Seq<char>, toml::Value)>;

/// The text of a TOML string value; `None` for a value of any other kind.
pub uninterp spec fn text_of(v: toml::Value) -> Option<Seq<char>>;

/// The entries of a TOML table value, in order; `None` for a value of any other
/// kind.
pub uninterp spec fn entries_of(v: toml::Value) -> Option<Entries>;

/// The entries of an ordered map, in order.
pub uninterp spec fn index_entries(m: IndexMap<String, toml::Value>) -> Entries;

pub open spec fn entry_views(v: Seq<(String, toml::Value)>) -> Entries {
    v.map_values(|e: (String, toml::Value)| (e.0@, e.1))
}

pub open spec fn has_key(e: Entries, k: Seq<char>) -> bool {
    exists|i: int| 0 <= i < e.len() && e[i].0 == k
}

/// No key stands twice.
pub open spec fn unique_keys(e: Entries) -> bool {
    forall|i: int, j: int| 0 <= i < j < e.len() ==> e[i].0 != e[j].0
}

/// The value under `k`, if any.
pub open spec fn value_at(e: Entries, k: Seq<char>) -> Option<toml::Value> {
    if has_key(e, k) {
        Some(e[choose|i: int| 0 <= i < e.len() && e[i].0 == k].1)
    } else {
        None
    }
}

/// Sets `k` to `v`: in its place where `k` is there, else at the end.
pub open spec fn put(e: Entries, k: Seq<char>, v: toml::Value) -> Entries {
    if has_key(e, k) {
        e.update(choose|i: int| 0 <= i < e.len() && e[i].0 == k, (k, v))
    } else {
        e.push((k, v))
    }
}

/// `e` without the entry under `k`; the others keep their order.
pub open spec fn without_key(e: Entries, k: Seq<char>) -> Entries
    decreases e.len(),
{
    if e.len() == 0 {
        e
    } else {
        let p = without_key(e.drop_last(), k);
        if e.last().0 == k {
            p
        } else {
            p.push(e.last())
        }
    }
}

pub proof fn lemma_put_unique(e: Entries, k: Seq<char>, v: toml::Value)
    requires
        unique_keys(e),
    ensures
        unique_keys(put(e, k, v)),
        has_key(put(e, k, v), k),
        forall|q: Seq<char>| has_key(put(e, k, v), q) <==> (has_key(e, q) || q == k),
{
    let p = put(e, k, v);
    if has_key(e, k) {
        let i = choose|i: int| 0 <= i < e.len() && e[i].0 == k;
        assert(p[i].0 == k);
        assert forall|q: Seq<char>| has_key(p, q) <==> (has_key(e, q) || q == k) by {
            if has_key(e, q) {
                let j = choose|j: int| 0 <= j < e.len() && e[j].0 == q;
                assert(p[j].0 == q);
            }
            if has_key(p, q) {
                let j = choose|j: int| 0 <= j < p.len() && p[j].0 == q;
                if j != i {
                    assert(e[j].0 == q);
                }
            }
        }
    } else {
        assert(p[e.len() as int].0 == k);
        assert forall|q: Seq<char>| has_key(p, q) <==> (has_key(e, q) || q == k) by {
            if has_key(e, q) {
                let j = choose|j: int| 0 <= j < e.len() && e[j].0 == q;
                assert(p[j].0 == q);
            }
            if has_key(p, q) {
                let j = choose|j: int| 0 <= j < p.len() && p[j].0 == q;
                if j < e.len() {
                    assert(e[j].0 == q);
                }
            }
        }
    }
}

pub proof fn lemma_without_key_keys(e: Entries, k: Seq<char>, q: Seq<char>)
    ensures
        has_key(without_key(e, k), q) <==> (has_key(e, q) && q != k),
    decreases e.len(),
{
    if e.len() > 0 {
        let init = e.drop_last();
        lemma_without_key_keys(init, k, q);
        let w = without_key(init, k);
        if has_key(e, q) && q != k {
            let i = choose|i: int| 0 <= i < e.len() && e[i].0 == q;
            if i < init.len() {
                assert(init[i].0 == q);
                let j = choose|j: int| 0 <= j < w.len() && w[j].0 == q;
                assert(without_key(e, k)[j] == w[j]);
            } else {
                assert(without_key(e, k)[w.len() as int] == e.last());
            }
        }
        if has_key(without_key(e, k), q) {
            let i = choose|i: int|
                0 <= i < without_key(e, k).len() && without_key(e, k)[i].0 == q;
            if i < w.len() {
                assert(without_key(e, k)[i] == w[i]);
                let j = choose|j: int| 0 <= j < init.len() && init[j].0 == q;
                assert(e[j].0 == q);
            } else {
                assert(e[e.len() - 1].0 == q);
            }
        }
    }
}

/// Takes the entry under `key` out of the entries of a table.
pub(crate) fn take_key(entries: Vec<(String, toml::Value)>, key: &String) -> (r: (
    Option<toml::Value>,
    Vec<(String, toml::Value)>,
))
    requires
        unique_keys(entry_views(entries@)),
    ensures
        r.0 == value_at(entry_views(entries@), key@),
        entry_views(r.1@) == without_key(entry_views(entries@), key@),
        unique_keys(entry_views(r.1@)),
        !has_key(entry_views(r.1@), key@),
{
    let ghost e = entry_views(entries@);
    let mut found: Option<toml::Value> = None;
    let mut rest: Vec<(String, toml::Value)> = Vec::new();
    let mut i: usize = 0;
    while i < entries.len()
        invariant
            e == entry_views(entries@),
            unique_keys(e),
            i <= entries@.len(),
            entry_views(rest@) == without_key(e.subrange(0, i as int), key@),
            forall|a: int|
                0 <= a < rest@.len() ==> exists|j: int|
                    0 <= j < i && #[trigger] entry_views(rest@)[a] == e[j] && e[j].0
                        != key@,
            unique_keys(entry_views(rest@)),
            found is Some ==> exists|j: int|
                0 <= j < i && e[j].0 == key@ && found->0 == e[j].1,
            found is None ==> forall|j: int| 0 <= j < i ==> e[j].0 != key@,
        decreases entries@.len() - i,
    {
        assert(e.subrange(0, i + 1).drop_last() =~= e.subrange(0, i as int));
        assert(e.subrange(0, i + 1).last() == e[i as int]);
        let k = entries[i].0.clone();
        if k == *key {
            found = Some(entries[i].1.clone());
        } else {
            let ghost before = entry_views(rest@);
            rest.push((k, entries[i].1.clone()));
            assert(entry_views(rest@) =~= before.push(e[i as int]));
            assert forall|a: int|
                0 <= a < rest@.len() implies exists|j: int|
                    0 <= j < i + 1 && #[trigger] entry_views(rest@)[a] == e[j] && e[j].0
                        != key@ by {
                if a < before.len() {
                    assert(entry_views(rest@)[a] == before[a]);
                } else {
                    assert(entry_views(rest@)[a] == e[i as int]);
                }
            }
            assert forall|a: int, b: int|
                0 <= a < b < entry_views(rest@).len() implies entry_views(rest@)[a].0
                != entry_views(rest@)[b].0 by {
                if b == before.len() {
                    assert(entry_views(rest@)[a] == before[a]);
                    let j = choose|j: int|
                        0 <= j < i && #[trigger] before[a] == e[j] && e[j].0 != key@;
                    assert(e[j].0 != e[i as int].0);
                } else {
                    assert(entry_views(rest@)[a] == before[a]);
                    assert(entry_views(rest@)[b] == before[b]);
                }
            }
        }
        i = i + 1;
    }
    assert(e.subrange(0, entries@.len() as int) =~= e);
    proof {
        if found is Some {
            let j = choose|j: int| 0 <= j < i && e[j].0 == key@ && found->0 == e[j].1;
            assert(has_key(e, key@));
            let c = choose|c: int| 0 <= c < e.len() && e[c].0 == key@;
            assert(c == j);
        } else {
            assert(!has_key(e, key@));
        }
        if has_key(entry_views(rest@), key@) {
            let a = choose|a: int|
                0 <= a < entry_views(rest@).len() && entry_views(rest@)[a].0 == key@;
            assert(exists|j: int|
                0 <= j < i && #[trigger] entry_views(rest@)[a] == e[j] && e[j].0
                    != key@);
        }
    }
    (found, rest)
}

/// The value that a TOML document reads as; `None` where it is not valid TOML.
pub uninterp spec fn document_of(text: Seq<char>) -> Option<toml::Value>;

/// The TOML text that a value is written as; `None` where it cannot be written.
pub uninterp spec fn text_of_document(v: toml::Value) -> Option<Seq<char>>;

/// Relies on toml::from_str: reads a TOML document into a value; the value depends
/// on the text alone.
#[verifier::external_body]
pub(crate) fn parse_document(text: &str) -> (r: Result<toml::Value, toml::de::Error>)
    ensures
        match document_of(text@) {
            Some(v) => r is Ok && r->Ok_0 == v,
            None => r is Err,
        },
{
    toml::from_str::<toml::Value>(text)
}

/// Relies on toml::to_string: writes a value as a TOML document; the text depends
/// on the value alone.
#[verifier::external_body]
pub(crate) fn write_document(v: &toml::Value) -> (r: Result<String, toml::ser::Error>)
    ensures
        match text_of_document(*v) {
            Some(t) => r is Ok && r->Ok_0@ == t,
            None => r is Err,
        },
{
    toml::to_string(v)
}

/// Relies on toml::Value::as_str: the text of a string value, which is no table.
#[verifier::external_body]
pub(crate) fn value_text(v: &toml::Value) -> (r: Option<String>)
    ensures
        match text_of(*v) {
            Some(t) => r is Some && r->0@ == t,
            None => r is None,
        },
        r is Some ==> entries_of(*v) is None,
{
    v.as_str().map(|s| s.to_owned())
}

/// Relies on toml::Value::is_table.
#[verifier::external_body]
pub(crate) fn value_is_table(v: &toml::Value) -> (r: bool)
    ensures
        r == entries_of(*v) is Some,
{
    v.is_table()
}

/// Relies on the variant toml::Value::Table and on its map, whose keys are unique:
/// the entries of a table value, or the value itself back where it is no table.
#[verifier::external_body]
pub(crate) fn table_entries(v: toml::Value) -> (r: Result<Vec<(String, toml::Value)>, toml::Value>)
    ensures
        match entries_of(v) {
            Some(e) => r is Ok && entry_views(r->Ok_0@) == e && unique_keys(e),
            None => r is Err && r->Err_0 == v,
        },
{
    match v {
        toml::Value::Table(t) => Ok(t.into_iter().collect()),
        other => Err(other),
    }
}

/// The TOML string value with the text `s`.
pub uninterp spec fn string_of(s: Seq<char>) -> toml::Value;

/// The TOML table value with the entries `e`, whose keys are unique.
pub uninterp spec fn table_of(e: Entries) -> toml::Value;

/// Relies on the variant toml::Value::String.
#[verifier::external_body]
pub(crate) fn string_value(s: String) -> (r: toml::Value)
    ensures
        r == string_of(s@),
        text_of(r) == Some(s@),
        entries_of(r) is None,
{
    toml::Value::String(s)
}

/// Relies on the variant toml::Value::Table and on collecting its map from
/// entries whose keys are unique, which keeps them in order.
#[verifier::external_body]
pub(crate) fn table_value(entries: Vec<(String, toml::Value)>) -> (r: toml::Value)
    requires
        unique_keys(entry_views(entries@)),
    ensures
        r == table_of(entry_views(entries@)),
        entries_of(r) == Some(entry_views(entries@)),
        text_of(r) is None,
{
    toml::Value::Table(entries.into_iter().collect())
}

/// Relies on the derived Clone of toml::Value.
pub assume_specification[ <toml::Value as Clone>::clone ](v: &toml::Value) -> (r: toml::Value)
    ensures
        r == *v,
;

/// Relies on IndexMap::new: an empty map.
#[verifier::external_body]
pub(crate) fn index_new() -> (r: IndexMap<String, toml::Value>)
    ensures
        index_entries(r) == Seq::<(Seq<char>, toml::Value)>::empty(),
{
    IndexMap::new()
}

/// Relies on IndexMap::insert: an existing key keeps its place and takes the new
/// value; a new key goes last.
#[verifier::external_body]
pub(crate) fn index_insert(m: &mut IndexMap<String, toml::Value>, k: String, v: toml::Value)
    ensures
        index_entries(*final(m)) == put(index_entries(*old(m)), k@, v),
{
    m.insert(k, v);
}

/// Relies on IndexMap::iter: the entries in order, copied.
#[verifier::external_body]
pub(crate) fn index_list(m: &IndexMap<String, toml::Value>) -> (r: Vec<(String, toml::Value)>)
    ensures
        entry_views(r@) == index_entries(*m),
{
    m.iter().map(|(k, v)| (k.clone(), v.clone())).collect()
}

} // verus!
