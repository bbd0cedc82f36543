//! The manifest: reading it, adding dependencies to it, sorting them, writing it.
use crate::error::{ParseFault, ScaffoldError};
use crate::group_reader::{
    dependency_value, group_of, resolved_text, Dependency, DependencyGroups,
};
use crate::order::{
    lemma_less_asymmetric, lemma_less_irreflexive, lemma_less_total, lemma_less_transitive,
    less_than, name_less,
};
use crate::toml_value::{
    document_of, entries_of, entry_views, has_key, index_entries, index_insert, index_list,
    index_new, lemma_put_unique, lemma_without_key_keys, parse_document, put,
    table_entries, table_of, table_value, take_key, text_of_document, unique_keys, value_at,
    value_is_table, without_key, write_document, Entries,
};
use crate::version_getter::{cached, VersionGetter};
use indexmap::IndexMap;
use vstd::prelude::*;

verus! {

pub open spec fn package_key() -> Seq<char> {
    seq!['p', 'a', 'c', 'k', 'a', 'g', 'e']
}

pub open spec fn dependencies_key() -> Seq<char> {
    seq!['d', 'e', 'p', 'e', 'n', 'd', 'e', 'n', 'c', 'i', 'e', 's']
}

/// A manifest: its `package` section, its `dependencies` section, and every other
/// top-level entry, each in the order of the file.
pub struct Config {
    pub package: IndexMap<String, toml::Value>,
    pub dependencies: IndexMap<String, toml::Value>,
    pub other: IndexMap<String, toml::Value>,
}

impl Config {
    /// No key stands twice, and the other entries hold neither section.
    pub open spec fn wf(&self) -> bool {
        &&& unique_keys(index_entries(self.package))
        &&& unique_keys(index_entries(self.dependencies))
        &&& unique_keys(index_entries(self.other))
        &&& !has_key(index_entries(self.other), package_key())
        &&& !has_key(index_entries(self.other), dependencies_key())
    }
}

/// The top-level entries of the document that a manifest is written as.
pub open spec fn document_entries(c: Config) -> Entries {
    seq![
        (package_key(), table_of(index_entries(c.package))),
        (dependencies_key(), table_of(index_entries(c.dependencies))),
    ] + index_entries(c.other)
}

/// What reading a manifest from the document `doc` gives: its three parts, or
/// the section that is missing or no table.
pub open spec fn manifest_read(doc: toml::Value, r: Result<Config, ScaffoldError>) -> bool {
    match entries_of(doc) {
        None => r matches Err(ScaffoldError::TomlDe(ParseFault::NotATable(n))) && n@.len()
            == 0,
        Some(e) => {
            let rest = without_key(e, package_key());
            let others = without_key(rest, dependencies_key());
            match value_at(e, package_key()) {
                None => r matches Err(ScaffoldError::TomlDe(ParseFault::MissingSection(n)))
                    && n@ == package_key(),
                Some(p) => match entries_of(p) {
                    None => r matches Err(ScaffoldError::TomlDe(ParseFault::NotATable(n)))
                        && n@ == package_key(),
                    Some(pe) => match value_at(rest, dependencies_key()) {
                        None => r matches Err(
                            ScaffoldError::TomlDe(ParseFault::MissingSection(n)),
                        ) && n@ == dependencies_key(),
                        Some(d) => match entries_of(d) {
                            None => r matches Err(
                                ScaffoldError::TomlDe(ParseFault::NotATable(n)),
                            ) && n@ == dependencies_key(),
                            Some(de) => r matches Ok(c) && c.wf() && index_entries(c.package)
                                == pe && index_entries(c.dependencies) == de && index_entries(
                                c.other,
                            ) == others,
                        },
                    },
                },
            }
        },
    }
}

/// Builds an ordered map with the entries `entries`, in their order.
fn copy_into_map(entries: Vec<(String, toml::Value)>) -> (r: IndexMap<String, toml::Value>)
    requires
        unique_keys(entry_views(entries@)),
    ensures
        index_entries(r) == entry_views(entries@),
{
    let ghost e = entry_views(entries@);
    let mut m = index_new();
    let mut i: usize = 0;
    while i < entries.len()
        invariant
            e == entry_views(entries@),
            unique_keys(e),
            i <= entries@.len(),
            index_entries(m) == e.subrange(0, i as int),
        decreases entries@.len() - i,
    {
        let ghost before = index_entries(m);
        assert(e[i as int] == (entries@[i as int].0@, entries@[i as int].1));
        assert(!has_key(before, e[i as int].0)) by {
            if has_key(before, e[i as int].0) {
                let j = choose|j: int| 0 <= j < before.len() && before[j].0 == e[i as int].0;
                assert(e[j].0 == e[i as int].0);
            }
        }
        index_insert(&mut m, entries[i].0.clone(), entries[i].1.clone());
        assert(e.subrange(0, i + 1) =~= before.push(e[i as int]));
        i = i + 1;
    }
    assert(e.subrange(0, entries@.len() as int) =~= e);
    m
}

impl Config {
    /// Reads a manifest from its parsed document.
    pub fn from_document(doc: toml::Value) -> (r: Result<Config, ScaffoldError>)
        ensures
            manifest_read(doc, r),
    {
        let entries = match table_entries(doc) {
            Ok(e) => e,
            Err(_) => {
                return Err(ScaffoldError::TomlDe(ParseFault::NotATable(String::new())));
            },
        };
        let package_name = "package".to_owned();
        let dependencies_name = "dependencies".to_owned();
        proof {
            reveal_strlit("package");
            reveal_strlit("dependencies");
            assert(package_name@ =~= package_key());
            assert(dependencies_name@ =~= dependencies_key());
        }
        let (package, rest) = take_key(entries, &package_name);
        let (dependencies, others) = take_key(rest, &dependencies_name);
        let package = match package {
            None => {
                return Err(ScaffoldError::TomlDe(ParseFault::MissingSection(package_name)));
            },
            Some(v) => match table_entries(v) {
                Ok(e) => copy_into_map(e),
                Err(_) => {
                    return Err(ScaffoldError::TomlDe(ParseFault::NotATable(package_name)));
                },
            },
        };
        let dependencies = match dependencies {
            None => {
                return Err(ScaffoldError::TomlDe(ParseFault::MissingSection(dependencies_name)));
            },
            Some(v) => match table_entries(v) {
                Ok(e) => copy_into_map(e),
                Err(_) => {
                    return Err(ScaffoldError::TomlDe(ParseFault::NotATable(dependencies_name)));
                },
            },
        };
        let ghost rest_view = entry_views(rest@);
        let other = copy_into_map(others);
        proof {
            if has_key(index_entries(other), package_key()) {
                lemma_without_key_keys(rest_view, dependencies_key(), package_key());
            }
        }
        Ok(Config { package, dependencies, other })
    }

    /// The document that this manifest is written as: `package`, then
    /// `dependencies`, then the other entries.
    pub fn to_document(&self) -> (r: toml::Value)
        requires
            self.wf(),
        ensures
            r == table_of(document_entries(*self)),
            entries_of(r) == Some(document_entries(*self)),
            unique_keys(document_entries(*self)),
    {
        let package_name = "package".to_owned();
        let dependencies_name = "dependencies".to_owned();
        proof {
            reveal_strlit("package");
            reveal_strlit("dependencies");
            assert(package_name@ =~= package_key());
            assert(dependencies_name@ =~= dependencies_key());
        }
        let package = table_value(index_list(&self.package));
        let dependencies = table_value(index_list(&self.dependencies));
        let rest = index_list(&self.other);
        let mut root: Vec<(String, toml::Value)> = Vec::new();
        root.push((package_name, package));
        root.push((dependencies_name, dependencies));
        let ghost o = index_entries(self.other);
        let ghost head = seq![
            (package_key(), table_of(index_entries(self.package))),
            (dependencies_key(), table_of(index_entries(self.dependencies))),
        ];
        assert(entry_views(root@) =~= head);
        let mut i: usize = 0;
        while i < rest.len()
            invariant
                o == entry_views(rest@),
                i <= rest@.len(),
                entry_views(root@) == head + o.subrange(0, i as int),
            decreases rest@.len() - i,
        {
            assert(o[i as int] == (rest@[i as int].0@, rest@[i as int].1));
            let ghost before = entry_views(root@);
            root.push((rest[i].0.clone(), rest[i].1.clone()));
            assert(entry_views(root@) =~= before.push(o[i as int]));
            assert(entry_views(root@) =~= head + o.subrange(0, i + 1));
            i = i + 1;
        }
        assert(o.subrange(0, rest@.len() as int) =~= o);
        assert(entry_views(root@) == document_entries(*self));
        proof {
            let d = document_entries(*self);
            assert forall|a: int, b: int| 0 <= a < b < d.len() implies d[a].0 != d[b].0 by {
                if a >= 2 {
                    assert(d[a] == o[a - 2]);
                    assert(d[b] == o[b - 2]);
                } else if b >= 2 {
                    assert(d[b] == o[b - 2]);
                    if d[a].0 == d[b].0 {
                        assert(has_key(o, d[a].0));
                    }
                }
            }
        }
        table_value(root)
    }
}

/// Reads a manifest from its text.
pub fn read_toml_str(text: &str) -> (r: Result<Config, ScaffoldError>)
    ensures
        match document_of(text@) {
            Some(doc) => manifest_read(doc, r),
            None => r matches Err(ScaffoldError::TomlDe(ParseFault::Syntax(_))),
        },
        r is Err ==> r matches Err(ScaffoldError::TomlDe(_)),
{
    match parse_document(text) {
        Ok(doc) => Config::from_document(doc),
        Err(error) => Err(ScaffoldError::TomlDe(ParseFault::Syntax(error))),
    }
}

/// The text of a manifest.
pub fn write_toml_str(config: &Config) -> (r: Result<String, ScaffoldError>)
    requires
        config.wf(),
    ensures
        match text_of_document(table_of(document_entries(*config))) {
            Some(t) => r matches Ok(s) && s@ == t,
            None => r matches Err(ScaffoldError::TomlSer(_)),
        },
{
    let doc = config.to_document();
    match write_document(&doc) {
        Ok(text) => Ok(text),
        Err(error) => Err(ScaffoldError::TomlSer(error)),
    }
}

/// Writing back a manifest as it was read keeps every top-level key of the
/// document it was read from, the entries of `package` and of `dependencies`, and
/// every other top-level entry unchanged and in order.
pub proof fn lemma_round_trip(doc: toml::Value, r: Result<Config, ScaffoldError>)
    requires
        manifest_read(doc, r),
        r is Ok,
        entries_of(doc) is Some,
    ensures
        forall|q: Seq<char>|
            has_key(document_entries(r->Ok_0), q) <==> has_key(entries_of(doc)->0, q),
        entries_of(value_at(entries_of(doc)->0, package_key())->0) == Some(
            index_entries(r->Ok_0.package),
        ),
        entries_of(
            value_at(without_key(entries_of(doc)->0, package_key()), dependencies_key())->0,
        ) == Some(index_entries(r->Ok_0.dependencies)),
        index_entries(r->Ok_0.other) == without_key(
            without_key(entries_of(doc)->0, package_key()),
            dependencies_key(),
        ),
{
    let e = entries_of(doc)->0;
    let c = r->Ok_0;
    let rest = without_key(e, package_key());
    let d = document_entries(c);
    assert(has_key(e, package_key()));
    assert(has_key(rest, dependencies_key()));
    assert forall|q: Seq<char>| has_key(d, q) <==> has_key(e, q) by {
        lemma_without_key_keys(e, package_key(), q);
        lemma_without_key_keys(rest, dependencies_key(), q);
        lemma_without_key_keys(e, package_key(), dependencies_key());
        if q == package_key() {
            assert(d[0].0 == q);
        } else if q == dependencies_key() {
            assert(d[1].0 == q);
        } else {
            let o = index_entries(c.other);
            if has_key(o, q) {
                let i = choose|i: int| 0 <= i < o.len() && o[i].0 == q;
                assert(d[i + 2] == o[i]);
            }
            if has_key(d, q) {
                let i = choose|i: int| 0 <= i < d.len() && d[i].0 == q;
                assert(i >= 2);
                assert(d[i] == o[i - 2]);
            }
        }
    }
}

/// Tables come after all other values.
pub open spec fn weight(v: toml::Value) -> int {
    if entries_of(v) is Some {
        1
    } else {
        0
    }
}

/// The order of the dependency table: by weight, then by name.
pub open spec fn entry_less(x: (Seq<char>, toml::Value), y: (Seq<char>, toml::Value)) -> bool {
    weight(x.1) < weight(y.1) || (weight(x.1) == weight(y.1) && name_less(x.0, y.0))
}

/// Strictly increasing in the order of the dependency table.
pub open spec fn sorted_entries(s: Entries) -> bool {
    forall|i: int, j: int| 0 <= i < j < s.len() ==> entry_less(s[i], s[j])
}

/// `a` and `b` hold the same entries, as many of them.
pub open spec fn same_entries(a: Entries, b: Entries) -> bool {
    &&& a.len() == b.len()
    &&& forall|x: (Seq<char>, toml::Value)| a.contains(x) <==> b.contains(x)
}

/// `new` is `old` in the order of the dependency table.
pub open spec fn sorted_from(old: Entries, new: Entries) -> bool {
    sorted_entries(new) && same_entries(old, new)
}

proof fn lemma_entry_less_transitive(
    x: (Seq<char>, toml::Value),
    y: (Seq<char>, toml::Value),
    z: (Seq<char>, toml::Value),
)
    requires
        entry_less(x, y),
        entry_less(y, z),
    ensures
        entry_less(x, z),
{
    if weight(x.1) == weight(y.1) && weight(y.1) == weight(z.1) {
        lemma_less_transitive(x.0, y.0, z.0);
    }
}

proof fn lemma_entry_less_strict(x: (Seq<char>, toml::Value), y: (Seq<char>, toml::Value))
    ensures
        !entry_less(x, x),
        entry_less(x, y) ==> !entry_less(y, x),
        x.0 != y.0 ==> entry_less(x, y) || entry_less(y, x),
{
    lemma_less_irreflexive(x.0);
    if entry_less(x, y) && weight(x.1) == weight(y.1) {
        lemma_less_asymmetric(x.0, y.0);
    }
    if x.0 != y.0 {
        lemma_less_total(x.0, y.0);
    }
}

/// Two sorted orders of the same entries are one.
proof fn lemma_sorted_unique(a: Entries, b: Entries)
    requires
        sorted_entries(a),
        sorted_entries(b),
        same_entries(a, b),
    ensures
        a == b,
    decreases a.len(),
{
    if a.len() == 0 {
        assert(a =~= b);
    } else {
        assert(a.contains(a[0]));
        let k = choose|k: int| 0 <= k < b.len() && b[k] == a[0];
        assert(b.contains(b[0]));
        let m = choose|m: int| 0 <= m < a.len() && a[m] == b[0];
        lemma_entry_less_strict(a[0], b[0]);
        lemma_entry_less_strict(b[0], a[0]);
        if k > 0 {
            assert(entry_less(b[0], a[0]));
            if m > 0 {
                assert(entry_less(a[0], b[0]));
            }
        }
        assert(a[0] == b[0]);
        let a1 = a.drop_first();
        let b1 = b.drop_first();
        assert forall|x: (Seq<char>, toml::Value)| a1.contains(x) <==> b1.contains(x) by {
            if a1.contains(x) {
                let i = choose|i: int| 0 <= i < a1.len() && a1[i] == x;
                assert(a[i + 1] == x);
                assert(entry_less(a[0], a[i + 1]));
                lemma_entry_less_strict(x, x);
                assert(b.contains(x));
                let j = choose|j: int| 0 <= j < b.len() && b[j] == x;
                assert(j != 0);
                assert(b1[j - 1] == x);
            }
            if b1.contains(x) {
                let i = choose|i: int| 0 <= i < b1.len() && b1[i] == x;
                assert(b[i + 1] == x);
                assert(entry_less(b[0], b[i + 1]));
                lemma_entry_less_strict(x, x);
                assert(a.contains(x));
                let j = choose|j: int| 0 <= j < a.len() && a[j] == x;
                assert(j != 0);
                assert(a1[j - 1] == x);
            }
        }
        lemma_sorted_unique(a1, b1);
        assert forall|i: int| 0 <= i < a.len() implies a[i] == b[i] by {
            if i > 0 {
                assert(a[i] == a1[i - 1]);
                assert(b[i] == b1[i - 1]);
            }
        }
        assert(a =~= b);
    }
}

/// Sorting the dependency table a second time leaves it as the first sort left it.
pub proof fn lemma_sort_idempotent(once: Entries, twice: Entries, start: Entries)
    requires
        sorted_from(start, once),
        sorted_from(once, twice),
    ensures
        twice == once,
{
    lemma_sorted_unique(once, twice);
}

/// Whether the entry `a` comes before `b` in the order of the dependency table.
fn entry_before(a: &(String, toml::Value), b: &(String, toml::Value)) -> (r: bool)
    ensures
        r == entry_less((a.0@, a.1), (b.0@, b.1)),
{
    let wa: u8 = if value_is_table(&a.1) { 1 } else { 0 };
    let wb: u8 = if value_is_table(&b.1) { 1 } else { 0 };
    if wa != wb {
        wa < wb
    } else {
        less_than(a.0.as_str(), b.0.as_str())
    }
}

/// The number of leading entries of `out` that come before `x`.
fn entry_slot(out: &Vec<(String, toml::Value)>, x: &(String, toml::Value)) -> (p: usize)
    ensures
        p <= out@.len(),
        forall|q: int| 0 <= q < p ==> entry_less(#[trigger] entry_views(out@)[q], (x.0@, x.1)),
        p < out@.len() ==> !entry_less(entry_views(out@)[p as int], (x.0@, x.1)),
{
    let mut p: usize = 0;
    while p < out.len() && entry_before(&out[p], x)
        invariant
            p <= out@.len(),
            forall|q: int|
                0 <= q < p ==> entry_less(#[trigger] entry_views(out@)[q], (x.0@, x.1)),
        decreases out@.len() - p,
    {
        assert(entry_views(out@)[p as int] == (out@[p as int].0@, out@[p as int].1));
        p = p + 1;
    }
    proof {
        if p < out@.len() {
            assert(entry_views(out@)[p as int] == (out@[p as int].0@, out@[p as int].1));
        }
    }
    p
}

proof fn lemma_insert_entry(s: Entries, ns: Entries, p: int, x: (Seq<char>, toml::Value))
    requires
        0 <= p <= s.len(),
        ns.len() == s.len() + 1,
        forall|i: int| 0 <= i < p ==> #[trigger] ns[i] == s[i],
        forall|i: int| p <= i < s.len() ==> ns[i + 1] == #[trigger] s[i],
        ns[p] == x,
        sorted_entries(s),
        forall|q: int| 0 <= q < s.len() ==> (#[trigger] s[q]).0 != x.0,
        forall|q: int| 0 <= q < p ==> entry_less(#[trigger] s[q], x),
        p < s.len() ==> !entry_less(s[p], x),
    ensures
        sorted_entries(ns),
        forall|y: (Seq<char>, toml::Value)| ns.contains(y) <==> (s.contains(y) || y == x),
{
    if p < s.len() {
        lemma_entry_less_strict(s[p], x);
        assert forall|q: int| p < q < s.len() implies entry_less(x, #[trigger] s[q]) by {
            lemma_entry_less_transitive(x, s[p], s[q]);
        }
    }
    assert forall|a: int, b: int| 0 <= a < b < ns.len() implies entry_less(ns[a], ns[b]) by {
        if b < p {
            assert(ns[a] == s[a]);
            assert(ns[b] == s[b]);
        } else if b == p {
            assert(ns[a] == s[a]);
        } else if a < p {
            assert(ns[a] == s[a]);
            assert(ns[b] == s[b - 1]);
            lemma_entry_less_transitive(ns[a], x, s[b - 1]);
        } else if a == p {
            assert(ns[b] == s[b - 1]);
        } else {
            assert(ns[a] == s[a - 1]);
            assert(ns[b] == s[b - 1]);
        }
    }
    assert forall|y: (Seq<char>, toml::Value)| ns.contains(y) <==> (s.contains(y) || y == x) by {
        if ns.contains(y) {
            let k = choose|k: int| 0 <= k < ns.len() && ns[k] == y;
            if k < p {
                assert(s[k] == y);
            } else if k > p {
                assert(s[k - 1] == y);
            }
        }
        if s.contains(y) {
            let q = choose|q: int| 0 <= q < s.len() && s[q] == y;
            if q < p {
                assert(ns[q] == y);
            } else {
                assert(ns[q + 1] == y);
            }
        }
        if y == x {
            assert(ns[p] == y);
        }
    }
}

/// Sorts entries whose keys are unique into the order of the dependency table.
fn sort_entries(list: Vec<(String, toml::Value)>) -> (r: Vec<(String, toml::Value)>)
    requires
        unique_keys(entry_views(list@)),
    ensures
        sorted_from(entry_views(list@), entry_views(r@)),
        unique_keys(entry_views(r@)),
{
    let ghost e = entry_views(list@);
    let mut out: Vec<(String, toml::Value)> = Vec::new();
    let mut i: usize = 0;
    while i < list.len()
        invariant
            e == entry_views(list@),
            unique_keys(e),
            i <= list@.len(),
            out@.len() == i,
            sorted_entries(entry_views(out@)),
            forall|y: (Seq<char>, toml::Value)|
                entry_views(out@).contains(y) <==> e.subrange(0, i as int).contains(y),
        decreases list@.len() - i,
    {
        let ghost s = entry_views(out@);
        let ghost x = e[i as int];
        assert(x == (list@[i as int].0@, list@[i as int].1));
        let item = (list[i].0.clone(), list[i].1.clone());
        let p = entry_slot(&out, &item);
        proof {
            assert forall|q: int| 0 <= q < s.len() implies (#[trigger] s[q]).0 != x.0 by {
                assert(s.contains(s[q]));
                assert(e.subrange(0, i as int).contains(s[q]));
                let j = choose|j: int| 0 <= j < i && e.subrange(0, i as int)[j] == s[q];
                assert(e[j] == s[q]);
            }
        }
        out.insert(p, item);
        proof {
            let ns = entry_views(out@);
            assert forall|k: int| 0 <= k < p implies #[trigger] ns[k] == s[k] by {}
            assert forall|k: int| p <= k < s.len() implies ns[k + 1] == #[trigger] s[k] by {}
            lemma_insert_entry(s, ns, p as int, x);
            assert forall|y: (Seq<char>, toml::Value)|
                ns.contains(y) <==> e.subrange(0, i + 1).contains(y) by {
                let pre = e.subrange(0, i as int);
                let pre1 = e.subrange(0, i + 1);
                if pre.contains(y) {
                    let j = choose|j: int| 0 <= j < pre.len() && pre[j] == y;
                    assert(pre1[j] == y);
                }
                if y == x {
                    assert(pre1[i as int] == y);
                }
                if pre1.contains(y) {
                    let j = choose|j: int| 0 <= j < pre1.len() && pre1[j] == y;
                    if j < i {
                        assert(pre[j] == y);
                    }
                }
            }
        }
        i = i + 1;
    }
    proof {
        let r = entry_views(out@);
        assert(e.subrange(0, list@.len() as int) =~= e);
        assert forall|a: int, b: int| 0 <= a < b < r.len() implies r[a].0 != r[b].0 by {
            assert(r.contains(r[a]) && r.contains(r[b]));
            let ja = choose|j: int| 0 <= j < e.len() && e[j] == r[a];
            let jb = choose|j: int| 0 <= j < e.len() && e[j] == r[b];
            if r[a].0 == r[b].0 {
                assert(ja == jb);
                lemma_entry_less_strict(r[a], r[b]);
            }
        }
    }
    out
}

impl Config {
    /// Puts the dependency table in order: plain versions before tables, each
    /// part by name.
    pub fn sort_dependencies(&mut self)
        requires
            old(self).wf(),
        ensures
            final(self).wf(),
            final(self).package == old(self).package,
            final(self).other == old(self).other,
            sorted_from(index_entries(old(self).dependencies), index_entries(final(self).dependencies)),
    {
        let list = index_list(&self.dependencies);
        let sorted = sort_entries(list);
        self.dependencies = copy_into_map(sorted);
    }
}

/// The dependency table `e` once `d` is added with the version text `version`;
/// an entry of the same name is replaced in its place.
pub open spec fn with_dependency(e: Entries, d: Dependency, version: Seq<char>) -> Entries {
    match dependency_value(d, version) {
        Some(v) => put(e, d.name@, v),
        None => e,
    }
}

/// Every dependency of `ds` that asks for the newest version has been resolved.
pub open spec fn group_resolved(ds: Seq<Dependency>, c: Seq<(Seq<char>, Option<Seq<char>>)>) -> bool {
    forall|k: int|
        0 <= k < ds.len() && (#[trigger] ds[k]).version is Latest ==> cached(c, ds[k].name@) is Some
}

/// The dependency table `e` once the records `ds` are added, in order.
pub open spec fn with_records(
    e: Entries,
    ds: Seq<Dependency>,
    c: Seq<(Seq<char>, Option<Seq<char>>)>,
    use_tilde: bool,
) -> Entries
    decreases ds.len(),
{
    if ds.len() == 0 {
        e
    } else {
        let d = ds.last();
        with_dependency(
            with_records(e, ds.drop_last(), c, use_tilde),
            d,
            resolved_text(d.version.spec_of(), cached(c, d.name@), use_tilde),
        )
    }
}

/// Every group named in `names` is in `g`.
pub open spec fn all_found(g: Seq<(String, Vec<Dependency>)>, names: Seq<String>) -> bool {
    forall|i: int| 0 <= i < names.len() ==> group_of(g, (#[trigger] names[i])@) is Some
}

/// Every dependency of the groups named in `names` that asks for the newest
/// version has been resolved.
pub open spec fn names_resolved(
    g: Seq<(String, Vec<Dependency>)>,
    names: Seq<String>,
    c: Seq<(Seq<char>, Option<Seq<char>>)>,
) -> bool {
    forall|i: int|
        0 <= i < names.len() && group_of(g, (#[trigger] names[i])@) is Some ==> group_resolved(
            group_of(g, names[i]@)->0,
            c,
        )
}

/// The dependency table `e` once the groups named in `names` are added, in order.
pub open spec fn with_groups(
    e: Entries,
    g: Seq<(String, Vec<Dependency>)>,
    names: Seq<String>,
    c: Seq<(Seq<char>, Option<Seq<char>>)>,
    use_tilde: bool,
) -> Entries
    decreases names.len(),
{
    if names.len() == 0 {
        e
    } else {
        let prev = with_groups(e, g, names.drop_last(), c, use_tilde);
        match group_of(g, names.last()@) {
            Some(ds) => with_records(prev, ds, c, use_tilde),
            None => prev,
        }
    }
}

impl Config {
    /// Adds `dependency` to the dependency table, with its version resolved.
    pub fn add_dependency(
        &mut self,
        dependency: &Dependency,
        version_getter: &VersionGetter,
        use_tilde_version: bool,
    )
        requires
            old(self).wf(),
            dependency.version is Latest ==> cached(version_getter@, dependency.name@) is Some,
        ensures
            final(self).wf(),
            final(self).package == old(self).package,
            final(self).other == old(self).other,
            index_entries(final(self).dependencies) == with_dependency(
                index_entries(old(self).dependencies),
                *dependency,
                resolved_text(
                    dependency.version.spec_of(),
                    cached(version_getter@, dependency.name@),
                    use_tilde_version,
                ),
            ),
    {
        let name = dependency.name.clone();
        let version = dependency.get_version_as_string(version_getter, use_tilde_version);
        let ghost e = index_entries(self.dependencies);
        match dependency.written_value(version) {
            Some(value) => {
                proof {
                    lemma_put_unique(e, name@, value);
                }
                index_insert(&mut self.dependencies, name, value);
            },
            None => {},
        }
    }
}

/// Adds the records `ds` to the dependency table of `config`, in order.
fn add_records(
    config: &mut Config,
    ds: &Vec<Dependency>,
    version_getter: &VersionGetter,
    use_tilde_version: bool,
)
    requires
        old(config).wf(),
        group_resolved(ds@, version_getter@),
    ensures
        final(config).wf(),
        final(config).package == old(config).package,
        final(config).other == old(config).other,
        index_entries(final(config).dependencies) == with_records(
            index_entries(old(config).dependencies),
            ds@,
            version_getter@,
            use_tilde_version,
        ),
{
    let ghost e0 = index_entries(config.dependencies);
    let mut i: usize = 0;
    assert(ds@.subrange(0, 0) =~= Seq::<Dependency>::empty());
    while i < ds.len()
        invariant
            i <= ds@.len(),
            config.wf(),
            config.package == old(config).package,
            config.other == old(config).other,
            e0 == index_entries(old(config).dependencies),
            group_resolved(ds@, version_getter@),
            index_entries(config.dependencies) == with_records(
                e0,
                ds@.subrange(0, i as int),
                version_getter@,
                use_tilde_version,
            ),
        decreases ds@.len() - i,
    {
        assert(ds@.subrange(0, i + 1).drop_last() =~= ds@.subrange(0, i as int));
        assert(ds@.subrange(0, i + 1).last() == ds@[i as int]);
        let ghost d = ds@[i as int];
        assert(d.version is Latest ==> cached(version_getter@, d.name@) is Some);
        config.add_dependency(&ds[i], version_getter, use_tilde_version);
        i = i + 1;
    }
    assert(ds@.subrange(0, ds@.len() as int) =~= ds@);
}

/// Adds every dependency of the groups named in `group_names` to the dependency
/// table, in order. Fails on the first name that is no group.
pub fn add_groups(
    config: &mut Config,
    groups: &DependencyGroups,
    group_names: &Vec<String>,
    version_getter: &VersionGetter,
    use_tilde_version: bool,
) -> (r: Result<(), ScaffoldError>)
    requires
        old(config).wf(),
        names_resolved(groups.groups@, group_names@, version_getter@),
    ensures
        final(config).wf(),
        final(config).package == old(config).package,
        final(config).other == old(config).other,
        all_found(groups.groups@, group_names@) ==> r is Ok && index_entries(
            final(config).dependencies,
        ) == with_groups(
            index_entries(old(config).dependencies),
            groups.groups@,
            group_names@,
            version_getter@,
            use_tilde_version,
        ),
        !all_found(groups.groups@, group_names@) ==> (r matches Err(
            ScaffoldError::GroupNotFound(n),
        ) && exists|i: int|
            0 <= i < group_names@.len() && group_names@[i] == n && group_of(groups.groups@, n@)
                is None && all_found(groups.groups@, group_names@.subrange(0, i))),
{
    let ghost e0 = index_entries(config.dependencies);
    let ghost g = groups.groups@;
    let mut i: usize = 0;
    assert(group_names@.subrange(0, 0) =~= Seq::<String>::empty());
    while i < group_names.len()
        invariant
            i <= group_names@.len(),
            g == groups.groups@,
            config.wf(),
            config.package == old(config).package,
            config.other == old(config).other,
            e0 == index_entries(old(config).dependencies),
            names_resolved(g, group_names@, version_getter@),
            all_found(g, group_names@.subrange(0, i as int)),
            index_entries(config.dependencies) == with_groups(
                e0,
                g,
                group_names@.subrange(0, i as int),
                version_getter@,
                use_tilde_version,
            ),
        decreases group_names@.len() - i,
    {
        let ghost names = group_names@.subrange(0, i + 1);
        assert(names.drop_last() =~= group_names@.subrange(0, i as int));
        assert(names.last() == group_names@[i as int]);
        match groups.get(group_names[i].as_str()) {
            Some(ds) => {
                assert(group_resolved(ds@, version_getter@));
                add_records(config, ds, version_getter, use_tilde_version);
                assert forall|k: int| 0 <= k < names.len() implies group_of(
                    g,
                    (#[trigger] names[k])@,
                ) is Some by {
                    if k < i {
                        assert(names[k] == group_names@.subrange(0, i as int)[k]);
                    }
                }
            },
            None => {
                let name = group_names[i].clone();
                assert(!all_found(g, group_names@));
                return Err(ScaffoldError::GroupNotFound(name));
            },
        }
        i = i + 1;
    }
    assert(group_names@.subrange(0, group_names@.len() as int) =~= group_names@);
    Ok(())
}

} // verus!
