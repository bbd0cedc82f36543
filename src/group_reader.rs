//! Reading the groups file: named bundles of dependencies.
use crate::error::{ParseFault, ScaffoldError};
use crate::order::{less_than, lemma_less_total, lemma_less_transitive, name_less};
use crate::toml_value::{
    document_of, entries_of, entry_views, has_key, lemma_without_key_keys, parse_document,
    string_of, string_value, table_entries, table_of, table_value, take_key, text_of,
    text_of_document, unique_keys, value_at, value_text, without_key, write_document, Entries,
};
use crate::version_getter::{cached, shown_version, VersionGetter};
use vstd::prelude::*;

verus! {

/// The version that a dependency asks for.
pub enum Version {
    /// The newest one, to be looked up: written as `""` or `"*"`.
    Latest,
    /// This requirement, as written.
    Specific(String),
}

/// `None` stands for the newest version, `Some(s)` for the requirement `s`.
pub open spec fn version_spec(s: Seq<char>) -> Option<Seq<char>> {
    if s.len() == 0 || s == seq!['*'] {
        None
    } else {
        Some(s)
    }
}

impl Version {
    pub open spec fn spec_of(self) -> Option<Seq<char>> {
        match self {
            Version::Latest => None,
            Version::Specific(s) => Some(s@),
        }
    }

    /// Reads a version as the groups file writes it.
    pub fn from_str(version: &str) -> (r: Version)
        ensures
            r.spec_of() == version_spec(version@),
    {
        let n = version.unicode_len();
        if n == 0 {
            Version::Latest
        } else if n == 1 && version.get_char(0) == '*' {
            assert(version@ =~= seq!['*']);
            Version::Latest
        } else {
            proof {
                if version@ == seq!['*'] {
                    assert(version@[0] == '*');
                }
            }
            Version::Specific(version.to_owned())
        }
    }
}

/// One dependency of a group.
pub struct Dependency {
    pub name: String,
    pub version: Version,
    /// The other fields of a dependency written as a table (features, a path, ...),
    /// as a table without its `version` field.
    pub other: Option<toml::Value>,
}

pub open spec fn version_key() -> Seq<char> {
    seq!['v', 'e', 'r', 's', 'i', 'o', 'n']
}

/// The version that a dependency written as the table `e` asks for: its `version`
/// field where that is a string, else the newest.
pub open spec fn requested_version(e: Entries) -> Option<Seq<char>> {
    match value_at(e, version_key()) {
        Some(v) => match text_of(v) {
            Some(t) => version_spec(t),
            None => None,
        },
        None => None,
    }
}

/// The groups file writes a dependency as a string or as a table.
pub open spec fn is_dependency_value(v: toml::Value) -> bool {
    text_of(v) is Some || entries_of(v) is Some
}

/// `d` is what the groups-file entry `name = v` stands for.
#[verifier::opaque]
pub open spec fn record_of(d: Dependency, name: Seq<char>, v: toml::Value) -> bool {
    &&& d.name@ == name
    &&& match text_of(v) {
        Some(t) => d.version.spec_of() == version_spec(t) && d.other is None,
        None => match entries_of(v) {
            Some(e) => {
                &&& d.version.spec_of() == requested_version(e)
                &&& if without_key(e, version_key()).len() == 0 {
                    d.other is None
                } else {
                    d.other is Some && entries_of(d.other->0) == Some(without_key(e, version_key()))
                }
            },
            None => false,
        },
    }
}

pub proof fn lemma_record_name(d: Dependency, name: Seq<char>, v: toml::Value)
    requires
        record_of(d, name, v),
    ensures
        d.name@ == name,
{
    reveal(record_of);
}

/// Reading a dependency written as a table moves its `version` field out of the
/// other fields and into the version asked for; every other field stays, and a
/// table that held nothing else leaves no other fields at all.
pub proof fn lemma_version_moved(d: Dependency, name: Seq<char>, v: toml::Value)
    requires
        record_of(d, name, v),
        text_of(v) is None,
        entries_of(v) is Some,
    ensures
        d.version.spec_of() == requested_version(entries_of(v)->0),
        d.other is None <==> forall|q: Seq<char>|
            has_key(entries_of(v)->0, q) ==> q == version_key(),
        d.other is Some ==> {
            &&& entries_of(d.other->0) is Some
            &&& !has_key(entries_of(d.other->0)->0, version_key())
            &&& forall|q: Seq<char>|
                q != version_key() ==> (has_key(entries_of(d.other->0)->0, q) <==> has_key(
                    entries_of(v)->0,
                    q,
                ))
        },
{
    reveal(record_of);
    let e = entries_of(v)->0;
    let rest = without_key(e, version_key());
    lemma_without_key_keys(e, version_key(), version_key());
    assert forall|q: Seq<char>| q != version_key() implies (has_key(rest, q) <==> has_key(e, q)) by {
        lemma_without_key_keys(e, version_key(), q);
    }
    if rest.len() > 0 {
        assert(has_key(rest, rest[0].0));
        assert(has_key(e, rest[0].0) && rest[0].0 != version_key());
    } else {
        assert forall|q: Seq<char>| has_key(e, q) implies q == version_key() by {
            if q != version_key() {
                assert(has_key(rest, q));
            }
        }
    }
}

impl Dependency {
    /// Reads the groups-file entry `name = value`: a string is the version; a
    /// table gives the version from its `version` field and keeps its other fields.
    /// Any other value is no dependency.
    pub fn from_value(name: &str, value: toml::Value) -> (r: Option<Dependency>)
        ensures
            match r {
                Some(d) => record_of(d, name@, value),
                None => !is_dependency_value(value),
            },
    {
        reveal(record_of);
        match value_text(&value) {
            Some(text) => Some(
                Dependency { name: name.to_owned(), version: Version::from_str(text.as_str()), other: None },
            ),
            None => match table_entries(value) {
                Ok(entries) => {
                    let key = "version".to_owned();
                    proof {
                        reveal_strlit("version");
                        assert(key@ =~= version_key());
                    }
                    let (found, rest) = take_key(entries, &key);
                    let version = match found {
                        Some(v) => match value_text(&v) {
                            Some(text) => Version::from_str(text.as_str()),
                            None => Version::Latest,
                        },
                        None => Version::Latest,
                    };
                    let other = if rest.len() == 0 {
                        None
                    } else {
                        Some(table_value(rest))
                    };
                    Some(Dependency { name: name.to_owned(), version, other })
                },
                Err(_) => None,
            },
        }
    }
}

/// The names stand in strictly increasing order.
pub open spec fn sorted_by_name(d: Seq<Dependency>) -> bool {
    forall|i: int, j: int| 0 <= i < j < d.len() ==> name_less(d[i].name@, d[j].name@)
}

/// `d` holds the records of the group written as the table `e`: one for each entry
/// that is a dependency, in the order of their names.
pub open spec fn records_of_group(e: Entries, d: Seq<Dependency>) -> bool {
    &&& sorted_by_name(d)
    &&& forall|k: int| 0 <= k < d.len() ==> comes_from(e, e.len() as int, #[trigger] d[k])
    &&& forall|j: int|
        0 <= j < e.len() && is_dependency_value(e[j].1) ==> recorded(d, #[trigger] e[j])
}

/// `d` is the record of one of the first `n` entries of `e`.
pub open spec fn comes_from(e: Entries, n: int, d: Dependency) -> bool {
    exists|j: int| 0 <= j < n && record_of(d, e[j].0, e[j].1)
}

/// One of `d` is the record of the entry `x`.
pub open spec fn recorded(d: Seq<Dependency>, x: (Seq<char>, toml::Value)) -> bool {
    exists|k: int| 0 <= k < d.len() && record_of(d[k], x.0, x.1)
}

/// The number of leading records in `out` whose names come before `name`.
fn find_slot(out: &Vec<Dependency>, name: &str) -> (p: usize)
    ensures
        p <= out@.len(),
        forall|q: int| 0 <= q < p ==> name_less(#[trigger] out@[q].name@, name@),
        p < out@.len() ==> !name_less(out@[p as int].name@, name@),
{
    let mut p: usize = 0;
    while p < out.len() && less_than(out[p].name.as_str(), name)
        invariant
            p <= out@.len(),
            forall|q: int| 0 <= q < p ==> name_less(#[trigger] out@[q].name@, name@),
        decreases out@.len() - p,
    {
        p = p + 1;
    }
    p
}

/// Puts `d` into the sorted `out` in its place by name.
fn insert_by_name(out: &mut Vec<Dependency>, d: Dependency)
    requires
        sorted_by_name(old(out)@),
        forall|q: int| 0 <= q < old(out)@.len() ==> #[trigger] old(out)@[q].name@ != d.name@,
    ensures
        sorted_by_name(final(out)@),
        final(out)@.len() == old(out)@.len() + 1,
        exists|k: int| 0 <= k < final(out)@.len() && final(out)@[k] == d,
        forall|k: int|
            0 <= k < final(out)@.len() ==> #[trigger] final(out)@[k] == d || exists|q: int|
                0 <= q < old(out)@.len() && final(out)@[k] == old(out)@[q],
        forall|q: int|
            0 <= q < old(out)@.len() ==> exists|k: int|
                0 <= k < final(out)@.len() && final(out)@[k] == #[trigger] old(out)@[q],
{
    let p = find_slot(out, d.name.as_str());
    let ghost before = out@;
    out.insert(p, d);
    proof {
        before.insert_ensures(p as int, d);
        lemma_insert_sorted(before, out@, p as int, d);
        lemma_insert_members(before, out@, p as int, d);
    }
}

proof fn lemma_insert_sorted(s: Seq<Dependency>, ns: Seq<Dependency>, p: int, d: Dependency)
    requires
        0 <= p <= s.len(),
        ns.len() == s.len() + 1,
        forall|i: int| 0 <= i < p ==> #[trigger] ns[i] == s[i],
        forall|i: int| p <= i < s.len() ==> ns[i + 1] == #[trigger] s[i],
        ns[p] == d,
        sorted_by_name(s),
        forall|q: int| 0 <= q < s.len() ==> #[trigger] s[q].name@ != d.name@,
        forall|q: int| 0 <= q < p ==> name_less(#[trigger] s[q].name@, d.name@),
        p < s.len() ==> !name_less(s[p].name@, d.name@),
    ensures
        sorted_by_name(ns),
{
    if p < s.len() {
        lemma_less_total(s[p].name@, d.name@);
        assert forall|q: int| p < q < s.len() implies name_less(d.name@, #[trigger] s[q].name@) by {
            lemma_less_transitive(d.name@, s[p].name@, s[q].name@);
        }
    }
    assert forall|a: int, b: int| 0 <= a < b < ns.len() implies name_less(
        ns[a].name@,
        ns[b].name@,
    ) by {
        if b < p {
            assert(ns[a] == s[a]);
            assert(ns[b] == s[b]);
        } else if b == p {
            assert(ns[a] == s[a]);
        } else if a < p {
            assert(ns[a] == s[a]);
            assert(ns[b] == s[b - 1]);
            lemma_less_transitive(ns[a].name@, d.name@, s[b - 1].name@);
        } else if a == p {
            assert(ns[b] == s[b - 1]);
        } else {
            assert(ns[a] == s[a - 1]);
            assert(ns[b] == s[b - 1]);
        }
    }
}

proof fn lemma_insert_members(s: Seq<Dependency>, ns: Seq<Dependency>, p: int, d: Dependency)
    requires
        0 <= p <= s.len(),
        ns.len() == s.len() + 1,
        forall|i: int| 0 <= i < p ==> #[trigger] ns[i] == s[i],
        forall|i: int| p <= i < s.len() ==> ns[i + 1] == #[trigger] s[i],
        ns[p] == d,
    ensures
        exists|k: int| 0 <= k < ns.len() && ns[k] == d,
        forall|k: int|
            0 <= k < ns.len() ==> #[trigger] ns[k] == d || exists|q: int|
                0 <= q < s.len() && ns[k] == s[q],
        forall|q: int| 0 <= q < s.len() ==> exists|k: int| 0 <= k < ns.len() && ns[k] == #[trigger] s[q],
{
    assert forall|k: int| 0 <= k < ns.len() implies #[trigger] ns[k] == d || exists|q: int|
        0 <= q < s.len() && ns[k] == s[q] by {
        if k < p {
            assert(ns[k] == s[k]);
        } else if k > p {
            assert(ns[(k - 1) + 1] == s[k - 1]);
        }
    }
    assert forall|q: int| 0 <= q < s.len() implies exists|k: int|
        0 <= k < ns.len() && ns[k] == #[trigger] s[q] by {
        if q < p {
            assert(ns[q] == s[q]);
        } else {
            assert(ns[q + 1] == s[q]);
        }
    }
}

/// Reads the entries of one group into its records, sorted by name.
fn read_group(entries: Vec<(String, toml::Value)>) -> (r: Vec<Dependency>)
    requires
        unique_keys(entry_views(entries@)),
    ensures
        records_of_group(entry_views(entries@), r@),
{
    let ghost e = entry_views(entries@);
    let mut out: Vec<Dependency> = Vec::new();
    let mut i: usize = 0;
    while i < entries.len()
        invariant
            e == entry_views(entries@),
            unique_keys(e),
            i <= entries@.len(),
            sorted_by_name(out@),
            forall|k: int| 0 <= k < out@.len() ==> comes_from(e, i as int, #[trigger] out@[k]),
            forall|j: int|
                0 <= j < i && is_dependency_value(e[j].1) ==> recorded(out@, #[trigger] e[j]),
        decreases entries@.len() - i,
    {
        assert(e[i as int] == (entries@[i as int].0@, entries@[i as int].1));
        let name = entries[i].0.as_str();
        match Dependency::from_value(name, entries[i].1.clone()) {
            Some(d) => {
                let ghost old_out = out@;
                proof {
                    assert forall|q: int| 0 <= q < old_out.len() implies #[trigger] old_out[q].name@
                        != d.name@ by {
                        assert(comes_from(e, i as int, old_out[q]));
                        let j = choose|j: int| 0 <= j < i && record_of(old_out[q], e[j].0, e[j].1);
                        lemma_record_name(old_out[q], e[j].0, e[j].1);
                        lemma_record_name(d, e[i as int].0, e[i as int].1);
                        assert(e[j].0 != e[i as int].0);
                    }
                }
                insert_by_name(&mut out, d);
                proof {
                    let ns = out@;
                    assert forall|k: int| 0 <= k < ns.len() implies comes_from(
                        e,
                        i + 1,
                        #[trigger] ns[k],
                    ) by {
                        if ns[k] != d {
                            let q = choose|q: int| 0 <= q < old_out.len() && ns[k] == old_out[q];
                            assert(comes_from(e, i as int, old_out[q]));
                            let j = choose|j: int| 0 <= j < i && record_of(old_out[q], e[j].0, e[j].1);
                            assert(record_of(ns[k], e[j].0, e[j].1));
                        } else {
                            assert(record_of(ns[k], e[i as int].0, e[i as int].1));
                        }
                    }
                    assert forall|j: int|
                        0 <= j < i + 1 && is_dependency_value(e[j].1) implies recorded(ns, #[trigger] e[j]) by {
                        if j == i {
                            let k = choose|k: int| 0 <= k < ns.len() && ns[k] == d;
                            assert(record_of(ns[k], e[j].0, e[j].1));
                        } else {
                            assert(recorded(old_out, e[j]));
                            let q = choose|q: int| 0 <= q < old_out.len() && record_of(old_out[q], e[j].0, e[j].1);
                            let k = choose|k: int| 0 <= k < ns.len() && ns[k] == old_out[q];
                            assert(record_of(ns[k], e[j].0, e[j].1));
                        }
                    }
                }
            },
            None => {},
        }
        i = i + 1;
    }
    assert(e.len() == entries@.len());
    out
}

/// The version text written for a dependency that asks for `v`, where `known`
/// is what the resolver holds for its name: a version that was not found is
/// written `*`.
pub open spec fn resolved_text(
    v: Option<Seq<char>>,
    known: Option<Option<Seq<char>>>,
    use_tilde: bool,
) -> Seq<char> {
    match v {
        Some(s) => s,
        None => match shown_version(known->0, use_tilde) {
            Some(x) => x,
            None => seq!['*'],
        },
    }
}

impl Dependency {
    /// The version to write for this dependency. One that asks for the newest
    /// must have been resolved already.
    pub fn get_version_as_string(&self, version_getter: &VersionGetter, use_tilde_version: bool) -> (r: String)
        requires
            self.version is Latest ==> cached(version_getter@, self.name@) is Some,
        ensures
            r@ == resolved_text(
                self.version.spec_of(),
                cached(version_getter@, self.name@),
                use_tilde_version,
            ),
    {
        match &self.version {
            Version::Specific(s) => s.clone(),
            Version::Latest => match version_getter.lookup(self.name.as_str(), use_tilde_version) {
                Some(Some(v)) => v,
                _ => {
                    let r = "*".to_owned();
                    proof {
                        reveal_strlit("*");
                        assert(r@ =~= seq!['*']);
                    }
                    r
                },
            },
        }
    }
}

/// The records of the first group called `name`.
pub open spec fn group_of(g: Seq<(String, Vec<Dependency>)>, name: Seq<char>) -> Option<
    Seq<Dependency>,
>
    decreases g.len(),
{
    if g.len() == 0 {
        None
    } else if g[0].0@ == name {
        Some(g[0].1@)
    } else {
        group_of(g.drop_first(), name)
    }
}

/// The groups of the groups file, each with its records sorted by name.
pub struct DependencyGroups {
    pub groups: Vec<(String, Vec<Dependency>)>,
}

/// Every group is written as a table.
pub open spec fn all_tables(e: Entries) -> bool {
    forall|i: int| 0 <= i < e.len() ==> (#[trigger] entries_of(e[i].1)) is Some
}

/// `g` holds one group for each entry of the document `e`, in order, with its
/// records.
pub open spec fn groups_of_document(e: Entries, g: Seq<(String, Vec<Dependency>)>) -> bool {
    &&& g.len() == e.len()
    &&& forall|i: int|
        0 <= i < e.len() ==> {
            &&& (#[trigger] g[i]).0@ == e[i].0
            &&& entries_of(e[i].1) is Some
            &&& records_of_group(entries_of(e[i].1)->0, g[i].1@)
        }
}

/// What reading the groups from the document `doc` gives: the groups, or the
/// name of a part that is no table.
pub open spec fn groups_read(doc: toml::Value, r: Result<DependencyGroups, ScaffoldError>) -> bool {
    match entries_of(doc) {
        None => r matches Err(ScaffoldError::TomlDe(ParseFault::NotATable(n))) && n@.len()
            == 0,
        Some(e) => if all_tables(e) {
            r is Ok && groups_of_document(e, r->Ok_0.groups@)
        } else {
            r matches Err(ScaffoldError::TomlDe(ParseFault::NotATable(n))) && exists|i: int|
                0 <= i < e.len() && e[i].0 == n@ && entries_of(e[i].1) is None
        },
    }
}

impl DependencyGroups {
    /// Reads the groups of a parsed groups file.
    pub fn from_document(doc: toml::Value) -> (r: Result<DependencyGroups, ScaffoldError>)
        ensures
            groups_read(doc, r),
    {
        let entries = match table_entries(doc) {
            Ok(e) => e,
            Err(_) => {
                return Err(ScaffoldError::TomlDe(ParseFault::NotATable(String::new())));
            },
        };
        let ghost e = entry_views(entries@);
        let mut groups: Vec<(String, Vec<Dependency>)> = Vec::new();
        let mut i: usize = 0;
        while i < entries.len()
            invariant
                e == entry_views(entries@),
                entries_of(doc) == Some(e),
                groups@.len() == i,
                i <= entries@.len(),
                forall|k: int|
                    0 <= k < i ==> {
                        &&& (#[trigger] groups@[k]).0@ == e[k].0
                        &&& entries_of(e[k].1) is Some
                        &&& records_of_group(entries_of(e[k].1)->0, groups@[k].1@)
                    },
            decreases entries@.len() - i,
        {
            assert(e[i as int] == (entries@[i as int].0@, entries@[i as int].1));
            let name = entries[i].0.clone();
            match table_entries(entries[i].1.clone()) {
                Ok(deps) => {
                    let records = read_group(deps);
                    groups.push((name, records));
                    assert(groups@[i as int].0@ == e[i as int].0);
                },
                Err(_) => {
                    assert(entries_of(e[i as int].1) is None);
                    assert(!all_tables(e));
                    return Err(ScaffoldError::TomlDe(ParseFault::NotATable(name)));
                },
            }
            i = i + 1;
        }
        assert(all_tables(e)) by {
            assert forall|k: int| 0 <= k < e.len() implies (#[trigger] entries_of(e[k].1)) is Some by {
                let g = groups@[k];
            }
        }
        assert(e.len() == entries@.len());
        assert(groups_of_document(e, groups@));
        Ok(DependencyGroups { groups })
    }

    /// The records of the group called `name`.
    pub fn get(&self, name: &str) -> (r: Option<&Vec<Dependency>>)
        ensures
            match group_of(self.groups@, name@) {
                Some(d) => r is Some && r->0@ == d,
                None => r is None,
            },
    {
        let wanted = name.to_owned();
        let mut i: usize = 0;
        assert(self.groups@.subrange(0, self.groups@.len() as int) =~= self.groups@);
        while i < self.groups.len()
            invariant
                wanted@ == name@,
                i <= self.groups@.len(),
                group_of(self.groups@, name@) == group_of(
                    self.groups@.subrange(i as int, self.groups@.len() as int),
                    name@,
                ),
            decreases self.groups@.len() - i,
        {
            let ghost rest = self.groups@.subrange(i as int, self.groups@.len() as int);
            assert(rest.drop_first() =~= self.groups@.subrange(i + 1, self.groups@.len() as int));
            assert(rest[0] == self.groups@[i as int]);
            if self.groups[i].0 == wanted {
                return Some(&self.groups[i].1);
            }
            i = i + 1;
        }
        None
    }
}

/// Reads the groups file from its text.
pub fn get_groups(text: &str) -> (r: Result<DependencyGroups, ScaffoldError>)
    ensures
        match document_of(text@) {
            Some(doc) => groups_read(doc, r),
            None => r matches Err(ScaffoldError::TomlDe(ParseFault::Syntax(_))),
        },
        r is Err ==> r matches Err(ScaffoldError::TomlDe(_)),
{
    match parse_document(text) {
        Ok(doc) => DependencyGroups::from_document(doc),
        Err(error) => Err(ScaffoldError::TomlDe(ParseFault::Syntax(error))),
    }
}

/// The value that the dependency table holds for `d` with the version text
/// `version`: the text alone, or the other fields of `d` with `version` last.
/// `None` where `d` holds other fields that are no table.
pub open spec fn dependency_value(d: Dependency, version: Seq<char>) -> Option<toml::Value> {
    match d.other {
        None => Some(string_of(version)),
        Some(o) => match entries_of(o) {
            Some(e) => Some(
                table_of(without_key(e, version_key()).push((version_key(), string_of(version)))),
            ),
            None => None,
        },
    }
}

impl Dependency {
    /// Whether a crate search must run before this dependency can be written: it
    /// asks for the newest version and its name is not resolved yet.
    pub fn needs_search(&self, version_getter: &VersionGetter) -> (r: bool)
        ensures
            r == (self.version is Latest && cached(version_getter@, self.name@) is None),
    {
        match &self.version {
            Version::Latest => version_getter.lookup(self.name.as_str(), false).is_none(),
            Version::Specific(_) => false,
        }
    }

    /// The value that the dependency table holds for this dependency with the
    /// version text `version`.
    pub fn written_value(&self, version: String) -> (r: Option<toml::Value>)
        ensures
            r == dependency_value(*self, version@),
    {
        match &self.other {
            None => Some(string_value(version)),
            Some(other) => match table_entries(other.clone()) {
                Ok(fields) => {
                    let key = "version".to_owned();
                    proof {
                        reveal_strlit("version");
                        assert(key@ =~= version_key());
                    }
                    let (_, mut rest) = take_key(fields, &key);
                    let ghost kept = entry_views(rest@);
                    let version_value = string_value(version);
                    rest.push((key, version_value));
                    proof {
                        let all = entry_views(rest@);
                        assert(all =~= kept.push((version_key(), version_value)));
                        assert forall|a: int, b: int| 0 <= a < b < all.len() implies all[a].0
                            != all[b].0 by {
                            if b == kept.len() {
                                assert(all[a] == kept[a]);
                                if all[a].0 == version_key() {
                                    assert(has_key(kept, version_key()));
                                }
                            } else {
                                assert(all[a] == kept[a]);
                                assert(all[b] == kept[b]);
                            }
                        }
                    }
                    Some(table_value(rest))
                },
                Err(_) => None,
            },
        }
    }
}

/// The quoted, escaped form of a text that the `Debug` format of `str` writes.
pub uninterp spec fn debug_quoted(s: Seq<char>) -> Seq<char>;

/// Relies on the `Debug` format of str: the text in double quotes, escaped; it
/// depends on the text alone.
#[verifier::external_body]
fn quoted(s: &str) -> (r: String)
    ensures
        r@ == debug_quoted(s@),
{
    format!("{:?}", s)
}

/// A line without the carriage return that ended it.
pub open spec fn without_cr(l: Seq<char>) -> Seq<char> {
    if l.len() > 0 && l.last() == '\r' {
        l.drop_last()
    } else {
        l
    }
}

/// The lines of `s` as `str::lines` splits them, where `cur` is a line already
/// begun: a line ends at `\n` or `\r\n`, and the last one needs no ending.
pub open spec fn lines_from(s: Seq<char>, cur: Seq<char>) -> Seq<Seq<char>>
    decreases s.len(),
{
    if s.len() == 0 {
        if cur.len() == 0 {
            Seq::empty()
        } else {
            seq![cur]
        }
    } else if s[0] == '\n' {
        seq![without_cr(cur)] + lines_from(s.drop_first(), Seq::empty())
    } else {
        lines_from(s.drop_first(), cur.push(s[0]))
    }
}

/// The lines joined by `, `.
pub open spec fn join_comma(ls: Seq<Seq<char>>) -> Seq<char>
    decreases ls.len(),
{
    if ls.len() == 0 {
        Seq::empty()
    } else if ls.len() == 1 {
        ls[0]
    } else {
        join_comma(ls.drop_last()) + seq![',', ' '] + ls.last()
    }
}

/// A table as one line: its lines joined by `, `.
pub open spec fn one_line(text: Seq<char>) -> Seq<char> {
    join_comma(lines_from(text, Seq::empty()))
}

/// Copies the lines of `text`.
fn split_lines(text: &str) -> (r: Vec<String>)
    ensures
        r@.map_values(|l: String| l@) == lines_from(text@, Seq::empty()),
{
    let n = text.unicode_len();
    let mut lines: Vec<String> = Vec::new();
    let mut start: usize = 0;
    let mut i: usize = 0;
    assert(text@.subrange(0, n as int) =~= text@);
    assert(lines@.map_values(|l: String| l@) =~= Seq::<Seq<char>>::empty());
    assert(text@.subrange(0, 0) =~= Seq::<char>::empty());
    while i < n
        invariant
            n == text@.len(),
            start <= i <= n,
            lines@.map_values(|l: String| l@) + lines_from(
                text@.subrange(i as int, n as int),
                text@.subrange(start as int, i as int),
            ) == lines_from(text@, Seq::empty()),
        decreases n - i,
    {
        let ghost s = text@.subrange(i as int, n as int);
        let ghost cur = text@.subrange(start as int, i as int);
        let ghost before = lines@.map_values(|l: String| l@);
        assert(s[0] == text@[i as int]);
        assert(s.drop_first() =~= text@.subrange(i + 1, n as int));
        let c = text.get_char(i);
        if c == '\n' {
            let end = if start < i && text.get_char(i - 1) == '\r' {
                assert(cur.last() == text@[i - 1]);
                assert(without_cr(cur) =~= text@.subrange(start as int, i - 1));
                i - 1
            } else {
                assert(without_cr(cur) == cur);
                i
            };
            let line = text.substring_char(start, end).to_owned();
            lines.push(line);
            assert(lines@.map_values(|l: String| l@) =~= before.push(without_cr(cur)));
            assert(before.push(without_cr(cur)) + lines_from(s.drop_first(), Seq::empty())
                =~= before + (seq![without_cr(cur)] + lines_from(s.drop_first(), Seq::empty())));
            i = i + 1;
            start = i;
            assert(text@.subrange(start as int, i as int) =~= Seq::<char>::empty());
        } else {
            assert(cur.push(c) =~= text@.subrange(start as int, i + 1));
            i = i + 1;
        }
    }
    let ghost before = lines@.map_values(|l: String| l@);
    let ghost cur = text@.subrange(start as int, i as int);
    if start < i {
        let line = text.substring_char(start, i).to_owned();
        lines.push(line);
        assert(lines@.map_values(|l: String| l@) =~= before + seq![cur]);
    } else {
        assert(before + Seq::<Seq<char>>::empty() =~= before);
    }
    lines
}

/// Joins lines by `, `.
fn join_lines(lines: &Vec<String>) -> (r: String)
    ensures
        r@ == join_comma(lines@.map_values(|l: String| l@)),
{
    let ghost ls = lines@.map_values(|l: String| l@);
    let mut r = String::new();
    let mut i: usize = 0;
    assert(ls.subrange(0, 0) =~= Seq::<Seq<char>>::empty());
    while i < lines.len()
        invariant
            ls == lines@.map_values(|l: String| l@),
            i <= lines@.len(),
            r@ == join_comma(ls.subrange(0, i as int)),
        decreases lines@.len() - i,
    {
        let ghost pre = ls.subrange(0, i + 1);
        assert(pre.drop_last() =~= ls.subrange(0, i as int));
        assert(pre.last() == lines@[i as int]@);
        if i > 0 {
            r.append(", ");
            proof {
                reveal_strlit(", ");
            }
        } else {
            assert(r@ =~= Seq::<char>::empty());
        }
        r.append(lines[i].as_str());
        assert(r@ =~= join_comma(pre));
        i = i + 1;
    }
    assert(ls.subrange(0, lines@.len() as int) =~= ls);
    r
}

/// How a dependency is shown: `name = "1.0"`, or `name = { ... }` with its
/// fields on one line; `None` where it cannot be written.
pub open spec fn pretty_text(d: Dependency, version: Seq<char>) -> Option<Seq<char>> {
    match d.other {
        None => Some(d.name@ + seq![' ', '=', ' '] + debug_quoted(version)),
        Some(_) => match dependency_value(d, version) {
            Some(v) => match text_of_document(v) {
                Some(t) => Some(
                    d.name@ + seq![' ', '=', ' ', '{', ' '] + one_line(t) + seq![' ', '}'],
                ),
                None => None,
            },
            None => None,
        },
    }
}

impl Dependency {
    /// Shows this dependency as a manifest line, with its version resolved.
    pub fn get_pretty_string(&self, version_getter: &VersionGetter, use_tilde_version: bool) -> (r:
        Result<String, ScaffoldError>)
        requires
            self.version is Latest ==> cached(version_getter@, self.name@) is Some,
        ensures
            match pretty_text(
                *self,
                resolved_text(
                    self.version.spec_of(),
                    cached(version_getter@, self.name@),
                    use_tilde_version,
                ),
            ) {
                Some(t) => r matches Ok(s) && s@ == t,
                None => r is Err,
            },
    {
        let version = self.get_version_as_string(version_getter, use_tilde_version);
        let mut r = self.name.clone();
        match &self.other {
            None => {
                r.append(" = ");
                proof {
                    reveal_strlit(" = ");
                }
                let q = quoted(version.as_str());
                r.append(q.as_str());
                assert(r@ =~= self.name@ + seq![' ', '=', ' '] + debug_quoted(version@));
                Ok(r)
            },
            Some(_) => match self.written_value(version) {
                Some(value) => {
                    match write_document(&value) {
                        Ok(text) => {
                            let lines = split_lines(text.as_str());
                            let joined = join_lines(&lines);
                            r.append(" = { ");
                            proof {
                                reveal_strlit(" = { ");
                            }
                            r.append(joined.as_str());
                            r.append(" }");
                            proof {
                                reveal_strlit(" }");
                            }
                            assert(r@ =~= self.name@ + seq![' ', '=', ' ', '{', ' '] + one_line(text@)
                                + seq![' ', '}']);
                            Ok(r)
                        },
                        Err(error) => Err(ScaffoldError::TomlSer(error)),
                    }
                },
                None => Err(ScaffoldError::TomlDe(ParseFault::NotATable(r))),
            },
        }
    }
}

} // verus!
