use vstd::prelude::*;

verus! {

/// ASCII whitespace, the separators of a line of search output.
pub open spec fn is_blank(c: char) -> bool {
    c == ' ' || c == '\t' || c == '\n' || c == '\x0C' || c == '\r'
}

/// The words of the first line of `s`, where `cur` is a word already begun.
pub open spec fn line_words_from(s: Seq<char>, cur: Seq<char>) -> Seq<Seq<char>>
    decreases s.len(),
{
    if s.len() == 0 || s[0] == '\n' {
        if cur.len() == 0 {
            Seq::empty()
        } else {
            seq![cur]
        }
    } else if is_blank(s[0]) {
        let rest = line_words_from(s.drop_first(), Seq::empty());
        if cur.len() == 0 {
            rest
        } else {
            seq![cur] + rest
        }
    } else {
        line_words_from(s.drop_first(), cur.push(s[0]))
    }
}

/// The whitespace-separated words of the first line of `s`.
pub open spec fn first_line_words(s: Seq<char>) -> Seq<Seq<char>> {
    line_words_from(s, Seq::empty())
}

/// `s` with every double quote taken out.
pub open spec fn without_quotes(s: Seq<char>) -> Seq<char>
    decreases s.len(),
{
    if s.len() == 0 {
        s
    } else {
        let p = without_quotes(s.drop_last());
        if s.last() == '"' {
            p
        } else {
            p.push(s.last())
        }
    }
}

/// The version that one line of search output gives for `name`: the line reads
/// `name = "1.2.3"    # description`; a line for another crate, or one too short,
/// gives none.
pub open spec fn search_result(name: Seq<char>, output: Seq<char>) -> Option<Seq<char>> {
    let words = first_line_words(output);
    if words.len() >= 3 && words[0] == name {
        Some(without_quotes(words[2]))
    } else {
        None
    }
}

/// Index of the last `.` in `v`, or -1 when it has none.
pub open spec fn last_dot_index(v: Seq<char>) -> int
    decreases v.len(),
{
    if v.len() == 0 {
        -1
    } else if v.last() == '.' {
        v.len() - 1
    } else {
        last_dot_index(v.drop_last())
    }
}

/// What stands before the last `.` of `v`; all of `v` where it has no `.`.
pub open spec fn before_last_dot(v: Seq<char>) -> Seq<char> {
    let k = last_dot_index(v);
    if k < 0 {
        v
    } else {
        v.subrange(0, k)
    }
}

/// The tilde requirement of a version: `1.0.106` becomes `~1.0`.
pub open spec fn tilde_version(v: Seq<char>) -> Seq<char> {
    seq!['~'] + before_last_dot(v)
}

/// How a resolved version is handed out, in plain or in tilde form.
pub open spec fn shown_version(v: Option<Seq<char>>, use_tilde: bool) -> Option<Seq<char>> {
    match v {
        Some(x) => if use_tilde {
            Some(tilde_version(x))
        } else {
            Some(x)
        },
        None => None,
    }
}

/// What the cache `c` holds for `name`: `None` if it was never asked, `Some(None)`
/// if the search found nothing.
pub open spec fn cached(c: Seq<(Seq<char>, Option<Seq<char>>)>, name: Seq<char>) -> Option<
    Option<Seq<char>>,
>
    decreases c.len(),
{
    if c.len() == 0 {
        None
    } else if c[0].0 == name {
        Some(c[0].1)
    } else {
        cached(c.drop_first(), name)
    }
}

/// The cache once `name` has been resolved, with `output` the search output used
/// where the cache did not know it yet.
pub open spec fn after_search(
    c: Seq<(Seq<char>, Option<Seq<char>>)>,
    name: Seq<char>,
    output: Seq<char>,
) -> Seq<(Seq<char>, Option<Seq<char>>)> {
    if cached(c, name) is Some {
        c
    } else {
        c.push((name, search_result(name, output)))
    }
}

pub open spec fn opt_view(o: Option<String>) -> Option<Seq<char>> {
    match o {
        Some(s) => Some(s@),
        None => None,
    }
}

pub open spec fn string_views(v: Seq<String>) -> Seq<Seq<char>> {
    v.map_values(|w: String| w@)
}

/// Resolves crate names to their newest version, asking a search only once per
/// name in a run.
pub struct VersionGetter {
    stored_versions: Vec<(String, Option<String>)>,
}

impl View for VersionGetter {
    type V = Seq<(Seq<char>, Option<Seq<char>>)>;

    closed spec fn view(&self) -> Self::V {
        self.stored_versions@.map_values(|e: (String, Option<String>)| (e.0@, opt_view(e.1)))
    }
}

impl Default for VersionGetter {
    fn default() -> (r: Self)
        ensures
            r@ == Seq::<(Seq<char>, Option<Seq<char>>)>::empty(),
    {
        VersionGetter { stored_versions: Vec::new() }
    }
}

proof fn lemma_cached_push(
    c: Seq<(Seq<char>, Option<Seq<char>>)>,
    e: (Seq<char>, Option<Seq<char>>),
    name: Seq<char>,
)
    ensures
        cached(c.push(e), name) == if cached(c, name) is Some {
            cached(c, name)
        } else if e.0 == name {
            Some(e.1)
        } else {
            None
        },
    decreases c.len(),
{
    if c.len() > 0 {
        assert(c.push(e).drop_first() =~= c.drop_first().push(e));
        assert(c.push(e)[0] == c[0]);
        lemma_cached_push(c.drop_first(), e, name);
    } else {
        assert(c.push(e).drop_first() =~= c);
        assert(c.push(e)[0] == e);
    }
}

/// Copies the words of the first line of `text`.
fn split_first_line(text: &str) -> (r: Vec<String>)
    ensures
        string_views(r@) == first_line_words(text@),
{
    let n = text.unicode_len();
    let mut words: Vec<String> = Vec::new();
    let mut start: usize = 0;
    let mut i: usize = 0;
    let mut ended = false;
    assert(text@.subrange(0, n as int) =~= text@);
    assert(string_views(words@) =~= Seq::<Seq<char>>::empty());
    assert(text@.subrange(0, 0) =~= Seq::<char>::empty());
    while i < n && !ended
        invariant
            n == text@.len(),
            start <= i <= n,
            ended ==> string_views(words@) == first_line_words(text@),
            !ended ==> string_views(words@) + line_words_from(
                text@.subrange(i as int, n as int),
                text@.subrange(start as int, i as int),
            ) == first_line_words(text@),
        decreases n - i + if ended { 0int } else { 1int },
    {
        let ghost s = text@.subrange(i as int, n as int);
        let ghost cur = text@.subrange(start as int, i as int);
        let ghost before = string_views(words@);
        assert(s[0] == text@[i as int]);
        assert(s.drop_first() =~= text@.subrange(i + 1, n as int));
        let c = text.get_char(i);
        if c == '\n' || is_blank_char(c) {
            if start < i {
                let w = text.substring_char(start, i).to_owned();
                words.push(w);
                assert(string_views(words@) =~= before.push(cur));
                assert(seq![cur] + line_words_from(s.drop_first(), Seq::empty()) =~= seq![
                    cur,
                ].add(line_words_from(s.drop_first(), Seq::empty())));
                assert(before.push(cur) + line_words_from(s.drop_first(), Seq::empty())
                    =~= before + (seq![cur] + line_words_from(s.drop_first(), Seq::empty())));
            } else {
                assert(cur =~= Seq::<char>::empty());
            }
            if c == '\n' {
                ended = true;
                assert(string_views(words@) =~= first_line_words(text@));
            } else {
                i = i + 1;
                start = i;
                assert(text@.subrange(start as int, i as int) =~= Seq::<char>::empty());
            }
        } else {
            assert(cur.push(c) =~= text@.subrange(start as int, i + 1));
            i = i + 1;
        }
    }
    if !ended {
        let ghost before = string_views(words@);
        let ghost cur = text@.subrange(start as int, i as int);
        if start < i {
            let w = text.substring_char(start, i).to_owned();
            words.push(w);
            assert(string_views(words@) =~= before + seq![cur]);
        } else {
            assert(before + Seq::<Seq<char>>::empty() =~= before);
        }
    }
    words
}

fn is_blank_char(c: char) -> (r: bool)
    ensures
        r == is_blank(c),
{
    c == ' ' || c == '\t' || c == '\n' || c == '\x0C' || c == '\r'
}

/// Copies `s` without its double quotes.
fn strip_quotes(s: &str) -> (r: String)
    ensures
        r@ == without_quotes(s@),
{
    let n = s.unicode_len();
    let mut r = String::new();
    let mut i: usize = 0;
    while i < n
        invariant
            n == s@.len(),
            i <= n,
            r@ == without_quotes(s@.subrange(0, i as int)),
        decreases n - i,
    {
        assert(s@.subrange(0, i + 1).drop_last() =~= s@.subrange(0, i as int));
        let c = s.get_char(i);
        if c != '"' {
            let piece = s.substring_char(i, i + 1);
            r.append(piece);
            assert(r@ =~= without_quotes(s@.subrange(0, i + 1)));
        }
        i = i + 1;
    }
    assert(s@.subrange(0, n as int) =~= s@);
    r
}

/// Reads the version of `name` from the output of a crate search limited to one
/// result.
pub fn parse_search_output(name: &str, output: &str) -> (r: Option<String>)
    ensures
        opt_view(r) == search_result(name@, output@),
{
    let words = split_first_line(output);
    assert(string_views(words@).len() == words@.len());
    if words.len() >= 3 {
        let wanted = name.to_owned();
        assert(string_views(words@)[0] == words@[0]@);
        assert(string_views(words@)[2] == words@[2]@);
        if words[0] == wanted {
            Some(strip_quotes(words[2].as_str()))
        } else {
            None
        }
    } else {
        None
    }
}

impl VersionGetter {
    /// What the cache holds for `name`, without asking anything: `None` when a
    /// search is needed, else the version to use (`Some(None)`: none was found).
    pub fn lookup(&self, name: &str, use_tilde_version: bool) -> (r: Option<Option<String>>)
        ensures
            match cached(self@, name@) {
                None => r is None,
                Some(v) => r is Some && opt_view(r->0) == shown_version(v, use_tilde_version),
            },
    {
        let wanted = name.to_owned();
        let mut i: usize = 0;
        assert(self@.subrange(0, self@.len() as int) =~= self@);
        while i < self.stored_versions.len()
            invariant
                i <= self.stored_versions@.len(),
                wanted@ == name@,
                cached(self@, name@) == cached(self@.subrange(i as int, self@.len() as int), name@),
            decreases self.stored_versions@.len() - i,
        {
            let ghost rest = self@.subrange(i as int, self@.len() as int);
            assert(rest.drop_first() =~= self@.subrange(i + 1, self@.len() as int));
            assert(rest[0] == self@[i as int]);
            if self.stored_versions[i].0 == wanted {
                return Some(Self::show(&self.stored_versions[i].1, use_tilde_version));
            }
            i = i + 1;
        }
        None
    }

    fn show(v: &Option<String>, use_tilde_version: bool) -> (r: Option<String>)
        ensures
            opt_view(r) == shown_version(opt_view(*v), use_tilde_version),
    {
        match v {
            Some(x) => if use_tilde_version {
                Self::make_tilde_version(x.as_str())
            } else {
                Some(x.clone())
            },
            None => None,
        }
    }

    /// Resolves `name`, where `output` is what a crate search for it printed. The
    /// output is read only if the cache does not know `name` yet; either way the
    /// cache knows it afterwards.
    pub fn get_crate_version(&mut self, name: &str, use_tilde_version: bool, output: &str) -> (r:
        Option<String>)
        ensures
            final(self)@ == after_search(old(self)@, name@, output@),
            cached(final(self)@, name@) is Some,
            opt_view(r) == shown_version(cached(final(self)@, name@)->0, use_tilde_version),
    {
        match self.lookup(name, use_tilde_version) {
            Some(known) => known,
            None => {
                let found = parse_search_output(name, output);
                let ghost before = self@;
                let entry = (name.to_owned(), found.clone());
                self.stored_versions.push(entry);
                proof {
                    lemma_cached_push(before, (name@, search_result(name@, output@)), name@);
                    assert(self@ =~= before.push((name@, search_result(name@, output@))));
                }
                Self::show(&found, use_tilde_version)
            },
        }
    }

    /// The tilde requirement of `version`: `1.0.106` gives `~1.0`.
    pub fn make_tilde_version(version: &str) -> (r: Option<String>)
        ensures
            r is Some,
            r->0@ == tilde_version(version@),
    {
        let n = version.unicode_len();
        let mut i: usize = n;
        let mut found = false;
        assert(version@.subrange(0, n as int) =~= version@);
        while i > 0 && !found
            invariant
                n == version@.len(),
                i <= n,
                found ==> i < n && last_dot_index(version@) == i,
                !found ==> last_dot_index(version@) == last_dot_index(version@.subrange(0, i as int)),
            decreases i + if found { 0int } else { 1int },
        {
            let ghost pre = version@.subrange(0, i as int);
            assert(pre.drop_last() =~= version@.subrange(0, i - 1));
            if version.get_char(i - 1) == '.' {
                found = true;
            }
            i = i - 1;
        }
        proof {
            if !found {
                assert(version@.subrange(0, 0) =~= Seq::<char>::empty());
            }
        }
        let kept = if found {
            version.substring_char(0, i)
        } else {
            assert(version@.subrange(0, n as int) =~= version@);
            version.substring_char(0, n)
        };
        let mut r = String::new();
        r.append("~");
        proof {
            reveal_strlit("~");
        }
        r.append(kept);
        assert(r@ =~= tilde_version(version@));
        Some(r)
    }
}

/// A name that was resolved once is answered from the cache from then on: a
/// second resolution reads no search output and changes nothing.
pub proof fn lemma_resolved_once(
    c: Seq<(Seq<char>, Option<Seq<char>>)>,
    name: Seq<char>,
    first: Seq<char>,
    second: Seq<char>,
)
    ensures
        cached(after_search(c, name, first), name) is Some,
        after_search(after_search(c, name, first), name, second) == after_search(c, name, first),
{
    if cached(c, name) is None {
        lemma_cached_push(c, (name, search_result(name, first)), name);
    }
}

} // verus!
