//! Directory entries, modifications and search requests as plain values.
use vstd::prelude::*;

use crate::text::{ascii_lower, eq_ignore_case};

verus! {

/// Attribute values by attribute name; names are unique.
pub type AttrValues = Vec<(String, Vec<String>)>;

/// The characters of each string.
pub open spec fn string_views(v: Seq<String>) -> Seq<Seq<char>> {
    v.map_values(|s: String| s@)
}

/// The characters of each string slice.
pub open spec fn str_views(v: Seq<&str>) -> Seq<Seq<char>> {
    v.map_values(|s: &str| s@)
}

/// The values stored under `k`, if any (the first entry of that name counts).
pub open spec fn values_of(m: Seq<(String, Vec<String>)>, k: Seq<char>) -> Option<Seq<Seq<char>>>
    decreases m.len(),
{
    if m.len() == 0 {
        None
    } else if m[0].0@ == k {
        Some(string_views(m[0].1@))
    } else {
        values_of(m.skip(1), k)
    }
}

/// No two entries have the same name.
pub open spec fn names_unique(m: Seq<(String, Vec<String>)>) -> bool {
    forall|i: int, j: int| 0 <= i < j < m.len() ==> m[i].0@ != m[j].0@
}

proof fn lemma_values_first(m: Seq<(String, Vec<String>)>, k: Seq<char>, i: int)
    requires
        0 <= i < m.len(),
        m[i].0@ == k,
        forall|j: int| 0 <= j < i ==> m[j].0@ != k,
    ensures
        values_of(m, k) == Some(string_views(m[i].1@)),
    decreases i,
{
    if i > 0 {
        lemma_values_first(m.skip(1), k, i - 1);
    }
}

proof fn lemma_values_absent(m: Seq<(String, Vec<String>)>, k: Seq<char>)
    requires
        forall|j: int| 0 <= j < m.len() ==> m[j].0@ != k,
    ensures
        values_of(m, k) is None,
    decreases m.len(),
{
    if m.len() > 0 {
        lemma_values_absent(m.skip(1), k);
    }
}

/// The index of the entry named `k`, if any.
fn find_values(m: &AttrValues, k: &str) -> (r: Option<usize>)
    ensures
        match r {
            None => forall|j: int| 0 <= j < m@.len() ==> m@[j].0@ != k@,
            Some(i) => i < m@.len() && m@[i as int].0@ == k@ && forall|j: int| 0 <= j < i ==> m@[j].0@ != k@,
        },
{
    let key = k.to_owned();
    let mut i: usize = 0;
    while i < m.len()
        invariant
            i <= m@.len(),
            key@ == k@,
            forall|j: int| 0 <= j < i ==> m@[j].0@ != k@,
        decreases m@.len() - i,
    {
        if m[i].0 == key {
            return Some(i);
        }
        i = i + 1;
    }
    None
}

/// Owned copies of string slices.
fn to_strings(v: Vec<&str>) -> (r: Vec<String>)
    ensures
        string_views(r@) == str_views(v@),
{
    let mut r: Vec<String> = Vec::new();
    let mut i: usize = 0;
    while i < v.len()
        invariant
            i <= v@.len(),
            string_views(r@) == str_views(v@.subrange(0, i as int)),
        decreases v@.len() - i,
    {
        let ghost prev = r@;
        r.push(v[i].to_owned());
        proof {
            assert(string_views(prev).len() == i);
            assert forall|j: int| 0 <= j < i + 1 implies string_views(r@)[j] == str_views(v@.subrange(0, i + 1))[j] by {
                if j < i {
                    assert(r@[j] == prev[j]);
                    assert(string_views(prev)[j] == str_views(v@.subrange(0, i as int))[j]);
                }
            }
            assert(string_views(r@) =~= str_views(v@.subrange(0, i + 1)));
        }
        i = i + 1;
    }
    proof {
        assert(v@.subrange(0, v@.len() as int) =~= v@);
    }
    r
}

/// A directory entry: its distinguished name and its attributes.
#[derive(Debug)]
pub struct LdapEntry {
    pub dn: String,
    pub attributes: AttrValues,
}

impl LdapEntry {
    /// Attribute names are unique.
    pub open spec fn wf(&self) -> bool {
        names_unique(self.attributes@)
    }

    /// An entry named `dn` with no attributes.
    pub fn new(dn: &str) -> (r: Self)
        ensures
            r.wf(),
            r.dn@ == dn@,
            r.attributes@.len() == 0,
    {
        LdapEntry { dn: dn.to_owned(), attributes: Vec::new() }
    }

    /// Stores `values` under `name`, replacing what was there.
    fn put(&mut self, name: &str, values: Vec<String>)
        requires
            old(self).wf(),
        ensures
            final(self).wf(),
            final(self).dn == old(self).dn,
            forall|k: Seq<char>|
                #[trigger] values_of(final(self).attributes@, k) == if k == name@ {
                    Some(string_views(values@))
                } else {
                    values_of(old(self).attributes@, k)
                },
    {
        let ghost before = self.attributes@;
        let ghost vals = string_views(values@);
        match find_values(&self.attributes, name) {
            Some(t) => {
                let (key, _) = self.attributes.remove(t);
                self.attributes.insert(t, (key, values));
                proof {
                    let after = self.attributes@;
                    assert forall|j: int| 0 <= j < after.len() && j != t implies after[j] == before[j] by {}
                    assert forall|k: Seq<char>| #[trigger] values_of(after, k) == if k == name@ {
                        Some(vals)
                    } else {
                        values_of(before, k)
                    } by {
                        if k == name@ {
                            lemma_values_first(after, k, t as int);
                        } else if exists|j: int| 0 <= j < before.len() && before[j].0@ == k {
                            let j = choose|j: int| 0 <= j < before.len() && before[j].0@ == k;
                            assert forall|q: int| 0 <= q < j implies before[q].0@ != k by {}
                            lemma_values_first(before, k, j);
                            assert(j != t);
                            assert forall|q: int| 0 <= q < j implies after[q].0@ != k by {
                                if q != t {
                                    assert(after[q] == before[q]);
                                }
                            }
                            lemma_values_first(after, k, j);
                        } else {
                            lemma_values_absent(before, k);
                            assert forall|q: int| 0 <= q < after.len() implies after[q].0@ != k by {
                                if q != t {
                                    assert(after[q] == before[q]);
                                }
                            }
                            lemma_values_absent(after, k);
                        }
                    }
                    assert forall|a: int, b: int| 0 <= a < b < after.len() implies after[a].0@ != after[b].0@ by {
                        assert(before[a].0@ != before[b].0@);
                    }
                }
            },
            None => {
                self.attributes.push((name.to_owned(), values));
                proof {
                    let after = self.attributes@;
                    assert forall|j: int| 0 <= j < before.len() implies after[j] == before[j] by {}
                    assert forall|k: Seq<char>| #[trigger] values_of(after, k) == if k == name@ {
                        Some(vals)
                    } else {
                        values_of(before, k)
                    } by {
                        if k == name@ {
                            lemma_values_first(after, k, before.len() as int);
                        } else if exists|j: int| 0 <= j < before.len() && before[j].0@ == k {
                            let j = choose|j: int| 0 <= j < before.len() && before[j].0@ == k;
                            assert forall|q: int| 0 <= q < j implies before[q].0@ != k by {}
                            lemma_values_first(before, k, j);
                            assert forall|q: int| 0 <= q < j implies after[q].0@ != k by {
                                assert(after[q] == before[q]);
                            }
                            lemma_values_first(after, k, j);
                        } else {
                            lemma_values_absent(before, k);
                            assert forall|q: int| 0 <= q < after.len() implies after[q].0@ != k by {
                                if q < before.len() {
                                    assert(after[q] == before[q]);
                                }
                            }
                            lemma_values_absent(after, k);
                        }
                    }
                    assert forall|a: int, b: int| 0 <= a < b < after.len() implies after[a].0@ != after[b].0@ by {
                        if b < before.len() {
                            assert(before[a].0@ != before[b].0@);
                        } else {
                            assert(after[a] == before[a]);
                        }
                    }
                }
            },
        }
    }

    /// This entry with `values` stored under `name`, replacing what was there.
    pub fn with_attribute(self, name: &str, values: Vec<&str>) -> (r: Self)
        requires
            self.wf(),
        ensures
            r.wf(),
            r.dn == self.dn,
            forall|k: Seq<char>|
                #[trigger] values_of(r.attributes@, k) == if k == name@ {
                    Some(str_views(values@))
                } else {
                    values_of(self.attributes@, k)
                },
    {
        let mut r = self;
        let v = to_strings(values);
        r.put(name, v);
        r
    }

    /// This entry with the single value `value` stored under `name`.
    pub fn with_single(self, name: &str, value: &str) -> (r: Self)
        requires
            self.wf(),
        ensures
            r.wf(),
            r.dn == self.dn,
            forall|k: Seq<char>|
                #[trigger] values_of(r.attributes@, k) == if k == name@ {
                    Some(seq![value@])
                } else {
                    values_of(self.attributes@, k)
                },
    {
        let mut r = self;
        let mut v: Vec<String> = Vec::new();
        v.push(value.to_owned());
        proof {
            assert(string_views(v@) =~= seq![value@]);
        }
        r.put(name, v);
        r
    }

    /// The first value of `attr`, if it has one.
    pub fn get_first(&self, attr: &str) -> (r: Option<&str>)
        ensures
            match values_of(self.attributes@, attr@) {
                Some(vs) if vs.len() > 0 => r matches Some(s) && s@ == vs[0],
                _ => r is None,
            },
    {
        match find_values(&self.attributes, attr) {
            Some(t) => {
                proof {
                    lemma_values_first(self.attributes@, attr@, t as int);
                }
                let vs = &self.attributes[t].1;
                if vs.len() > 0 {
                    Some(vs[0].as_str())
                } else {
                    None
                }
            },
            None => {
                proof {
                    lemma_values_absent(self.attributes@, attr@);
                }
                None
            },
        }
    }

    /// All values of `attr`, if it is present.
    pub fn get_all(&self, attr: &str) -> (r: Option<&Vec<String>>)
        ensures
            match r {
                None => values_of(self.attributes@, attr@) is None,
                Some(v) => values_of(self.attributes@, attr@) == Some(string_views(v@)),
            },
    {
        match find_values(&self.attributes, attr) {
            Some(t) => {
                proof {
                    lemma_values_first(self.attributes@, attr@, t as int);
                }
                Some(&self.attributes[t].1)
            },
            None => {
                proof {
                    lemma_values_absent(self.attributes@, attr@);
                }
                None
            },
        }
    }

    /// Whether some value of "objectClass" equals `object_class`, ignoring ASCII case.
    pub fn has_object_class(&self, object_class: &str) -> (r: bool)
        ensures
            r == has_value_ignore_case(values_of(self.attributes@, object_class_word()), object_class@),
    {
        proof {
            reveal_strlit("objectClass");
            assert("objectClass"@ =~= object_class_word());
        }
        match self.get_all("objectClass") {
            None => false,
            Some(classes) => {
                let mut i: usize = 0;
                while i < classes.len()
                    invariant
                        i <= classes@.len(),
                        values_of(self.attributes@, object_class_word()) == Some(string_views(classes@)),
                        forall|j: int| 0 <= j < i ==> ascii_lower(classes@[j]@) != ascii_lower(object_class@),
                    decreases classes@.len() - i,
                {
                    if eq_ignore_case(classes[i].as_str(), object_class) {
                        proof {
                            let vs = string_views(classes@);
                            assert(vs[i as int] == classes@[i as int]@);
                            assert(0 <= i < vs.len() && ascii_lower(vs[i as int]) == ascii_lower(object_class@));
                            assert(values_of(self.attributes@, object_class_word()) == Some(vs));
                            assert(seq_has_ignore_case(vs, object_class@));
                        }
                        return true;
                    }
                    i = i + 1;
                }
                proof {
                    let vs = string_views(classes@);
                    assert forall|j: int| 0 <= j < vs.len() implies ascii_lower(vs[j]) != ascii_lower(object_class@) by {
                        assert(vs[j] == classes@[j]@);
                    }
                }
                false
            },
        }
    }

    /// The first component of the distinguished name: everything before the first comma.
    pub fn rdn(&self) -> (r: Option<&str>)
        ensures
            r matches Some(s) && s@ == first_component(self.dn@),
    {
        let d = self.dn.as_str();
        let n = d.unicode_len();
        let mut i: usize = 0;
        while i < n && d.get_char(i) != ','
            invariant
                i <= n,
                n == d@.len(),
                forall|j: int| 0 <= j < i ==> d@[j] != ',',
            decreases n - i,
        {
            i = i + 1;
        }
        proof {
            lemma_first_component(d@, i as int);
        }
        Some(d.substring_char(0, i))
    }
}

/// Whether some of the values equals `c`, ignoring ASCII case.
pub open spec fn has_value_ignore_case(vals: Option<Seq<Seq<char>>>, c: Seq<char>) -> bool {
    match vals {
        Some(vs) => seq_has_ignore_case(vs, c),
        None => false,
    }
}

/// Whether some string of `vs` equals `c`, ignoring ASCII case.
pub open spec fn seq_has_ignore_case(vs: Seq<Seq<char>>, c: Seq<char>) -> bool {
    exists|i: int| 0 <= i < vs.len() && ascii_lower(#[trigger] vs[i]) == ascii_lower(c)
}

/// The word "objectClass".
pub open spec fn object_class_word() -> Seq<char> {
    seq!['o', 'b', 'j', 'e', 'c', 't', 'C', 'l', 'a', 's', 's']
}

/// The characters of `s` before its first comma (all of `s` when it has none).
pub open spec fn first_component(s: Seq<char>) -> Seq<char>
    decreases s.len(),
{
    if s.len() == 0 || s[0] == ',' {
        Seq::<char>::empty()
    } else {
        seq![s[0]] + first_component(s.skip(1))
    }
}

proof fn lemma_first_component(s: Seq<char>, i: int)
    requires
        0 <= i <= s.len(),
        forall|j: int| 0 <= j < i ==> s[j] != ',',
        i == s.len() || s[i] == ',',
    ensures
        first_component(s) == s.subrange(0, i),
    decreases i,
{
    if i == 0 {
        assert(s.subrange(0, 0) =~= Seq::<char>::empty());
    } else {
        lemma_first_component(s.skip(1), i - 1);
        assert(seq![s[0]] + s.skip(1).subrange(0, i - 1) =~= s.subrange(0, i));
    }
}

/// A change to one attribute of an entry.
#[derive(Debug)]
pub enum LdapModification {
    /// Adds values.
    Add { attr: String, values: Vec<String> },
    /// Removes values; with none, removes the attribute.
    Delete { attr: String, values: Vec<String> },
    /// Replaces all values.
    Replace { attr: String, values: Vec<String> },
}

impl LdapModification {
    /// Adds `values` to `attr`.
    pub fn add(attr: &str, values: Vec<&str>) -> (r: Self)
        ensures
            r matches LdapModification::Add { attr: a, values: v } && a@ == attr@ && string_views(v@)
                == str_views(values@),
    {
        LdapModification::Add { attr: attr.to_owned(), values: to_strings(values) }
    }

    /// Removes `values` from `attr`.
    pub fn delete(attr: &str, values: Vec<&str>) -> (r: Self)
        ensures
            r matches LdapModification::Delete { attr: a, values: v } && a@ == attr@ && string_views(
                v@,
            ) == str_views(values@),
    {
        LdapModification::Delete { attr: attr.to_owned(), values: to_strings(values) }
    }

    /// Removes the whole attribute `attr`.
    pub fn delete_all(attr: &str) -> (r: Self)
        ensures
            r matches LdapModification::Delete { attr: a, values: v } && a@ == attr@ && v@.len() == 0,
    {
        LdapModification::Delete { attr: attr.to_owned(), values: Vec::new() }
    }

    /// Replaces the values of `attr` by `values`.
    pub fn replace(attr: &str, values: Vec<&str>) -> (r: Self)
        ensures
            r matches LdapModification::Replace { attr: a, values: v } && a@ == attr@ && string_views(
                v@,
            ) == str_views(values@),
    {
        LdapModification::Replace { attr: attr.to_owned(), values: to_strings(values) }
    }

    /// Replaces the values of `attr` by the single `value`.
    pub fn replace_single(attr: &str, value: &str) -> (r: Self)
        ensures
            r matches LdapModification::Replace { attr: a, values: v } && a@ == attr@ && string_views(
                v@,
            ) == seq![value@],
    {
        let mut v: Vec<String> = Vec::new();
        v.push(value.to_owned());
        proof {
            assert(string_views(v@) =~= seq![value@]);
        }
        LdapModification::Replace { attr: attr.to_owned(), values: v }
    }
}

/// How deep a search reaches below its base.
#[derive(Debug, Clone, Copy, PartialEq, Eq, Structural)]
pub enum SearchScope {
    Base,
    OneLevel,
    Subtree,
}

impl Default for SearchScope {
    fn default() -> (r: Self)
        ensures
            r == SearchScope::Subtree,
    {
        SearchScope::Subtree
    }
}

/// A search request under construction.
#[derive(Debug)]
pub struct SearchBuilder {
    base: String,
    scope: SearchScope,
    filter: String,
    attributes: Vec<String>,
    size_limit: Option<usize>,
}

/// The filter every entry matches.
pub open spec fn match_all_filter() -> Seq<char> {
    seq!['(', 'o', 'b', 'j', 'e', 'c', 't', 'C', 'l', 'a', 's', 's', '=', '*', ')']
}

impl SearchBuilder {
    /// The search base.
    pub closed spec fn base_view(&self) -> Seq<char> {
        self.base@
    }

    /// The scope.
    pub closed spec fn scope_view(&self) -> SearchScope {
        self.scope
    }

    /// The filter.
    pub closed spec fn filter_view(&self) -> Seq<char> {
        self.filter@
    }

    /// The requested attributes.
    pub closed spec fn attributes_view(&self) -> Seq<Seq<char>> {
        string_views(self.attributes@)
    }

    /// The most entries to return, if limited.
    pub closed spec fn size_limit_view(&self) -> Option<usize> {
        self.size_limit
    }

    /// A subtree search under `base` for every entry, all attributes, no size limit.
    pub fn new(base: &str) -> (r: Self)
        ensures
            r.base_view() == base@,
            r.scope_view() == SearchScope::Subtree,
            r.filter_view() == match_all_filter(),
            r.attributes_view().len() == 0,
            r.size_limit_view() is None,
    {
        let filter = String::from_str("(objectClass=*)");
        proof {
            reveal_strlit("(objectClass=*)");
            assert(filter@ =~= match_all_filter());
        }
        let r = SearchBuilder { base: base.to_owned(), scope: SearchScope::Subtree, filter, attributes: Vec::new(), size_limit: None };
        proof {
            assert(string_views(r.attributes@) =~= Seq::<Seq<char>>::empty());
        }
        r
    }

    /// The same search with scope `scope`.
    pub fn scope(self, scope: SearchScope) -> (r: Self)
        ensures
            r.scope_view() == scope,
            r.base_view() == self.base_view(),
            r.filter_view() == self.filter_view(),
            r.attributes_view() == self.attributes_view(),
            r.size_limit_view() == self.size_limit_view(),
    {
        let mut r = self;
        r.scope = scope;
        r
    }

    /// The same search with filter `filter`.
    pub fn filter(self, filter: &str) -> (r: Self)
        ensures
            r.filter_view() == filter@,
            r.base_view() == self.base_view(),
            r.scope_view() == self.scope_view(),
            r.attributes_view() == self.attributes_view(),
            r.size_limit_view() == self.size_limit_view(),
    {
        let mut r = self;
        r.filter = filter.to_owned();
        r
    }

    /// The same search asking for the attributes `attrs`.
    pub fn attributes(self, attrs: Vec<&str>) -> (r: Self)
        ensures
            r.attributes_view() == str_views(attrs@),
            r.base_view() == self.base_view(),
            r.scope_view() == self.scope_view(),
            r.filter_view() == self.filter_view(),
            r.size_limit_view() == self.size_limit_view(),
    {
        let mut r = self;
        r.attributes = to_strings(attrs);
        r
    }

    /// The same search asking for `attr` as well.
    pub fn add_attribute(self, attr: &str) -> (r: Self)
        ensures
            r.attributes_view() == self.attributes_view().push(attr@),
            r.base_view() == self.base_view(),
            r.scope_view() == self.scope_view(),
            r.filter_view() == self.filter_view(),
            r.size_limit_view() == self.size_limit_view(),
    {
        let mut r = self;
        r.attributes.push(attr.to_owned());
        proof {
            assert(string_views(r.attributes@) =~= string_views(self.attributes@).push(attr@));
        }
        r
    }

    /// The same search returning at most `limit` entries.
    pub fn size_limit(self, limit: usize) -> (r: Self)
        ensures
            r.size_limit_view() == Some(limit),
            r.base_view() == self.base_view(),
            r.scope_view() == self.scope_view(),
            r.filter_view() == self.filter_view(),
            r.attributes_view() == self.attributes_view(),
    {
        let mut r = self;
        r.size_limit = Some(limit);
        r
    }

    /// The search base.
    pub fn get_base(&self) -> (r: &str)
        ensures
            r@ == self.base_view(),
    {
        self.base.as_str()
    }

    /// The scope.
    pub fn get_scope(&self) -> (r: SearchScope)
        ensures
            r == self.scope_view(),
    {
        self.scope
    }

    /// The filter.
    pub fn get_filter(&self) -> (r: &str)
        ensures
            r@ == self.filter_view(),
    {
        self.filter.as_str()
    }

    /// The requested attributes.
    pub fn get_attributes(&self) -> (r: Vec<&str>)
        ensures
            str_views(r@) == self.attributes_view(),
    {
        let mut r: Vec<&str> = Vec::new();
        let mut i: usize = 0;
        while i < self.attributes.len()
            invariant
                i <= self.attributes@.len(),
                r@.len() == i,
                forall|j: int| 0 <= j < i ==> (#[trigger] r@[j])@ == self.attributes@[j]@,
            decreases self.attributes@.len() - i,
        {
            r.push(self.attributes[i].as_str());
            i = i + 1;
        }
        proof {
            assert(str_views(r@) =~= string_views(self.attributes@));
        }
        r
    }

    /// The most entries to return, if limited.
    pub fn get_size_limit(&self) -> (r: Option<usize>)
        ensures
            r == self.size_limit_view(),
    {
        self.size_limit
    }
}

} // verus!
