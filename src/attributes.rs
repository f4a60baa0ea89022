//! Attribute-level gates: which attribute names of an entry may be read or written.
use vstd::prelude::*;

use crate::text::{ascii_lower, to_lower};

verus! {

/// The names held by a list of strings.
pub open spec fn names(v: Seq<String>) -> Set<Seq<char>> {
    Set::new(|x: Seq<char>| exists|i: int| 0 <= i < v.len() && v[i]@ == x)
}

/// The folded forms of a list of names.
pub open spec fn lower_names_of_strs(v: Seq<&str>) -> Set<Seq<char>> {
    Set::new(|x: Seq<char>| exists|i: int| 0 <= i < v.len() && ascii_lower(v[i]@) == x)
}

/// The folded forms of a list of owned names.
pub open spec fn lower_names(v: Seq<String>) -> Set<Seq<char>> {
    Set::new(|x: Seq<char>| exists|i: int| 0 <= i < v.len() && ascii_lower(v[i]@) == x)
}

/// Model of an attribute filter: the whitelist, if any, and the denied names.
pub type FilterView = (Option<Set<Seq<char>>>, Set<Seq<char>>);

/// Whether a filter with model `f` lets the attribute `attr` through.
pub open spec fn filter_permits(f: FilterView, attr: Seq<char>) -> bool {
    let a = ascii_lower(attr);
    !f.1.contains(a) && match f.0 {
        None => true,
        Some(allowed) => allowed.contains(a),
    }
}

/// Whether a filter with model `f` denies `attr` outright.
pub open spec fn filter_denies(f: FilterView, attr: Seq<char>) -> bool {
    f.1.contains(ascii_lower(attr))
}

/// The model of `f` merged with `g`: denied names are joined, and so are whitelists,
/// where a side without one does not restrict the other.
pub open spec fn merge_view(f: FilterView, g: FilterView) -> FilterView {
    (
        match (f.0, g.0) {
            (Some(a), Some(b)) => Some(a.union(b)),
            (Some(a), None) => Some(a),
            (None, Some(b)) => Some(b),
            (None, None) => None,
        },
        f.1.union(g.1),
    )
}

/// Whether every name of the list is in ASCII small letters.
pub open spec fn all_lower(v: Seq<String>) -> bool {
    forall|i: int| 0 <= i < v.len() ==> ascii_lower(#[trigger] v[i]@) == v[i]@
}

/// Whether `s` is one of the names of `v`.
pub(crate) fn contains_name(v: &Vec<String>, s: &String) -> (r: bool)
    ensures
        r == names(v@).contains(s@),
{
    let mut i: usize = 0;
    while i < v.len()
        invariant
            i <= v@.len(),
            forall|j: int| 0 <= j < i ==> v@[j]@ != s@,
        decreases v@.len() - i,
    {
        if v[i] == *s {
            return true;
        }
        i = i + 1;
    }
    proof {
        if names(v@).contains(s@) {
            let j = choose|j: int| 0 <= j < v@.len() && v@[j]@ == s@;
        }
    }
    false
}

/// Adds `s` to `v` unless it is there already.
fn insert_name(v: &mut Vec<String>, s: String)
    requires
        all_lower(old(v)@),
        ascii_lower(s@) == s@,
    ensures
        names(final(v)@) == names(old(v)@).insert(s@),
        all_lower(final(v)@),
{
    let ghost before = v@;
    if !contains_name(v, &s) {
        v.push(s);
        proof {
            assert forall|x: Seq<char>| names(v@).contains(x) <==> names(before).insert(s@).contains(x) by {
                if names(before).contains(x) {
                    let j = choose|j: int| 0 <= j < before.len() && before[j]@ == x;
                    assert(v@[j] == before[j]);
                }
                if names(v@).contains(x) && x != s@ {
                    let j = choose|j: int| 0 <= j < v@.len() && v@[j]@ == x;
                    assert(j < before.len());
                    assert(v@[j] == before[j]);
                }
                if x == s@ {
                    assert(v@[before.len() as int]@ == x);
                }
            }
            assert(names(v@) =~= names(before).insert(s@));
        }
    } else {
        proof {
            assert(names(before).insert(s@) =~= names(before));
        }
    }
}

/// Adds the folded form of each name of `attrs` to `v`.
fn insert_lower_strs(v: &mut Vec<String>, attrs: &[&str])
    requires
        all_lower(old(v)@),
    ensures
        names(final(v)@) == names(old(v)@).union(lower_names_of_strs(attrs@)),
        all_lower(final(v)@),
{
    let ghost start = names(v@);
    let mut i: usize = 0;
    while i < attrs.len()
        invariant
            i <= attrs@.len(),
            all_lower(v@),
            names(v@) == start.union(lower_names_of_strs(attrs@.subrange(0, i as int))),
        decreases attrs@.len() - i,
    {
        let s = to_lower(attrs[i]);
        proof {
            crate::text::lemma_lower_idempotent(attrs@[i as int]@);
        }
        insert_name(v, s);
        proof {
            let sub = attrs@.subrange(0, i + 1);
            let prev = attrs@.subrange(0, i as int);
            assert forall|x: Seq<char>| lower_names_of_strs(sub).contains(x) <==> lower_names_of_strs(prev).insert(s@).contains(x) by {
                if lower_names_of_strs(sub).contains(x) {
                    let j = choose|j: int| 0 <= j < sub.len() && ascii_lower(sub[j]@) == x;
                    if j < i {
                        assert(prev[j] == sub[j]);
                    }
                }
                if lower_names_of_strs(prev).contains(x) {
                    let j = choose|j: int| 0 <= j < prev.len() && ascii_lower(prev[j]@) == x;
                    assert(prev[j] == sub[j]);
                }
                if x == s@ {
                    assert(sub[i as int] == attrs@[i as int]);
                }
            }
            assert(lower_names_of_strs(sub) =~= lower_names_of_strs(prev).insert(s@));
            assert(names(v@) =~= start.union(lower_names_of_strs(sub)));
        }
        i = i + 1;
    }
    proof {
        assert(attrs@.subrange(0, attrs@.len() as int) =~= attrs@);
    }
}

/// Adds the folded form of each name of `attrs` to `v`.
fn insert_lower_strings(v: &mut Vec<String>, attrs: &Vec<String>)
    requires
        all_lower(old(v)@),
    ensures
        names(final(v)@) == names(old(v)@).union(lower_names(attrs@)),
        all_lower(final(v)@),
{
    let ghost start = names(v@);
    let mut i: usize = 0;
    while i < attrs.len()
        invariant
            i <= attrs@.len(),
            all_lower(v@),
            names(v@) == start.union(lower_names(attrs@.subrange(0, i as int))),
        decreases attrs@.len() - i,
    {
        let s = to_lower(attrs[i].as_str());
        proof {
            crate::text::lemma_lower_idempotent(attrs@[i as int]@);
        }
        insert_name(v, s);
        proof {
            let sub = attrs@.subrange(0, i + 1);
            let prev = attrs@.subrange(0, i as int);
            assert forall|x: Seq<char>| lower_names(sub).contains(x) <==> lower_names(prev).insert(s@).contains(x) by {
                if lower_names(sub).contains(x) {
                    let j = choose|j: int| 0 <= j < sub.len() && ascii_lower(sub[j]@) == x;
                    if j < i {
                        assert(prev[j] == sub[j]);
                    }
                }
                if lower_names(prev).contains(x) {
                    let j = choose|j: int| 0 <= j < prev.len() && ascii_lower(prev[j]@) == x;
                    assert(prev[j] == sub[j]);
                }
                if x == s@ {
                    assert(sub[i as int] == attrs@[i as int]);
                }
            }
            assert(lower_names(sub) =~= lower_names(prev).insert(s@));
            assert(names(v@) =~= start.union(lower_names(sub)));
        }
        i = i + 1;
    }
    proof {
        assert(attrs@.subrange(0, attrs@.len() as int) =~= attrs@);
    }
}

/// Adds each name of `other` to `v`.
fn insert_names(v: &mut Vec<String>, other: &Vec<String>)
    requires
        all_lower(old(v)@),
        all_lower(other@),
    ensures
        names(final(v)@) == names(old(v)@).union(names(other@)),
        all_lower(final(v)@),
{
    let ghost start = names(v@);
    let mut i: usize = 0;
    while i < other.len()
        invariant
            i <= other@.len(),
            all_lower(v@),
            all_lower(other@),
            names(v@) == start.union(names(other@.subrange(0, i as int))),
        decreases other@.len() - i,
    {
        let s = other[i].clone();
        assert(ascii_lower(other@[i as int]@) == other@[i as int]@);
        insert_name(v, s);
        proof {
            let sub = other@.subrange(0, i + 1);
            let prev = other@.subrange(0, i as int);
            assert forall|x: Seq<char>| names(sub).contains(x) <==> names(prev).insert(s@).contains(x) by {
                if names(sub).contains(x) {
                    let j = choose|j: int| 0 <= j < sub.len() && sub[j]@ == x;
                    if j < i {
                        assert(prev[j] == sub[j]);
                    }
                }
                if names(prev).contains(x) {
                    let j = choose|j: int| 0 <= j < prev.len() && prev[j]@ == x;
                    assert(prev[j] == sub[j]);
                }
                if x == s@ {
                    assert(sub[i as int] == other@[i as int]);
                }
            }
            assert(names(sub) =~= names(prev).insert(s@));
            assert(names(v@) =~= start.union(names(sub)));
        }
        i = i + 1;
    }
    proof {
        assert(other@.subrange(0, other@.len() as int) =~= other@);
    }
}

/// A copy of a list of names.
fn copy_names(v: &Vec<String>) -> (r: Vec<String>)
    ensures
        r@ == v@,
{
    let mut r: Vec<String> = Vec::new();
    let mut i: usize = 0;
    while i < v.len()
        invariant
            i <= v@.len(),
            r@ == v@.subrange(0, i as int),
        decreases v@.len() - i,
    {
        r.push(v[i].clone());
        proof {
            assert(r@ =~= v@.subrange(0, i + 1));
        }
        i = i + 1;
    }
    proof {
        assert(v@.subrange(0, v@.len() as int) =~= v@);
    }
    r
}

/// A gate over attribute names: an optional whitelist and a list of denied names.
/// Without a whitelist every name that is not denied passes; a denied name never
/// passes. Names are held in ASCII small letters and compared case-insensitively.
#[derive(Debug)]
pub struct AttributeFilter {
    allowed: Option<Vec<String>>,
    denied: Vec<String>,
}

impl View for AttributeFilter {
    type V = FilterView;

    open spec fn view(&self) -> FilterView {
        (
            match self.allowed_list() {
                None => None,
                Some(a) => Some(names(a)),
            },
            names(self.denied_list()),
        )
    }
}

impl AttributeFilter {
    /// The whitelist as stored.
    pub closed spec fn allowed_list(&self) -> Option<Seq<String>> {
        match &self.allowed {
            None => None,
            Some(a) => Some(a@),
        }
    }

    /// The denied names as stored.
    pub closed spec fn denied_list(&self) -> Seq<String> {
        self.denied@
    }

    /// Every stored name is in ASCII small letters.
    pub open spec fn wf(&self) -> bool {
        all_lower(self.denied_list()) && match self.allowed_list() {
            None => true,
            Some(a) => all_lower(a),
        }
    }

    /// Whether `attr` passes this filter.
    pub open spec fn permits(&self, attr: Seq<char>) -> bool {
        filter_permits(self@, attr)
    }

    /// A filter with the given whitelist and denied names, each folded to small letters.
    pub fn new(allowed: Option<Vec<String>>, denied: Vec<String>) -> (r: Self)
        ensures
            r.wf(),
            r@ == (
                match allowed {
                    None => None,
                    Some(a) => Some(lower_names(a@)),
                },
                lower_names(denied@),
            ),
    {
        let mut d: Vec<String> = Vec::new();
        insert_lower_strings(&mut d, &denied);
        proof {
            assert(names(Seq::<String>::empty()).union(lower_names(denied@)) =~= lower_names(
                denied@,
            ));
        }
        let a = match allowed {
            None => None,
            Some(list) => {
                let mut l: Vec<String> = Vec::new();
                insert_lower_strings(&mut l, &list);
                proof {
                    assert(names(Seq::<String>::empty()).union(lower_names(list@))
                        =~= lower_names(list@));
                }
                Some(l)
            },
        };
        AttributeFilter { allowed: a, denied: d }
    }

    /// A filter holding exactly the given lists, which must already be in small letters.
    pub(crate) fn from_lists(allowed: Option<Vec<String>>, denied: Vec<String>) -> (r: Self)
        ensures
            r.allowed_list() == match allowed {
                None => None,
                Some(a) => Some(a@),
            },
            r.denied_list() == denied@,
    {
        AttributeFilter { allowed, denied }
    }

    /// The filter that lets every name through.
    pub fn allow_all() -> (r: Self)
        ensures
            r.wf(),
            r@ == (None::<Set<Seq<char>>>, Set::<Seq<char>>::empty()),
    {
        let r = AttributeFilter { allowed: None, denied: Vec::new() };
        proof {
            assert(names(Seq::<String>::empty()) =~= Set::<Seq<char>>::empty());
        }
        r
    }

    /// The filter that lets no name through: an empty whitelist.
    pub fn deny_all() -> (r: Self)
        ensures
            r.wf(),
            r@ == (Some(Set::<Seq<char>>::empty()), Set::<Seq<char>>::empty()),
    {
        let r = AttributeFilter { allowed: Some(Vec::new()), denied: Vec::new() };
        proof {
            assert(names(Seq::<String>::empty()) =~= Set::<Seq<char>>::empty());
        }
        r
    }

    /// A whitelist of the given names.
    pub fn with_allowed(attrs: &[&str]) -> (r: Self)
        ensures
            r.wf(),
            r@ == (Some(lower_names_of_strs(attrs@)), Set::<Seq<char>>::empty()),
    {
        let mut l: Vec<String> = Vec::new();
        insert_lower_strs(&mut l, attrs);
        let r = AttributeFilter { allowed: Some(l), denied: Vec::new() };
        proof {
            assert(names(Seq::<String>::empty()) =~= Set::<Seq<char>>::empty());
            assert(Set::<Seq<char>>::empty().union(lower_names_of_strs(attrs@)) =~= lower_names_of_strs(attrs@));
        }
        r
    }

    /// No whitelist, and the given names denied.
    pub fn with_denied(attrs: &[&str]) -> (r: Self)
        ensures
            r.wf(),
            r@ == (None::<Set<Seq<char>>>, lower_names_of_strs(attrs@)),
    {
        let mut l: Vec<String> = Vec::new();
        insert_lower_strs(&mut l, attrs);
        let r = AttributeFilter { allowed: None, denied: l };
        proof {
            assert(names(Seq::<String>::empty()) =~= Set::<Seq<char>>::empty());
            assert(Set::<Seq<char>>::empty().union(lower_names_of_strs(attrs@)) =~= lower_names_of_strs(attrs@));
        }
        r
    }

    /// Whether `attr` passes: not denied, and on the whitelist if there is one.
    pub fn is_attribute_permitted(&self, attr: &str) -> (r: bool)
        ensures
            r == self.permits(attr@),
    {
        let a = to_lower(attr);
        if contains_name(&self.denied, &a) {
            return false;
        }
        match &self.allowed {
            None => true,
            Some(allowed) => contains_name(allowed, &a),
        }
    }

    /// The names of `attrs` that pass, in their order.
    pub fn filter_attributes<'a>(&self, attrs: &[&'a str]) -> (r: Vec<&'a str>)
        ensures
            r@ == attrs@.filter(|a: &str| self.permits(a@)),
    {
        let mut r: Vec<&'a str> = Vec::new();
        let mut i: usize = 0;
        while i < attrs.len()
            invariant
                i <= attrs@.len(),
                r@ == attrs@.subrange(0, i as int).filter(|a: &str| self.permits(a@)),
            decreases attrs@.len() - i,
        {
            let a = attrs[i];
            proof {
                reveal(Seq::filter);
                assert(attrs@.subrange(0, i + 1).drop_last() =~= attrs@.subrange(0, i as int));
            }
            if self.is_attribute_permitted(a) {
                r.push(a);
            }
            i = i + 1;
        }
        proof {
            assert(attrs@.subrange(0, attrs@.len() as int) =~= attrs@);
        }
        r
    }

    /// The names of `attrs` that pass, in their order, as owned strings.
    pub fn filter_attributes_owned(&self, attrs: &[String]) -> (r: Vec<String>)
        ensures
            r@ == attrs@.filter(|a: String| self.permits(a@)),
    {
        let mut r: Vec<String> = Vec::new();
        let mut i: usize = 0;
        while i < attrs.len()
            invariant
                i <= attrs@.len(),
                r@ == attrs@.subrange(0, i as int).filter(|a: String| self.permits(a@)),
            decreases attrs@.len() - i,
        {
            proof {
                reveal(Seq::filter);
                assert(attrs@.subrange(0, i + 1).drop_last() =~= attrs@.subrange(0, i as int));
            }
            if self.is_attribute_permitted(attrs[i].as_str()) {
                r.push(attrs[i].clone());
            }
            i = i + 1;
        }
        proof {
            assert(attrs@.subrange(0, attrs@.len() as int) =~= attrs@);
        }
        r
    }

    /// The whitelist, if there is one.
    pub fn allowed(&self) -> (r: Option<&Vec<String>>)
        ensures
            match r {
                None => self.allowed_list() is None,
                Some(a) => self.allowed_list() == Some(a@),
            },
    {
        match &self.allowed {
            None => None,
            Some(a) => Some(a),
        }
    }

    /// The denied names.
    pub fn denied(&self) -> (r: &Vec<String>)
        ensures
            r@ == self.denied_list(),
    {
        &self.denied
    }

    /// Whether there is a whitelist.
    pub fn is_whitelist_mode(&self) -> (r: bool)
        ensures
            r == self@.0 is Some,
    {
        self.allowed.is_some()
    }

    /// Whether the filter lets everything through: no whitelist and nothing denied.
    pub fn is_allow_all(&self) -> (r: bool)
        ensures
            r == (self@.0 is None && self@.1 == Set::<Seq<char>>::empty()),
    {
        let r = self.allowed.is_none() && self.denied.len() == 0;
        proof {
            if self.denied@.len() == 0 {
                assert(names(self.denied@) =~= Set::<Seq<char>>::empty());
            } else {
                assert(names(self.denied@).contains(self.denied@[0]@));
            }
        }
        r
    }

    /// Joins `other` into this filter: denied names are joined, whitelists are joined,
    /// and a side without a whitelist does not restrict the other.
    pub fn merge(&mut self, other: &AttributeFilter)
        requires
            old(self).wf(),
            other.wf(),
        ensures
            final(self).wf(),
            final(self)@ == merge_view(old(self)@, other@),
    {
        insert_names(&mut self.denied, &other.denied);
        match &mut self.allowed {
            Some(mine) => match &other.allowed {
                Some(theirs) => {
                    insert_names(mine, theirs);
                },
                None => {},
            },
            None => match &other.allowed {
                Some(theirs) => {
                    self.allowed = Some(copy_names(theirs));
                },
                None => {},
            },
        }
    }

    /// A copy of this filter.
    pub fn copy(&self) -> (r: Self)
        ensures
            r.allowed_list() == self.allowed_list(),
            r.denied_list() == self.denied_list(),
            r@ == self@,
    {
        let allowed = match &self.allowed {
            None => None,
            Some(a) => Some(copy_names(a)),
        };
        AttributeFilter { allowed, denied: copy_names(&self.denied) }
    }

    /// This filter merged with `other`, as a new value.
    pub fn merged(&self, other: &AttributeFilter) -> (r: Self)
        requires
            self.wf(),
            other.wf(),
        ensures
            r.wf(),
            r@ == merge_view(self@, other@),
    {
        let mut r = self.copy();
        r.merge(other);
        r
    }

    /// Adds names to the whitelist; a filter without one gets a whitelist of these names
    /// alone.
    pub fn add_allowed(&mut self, attrs: &[&str])
        requires
            old(self).wf(),
        ensures
            final(self).wf(),
            final(self)@.1 == old(self)@.1,
            final(self)@.0 == Some(
                match old(self)@.0 {
                    None => lower_names_of_strs(attrs@),
                    Some(a) => a.union(lower_names_of_strs(attrs@)),
                },
            ),
    {
        match &mut self.allowed {
            Some(mine) => {
                insert_lower_strs(mine, attrs);
            },
            None => {
                let mut l: Vec<String> = Vec::new();
                insert_lower_strs(&mut l, attrs);
                proof {
                    assert(names(Seq::<String>::empty()).union(lower_names_of_strs(attrs@))
                        =~= lower_names_of_strs(attrs@));
                }
                self.allowed = Some(l);
            },
        }
    }

    /// Adds names to the denied ones.
    pub fn add_denied(&mut self, attrs: &[&str])
        requires
            old(self).wf(),
        ensures
            final(self).wf(),
            final(self)@.0 == old(self)@.0,
            final(self)@.1 == old(self)@.1.union(lower_names_of_strs(attrs@)),
    {
        insert_lower_strs(&mut self.denied, attrs);
    }

    /// Adds the names of `other` to the denied ones.
    pub fn add_denied_names(&mut self, other: &Vec<String>)
        requires
            old(self).wf(),
            all_lower(other@),
        ensures
            final(self).wf(),
            final(self)@.0 == old(self)@.0,
            final(self)@.1 == old(self)@.1.union(names(other@)),
    {
        insert_names(&mut self.denied, other);
    }
}

/// An unrestricted filter lets every name through; an empty whitelist lets none
/// through; case does not matter; and a name both allowed and denied is refused.
pub proof fn lemma_filter_laws(f: AttributeFilter, x: Seq<char>, y: Seq<char>)
    ensures
        filter_permits((None, Set::<Seq<char>>::empty()), x),
        !filter_permits((Some(Set::<Seq<char>>::empty()), Set::<Seq<char>>::empty()), x),
        ascii_lower(x) == ascii_lower(y) ==> (f.permits(x) == f.permits(y)),
        f@.1.contains(ascii_lower(x)) ==> !f.permits(x),
{
}

/// A name denied by either filter is denied by their merge.
pub proof fn lemma_merge_keeps_denies(f: FilterView, g: FilterView, x: Seq<char>)
    requires
        filter_denies(f, x) || filter_denies(g, x),
    ensures
        filter_denies(merge_view(f, g), x),
{
}

/// Read and write filters for one object type.
#[derive(Debug)]
pub struct ObjectAttributeAcl {
    pub read: AttributeFilter,
    pub write: AttributeFilter,
}

impl ObjectAttributeAcl {
    /// Both filters well formed.
    pub open spec fn wf(&self) -> bool {
        self.read.wf() && self.write.wf()
    }

    /// The pair of the two filters.
    pub fn new(read: AttributeFilter, write: AttributeFilter) -> (r: Self)
        ensures
            r.read@ == read@,
            r.write@ == write@,
            r.read.allowed_list() == read.allowed_list(),
            r.read.denied_list() == read.denied_list(),
            r.write.allowed_list() == write.allowed_list(),
            r.write.denied_list() == write.denied_list(),
    {
        ObjectAttributeAcl { read, write }
    }

    /// Both sides unrestricted.
    pub fn allow_all() -> (r: Self)
        ensures
            r.wf(),
            r.read@ == (None::<Set<Seq<char>>>, Set::<Seq<char>>::empty()),
            r.write@ == (None::<Set<Seq<char>>>, Set::<Seq<char>>::empty()),
    {
        ObjectAttributeAcl { read: AttributeFilter::allow_all(), write: AttributeFilter::allow_all() }
    }

    /// Both sides closed.
    pub fn deny_all() -> (r: Self)
        ensures
            r.wf(),
            r.read@ == (Some(Set::<Seq<char>>::empty()), Set::<Seq<char>>::empty()),
            r.write@ == (Some(Set::<Seq<char>>::empty()), Set::<Seq<char>>::empty()),
    {
        ObjectAttributeAcl { read: AttributeFilter::deny_all(), write: AttributeFilter::deny_all() }
    }

    /// Merges read with read and write with write.
    pub fn merge(&mut self, other: &ObjectAttributeAcl)
        requires
            old(self).wf(),
            other.wf(),
        ensures
            final(self).wf(),
            final(self).read@ == merge_view(old(self).read@, other.read@),
            final(self).write@ == merge_view(old(self).write@, other.write@),
    {
        self.read.merge(&other.read);
        self.write.merge(&other.write);
    }

    /// A copy of both filters.
    pub fn copy(&self) -> (r: Self)
        ensures
            r.read@ == self.read@,
            r.write@ == self.write@,
            r.read.allowed_list() == self.read.allowed_list(),
            r.read.denied_list() == self.read.denied_list(),
            r.write.allowed_list() == self.write.allowed_list(),
            r.write.denied_list() == self.write.denied_list(),
    {
        ObjectAttributeAcl { read: self.read.copy(), write: self.write.copy() }
    }

    /// The names of `attrs` that may be read.
    pub fn filter_read<'a>(&self, attrs: &[&'a str]) -> (r: Vec<&'a str>)
        ensures
            r@ == attrs@.filter(|a: &str| self.read.permits(a@)),
    {
        self.read.filter_attributes(attrs)
    }

    /// The names of `attrs` that may be written.
    pub fn filter_write<'a>(&self, attrs: &[&'a str]) -> (r: Vec<&'a str>)
        ensures
            r@ == attrs@.filter(|a: &str| self.write.permits(a@)),
    {
        self.write.filter_attributes(attrs)
    }

    /// Whether `attr` may be read.
    pub fn can_read(&self, attr: &str) -> (r: bool)
        ensures
            r == self.read.permits(attr@),
    {
        self.read.is_attribute_permitted(attr)
    }

    /// Whether `attr` may be written.
    pub fn can_write(&self, attr: &str) -> (r: bool)
        ensures
            r == self.write.permits(attr@),
    {
        self.write.is_attribute_permitted(attr)
    }
}

} // verus!
