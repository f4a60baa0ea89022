//! The compiled per-principal access-control value and its evaluation.
use vstd::prelude::*;

use crate::attributes::{filter_permits, merge_view, AttributeFilter, FilterView, ObjectAttributeAcl};
use crate::bitmap::PermissionBitmap;
use crate::text::{ascii_lower, has_suffix, str_eq, to_lower, ends_with};

verus! {

/// Attribute filters by object type; the first entry of a type is the one that counts.
pub type AttrAcls = Vec<(String, ObjectAttributeAcl)>;

/// The filters of the first entry for object type `k`.
pub open spec fn lookup_acl(m: Seq<(String, ObjectAttributeAcl)>, k: Seq<char>) -> Option<
    ObjectAttributeAcl,
>
    decreases m.len(),
{
    if m.len() == 0 {
        None
    } else if m[0].0@ == k {
        Some(m[0].1)
    } else {
        lookup_acl(m.skip(1), k)
    }
}

/// Every filter of the map is well formed.
pub open spec fn acls_wf(m: Seq<(String, ObjectAttributeAcl)>) -> bool {
    forall|i: int| 0 <= i < m.len() ==> (#[trigger] m[i]).1.wf()
}

/// The word that selects the write side of an object type's filters.
pub open spec fn write_word() -> Seq<char> {
    seq!['w', 'r', 'i', 't', 'e']
}

/// The side of `acl` that `action` selects: write for "write", read otherwise.
pub open spec fn side_view(acl: ObjectAttributeAcl, action: Seq<char>) -> FilterView {
    if action == write_word() {
        acl.write@
    } else {
        acl.read@
    }
}

/// The index of the first entry for object type `k`, if any.
pub fn find_acl(m: &AttrAcls, k: &str) -> (r: Option<usize>)
    ensures
        match r {
            None => lookup_acl(m@, k@) is None,
            Some(i) => i < m@.len() && lookup_acl(m@, k@) == Some(m@[i as int].1) && m@[i as int].0@
                == k@,
        },
{
    let key = k.to_owned();
    let mut i: usize = 0;
    assert(m@.skip(0) =~= m@);
    while i < m.len()
        invariant
            i <= m@.len(),
            key@ == k@,
            lookup_acl(m@, k@) == lookup_acl(m@.skip(i as int), k@),
        decreases m@.len() - i,
    {
        assert(m@.skip(i as int)[0] == m@[i as int]);
        if m[i].0 == key {
            return Some(i);
        }
        assert(m@.skip(i as int).skip(1) =~= m@.skip(i + 1));
        i = i + 1;
    }
    None
}

proof fn lemma_lookup_wf(m: Seq<(String, ObjectAttributeAcl)>, i: int)
    requires
        acls_wf(m),
        0 <= i < m.len(),
    ensures
        m[i].1.wf(),
{
}

/// One compiled scope rule.
#[derive(Debug)]
pub struct ScopedEntry {
    /// The scope's distinguished name in small letters; empty for a rule on the
    /// principal's own entry.
    pub dn_lower: String,
    /// Whether the rule covers the whole subtree below `dn_lower`, not the entry alone.
    pub subtree: bool,
    /// Whether the rule applies only when the target is the principal's own entry.
    pub self_only: bool,
    /// Whether the rule takes permissions away instead of granting them.
    pub deny: bool,
    /// Rules of higher priority are applied later.
    pub priority: i16,
    /// The permissions granted or taken away.
    pub permissions: PermissionBitmap,
    /// Attribute filters by object type.
    pub attr_acls: AttrAcls,
}

/// Whether the rule `e` applies to the target `target` (in small letters).
pub open spec fn scope_matches(e: ScopedEntry, target: Seq<char>, is_self: bool) -> bool {
    if e.self_only && !is_self {
        false
    } else if e.subtree {
        e.dn_lower@.len() == 0 || target == e.dn_lower@ || has_suffix(
            target,
            seq![','] + e.dn_lower@,
        )
    } else {
        target == e.dn_lower@
    }
}

impl ScopedEntry {
    /// Whether this rule applies to `target_dn_lower`; `is_self` tells whether that is the
    /// principal's own entry.
    pub fn matches(&self, target_dn_lower: &str, user_dn_lower: &str, is_self: bool) -> (r: bool)
        ensures
            r == scope_matches(*self, target_dn_lower@, is_self),
    {
        if self.self_only && !is_self {
            return false;
        }
        if self.subtree {
            let d = self.dn_lower.as_str();
            let n = target_dn_lower.unicode_len();
            let m = d.unicode_len();
            if m == 0 {
                return true;
            }
            if str_eq(target_dn_lower, d) {
                return true;
            }
            let ghost t = target_dn_lower@;
            let ghost cd = seq![','] + d@;
            if n <= m {
                return false;
            }
            let c = target_dn_lower.get_char(n - m - 1);
            let e = ends_with(target_dn_lower, d);
            proof {
                if has_suffix(t, cd) {
                    assert(t.subrange(t.len() - cd.len(), t.len() as int)[0] == cd[0]);
                    assert(t.subrange(n - m, n as int) =~= t.subrange(t.len() - cd.len(), t.len() as int).subrange(1, cd.len() as int));
                    assert(cd.subrange(1, cd.len() as int) =~= d@);
                }
                if c == ',' && e {
                    assert(t.subrange(t.len() - cd.len(), t.len() as int) =~= cd);
                }
            }
            c == ',' && e
        } else {
            str_eq(target_dn_lower, self.dn_lower.as_str())
        }
    }
}

/// The permissions after applying rule `e` to `eff`.
pub open spec fn step_perms(eff: Set<nat>, e: ScopedEntry, target: Seq<char>, is_self: bool) -> Set<
    nat,
> {
    if scope_matches(e, target, is_self) {
        if e.deny {
            eff.difference(e.permissions@)
        } else {
            eff.union(e.permissions@)
        }
    } else {
        eff
    }
}

/// The permissions after applying the rules `es`, in order, to `eff`.
pub open spec fn fold_perms(eff: Set<nat>, es: Seq<ScopedEntry>, target: Seq<char>, is_self: bool) -> Set<
    nat,
>
    decreases es.len(),
{
    if es.len() == 0 {
        eff
    } else {
        step_perms(fold_perms(eff, es.drop_last(), target, is_self), es.last(), target, is_self)
    }
}

/// The filter after applying rule `e` to `f`, for one object type and action.
pub open spec fn step_filter(
    f: FilterView,
    e: ScopedEntry,
    object_type: Seq<char>,
    action: Seq<char>,
    target: Seq<char>,
    is_self: bool,
) -> FilterView {
    if scope_matches(e, target, is_self) {
        match lookup_acl(e.attr_acls@, object_type) {
            Some(acl) => {
                let sel = side_view(acl, action);
                if e.deny {
                    (f.0, f.1.union(sel.1))
                } else {
                    merge_view(f, sel)
                }
            },
            None => f,
        }
    } else {
        f
    }
}

/// The filter after applying the rules `es`, in order, to `f`.
pub open spec fn fold_filter(
    f: FilterView,
    es: Seq<ScopedEntry>,
    object_type: Seq<char>,
    action: Seq<char>,
    target: Seq<char>,
    is_self: bool,
) -> FilterView
    decreases es.len(),
{
    if es.len() == 0 {
        f
    } else {
        step_filter(
            fold_filter(f, es.drop_last(), object_type, action, target, is_self),
            es.last(),
            object_type,
            action,
            target,
            is_self,
        )
    }
}

/// The filter that a map of global filters gives for one object type and action.
pub open spec fn base_filter(m: Seq<(String, ObjectAttributeAcl)>, object_type: Seq<char>, action: Seq<char>) -> FilterView {
    match lookup_acl(m, object_type) {
        Some(acl) => side_view(acl, action),
        None => (None, Set::<Seq<char>>::empty()),
    }
}

/// Where a rule of priority `p` goes in `s`: after every leading rule of priority at
/// most `p`.
pub open spec fn ins_pos(s: Seq<ScopedEntry>, p: i16) -> int
    decreases s.len(),
{
    if s.len() == 0 {
        0
    } else if s[0].priority > p {
        0
    } else {
        1 + ins_pos(s.skip(1), p)
    }
}

/// The rules `s` sorted by ascending priority, rules of equal priority in their order in `s`.
pub open spec fn sort_by_priority(s: Seq<ScopedEntry>) -> Seq<ScopedEntry>
    decreases s.len(),
{
    if s.len() == 0 {
        s
    } else {
        let r = sort_by_priority(s.drop_last());
        r.insert(ins_pos(r, s.last().priority), s.last())
    }
}

/// Whether the rules are in ascending priority.
pub open spec fn priority_sorted(s: Seq<ScopedEntry>) -> bool {
    forall|i: int, j: int| 0 <= i < j < s.len() ==> s[i].priority <= s[j].priority
}

proof fn lemma_ins_pos(s: Seq<ScopedEntry>, p: i16)
    ensures
        0 <= ins_pos(s, p) <= s.len(),
        forall|i: int| 0 <= i < ins_pos(s, p) ==> s[i].priority <= p,
        ins_pos(s, p) < s.len() ==> s[ins_pos(s, p)].priority > p,
    decreases s.len(),
{
    if s.len() > 0 && s[0].priority <= p {
        lemma_ins_pos(s.skip(1), p);
        assert forall|i: int| 0 <= i < ins_pos(s, p) implies s[i].priority <= p by {
            if i > 0 {
                assert(s[i] == s.skip(1)[i - 1]);
            }
        }
        if ins_pos(s, p) < s.len() {
            assert(s[ins_pos(s, p)] == s.skip(1)[ins_pos(s.skip(1), p)]);
        }
    }
}

/// Sorting gives rules in ascending priority, as many as were given.
pub proof fn lemma_sort_sorted(s: Seq<ScopedEntry>)
    ensures
        priority_sorted(sort_by_priority(s)),
        sort_by_priority(s).len() == s.len(),
    decreases s.len(),
{
    if s.len() > 0 {
        let r = sort_by_priority(s.drop_last());
        lemma_sort_sorted(s.drop_last());
        let p = s.last().priority;
        let k = ins_pos(r, p);
        lemma_ins_pos(r, p);
        let t = r.insert(k, s.last());
        assert forall|i: int, j: int| 0 <= i < j < t.len() implies t[i].priority <= t[j].priority by {
            if j < k {
                assert(t[i] == r[i] && t[j] == r[j]);
            } else if j == k {
                assert(t[i] == r[i]);
            } else if i < k {
                assert(t[i] == r[i] && t[j] == r[j - 1]);
                assert(r[i].priority <= p);
                assert(r[k].priority > p);
                assert(r[k].priority <= r[j - 1].priority);
            } else if i == k {
                assert(t[j] == r[j - 1]);
                assert(r[k].priority > p);
                assert(r[k].priority <= r[j - 1].priority || j - 1 == k);
            } else {
                assert(t[i] == r[i - 1] && t[j] == r[j - 1]);
            }
        }
    }
}

/// The outcome of an object-level check: whether it is allowed, and the attribute filter
/// that applies to the target.
#[derive(Debug)]
pub struct AclVerdict {
    pub allowed: bool,
    pub attr_filter: AttributeFilter,
}

impl Default for AclVerdict {
    fn default() -> (r: Self)
        ensures
            !r.allowed,
            r.attr_filter@ == (Some(Set::<Seq<char>>::empty()), Set::<Seq<char>>::empty()),
    {
        AclVerdict { allowed: false, attr_filter: AttributeFilter::deny_all() }
    }
}

/// The compiled access rules of one principal.
#[derive(Debug)]
pub struct UserAcl {
    user_dn: String,
    user_dn_lower: String,
    global_allow: PermissionBitmap,
    global_deny: PermissionBitmap,
    global_attr_acls: AttrAcls,
    scoped: Vec<ScopedEntry>,
}

impl UserAcl {
    /// The principal's distinguished name as given.
    pub closed spec fn dn_view(&self) -> Seq<char> {
        self.user_dn@
    }

    /// The principal's distinguished name in small letters.
    pub closed spec fn dn_lower_view(&self) -> Seq<char> {
        self.user_dn_lower@
    }

    /// Permissions granted everywhere.
    pub closed spec fn allow_spec(&self) -> PermissionBitmap {
        self.global_allow
    }

    /// Permissions taken away everywhere.
    pub closed spec fn deny_spec(&self) -> PermissionBitmap {
        self.global_deny
    }

    /// Attribute filters that hold everywhere.
    pub closed spec fn global_acls(&self) -> Seq<(String, ObjectAttributeAcl)> {
        self.global_attr_acls@
    }

    /// The scope rules, in the order they are applied.
    pub closed spec fn scoped_seq(&self) -> Seq<ScopedEntry> {
        self.scoped@
    }

    /// What every compiled value keeps: see `wf`.
    #[verifier::type_invariant]
    pub(crate) open spec fn inv(&self) -> bool {
        self.wf()
    }

    /// The folded name matches the name, every filter is well formed, and the rules are
    /// in ascending priority.
    pub open spec fn wf(&self) -> bool {
        &&& self.dn_lower_view() == ascii_lower(self.dn_view())
        &&& acls_wf(self.global_acls())
        &&& forall|i: int| 0 <= i < self.scoped_seq().len() ==> acls_wf(#[trigger] self.scoped_seq()[i].attr_acls@)
        &&& priority_sorted(self.scoped_seq())
    }

    /// Whether `target` is the principal's own entry, case-insensitively.
    pub open spec fn is_self_spec(&self, target: Seq<char>) -> bool {
        ascii_lower(target) == self.dn_lower_view()
    }

    /// The permissions the principal holds on `target`.
    pub open spec fn effective(&self, target: Seq<char>) -> Set<nat> {
        fold_perms(
            self.allow_spec()@.difference(self.deny_spec()@),
            self.scoped_seq(),
            ascii_lower(target),
            self.is_self_spec(target),
        )
    }

    /// Whether the principal holds every permission of `required` on `target`.
    pub open spec fn allows(&self, target: Seq<char>, required: Set<nat>) -> bool {
        required == Set::<nat>::empty() || required.subset_of(self.effective(target))
    }

    /// The attribute filter for `object_type` and `action` on `target`.
    pub open spec fn resolved_filter(&self, target: Seq<char>, object_type: Seq<char>, action: Seq<char>) -> FilterView {
        fold_filter(
            base_filter(self.global_acls(), object_type, action),
            self.scoped_seq(),
            object_type,
            action,
            ascii_lower(target),
            self.is_self_spec(target),
        )
    }

    /// The compiled rules of the principal `user_dn`; `scoped` is put in ascending
    /// priority, rules of equal priority kept in their order.
    pub fn new(
        user_dn: String,
        global_allow: PermissionBitmap,
        global_deny: PermissionBitmap,
        global_attr_acls: AttrAcls,
        scoped: Vec<ScopedEntry>,
    ) -> (r: Self)
        requires
            acls_wf(global_attr_acls@),
            forall|i: int| 0 <= i < scoped@.len() ==> acls_wf(#[trigger] scoped@[i].attr_acls@),
        ensures
            r.wf(),
            r.dn_view() == user_dn@,
            r.allow_spec() == global_allow,
            r.deny_spec() == global_deny,
            r.global_acls() == global_attr_acls@,
            r.scoped_seq() == sort_by_priority(scoped@),
    {
        let ghost s = scoped@;
        let mut rest = scoped;
        let mut sorted: Vec<ScopedEntry> = Vec::new();
        let n = rest.len();
        let mut k: usize = 0;
        while k < n
            invariant
                n == s.len(),
                k <= n,
                rest@ == s.skip(k as int),
                sorted@ == sort_by_priority(s.subrange(0, k as int)),
                forall|i: int| 0 <= i < s.len() ==> acls_wf(#[trigger] s[i].attr_acls@),
                forall|i: int| 0 <= i < sorted@.len() ==> acls_wf(#[trigger] sorted@[i].attr_acls@),
            decreases n - k,
        {
            let ghost before = sorted@;
            let e = rest.remove(0);
            assert(e == s[k as int]);
            assert(rest@ =~= s.skip(k + 1));
            let p = e.priority;
            let mut j: usize = 0;
            assert(before.skip(0) =~= before);
            while j < sorted.len() && sorted[j].priority <= p
                invariant
                    sorted@ == before,
                    j <= sorted@.len(),
                    ins_pos(before, p) == j + ins_pos(before.skip(j as int), p),
                decreases sorted@.len() - j,
            {
                assert(before.skip(j as int)[0] == before[j as int]);
                assert(before.skip(j as int).skip(1) =~= before.skip(j + 1));
                j = j + 1;
            }
            proof {
                if j < before.len() {
                    assert(before.skip(j as int)[0] == before[j as int]);
                }
                let sub = s.subrange(0, k + 1);
                assert(sub.drop_last() =~= s.subrange(0, k as int));
                assert(sub.last() == s[k as int]);
            }
            sorted.insert(j, e);
            proof {
                assert forall|i: int| 0 <= i < sorted@.len() implies acls_wf(#[trigger] sorted@[i].attr_acls@) by {
                    if i < j {
                        assert(sorted@[i] == before[i]);
                    } else if i > j {
                        assert(sorted@[i] == before[i - 1]);
                    }
                }
            }
            k = k + 1;
        }
        proof {
            assert(s.subrange(0, n as int) =~= s);
            lemma_sort_sorted(s);
        }
        let user_dn_lower = to_lower(user_dn.as_str());
        UserAcl { user_dn, user_dn_lower, global_allow, global_deny, global_attr_acls, scoped: sorted }
    }

    /// The value made of exactly these parts, when they keep the invariant.
    pub(crate) fn from_parts(
        user_dn: String,
        global_allow: PermissionBitmap,
        global_deny: PermissionBitmap,
        global_attr_acls: AttrAcls,
        scoped: Vec<ScopedEntry>,
    ) -> (r: Self)
        requires
            acls_wf(global_attr_acls@),
            forall|i: int| 0 <= i < scoped@.len() ==> acls_wf(#[trigger] scoped@[i].attr_acls@),
            priority_sorted(scoped@),
        ensures
            r.dn_view() == user_dn@,
            r.allow_spec() == global_allow,
            r.deny_spec() == global_deny,
            r.global_acls() == global_attr_acls@,
            r.scoped_seq() == scoped@,
    {
        let user_dn_lower = to_lower(user_dn.as_str());
        UserAcl { user_dn, user_dn_lower, global_allow, global_deny, global_attr_acls, scoped }
    }

    /// A principal with no permission anywhere.
    pub fn empty(user_dn: String) -> (r: Self)
        ensures
            r.wf(),
            r.dn_view() == user_dn@,
            r.allow_spec()@ == Set::<nat>::empty(),
            r.deny_spec()@ == Set::<nat>::empty(),
            r.global_acls().len() == 0,
            r.scoped_seq().len() == 0,
    {
        let r = Self::new(user_dn, PermissionBitmap::new(), PermissionBitmap::new(), Vec::new(), Vec::new());
        proof {
            assert(sort_by_priority(Seq::<ScopedEntry>::empty()).len() == 0);
        }
        r
    }

    /// A principal with every permission everywhere.
    pub fn superuser(user_dn: String) -> (r: Self)
        ensures
            r.wf(),
            r.dn_view() == user_dn@,
            r.allow_spec()@ == Set::new(|i: nat| i < 128),
            r.deny_spec()@ == Set::<nat>::empty(),
            r.global_acls().len() == 0,
            r.scoped_seq().len() == 0,
    {
        let r = Self::new(user_dn, PermissionBitmap::all(), PermissionBitmap::new(), Vec::new(), Vec::new());
        proof {
            assert(sort_by_priority(Seq::<ScopedEntry>::empty()).len() == 0);
        }
        r
    }

    /// The principal's distinguished name as given.
    pub fn user_dn(&self) -> (r: &str)
        ensures
            r@ == self.dn_view(),
    {
        self.user_dn.as_str()
    }

    /// Whether `target_dn` is the principal's own entry, case-insensitively.
    pub fn is_self(&self, target_dn: &str) -> (r: bool)
        ensures
            r == self.is_self_spec(target_dn@),
    {
        let t = to_lower(target_dn);
        t == self.user_dn_lower
    }

    /// The permissions the principal holds on `target_dn`: the global grants less the
    /// global denials, then each matching scope rule in ascending priority, a grant
    /// adding its permissions and a denial taking its permissions away.
    pub fn effective_permissions(&self, target_dn: &str) -> (r: PermissionBitmap)
        ensures
            r@ == self.effective(target_dn@),
    {
        let target_lower = to_lower(target_dn);
        let is_self = target_lower == self.user_dn_lower;
        let mut effective = self.global_allow.subtract(self.global_deny);
        let mut i: usize = 0;
        proof {
            assert(self.scoped@.subrange(0, 0) =~= Seq::<ScopedEntry>::empty());
        }
        while i < self.scoped.len()
            invariant
                i <= self.scoped@.len(),
                target_lower@ == ascii_lower(target_dn@),
                is_self == self.is_self_spec(target_dn@),
                effective@ == fold_perms(
                    self.global_allow@.difference(self.global_deny@),
                    self.scoped@.subrange(0, i as int),
                    target_lower@,
                    is_self,
                ),
            decreases self.scoped@.len() - i,
        {
            let entry = &self.scoped[i];
            proof {
                let sub = self.scoped@.subrange(0, i + 1);
                assert(sub.drop_last() =~= self.scoped@.subrange(0, i as int));
                assert(sub.last() == self.scoped@[i as int]);
            }
            if entry.matches(target_lower.as_str(), self.user_dn_lower.as_str(), is_self) {
                if entry.deny {
                    effective = effective.subtract(entry.permissions);
                } else {
                    effective = effective.union(entry.permissions);
                }
            }
            i = i + 1;
        }
        proof {
            assert(self.scoped@.subrange(0, self.scoped@.len() as int) =~= self.scoped@);
        }
        effective
    }

    /// Whether the principal holds every permission of `required` on `target_dn`; an
    /// empty `required` is always allowed.
    pub fn check(&self, target_dn: &str, required: PermissionBitmap) -> (r: bool)
        ensures
            r == self.allows(target_dn@, required@),
    {
        if required.is_empty() {
            return true;
        }
        let effective = self.effective_permissions(target_dn);
        effective.has(required)
    }

    /// The object-level verdict on `target_dn`, with the read filter that applies to it
    /// for the nameless object type.
    pub fn evaluate(&self, target_dn: &str, required: PermissionBitmap) -> (r: AclVerdict)
        ensures
            r.allowed == self.allows(target_dn@, required@),
            r.attr_filter@ == self.resolved_filter(target_dn@, Seq::<char>::empty(), seq!['r', 'e', 'a', 'd']),
    {
        proof {
            use_type_invariant(self);
        }
        let allowed = self.check(target_dn, required);
        let attr_filter = self.resolve_attr_filter_for_type(target_dn, "", "read");
        proof {
            reveal_strlit("");
            reveal_strlit("read");
            assert(""@ =~= Seq::<char>::empty());
            assert("read"@ =~= seq!['r', 'e', 'a', 'd']);
        }
        AclVerdict { allowed, attr_filter }
    }

    /// The attribute filter for `object_type` and `action` on `target_dn`: the global
    /// one for that type (unrestricted if none), then for each matching scope rule with
    /// filters for that type the same-action side, merged in for a grant, its denied
    /// names added for a denial.
    pub fn resolve_attr_filter_for_type(&self, target_dn: &str, object_type: &str, action: &str) -> (r: AttributeFilter)
        ensures
            r.wf(),
            r@ == self.resolved_filter(target_dn@, object_type@, action@),
    {
        proof {
            use_type_invariant(self);
        }
        let target_lower = to_lower(target_dn);
        let is_self = target_lower == self.user_dn_lower;
        let is_write = str_eq(action, "write");
        proof {
            reveal_strlit("write");
            assert("write"@ =~= write_word());
        }
        let mut filter = match find_acl(&self.global_attr_acls, object_type) {
            Some(k) => {
                proof {
                    lemma_lookup_wf(self.global_attr_acls@, k as int);
                }
                if is_write {
                    self.global_attr_acls[k].1.write.copy()
                } else {
                    self.global_attr_acls[k].1.read.copy()
                }
            },
            None => AttributeFilter::allow_all(),
        };
        let mut i: usize = 0;
        proof {
            assert(self.scoped@.subrange(0, 0) =~= Seq::<ScopedEntry>::empty());
        }
        while i < self.scoped.len()
            invariant
                self.wf(),
                i <= self.scoped@.len(),
                target_lower@ == ascii_lower(target_dn@),
                is_self == self.is_self_spec(target_dn@),
                is_write == (action@ == write_word()),
                filter.wf(),
                filter@ == fold_filter(
                    base_filter(self.global_attr_acls@, object_type@, action@),
                    self.scoped@.subrange(0, i as int),
                    object_type@,
                    action@,
                    target_lower@,
                    is_self,
                ),
            decreases self.scoped@.len() - i,
        {
            let entry = &self.scoped[i];
            proof {
                let sub = self.scoped@.subrange(0, i + 1);
                assert(sub.drop_last() =~= self.scoped@.subrange(0, i as int));
                assert(sub.last() == self.scoped@[i as int]);
                assert(acls_wf(self.scoped@[i as int].attr_acls@));
            }
            if entry.matches(target_lower.as_str(), self.user_dn_lower.as_str(), is_self) {
                match find_acl(&entry.attr_acls, object_type) {
                    Some(k) => {
                        proof {
                            lemma_lookup_wf(entry.attr_acls@, k as int);
                        }
                        let acl = &entry.attr_acls[k].1;
                        let side = if is_write {
                            &acl.write
                        } else {
                            &acl.read
                        };
                        if entry.deny {
                            filter.add_denied_names(side.denied());
                        } else {
                            filter.merge(side);
                        }
                    },
                    None => {},
                }
            }
            i = i + 1;
        }
        proof {
            assert(self.scoped@.subrange(0, self.scoped@.len() as int) =~= self.scoped@);
        }
        filter
    }

    /// Whether the principal may, on `target_dn`, hold `required` and then pass
    /// `attribute` through the filter for `object_type` and `action`.
    pub fn check_attribute(
        &self,
        target_dn: &str,
        required: PermissionBitmap,
        object_type: &str,
        action: &str,
        attribute: &str,
    ) -> (r: bool)
        ensures
            r == (self.allows(target_dn@, required@) && filter_permits(
                self.resolved_filter(target_dn@, object_type@, action@),
                attribute@,
            )),
    {
        proof {
            use_type_invariant(self);
        }
        if !self.check(target_dn, required) {
            return false;
        }
        let f = self.resolve_attr_filter_for_type(target_dn, object_type, action);
        f.is_attribute_permitted(attribute)
    }

    /// The names of `attributes` that `check_attribute` lets through, in their order;
    /// none when `required` is not held.
    pub fn filter_attributes(
        &self,
        target_dn: &str,
        required: PermissionBitmap,
        object_type: &str,
        action: &str,
        attributes: &[&str],
    ) -> (r: Vec<String>)
        ensures
            same_strings(
                r@,
                if self.allows(target_dn@, required@) {
                    attributes@.filter(
                        |a: &str|
                            filter_permits(
                                self.resolved_filter(target_dn@, object_type@, action@),
                                a@,
                            ),
                    )
                } else {
                    Seq::<&str>::empty()
                },
            ),
    {
        proof {
            use_type_invariant(self);
        }
        if !self.check(target_dn, required) {
            let r: Vec<String> = Vec::new();
            return r;
        }
        let f = self.resolve_attr_filter_for_type(target_dn, object_type, action);
        let kept = f.filter_attributes(attributes);
        let r = owned_all(&kept);
        proof {
            let fv = self.resolved_filter(target_dn@, object_type@, action@);
            assert(kept@ == attributes@.filter(|a: &str| f.permits(a@)));
            assert((|a: &str| f.permits(a@)) =~= (|a: &str| filter_permits(fv, a@)));
        }
        r
    }

    /// The scope rules, in the order they are applied.
    pub fn scoped_entries(&self) -> (r: &[ScopedEntry])
        ensures
            r@ == self.scoped_seq(),
    {
        self.scoped.as_slice()
    }

    /// Permissions granted everywhere.
    pub fn global_allow(&self) -> (r: PermissionBitmap)
        ensures
            r == self.allow_spec(),
    {
        self.global_allow
    }

    /// Permissions taken away everywhere.
    pub fn global_deny(&self) -> (r: PermissionBitmap)
        ensures
            r == self.deny_spec(),
    {
        self.global_deny
    }

    /// Attribute filters that hold everywhere.
    pub fn global_attr_acls(&self) -> (r: &AttrAcls)
        ensures
            r@ == self.global_acls(),
    {
        &self.global_attr_acls
    }
}

/// A rule limited to the principal's own entry applies to no other entry.
pub proof fn lemma_self_only(e: ScopedEntry, target: Seq<char>, is_self: bool)
    requires
        e.self_only,
        scope_matches(e, target, is_self),
    ensures
        is_self,
{
}

/// Two granting rules that both apply, at priorities 1 and 100, give the union of their
/// permissions whichever order they come in; a granting rule at priority 1 and a denying
/// rule at priority 10 that both apply leave out every permission the denial names.
pub proof fn lemma_priority_stability(
    base: Set<nat>,
    a: ScopedEntry,
    b: ScopedEntry,
    target: Seq<char>,
    is_self: bool,
)
    requires
        scope_matches(a, target, is_self),
        scope_matches(b, target, is_self),
        a.priority == 1,
    ensures
        !a.deny && !b.deny && b.priority == 100 ==> fold_perms(base, sort_by_priority(seq![a, b]), target, is_self)
            == base.union(a.permissions@).union(b.permissions@),
        !a.deny && !b.deny && b.priority == 100 ==> fold_perms(base, sort_by_priority(seq![b, a]), target, is_self)
            == base.union(a.permissions@).union(b.permissions@),
        !a.deny && b.deny && b.priority == 10 ==> (forall|i: nat| #[trigger] b.permissions@.contains(i) ==> !fold_perms(base, sort_by_priority(seq![a, b]), target, is_self).contains(i)),
        !a.deny && b.deny && b.priority == 10 ==> (forall|i: nat| #[trigger] b.permissions@.contains(i) ==> !fold_perms(base, sort_by_priority(seq![b, a]), target, is_self).contains(i)),
{
    let ab = seq![a, b];
    let ba = seq![b, a];
    assert(ab.drop_last() =~= seq![a]);
    assert(ba.drop_last() =~= seq![b]);
    assert(seq![a].drop_last() =~= Seq::<ScopedEntry>::empty());
    assert(seq![b].drop_last() =~= Seq::<ScopedEntry>::empty());
    let e = Seq::<ScopedEntry>::empty();
    assert(sort_by_priority(e) == e);
    assert(ins_pos(e, a.priority) == 0);
    assert(ins_pos(e, b.priority) == 0);
    assert(sort_by_priority(seq![a]) =~= seq![a]);
    assert(sort_by_priority(seq![b]) =~= seq![b]);
    if a.priority < b.priority {
        assert(seq![a].skip(1) =~= e);
        assert(ins_pos(seq![a], b.priority) == 1);
        assert(ins_pos(seq![b], a.priority) == 0);
        assert(sort_by_priority(ab) =~= seq![a, b]);
        assert(sort_by_priority(ba) =~= seq![a, b]);
        let s = seq![a, b];
        assert(s.drop_last() =~= seq![a]);
        assert(seq![a].drop_last() =~= e);
        assert(fold_perms(base, e, target, is_self) == base);
        assert(fold_perms(base, seq![a], target, is_self) == step_perms(base, a, target, is_self));
        assert(fold_perms(base, s, target, is_self) == step_perms(step_perms(base, a, target, is_self), b, target, is_self));
        if !a.deny && !b.deny {
            assert(fold_perms(base, s, target, is_self) =~= base.union(a.permissions@).union(b.permissions@));
        }
    }
}

/// An empty requirement is met on every target.
pub proof fn lemma_empty_required(acl: UserAcl, target: Seq<char>)
    ensures
        acl.allows(target, Set::<nat>::empty()),
{
}

/// Whether `r` holds owned copies of the strings of `v`, in order.
pub open spec fn same_strings(r: Seq<String>, v: Seq<&str>) -> bool {
    r.len() == v.len() && forall|j: int| 0 <= j < r.len() ==> (#[trigger] r[j])@ == v[j]@
}

/// Owned copies of a list of strings.
fn owned_all(v: &Vec<&str>) -> (r: Vec<String>)
    ensures
        same_strings(r@, v@),
{
    let mut r: Vec<String> = Vec::new();
    let mut i: usize = 0;
    while i < v.len()
        invariant
            i <= v@.len(),
            r@.len() == i,
            forall|j: int| 0 <= j < i ==> (#[trigger] r@[j])@ == v@[j]@,
        decreases v@.len() - i,
    {
        let o = v[i].to_owned();
        r.push(o);
        i = i + 1;
    }
    r
}

} // verus!
