//! Folding the rows fetched for a principal into its compiled rules.
use vstd::prelude::*;

use crate::attributes::{lower_names, merge_view, AttributeFilter, FilterView, ObjectAttributeAcl};
use crate::bitmap::{pair_bit, PermissionBitmap};
use crate::engine::{
    acls_wf, find_acl, lookup_acl, sort_by_priority, AttrAcls, ScopedEntry, UserAcl,
};
use crate::text::{ascii_lower, eq_ignore_case, str_eq};

verus! {

/// One attribute rule of a policy.
#[derive(Debug)]
pub struct AttrRuleRow {
    /// The object type the rule is about.
    pub object_type: String,
    /// "read" or "write"; rules with another action are ignored.
    pub action: String,
    /// "allow" or "deny"; rules of another kind are ignored.
    pub rule_type: String,
    /// The attribute names.
    pub attributes: Vec<String>,
}

/// One assignment of a policy to the principal, as the loader hands it over.
#[derive(Debug)]
pub struct AclRow {
    /// The policy's name, for diagnostics.
    pub policy_name: String,
    /// Positions 0 to 63 of the policy's permissions, as a signed word.
    pub perm_low: i64,
    /// Positions 64 to 127 of the policy's permissions, as a signed word.
    pub perm_high: i64,
    /// The scope's distinguished name; empty for the whole directory.
    pub scope_dn: String,
    /// "base" or "subtree", in any case; anything else counts as "base".
    pub scope_type: String,
    /// Whether the assignment applies only to the principal's own entry.
    pub self_only: bool,
    /// Whether the assignment takes permissions away.
    pub deny: bool,
    /// Higher priorities are applied later.
    pub priority: i16,
    /// The policy's attribute rules.
    pub attr_rules: Vec<AttrRuleRow>,
}

/// The word "read".
pub open spec fn read_word() -> Seq<char> {
    seq!['r', 'e', 'a', 'd']
}

/// The word "allow".
pub open spec fn allow_word() -> Seq<char> {
    seq!['a', 'l', 'l', 'o', 'w']
}

/// The word "deny".
pub open spec fn deny_word() -> Seq<char> {
    seq!['d', 'e', 'n', 'y']
}

/// The word "subtree".
pub open spec fn subtree_word() -> Seq<char> {
    seq!['s', 'u', 'b', 't', 'r', 'e', 'e']
}

/// Whether the rule `r` is of kind `kind` for object type `k` and action `act`.
pub open spec fn rule_is(r: AttrRuleRow, k: Seq<char>, act: Seq<char>, kind: Seq<char>) -> bool {
    r.object_type@ == k && r.action@ == act && r.rule_type@ == kind
}

/// Whether some rule of `rules` is of kind `kind` for `k` and `act`.
pub open spec fn has_rule(rules: Seq<AttrRuleRow>, k: Seq<char>, act: Seq<char>, kind: Seq<char>) -> bool {
    exists|i: int| 0 <= i < rules.len() && rule_is(#[trigger] rules[i], k, act, kind)
}

/// The folded names of the rules of kind `kind` for `k` and `act`.
pub open spec fn rule_names(rules: Seq<AttrRuleRow>, k: Seq<char>, act: Seq<char>, kind: Seq<char>) -> Set<Seq<char>> {
    Set::new(
        |x: Seq<char>|
            exists|i: int|
                0 <= i < rules.len() && rule_is(#[trigger] rules[i], k, act, kind) && lower_names(
                    rules[i].attributes@,
                ).contains(x),
    )
}

/// The filter the rules give for `k` and `act`: a whitelist of the allowed names if any
/// rule allows, and the denied names.
pub open spec fn rule_filter(rules: Seq<AttrRuleRow>, k: Seq<char>, act: Seq<char>) -> FilterView {
    (
        if has_rule(rules, k, act, allow_word()) {
            Some(rule_names(rules, k, act, allow_word()))
        } else {
            None
        },
        rule_names(rules, k, act, deny_word()),
    )
}

/// Whether some rule is about object type `k`.
pub open spec fn has_type(rules: Seq<AttrRuleRow>, k: Seq<char>) -> bool {
    exists|i: int| 0 <= i < rules.len() && (#[trigger] rules[i]).object_type@ == k
}

/// The read and write filters an attribute map holds for `k`.
pub open spec fn acl_at(m: Seq<(String, ObjectAttributeAcl)>, k: Seq<char>) -> Option<(FilterView, FilterView)> {
    match lookup_acl(m, k) {
        Some(a) => Some((a.read@, a.write@)),
        None => None,
    }
}

/// The read and write filters the rules give for `k`, if any rule is about `k`.
pub open spec fn rules_acl(rules: Seq<AttrRuleRow>, k: Seq<char>) -> Option<(FilterView, FilterView)> {
    if has_type(rules, k) {
        Some((rule_filter(rules, k, read_word()), rule_filter(rules, k, write_word_c())))
    } else {
        None
    }
}

/// The word "write".
pub open spec fn write_word_c() -> Seq<char> {
    crate::engine::write_word()
}

/// The filters of an allowing global assignment joined into the global ones.
pub open spec fn combine_allow(g: Option<(FilterView, FilterView)>, n: Option<(FilterView, FilterView)>) -> Option<(FilterView, FilterView)> {
    match (g, n) {
        (Some(a), Some(b)) => Some((merge_view(a.0, b.0), merge_view(a.1, b.1))),
        (Some(a), None) => Some(a),
        (None, Some(b)) => Some(b),
        (None, None) => None,
    }
}

/// The denied names of a denying global assignment added to the global ones; a type
/// not yet there starts unrestricted.
pub open spec fn combine_deny(g: Option<(FilterView, FilterView)>, n: Option<(FilterView, FilterView)>) -> Option<(FilterView, FilterView)> {
    match n {
        None => g,
        Some(b) => {
            let a = match g {
                Some(a) => a,
                None => ((None, Set::<Seq<char>>::empty()), (None, Set::<Seq<char>>::empty())),
            };
            Some(((a.0.0, a.0.1.union(b.0.1)), (a.1.0, a.1.1.union(b.1.1))))
        },
    }
}

/// Whether a row applies to the whole directory: no scope and not limited to the
/// principal's own entry.
pub open spec fn is_global(row: AclRow) -> bool {
    row.scope_dn@.len() == 0 && !row.self_only
}

/// The permissions whose signed halves are `low` and `high`.
pub open spec fn halves_view(low: i64, high: i64) -> Set<nat> {
    Set::new(|i: nat| i < 128 && pair_bit(low as u64, high as u64, i))
}

/// The permissions of the global rows whose `deny` flag is `deny`.
pub open spec fn global_perms(rows: Seq<AclRow>, deny: bool) -> Set<nat>
    decreases rows.len(),
{
    if rows.len() == 0 {
        Set::<nat>::empty()
    } else {
        let prev = global_perms(rows.drop_last(), deny);
        let row = rows.last();
        if is_global(row) && row.deny == deny {
            prev.union(halves_view(row.perm_low, row.perm_high))
        } else {
            prev
        }
    }
}

/// The global filters for `k` after the rows.
pub open spec fn global_acl(rows: Seq<AclRow>, k: Seq<char>) -> Option<(FilterView, FilterView)>
    decreases rows.len(),
{
    if rows.len() == 0 {
        None
    } else {
        let prev = global_acl(rows.drop_last(), k);
        let row = rows.last();
        if !is_global(row) {
            prev
        } else if row.deny {
            combine_deny(prev, rules_acl(row.attr_rules@, k))
        } else {
            combine_allow(prev, rules_acl(row.attr_rules@, k))
        }
    }
}

/// The rows that become scope rules, in order.
pub open spec fn scoped_rows(rows: Seq<AclRow>) -> Seq<AclRow>
    decreases rows.len(),
{
    if rows.len() == 0 {
        rows
    } else {
        let prev = scoped_rows(rows.drop_last());
        if is_global(rows.last()) {
            prev
        } else {
            prev.push(rows.last())
        }
    }
}

/// Whether `e` is the scope rule compiled from `row`.
pub open spec fn entry_of_row(e: ScopedEntry, row: AclRow) -> bool {
    &&& e.dn_lower@ == ascii_lower(row.scope_dn@)
    &&& e.subtree == (ascii_lower(row.scope_type@) == subtree_word())
    &&& e.self_only == row.self_only
    &&& e.deny == row.deny
    &&& e.priority == row.priority
    &&& e.permissions@ == halves_view(row.perm_low, row.perm_high)
    &&& keys_unique(e.attr_acls@)
    &&& acls_wf(e.attr_acls@)
    &&& forall|k: Seq<char>| #[trigger] acl_at(e.attr_acls@, k) == rules_acl(row.attr_rules@, k)
}

/// No two entries of the map are for the same object type.
pub open spec fn keys_unique(m: Seq<(String, ObjectAttributeAcl)>) -> bool {
    forall|i: int, j: int| 0 <= i < j < m.len() ==> m[i].0@ != m[j].0@
}

proof fn lemma_lookup_first(m: Seq<(String, ObjectAttributeAcl)>, k: Seq<char>, i: int)
    requires
        0 <= i < m.len(),
        m[i].0@ == k,
        forall|j: int| 0 <= j < i ==> m[j].0@ != k,
    ensures
        lookup_acl(m, k) == Some(m[i].1),
    decreases i,
{
    if i > 0 {
        lemma_lookup_first(m.skip(1), k, i - 1);
    }
}

proof fn lemma_lookup_absent(m: Seq<(String, ObjectAttributeAcl)>, k: Seq<char>)
    requires
        forall|j: int| 0 <= j < m.len() ==> m[j].0@ != k,
    ensures
        lookup_acl(m, k) is None,
    decreases m.len(),
{
    if m.len() > 0 {
        lemma_lookup_absent(m.skip(1), k);
    }
}

proof fn lemma_lookup_none_absent(m: Seq<(String, ObjectAttributeAcl)>, k: Seq<char>)
    requires
        keys_unique(m),
        lookup_acl(m, k) is None,
    ensures
        forall|j: int| 0 <= j < m.len() ==> m[j].0@ != k,
{
    assert forall|j: int| 0 <= j < m.len() implies m[j].0@ != k by {
        if m[j].0@ == k {
            lemma_lookup_unique(m, k, j);
        }
    }
}

/// In a map without repeated types, the entry for `k` is the one at `i`.
proof fn lemma_lookup_unique(m: Seq<(String, ObjectAttributeAcl)>, k: Seq<char>, i: int)
    requires
        keys_unique(m),
        0 <= i < m.len(),
        m[i].0@ == k,
    ensures
        lookup_acl(m, k) == Some(m[i].1),
{
    lemma_lookup_first(m, k, i);
}

/// The names of two lists joined are the names of each.
proof fn lemma_lower_names_concat(a: Seq<String>, b: Seq<String>)
    ensures
        lower_names(a + b) == lower_names(a).union(lower_names(b)),
{
    let c = a + b;
    assert forall|x: Seq<char>| lower_names(c).contains(x) <==> lower_names(a).union(lower_names(b)).contains(x) by {
        if lower_names(c).contains(x) {
            let i = choose|i: int| 0 <= i < c.len() && ascii_lower(c[i]@) == x;
            if i < a.len() {
                assert(c[i] == a[i]);
            } else {
                assert(c[i] == b[i - a.len()]);
            }
        }
        if lower_names(a).contains(x) {
            let i = choose|i: int| 0 <= i < a.len() && ascii_lower(a[i]@) == x;
            assert(c[i] == a[i]);
        }
        if lower_names(b).contains(x) {
            let i = choose|i: int| 0 <= i < b.len() && ascii_lower(b[i]@) == x;
            assert(c[i + a.len()] == b[i]);
        }
    }
    assert(lower_names(c) =~= lower_names(a).union(lower_names(b)));
}

/// Appends copies of the strings of `src` to `dst`.
fn append_copies(dst: &mut Vec<String>, src: &Vec<String>)
    ensures
        final(dst)@.len() == old(dst)@.len() + src@.len(),
        lower_names(final(dst)@) == lower_names(old(dst)@).union(lower_names(src@)),
{
    let ghost start = dst@;
    let mut i: usize = 0;
    while i < src.len()
        invariant
            i <= src@.len(),
            dst@.len() == start.len() + i,
            forall|j: int| 0 <= j < start.len() ==> (#[trigger] dst@[j])@ == start[j]@,
            forall|j: int| 0 <= j < i ==> (#[trigger] dst@[start.len() + j])@ == src@[j]@,
        decreases src@.len() - i,
    {
        dst.push(src[i].clone());
        i = i + 1;
    }
    proof {
        assert forall|x: Seq<char>| lower_names(dst@).contains(x) <==> lower_names(start).union(lower_names(src@)).contains(x) by {
            if lower_names(dst@).contains(x) {
                let i = choose|i: int| 0 <= i < dst@.len() && ascii_lower(dst@[i]@) == x;
                if i < start.len() {
                    assert(dst@[i]@ == start[i]@);
                } else {
                    assert(dst@[start.len() + (i - start.len())]@ == src@[i - start.len()]@);
                }
            }
            if lower_names(start).contains(x) {
                let i = choose|i: int| 0 <= i < start.len() && ascii_lower(start[i]@) == x;
                assert(dst@[i]@ == start[i]@);
            }
            if lower_names(src@).contains(x) {
                let i = choose|i: int| 0 <= i < src@.len() && ascii_lower(src@[i]@) == x;
                assert(dst@[start.len() + i]@ == src@[i]@);
            }
        }
        assert(lower_names(dst@) =~= lower_names(start).union(lower_names(src@)));
    }
}

/// The filter the rules give for object type `k` and action `act`.
fn build_attr_filter(rules: &Vec<AttrRuleRow>, k: &str, act: &str) -> (r: AttributeFilter)
    ensures
        r.wf(),
        r@ == rule_filter(rules@, k@, act@),
{
    let mut allowed: Vec<String> = Vec::new();
    let mut any_allow = false;
    let mut denied: Vec<String> = Vec::new();
    let mut i: usize = 0;
    proof {
        reveal_strlit("allow");
        reveal_strlit("deny");
        assert("allow"@ =~= allow_word());
        assert("deny"@ =~= deny_word());
        assert(lower_names(Seq::<String>::empty()) =~= Set::<Seq<char>>::empty());
        assert(rule_names(rules@.subrange(0, 0), k@, act@, allow_word()) =~= Set::<Seq<char>>::empty());
        assert(rule_names(rules@.subrange(0, 0), k@, act@, deny_word()) =~= Set::<Seq<char>>::empty());
    }
    while i < rules.len()
        invariant
            i <= rules@.len(),
            any_allow == has_rule(rules@.subrange(0, i as int), k@, act@, allow_word()),
            lower_names(allowed@) == rule_names(rules@.subrange(0, i as int), k@, act@, allow_word()),
            lower_names(denied@) == rule_names(rules@.subrange(0, i as int), k@, act@, deny_word()),
        decreases rules@.len() - i,
    {
        let rule = &rules[i];
        let ghost prev = rules@.subrange(0, i as int);
        let ghost sub = rules@.subrange(0, i + 1);
        let ghost old_allowed = allowed@;
        let ghost old_denied = denied@;
        proof {
            reveal_strlit("allow");
            reveal_strlit("deny");
            assert("allow"@ =~= allow_word());
            assert("deny"@ =~= deny_word());
        }
        let is_allow = str_eq(rule.rule_type.as_str(), "allow");
        let is_deny = str_eq(rule.rule_type.as_str(), "deny");
        let here = str_eq(rule.object_type.as_str(), k) && str_eq(rule.action.as_str(), act);
        if here && is_allow {
            append_copies(&mut allowed, &rule.attributes);
            any_allow = true;
        } else if here && is_deny {
            append_copies(&mut denied, &rule.attributes);
        }
        proof {
            assert(sub[i as int] == rules@[i as int]);
            assert forall|j: int| 0 <= j < i implies sub[j] == prev[j] by {}
            let ghost kinds = seq![allow_word(), deny_word()];
            assert forall|kind: Seq<char>| kind == allow_word() || kind == deny_word() implies (has_rule(sub, k@, act@, kind) == (has_rule(prev, k@, act@, kind) || rule_is(rules@[i as int], k@, act@, kind))) && rule_names(sub, k@, act@, kind) == (if rule_is(rules@[i as int], k@, act@, kind) {
                rule_names(prev, k@, act@, kind).union(lower_names(rules@[i as int].attributes@))
            } else {
                rule_names(prev, k@, act@, kind)
            }) by {
                if has_rule(sub, k@, act@, kind) {
                    let j = choose|j: int| 0 <= j < sub.len() && rule_is(#[trigger] sub[j], k@, act@, kind);
                    if j < i {
                        assert(rule_is(prev[j], k@, act@, kind));
                    }
                }
                if has_rule(prev, k@, act@, kind) {
                    let j = choose|j: int| 0 <= j < prev.len() && rule_is(#[trigger] prev[j], k@, act@, kind);
                    assert(rule_is(sub[j], k@, act@, kind));
                }
                let a = rule_names(sub, k@, act@, kind);
                let b = if rule_is(rules@[i as int], k@, act@, kind) {
                    rule_names(prev, k@, act@, kind).union(lower_names(rules@[i as int].attributes@))
                } else {
                    rule_names(prev, k@, act@, kind)
                };
                assert forall|x: Seq<char>| a.contains(x) <==> b.contains(x) by {
                    if a.contains(x) {
                        let j = choose|j: int| 0 <= j < sub.len() && rule_is(#[trigger] sub[j], k@, act@, kind) && lower_names(sub[j].attributes@).contains(x);
                        if j < i {
                            assert(rule_is(prev[j], k@, act@, kind) && lower_names(prev[j].attributes@).contains(x));
                        }
                    }
                    if rule_names(prev, k@, act@, kind).contains(x) {
                        let j = choose|j: int| 0 <= j < prev.len() && rule_is(#[trigger] prev[j], k@, act@, kind) && lower_names(prev[j].attributes@).contains(x);
                        assert(rule_is(sub[j], k@, act@, kind) && lower_names(sub[j].attributes@).contains(x));
                    }
                    if rule_is(rules@[i as int], k@, act@, kind) && lower_names(rules@[i as int].attributes@).contains(x) {
                        assert(rule_is(sub[i as int], k@, act@, kind) && lower_names(sub[i as int].attributes@).contains(x));
                    }
                }
                assert(a =~= b);
            }
            assert(allow_word() != deny_word());
            assert(allow_word() == allow_word() || allow_word() == deny_word());
            assert(deny_word() == allow_word() || deny_word() == deny_word());
            assert(rule == rules@[i as int]);
            assert(rule_is(rules@[i as int], k@, act@, allow_word()) == (here && is_allow));
            assert(rule_is(rules@[i as int], k@, act@, deny_word()) == (here && is_deny));
        }
        i = i + 1;
    }
    proof {
        assert(rules@.subrange(0, rules@.len() as int) =~= rules@);
    }
    let r = if any_allow {
        AttributeFilter::new(Some(allowed), denied)
    } else {
        AttributeFilter::new(None, denied)
    };
    r
}

/// Copies of the distinct object types of the rules, in order of first appearance.
fn object_types(rules: &Vec<AttrRuleRow>) -> (r: Vec<String>)
    ensures
        forall|a: int, b: int| 0 <= a < b < r@.len() ==> r@[a]@ != r@[b]@,
        forall|k: Seq<char>| has_type(rules@, k) <==> exists|a: int| 0 <= a < r@.len() && (#[trigger] r@[a])@ == k,
{
    let mut r: Vec<String> = Vec::new();
    let mut i: usize = 0;
    while i < rules.len()
        invariant
            i <= rules@.len(),
            forall|a: int, b: int| 0 <= a < b < r@.len() ==> r@[a]@ != r@[b]@,
            forall|k: Seq<char>| has_type(rules@.subrange(0, i as int), k) <==> exists|a: int| 0 <= a < r@.len() && (#[trigger] r@[a])@ == k,
        decreases rules@.len() - i,
    {
        let t = &rules[i].object_type;
        let found = crate::attributes::contains_name(&r, t);
        let ghost before = r@;
        let ghost prev = rules@.subrange(0, i as int);
        let ghost sub = rules@.subrange(0, i + 1);
        if !found {
            r.push(t.clone());
        }
        proof {
            assert forall|a: int, b: int| 0 <= a < b < r@.len() implies r@[a]@ != r@[b]@ by {
                if b < before.len() {
                    assert(r@[a] == before[a] && r@[b] == before[b]);
                } else {
                    assert(r@[a] == before[a]);
                    assert(!crate::attributes::names(before).contains(t@));
                }
            }
            assert(sub[i as int] == rules@[i as int]);
            assert forall|k: Seq<char>| has_type(sub, k) <==> exists|a: int| 0 <= a < r@.len() && (#[trigger] r@[a])@ == k by {
                if has_type(sub, k) {
                    let q = choose|q: int| 0 <= q < sub.len() && (#[trigger] sub[q]).object_type@ == k;
                    if q < i {
                        assert(prev[q] == sub[q]);
                        assert(has_type(prev, k));
                        let a = choose|a: int| 0 <= a < before.len() && (#[trigger] before[a])@ == k;
                        assert(r@[a] == before[a]);
                    } else if found {
                        let a = choose|a: int| 0 <= a < before.len() && before[a]@ == k;
                        assert(r@[a] == before[a]);
                    } else {
                        assert(r@[before.len() as int]@ == k);
                    }
                }
                if exists|a: int| 0 <= a < r@.len() && (#[trigger] r@[a])@ == k {
                    let a = choose|a: int| 0 <= a < r@.len() && (#[trigger] r@[a])@ == k;
                    if a < before.len() {
                        assert(r@[a] == before[a]);
                        assert(has_type(prev, k));
                        let q = choose|q: int| 0 <= q < prev.len() && (#[trigger] prev[q]).object_type@ == k;
                        assert(sub[q] == prev[q]);
                    } else {
                        assert(sub[i as int].object_type@ == k);
                    }
                }
            }
        }
        i = i + 1;
    }
    proof {
        assert(rules@.subrange(0, rules@.len() as int) =~= rules@);
    }
    r
}

/// The filters by object type that the rules of one row give: for each object type a
/// rule names, the read and write filters of its rules.
fn build_attr_acls(rules: &Vec<AttrRuleRow>) -> (r: AttrAcls)
    ensures
        keys_unique(r@),
        acls_wf(r@),
        forall|k: Seq<char>| #[trigger] acl_at(r@, k) == rules_acl(rules@, k),
{
    let types = object_types(rules);
    let mut r: AttrAcls = Vec::new();
    let mut i: usize = 0;
    proof {
        reveal_strlit("read");
        reveal_strlit("write");
        assert("read"@ =~= read_word());
        assert("write"@ =~= write_word_c());
    }
    while i < types.len()
        invariant
            i <= types@.len(),
            r@.len() == i,
            forall|a: int, b: int| 0 <= a < b < types@.len() ==> types@[a]@ != types@[b]@,
            forall|a: int| 0 <= a < i ==> (#[trigger] r@[a]).0@ == types@[a]@,
            forall|a: int| 0 <= a < i ==> (#[trigger] r@[a]).1.wf(),
            forall|a: int| 0 <= a < i ==> (#[trigger] r@[a]).1.read@ == rule_filter(rules@, types@[a]@, read_word()),
            forall|a: int| 0 <= a < i ==> (#[trigger] r@[a]).1.write@ == rule_filter(rules@, types@[a]@, write_word_c()),
        decreases types@.len() - i,
    {
        proof {
            reveal_strlit("read");
            reveal_strlit("write");
            assert("read"@ =~= read_word());
            assert("write"@ =~= write_word_c());
        }
        let k = types[i].as_str();
        let read = build_attr_filter(rules, k, "read");
        let write = build_attr_filter(rules, k, "write");
        r.push((types[i].clone(), ObjectAttributeAcl::new(read, write)));
        i = i + 1;
    }
    proof {
        assert forall|k: Seq<char>| #[trigger] acl_at(r@, k) == rules_acl(rules@, k) by {
            if has_type(rules@, k) {
                let a = choose|a: int| 0 <= a < types@.len() && (#[trigger] types@[a])@ == k;
                lemma_lookup_unique(r@, k, a);
            } else {
                assert forall|j: int| 0 <= j < r@.len() implies r@[j].0@ != k by {
                    assert(r@[j].0@ == types@[j]@);
                }
                lemma_lookup_absent(r@, k);
            }
        }
    }
    r
}

/// Joins the filters of an allowing global assignment into the global ones.
fn merge_global_attr_acls_allow(global: &mut AttrAcls, new: &AttrAcls)
    requires
        keys_unique(old(global)@),
        acls_wf(old(global)@),
        keys_unique(new@),
        acls_wf(new@),
    ensures
        keys_unique(final(global)@),
        acls_wf(final(global)@),
        forall|k: Seq<char>| #[trigger] acl_at(final(global)@, k) == combine_allow(acl_at(old(global)@, k), acl_at(new@, k)),
{
    let ghost start = global@;
    let mut i: usize = 0;
    while i < new.len()
        invariant
            i <= new@.len(),
            keys_unique(global@),
            acls_wf(global@),
            keys_unique(new@),
            acls_wf(new@),
            forall|k: Seq<char>| #[trigger] acl_at(global@, k) == combine_allow(acl_at(start, k), acl_at(new@.subrange(0, i as int), k)),
        decreases new@.len() - i,
    {
        let key = &new[i].0;
        let nacl = &new[i].1;
        let ghost before = global@;
        let ghost prev = new@.subrange(0, i as int);
        let ghost sub = new@.subrange(0, i + 1);
        assert(new@[i as int].1.wf());
        match find_acl(global, key.as_str()) {
            Some(t) => {
                let (kk, mut acl) = global.remove(t);
                assert(before[t as int].1.wf());
                acl.merge(nacl);
                global.insert(t, (kk, acl));
                proof {
                    assert(global@.len() == before.len());
                    assert forall|j: int| 0 <= j < global@.len() && j != t implies global@[j] == before[j] by {}
                    assert(global@[t as int].0@ == before[t as int].0@);
                    assert(before[t as int].0@ == key@) by {
                        lemma_lookup_unique(before, before[t as int].0@, t as int);
                    }
                    assert forall|a: int, b: int| 0 <= a < b < global@.len() implies global@[a].0@ != global@[b].0@ by {
                        assert(before[a].0@ != before[b].0@);
                    }
                    assert forall|a: int| 0 <= a < global@.len() implies (#[trigger] global@[a]).1.wf() by {
                        if a != t {
                            assert(before[a].1.wf());
                        }
                    }
                    lemma_lookup_unique(before, key@, t as int);
                    lemma_lookup_unique(global@, key@, t as int);
                }
            },
            None => {
                proof {
                    lemma_lookup_none_absent(before, key@);
                }
                global.push((key.clone(), nacl.copy()));
                proof {
                    assert forall|a: int, b: int| 0 <= a < b < global@.len() implies global@[a].0@ != global@[b].0@ by {
                        if b == before.len() {
                            assert(global@[a] == before[a]);
                        } else {
                            assert(global@[a] == before[a] && global@[b] == before[b]);
                        }
                    }
                    assert forall|a: int| 0 <= a < global@.len() implies (#[trigger] global@[a]).1.wf() by {
                        if a < before.len() {
                            assert(global@[a] == before[a]);
                        }
                    }
                    lemma_lookup_unique(global@, key@, before.len() as int);
                }
            },
        }
        proof {
            assert forall|j: int| 0 <= j < sub.len() implies #[trigger] sub[j] == new@[j] by {}
            assert forall|j: int| 0 <= j < prev.len() implies #[trigger] prev[j] == new@[j] by {}
            assert(sub =~= prev.push(new@[i as int]));
            assert forall|k: Seq<char>| #[trigger] acl_at(global@, k) == combine_allow(acl_at(start, k), acl_at(sub, k)) by {
                lemma_acl_at_step(prev, sub, new@[i as int], k);
                lemma_acl_at_update(before, global@, key@, k);
            }
        }
        i = i + 1;
    }
    proof {
        assert(new@.subrange(0, new@.len() as int) =~= new@);
    }
}

proof fn lemma_acl_at_step(prev: Seq<(String, ObjectAttributeAcl)>, sub: Seq<(String, ObjectAttributeAcl)>, e: (String, ObjectAttributeAcl), k: Seq<char>)
    requires
        sub == prev.push(e),
        keys_unique(sub),
    ensures
        acl_at(sub, k) == if e.0@ == k {
            Some((e.1.read@, e.1.write@))
        } else {
            acl_at(prev, k)
        },
        e.0@ == k ==> acl_at(prev, k) is None,
{
    if e.0@ == k {
        lemma_lookup_unique(sub, k, prev.len() as int);
        assert forall|j: int| 0 <= j < prev.len() implies prev[j].0@ != k by {
            assert(sub[j] == prev[j]);
        }
        lemma_lookup_absent(prev, k);
    } else {
        if exists|j: int| 0 <= j < prev.len() && prev[j].0@ == k {
            let j = choose|j: int| 0 <= j < prev.len() && prev[j].0@ == k;
            assert(sub[j] == prev[j]);
            assert forall|a: int, b: int| 0 <= a < b < prev.len() implies prev[a].0@ != prev[b].0@ by {
                assert(sub[a] == prev[a] && sub[b] == prev[b]);
            }
            lemma_lookup_unique(prev, k, j);
            lemma_lookup_unique(sub, k, j);
        } else {
            lemma_lookup_absent(prev, k);
            assert forall|j: int| 0 <= j < sub.len() implies sub[j].0@ != k by {
                if j < prev.len() {
                    assert(sub[j] == prev[j]);
                }
            }
            lemma_lookup_absent(sub, k);
        }
    }
}

proof fn lemma_acl_at_update(before: Seq<(String, ObjectAttributeAcl)>, after: Seq<(String, ObjectAttributeAcl)>, key: Seq<char>, k: Seq<char>)
    requires
        keys_unique(before),
        keys_unique(after),
        forall|j: int| 0 <= j < before.len() && before[j].0@ != key ==> after[j] == before[j],
        before.len() <= after.len(),
        forall|j: int| before.len() <= j < after.len() ==> after[j].0@ == key,
        forall|j: int| 0 <= j < before.len() && before[j].0@ == key ==> after[j].0@ == key,
    ensures
        k != key ==> acl_at(after, k) == acl_at(before, k),
{
    if k != key {
        if exists|j: int| 0 <= j < before.len() && before[j].0@ == k {
            let j = choose|j: int| 0 <= j < before.len() && before[j].0@ == k;
            lemma_lookup_unique(before, k, j);
            lemma_lookup_unique(after, k, j);
        } else {
            lemma_lookup_absent(before, k);
            assert forall|j: int| 0 <= j < after.len() implies after[j].0@ != k by {
                if j < before.len() {
                    if before[j].0@ != key {
                        assert(after[j] == before[j]);
                    }
                }
            }
            lemma_lookup_absent(after, k);
        }
    }
}

/// Adds the denied names of a denying global assignment to the global filters.
fn merge_global_attr_acls_deny(global: &mut AttrAcls, deny_acls: &AttrAcls)
    requires
        keys_unique(old(global)@),
        acls_wf(old(global)@),
        keys_unique(deny_acls@),
        acls_wf(deny_acls@),
    ensures
        keys_unique(final(global)@),
        acls_wf(final(global)@),
        forall|k: Seq<char>| #[trigger] acl_at(final(global)@, k) == combine_deny(acl_at(old(global)@, k), acl_at(deny_acls@, k)),
{
    let ghost start = global@;
    let mut i: usize = 0;
    while i < deny_acls.len()
        invariant
            i <= deny_acls@.len(),
            keys_unique(global@),
            acls_wf(global@),
            keys_unique(deny_acls@),
            acls_wf(deny_acls@),
            forall|k: Seq<char>| #[trigger] acl_at(global@, k) == combine_deny(acl_at(start, k), acl_at(deny_acls@.subrange(0, i as int), k)),
        decreases deny_acls@.len() - i,
    {
        let key = &deny_acls[i].0;
        let dacl = &deny_acls[i].1;
        let ghost before = global@;
        let ghost prev = deny_acls@.subrange(0, i as int);
        let ghost sub = deny_acls@.subrange(0, i + 1);
        assert(deny_acls@[i as int].1.wf());
        match find_acl(global, key.as_str()) {
            Some(t) => {
                let (kk, mut acl) = global.remove(t);
                assert(before[t as int].1.wf());
                acl.read.add_denied_names(dacl.read.denied());
                acl.write.add_denied_names(dacl.write.denied());
                global.insert(t, (kk, acl));
                proof {
                    assert(global@.len() == before.len());
                    assert forall|j: int| 0 <= j < global@.len() && j != t implies global@[j] == before[j] by {}
                    assert(global@[t as int].0@ == before[t as int].0@);
                    assert(before[t as int].0@ == key@) by {
                        lemma_lookup_unique(before, before[t as int].0@, t as int);
                    }
                    assert forall|a: int, b: int| 0 <= a < b < global@.len() implies global@[a].0@ != global@[b].0@ by {
                        assert(before[a].0@ != before[b].0@);
                    }
                    assert forall|a: int| 0 <= a < global@.len() implies (#[trigger] global@[a]).1.wf() by {
                        if a != t {
                            assert(before[a].1.wf());
                        }
                    }
                    lemma_lookup_unique(before, key@, t as int);
                    lemma_lookup_unique(global@, key@, t as int);
                }
            },
            None => {
                proof {
                    lemma_lookup_none_absent(before, key@);
                }
                let mut acl = ObjectAttributeAcl::allow_all();
                acl.read.add_denied_names(dacl.read.denied());
                acl.write.add_denied_names(dacl.write.denied());
                global.push((key.clone(), acl));
                proof {
                    assert forall|a: int, b: int| 0 <= a < b < global@.len() implies global@[a].0@ != global@[b].0@ by {
                        if b == before.len() {
                            assert(global@[a] == before[a]);
                        } else {
                            assert(global@[a] == before[a] && global@[b] == before[b]);
                        }
                    }
                    assert forall|a: int| 0 <= a < global@.len() implies (#[trigger] global@[a]).1.wf() by {
                        if a < before.len() {
                            assert(global@[a] == before[a]);
                        }
                    }
                    lemma_lookup_unique(global@, key@, before.len() as int);
                }
            },
        }
        proof {
            assert forall|j: int| 0 <= j < sub.len() implies #[trigger] sub[j] == deny_acls@[j] by {}
            assert forall|j: int| 0 <= j < prev.len() implies #[trigger] prev[j] == deny_acls@[j] by {}
            assert(sub =~= prev.push(deny_acls@[i as int]));
            assert forall|k: Seq<char>| #[trigger] acl_at(global@, k) == combine_deny(acl_at(start, k), acl_at(sub, k)) by {
                lemma_acl_at_step(prev, sub, deny_acls@[i as int], k);
                lemma_acl_at_update(before, global@, key@, k);
            }
        }
        i = i + 1;
    }
    proof {
        assert(deny_acls@.subrange(0, deny_acls@.len() as int) =~= deny_acls@);
    }
}

/// Compiles the rows fetched for the principal `user_dn`. Rows without scope and not
/// limited to the principal's own entry are global: their permissions join the global
/// grants or denials, and their attribute filters join the global ones. Every other row
/// becomes a scope rule; the scope rules end up in ascending priority, rows of equal
/// priority in their given order.
pub fn compile(user_dn: &str, rows: Vec<AclRow>) -> (r: UserAcl)
    ensures
        r.wf(),
        r.dn_view() == user_dn@,
        r.allow_spec()@ == global_perms(rows@, false),
        r.deny_spec()@ == global_perms(rows@, true),
        forall|k: Seq<char>| #[trigger] acl_at(r.global_acls(), k) == global_acl(rows@, k),
        exists|s: Seq<ScopedEntry>|
            s.len() == scoped_rows(rows@).len() && (forall|i: int|
                0 <= i < s.len() ==> entry_of_row(#[trigger] s[i], scoped_rows(rows@)[i]))
                && r.scoped_seq() == sort_by_priority(s),
{
    let mut global_allow = PermissionBitmap::new();
    let mut global_deny = PermissionBitmap::new();
    let mut global_attr_acls: AttrAcls = Vec::new();
    let mut scoped: Vec<ScopedEntry> = Vec::new();
    let mut i: usize = 0;
    proof {
        reveal_strlit("subtree");
        assert("subtree"@ =~= subtree_word());
        assert(ascii_lower(subtree_word()) =~= subtree_word());
        assert(rows@.subrange(0, 0) =~= Seq::<AclRow>::empty());
        assert(scoped_rows(Seq::<AclRow>::empty()) =~= Seq::<AclRow>::empty());
        assert forall|k: Seq<char>| #[trigger] acl_at(global_attr_acls@, k) == global_acl(rows@.subrange(0, 0), k) by {
            lemma_lookup_absent(global_attr_acls@, k);
        }
    }
    while i < rows.len()
        invariant
            i <= rows@.len(),
            global_allow@ == global_perms(rows@.subrange(0, i as int), false),
            global_deny@ == global_perms(rows@.subrange(0, i as int), true),
            keys_unique(global_attr_acls@),
            acls_wf(global_attr_acls@),
            forall|k: Seq<char>| #[trigger] acl_at(global_attr_acls@, k) == global_acl(rows@.subrange(0, i as int), k),
            scoped@.len() == scoped_rows(rows@.subrange(0, i as int)).len(),
            forall|j: int| 0 <= j < scoped@.len() ==> entry_of_row(#[trigger] scoped@[j], scoped_rows(rows@.subrange(0, i as int))[j]),
        decreases rows@.len() - i,
    {
        let row = &rows[i];
        let ghost prev = rows@.subrange(0, i as int);
        let ghost sub = rows@.subrange(0, i + 1);
        proof {
            assert(sub =~= prev.push(rows@[i as int]));
            assert(sub.drop_last() =~= prev);
        }
        let permissions = PermissionBitmap::from_halves(row.perm_low, row.perm_high);
        proof {
            assert(permissions@ =~= halves_view(row.perm_low, row.perm_high));
        }
        let attr_acls = build_attr_acls(&row.attr_rules);
        let global = row.scope_dn.as_str().unicode_len() == 0 && !row.self_only;
        if global {
            if row.deny {
                global_deny = global_deny.union(permissions);
                merge_global_attr_acls_deny(&mut global_attr_acls, &attr_acls);
            } else {
                global_allow = global_allow.union(permissions);
                merge_global_attr_acls_allow(&mut global_attr_acls, &attr_acls);
            }
        } else {
            proof {
                reveal_strlit("subtree");
                assert("subtree"@ =~= subtree_word());
                assert(ascii_lower(subtree_word()) =~= subtree_word());
            }
            let is_subtree = eq_ignore_case(row.scope_type.as_str(), "subtree");
            let ghost before = scoped@;
            scoped.push(
                ScopedEntry {
                    dn_lower: crate::text::to_lower(row.scope_dn.as_str()),
                    subtree: is_subtree,
                    self_only: row.self_only,
                    deny: row.deny,
                    priority: row.priority,
                    permissions,
                    attr_acls,
                },
            );
            proof {
                assert forall|j: int| 0 <= j < scoped@.len() implies entry_of_row(#[trigger] scoped@[j], scoped_rows(sub)[j]) by {
                    if j < before.len() {
                        assert(scoped@[j] == before[j]);
                    }
                }
            }
        }
        i = i + 1;
    }
    proof {
        assert(rows@.subrange(0, rows@.len() as int) =~= rows@);
        assert forall|j: int| 0 <= j < scoped@.len() implies acls_wf(#[trigger] scoped@[j].attr_acls@) by {
            assert(entry_of_row(scoped@[j], scoped_rows(rows@)[j]));
        }
    }
    let ghost s = scoped@;
    let r = UserAcl::new(user_dn.to_owned(), global_allow, global_deny, global_attr_acls, scoped);
    proof {
        assert(s.len() == scoped_rows(rows@).len() && (forall|i: int|
                0 <= i < s.len() ==> entry_of_row(#[trigger] s[i], scoped_rows(rows@)[i]))
                && r.scoped_seq() == sort_by_priority(s));
    }
    r
}

} // verus!
