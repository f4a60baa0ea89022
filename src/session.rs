//! Decisions a directory session takes around its requests: where a search starts and
//! what a failed request means.
use vstd::prelude::*;

use crate::errors::HeraclesError;
use crate::text::chars_of;

verus! {

/// Whether `p` occurs in `s`.
pub open spec fn occurs_in(s: Seq<char>, p: Seq<char>) -> bool {
    exists|i: int| 0 <= i && i + p.len() <= s.len() && #[trigger] s.subrange(i, i + p.len()) == p
}

/// Whether `p` occurs in `s` at `i`.
fn occurs_at(s: &Vec<char>, p: &Vec<char>, i: usize) -> (r: bool)
    requires
        i + p@.len() <= s@.len(),
    ensures
        r == (s@.subrange(i as int, i + p@.len()) == p@),
{
    let n = s.len();
    let mut k: usize = 0;
    while k < p.len()
        invariant
            n == s@.len(),
            i + p@.len() <= s@.len(),
            k <= p@.len(),
            forall|j: int| 0 <= j < k ==> s@[i + j] == p@[j],
        decreases p@.len() - k,
    {
        if s[i + k] != p[k] {
            proof {
                assert(s@.subrange(i as int, i + p@.len())[k as int] != p@[k as int]);
            }
            return false;
        }
        k = k + 1;
    }
    proof {
        assert(s@.subrange(i as int, i + p@.len()) =~= p@);
    }
    true
}

/// Whether `pattern` occurs in `text`.
pub fn contains_str(text: &str, pattern: &str) -> (r: bool)
    ensures
        r == occurs_in(text@, pattern@),
{
    let s = chars_of(text);
    let p = chars_of(pattern);
    if p.len() > s.len() {
        return false;
    }
    let last = s.len() - p.len();
    let mut i: usize = 0;
    while i <= last
        invariant
            s@ == text@,
            p@ == pattern@,
            last == s@.len() - p@.len(),
            p@.len() <= s@.len(),
            i <= last + 1,
            forall|j: int| 0 <= j < i ==> #[trigger] s@.subrange(j, j + p@.len()) != p@,
        decreases last + 1 - i,
    {
        if occurs_at(&s, &p, i) {
            return true;
        }
        if i == last {
            return false;
        }
        i = i + 1;
    }
    false
}

/// Where a search starts: a base holding '=' is taken as a full name, an empty base is
/// the directory's base, and any other base is put under the directory's base.
pub open spec fn search_base_spec(base: Seq<char>, base_dn: Seq<char>) -> Seq<char> {
    if occurs_in(base, seq!['=']) {
        base
    } else if base.len() == 0 {
        base_dn
    } else {
        base + seq![','] + base_dn
    }
}

/// Where a search under `base` starts, given the directory's base `base_dn`.
pub fn search_base(base: &str, base_dn: &str) -> (r: String)
    ensures
        r@ == search_base_spec(base@, base_dn@),
{
    proof {
        reveal_strlit("=");
        reveal_strlit(",");
        assert("="@ =~= seq!['=']);
    }
    if contains_str(base, "=") {
        base.to_owned()
    } else if base.unicode_len() == 0 {
        base_dn.to_owned()
    } else {
        let mut r = base.to_owned();
        r.append(",");
        r.append(base_dn);
        proof {
            assert(r@ =~= base@ + seq![','] + base_dn@);
        }
        r
    }
}

/// The error for a failed add of `dn` whose result reads `message`: the entry exists
/// already when the message holds "68" or "Already exists".
pub fn add_failure(dn: &str, message: &str) -> (r: HeraclesError)
    ensures
        (occurs_in(message@, "68"@) || occurs_in(message@, "Already exists"@)) ==> (r matches HeraclesError::LdapAlreadyExists(d) && d@ == dn@),
        !(occurs_in(message@, "68"@) || occurs_in(message@, "Already exists"@)) ==> (r matches HeraclesError::LdapAdd(m) && m@ == message@),
{
    if contains_str(message, "68") || contains_str(message, "Already exists") {
        HeraclesError::LdapAlreadyExists(dn.to_owned())
    } else {
        HeraclesError::LdapAdd(message.to_owned())
    }
}

/// Whether a failed request's message says the entry does not exist.
pub open spec fn says_missing(message: Seq<char>) -> bool {
    occurs_in(message, "32"@) || occurs_in(message, "No such object"@)
}

/// The error for a failed modify of `dn` whose result reads `message`: the entry is
/// missing when the message holds "32" or "No such object".
pub fn modify_failure(dn: &str, message: &str) -> (r: HeraclesError)
    ensures
        says_missing(message@) ==> (r matches HeraclesError::LdapNotFound(d) && d@ == dn@),
        !says_missing(message@) ==> (r matches HeraclesError::LdapModify(m) && m@ == message@),
{
    if contains_str(message, "32") || contains_str(message, "No such object") {
        HeraclesError::LdapNotFound(dn.to_owned())
    } else {
        HeraclesError::LdapModify(message.to_owned())
    }
}

/// The error for a failed delete of `dn` whose result reads `message`: the entry is
/// missing when the message holds "32" or "No such object".
pub fn delete_failure(dn: &str, message: &str) -> (r: HeraclesError)
    ensures
        says_missing(message@) ==> (r matches HeraclesError::LdapNotFound(d) && d@ == dn@),
        !says_missing(message@) ==> (r matches HeraclesError::LdapDelete(m) && m@ == message@),
{
    if contains_str(message, "32") || contains_str(message, "No such object") {
        HeraclesError::LdapNotFound(dn.to_owned())
    } else {
        HeraclesError::LdapDelete(message.to_owned())
    }
}

} // verus!
