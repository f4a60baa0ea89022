//! The stored form of compiled rules: a sequence of 64-bit words that holds the whole
//! value, and reading it back.
use vstd::prelude::*;

use crate::attributes::{all_lower, names, AttributeFilter, FilterView, ObjectAttributeAcl};
use crate::engine::{base_filter, fold_filter, fold_perms, lookup_acl, scope_matches, ScopedEntry, UserAcl};
use crate::text::{ascii_lower, string_of, to_lower};

verus! {

/// The characters of each string.
pub open spec fn strs_view(v: Seq<String>) -> Seq<Seq<char>> {
    v.map_values(|s: String| s@)
}

/// Whether `e` stands in `w` at `pos`.
pub open spec fn at(w: Seq<u64>, pos: int, e: Seq<u64>) -> bool {
    0 <= pos && pos + e.len() <= w.len() && w.subrange(pos, pos + e.len()) == e
}

/// Two pieces stand one after the other exactly when their join stands there.
proof fn lemma_at_concat(w: Seq<u64>, pos: int, a: Seq<u64>, b: Seq<u64>)
    ensures
        at(w, pos, a + b) == (at(w, pos, a) && at(w, pos + a.len(), b)),
{
    if at(w, pos, a + b) {
        assert(w.subrange(pos, pos + a.len()) =~= (a + b).subrange(0, a.len() as int));
        assert((a + b).subrange(0, a.len() as int) =~= a);
        assert(w.subrange(pos + a.len(), pos + a.len() + b.len()) =~= (a + b).subrange(a.len() as int, (a + b).len() as int));
        assert((a + b).subrange(a.len() as int, (a + b).len() as int) =~= b);
    }
    if at(w, pos, a) && at(w, pos + a.len(), b) {
        assert(w.subrange(pos, pos + (a + b).len()) =~= a + b);
    }
}

/// The word of a character: its code.
pub open spec fn char_word(c: char) -> u64 {
    (c as u32) as u64
}

/// A string: its length, then one word per character code.
pub open spec fn enc_str(s: Seq<char>) -> Seq<u64> {
    seq![s.len() as u64] + s.map_values(|c: char| char_word(c))
}

/// The strings of `v` below `k`, one after the other.
pub open spec fn strs_body(v: Seq<Seq<char>>, k: int) -> Seq<u64>
    decreases k,
{
    if k <= 0 {
        Seq::<u64>::empty()
    } else {
        strs_body(v, k - 1) + enc_str(v[k - 1])
    }
}

/// A list of strings: its length, then the strings.
pub open spec fn enc_strs(v: Seq<Seq<char>>) -> Seq<u64> {
    seq![v.len() as u64] + strs_body(v, v.len() as int)
}

/// A character's word is a valid code, and different characters have different words.
proof fn lemma_char_word(c: char, d: char)
    ensures
        char_word(c) <= 0x10FFFF,
        !(0xD800 <= char_word(c) && char_word(c) <= 0xDFFF),
        char_word(c) as u32 == c as u32,
        (char_word(c) == char_word(d)) == (c == d),
{
    assert((c as u32) <= 0x10FFFF);
    assert(!(0xD800 <= (c as u32) && (c as u32) <= 0xDFFF));
    assert(((c as u32) as u64) as u32 == c as u32);
    assert((c as u32) == (d as u32) ==> c == d);
}

/// Relies on `char::from_u32`: the character of code `u`, or `None` for a surrogate code
/// or a code above 0x10FFFF.
#[verifier::external_body]
fn char_of(u: u32) -> (r: Option<char>)
    ensures
        match r {
            Some(c) => c as u32 == u,
            None => u > 0x10FFFF || (0xD800 <= u && u <= 0xDFFF),
        },
{
    char::from_u32(u)
}

/// Appends the words of `s`.
fn put_str(out: &mut Vec<u64>, s: &str)
    ensures
        final(out)@ == old(out)@ + enc_str(s@),
{
    let n = s.unicode_len();
    let ghost start = out@;
    out.push(n as u64);
    let mut i: usize = 0;
    while i < n
        invariant
            n == s@.len(),
            i <= n,
            out@ == start + seq![n as u64] + s@.subrange(0, i as int).map_values(|c: char| char_word(c)),
        decreases n - i,
    {
        let c = s.get_char(i);
        out.push(c as u32 as u64);
        proof {
            assert(s@.subrange(0, i + 1).map_values(|c: char| char_word(c)) =~= s@.subrange(0, i as int).map_values(|c: char| char_word(c)).push(c as u64));
            assert(out@ =~= start + seq![n as u64] + s@.subrange(0, i + 1).map_values(|c: char| char_word(c)));
        }
        i = i + 1;
    }
    proof {
        assert(s@.subrange(0, n as int) =~= s@);
        assert(out@ =~= start + enc_str(s@));
    }
}

/// Appends the words of a list of strings.
fn put_strs(out: &mut Vec<u64>, v: &Vec<String>)
    ensures
        final(out)@ == old(out)@ + enc_strs(strs_view(v@)),
{
    let ghost start = out@;
    let ghost sv = strs_view(v@);
    out.push(v.len() as u64);
    let mut i: usize = 0;
    while i < v.len()
        invariant
            i <= v@.len(),
            sv == strs_view(v@),
            out@ == start + seq![v@.len() as u64] + strs_body(sv, i as int),
        decreases v@.len() - i,
    {
        put_str(out, v[i].as_str());
        proof {
            assert(sv[i as int] == v@[i as int]@);
            assert(out@ =~= start + seq![v@.len() as u64] + strs_body(sv, i + 1));
        }
        i = i + 1;
    }
    proof {
        assert(out@ =~= start + enc_strs(sv));
    }
}

/// Reads a string at `pos`.
fn get_str(w: &Vec<u64>, pos: usize) -> (r: Option<(String, usize)>)
    ensures
        r matches Some((s, p)) ==> at(w@, pos as int, enc_str(s@)) && p == pos + enc_str(s@).len(),
        forall|x: Seq<char>| #[trigger] at(w@, pos as int, enc_str(x)) ==> (r matches Some((s, p)) && s@ == x && p == pos + enc_str(x).len()),
{
    if pos >= w.len() {
        proof {
            assert forall|x: Seq<char>| !(pos + enc_str(x).len() <= w@.len()) by {}
        }
        return None;
    }
    let n = w[pos];
    if n > (w.len() - pos - 1) as u64 {
        proof {
            assert forall|x: Seq<char>|
                !(pos + enc_str(x).len() <= w@.len() && #[trigger] w@.subrange(pos as int, pos + enc_str(x).len()) == enc_str(x)) by {
                if pos + enc_str(x).len() <= w@.len() && w@.subrange(pos as int, pos + enc_str(x).len()) == enc_str(x) {
                    assert(w@.subrange(pos as int, pos + enc_str(x).len())[0] == enc_str(x)[0]);
                }
            }
        }
        return None;
    }
    let n = n as usize;
    let wl = w.len();
    proof {
        assert forall|x: Seq<char>|
            pos + enc_str(x).len() <= w@.len() && #[trigger] w@.subrange(pos as int, pos + enc_str(x).len()) == enc_str(x)
                implies x.len() == n by {
            assert(w@.subrange(pos as int, pos + enc_str(x).len())[0] == enc_str(x)[0]);
        }
    }
    let mut chars: Vec<char> = Vec::new();
    let mut i: usize = 0;
    while i < n
        invariant
            pos < w@.len(),
            n == w@[pos as int],
            pos + 1 + n <= w@.len(),
            i <= n,
            chars@.len() == i,
            wl == w@.len(),
            forall|j: int| 0 <= j < i ==> w@[pos + 1 + j] == char_word(#[trigger] chars@[j]),
            forall|x: Seq<char>|
                pos + enc_str(x).len() <= w@.len() && #[trigger] w@.subrange(pos as int, pos + enc_str(x).len()) == enc_str(x)
                    ==> x.len() == n && forall|j: int| 0 <= j < i ==> x[j] == chars@[j],
        decreases n - i,
    {
        let u = w[pos + 1 + i];
        if u > 0x10FFFF {
            proof {
                assert forall|x: Seq<char>|
                    !(pos + enc_str(x).len() <= w@.len() && #[trigger] w@.subrange(pos as int, pos + enc_str(x).len()) == enc_str(x)) by {
                    if pos + enc_str(x).len() <= w@.len() && w@.subrange(pos as int, pos + enc_str(x).len()) == enc_str(x) {
                        assert(w@.subrange(pos as int, pos + enc_str(x).len())[1 + i] == enc_str(x)[1 + i]);
                        assert(enc_str(x)[1 + i] == char_word(x[i as int]));
                        assert(w@.subrange(pos as int, pos + enc_str(x).len())[1 + i] == u);
                        lemma_char_word(x[i as int], x[i as int]);
                    }
                }
            }
            return None;
        }
        match char_of(u as u32) {
            Some(c) => {
                chars.push(c);
                proof {
                    assert forall|x: Seq<char>|
                        pos + enc_str(x).len() <= w@.len() && #[trigger] w@.subrange(pos as int, pos + enc_str(x).len()) == enc_str(x)
                            implies x.len() == n && forall|j: int| 0 <= j < i + 1 ==> x[j] == chars@[j] by {
                        assert(w@.subrange(pos as int, pos + enc_str(x).len())[1 + i] == enc_str(x)[1 + i]);
                        assert(enc_str(x)[1 + i] == char_word(x[i as int]));
                        assert(w@.subrange(pos as int, pos + enc_str(x).len())[1 + i] == u);
                        assert(char_word(x[i as int]) == u);
                        lemma_char_word(x[i as int], c);
                    }
                }
            },
            None => {
                proof {
                    assert forall|x: Seq<char>|
                        !(pos + enc_str(x).len() <= w@.len() && #[trigger] w@.subrange(pos as int, pos + enc_str(x).len()) == enc_str(x)) by {
                        if pos + enc_str(x).len() <= w@.len() && w@.subrange(pos as int, pos + enc_str(x).len()) == enc_str(x) {
                            assert(w@.subrange(pos as int, pos + enc_str(x).len())[1 + i] == enc_str(x)[1 + i]);
                            assert(enc_str(x)[1 + i] == char_word(x[i as int]));
                            assert(w@.subrange(pos as int, pos + enc_str(x).len())[1 + i] == u);
                            lemma_char_word(x[i as int], x[i as int]);
                        }
                    }
                }
                return None;
            },
        }
        i = i + 1;
    }
    let s = string_of(&chars);
    let p = pos + 1 + n;
    proof {
        assert(w@.subrange(pos as int, p as int) =~= enc_str(s@));
        assert forall|x: Seq<char>|
            pos + enc_str(x).len() <= w@.len() && #[trigger] w@.subrange(pos as int, pos + enc_str(x).len()) == enc_str(x)
                implies s@ == x && p == pos + enc_str(x).len() by {
            assert(x =~= s@);
        }
    }
    Some((s, p))
}

/// The strings below `k` of two lists that agree below `k` are written alike.
proof fn lemma_strs_body_eq(a: Seq<Seq<char>>, b: Seq<Seq<char>>, k: int)
    requires
        0 <= k <= a.len(),
        k <= b.len(),
        a.subrange(0, k) == b.subrange(0, k),
    ensures
        strs_body(a, k) == strs_body(b, k),
    decreases k,
{
    if k > 0 {
        assert(a.subrange(0, k - 1) =~= a.subrange(0, k).subrange(0, k - 1));
        assert(b.subrange(0, k - 1) =~= b.subrange(0, k).subrange(0, k - 1));
        lemma_strs_body_eq(a, b, k - 1);
        assert(a[k - 1] == a.subrange(0, k)[k - 1]);
        assert(b[k - 1] == b.subrange(0, k)[k - 1]);
    }
}

/// Each string takes at least one word.
proof fn lemma_strs_body_len(x: Seq<Seq<char>>, k: int)
    requires
        k >= 0,
    ensures
        strs_body(x, k).len() >= k,
    decreases k,
{
    if k > 0 {
        lemma_strs_body_len(x, k - 1);
    }
}

/// Where the first `n` strings stand, the first `k` stand too.
proof fn lemma_strs_body_prefix(w: Seq<u64>, pos: int, x: Seq<Seq<char>>, k: int, n: int)
    requires
        0 <= k <= n,
        at(w, pos, strs_body(x, n)),
    ensures
        at(w, pos, strs_body(x, k)),
    decreases n,
{
    if k < n {
        lemma_at_concat(w, pos, strs_body(x, n - 1), enc_str(x[n - 1]));
        lemma_strs_body_prefix(w, pos, x, k, n - 1);
    }
}

/// Reads a list of strings at `pos`.
fn get_strs(w: &Vec<u64>, pos: usize) -> (r: Option<(Vec<String>, usize)>)
    ensures
        r matches Some((v, p)) ==> at(w@, pos as int, enc_strs(strs_view(v@))) && p == pos + enc_strs(strs_view(v@)).len(),
        forall|x: Seq<Seq<char>>| #[trigger] at(w@, pos as int, enc_strs(x)) ==> (r matches Some((v, p)) && strs_view(v@) == x && p == pos + enc_strs(x).len()),
{
    if pos >= w.len() {
        return None;
    }
    let n = w[pos];
    let wl = w.len();
    let mut v: Vec<String> = Vec::new();
    let mut q: usize = pos + 1;
    let mut i: u64 = 0;
    proof {
        assert forall|x: Seq<Seq<char>>| #[trigger] at(w@, pos as int, enc_strs(x)) implies x.len() == n && at(w@, pos + 1, strs_body(x, x.len() as int)) by {
            lemma_at_concat(w@, pos as int, seq![x.len() as u64], strs_body(x, x.len() as int));
            assert(w@.subrange(pos as int, pos + 1)[0] == w@[pos as int]);
            lemma_strs_body_len(x, x.len() as int);
            assert(x.len() < wl);
        }
        assert(strs_body(strs_view(v@), 0) =~= Seq::<u64>::empty());
        assert(w@.subrange(pos + 1, pos + 1) =~= Seq::<u64>::empty());
    }
    while i < n
        invariant
            pos < w@.len(),
            n == w@[pos as int],
            i <= n,
            v@.len() == i,
            at(w@, pos + 1, strs_body(strs_view(v@), i as int)),
            q == pos + 1 + strs_body(strs_view(v@), i as int).len(),
            forall|x: Seq<Seq<char>>| #[trigger] at(w@, pos as int, enc_strs(x)) ==> x.len() == n && at(w@, pos + 1, strs_body(x, x.len() as int)) && strs_view(v@) == x.subrange(0, i as int),
        decreases n - i,
    {
        let ghost sv = strs_view(v@);
        proof {
            assert forall|x: Seq<Seq<char>>| #[trigger] at(w@, pos as int, enc_strs(x)) implies at(w@, q as int, enc_str(x[i as int])) by {
                lemma_strs_body_prefix(w@, pos + 1, x, i + 1, x.len() as int);
                lemma_at_concat(w@, pos + 1, strs_body(x, i as int), enc_str(x[i as int]));
                assert(sv.subrange(0, i as int) =~= sv);
                lemma_strs_body_eq(x, sv, i as int);
            }
        }
        match get_str(w, q) {
            Some((s, p)) => {
                v.push(s);
                proof {
                    let nv = strs_view(v@);
                    assert(nv.subrange(0, i as int) =~= sv.subrange(0, i as int));
                    lemma_strs_body_eq(nv, sv, i as int);
                    assert(nv[i as int] == s@);
                    lemma_at_concat(w@, pos + 1, strs_body(nv, i as int), enc_str(s@));
                    assert forall|x: Seq<Seq<char>>| #[trigger] at(w@, pos as int, enc_strs(x)) implies strs_view(v@) == x.subrange(0, i + 1) by {
                        assert(strs_view(v@) =~= x.subrange(0, i + 1));
                    }
                }
                q = p;
            },
            None => {
                return None;
            },
        }
        i = i + 1;
    }
    proof {
        let sv = strs_view(v@);
        assert(sv.len() == i);
        assert(i == n);
        assert(w@.subrange(pos as int, pos + 1)[0] == n);
        assert(w@.subrange(pos as int, pos + 1) =~= seq![sv.len() as u64]);
        lemma_at_concat(w@, pos as int, seq![sv.len() as u64], strs_body(sv, sv.len() as int));
        assert forall|x: Seq<Seq<char>>| #[trigger] at(w@, pos as int, enc_strs(x)) implies strs_view(v@) == x by {
            assert(x.subrange(0, x.len() as int) =~= x);
        }
    }
    Some((v, q))
}

/// Whether every string of `v` is in ASCII small letters.
fn check_lower(v: &Vec<String>) -> (r: bool)
    ensures
        r == all_lower(v@),
{
    let mut i: usize = 0;
    while i < v.len()
        invariant
            i <= v@.len(),
            forall|j: int| 0 <= j < i ==> ascii_lower(#[trigger] v@[j]@) == v@[j]@,
        decreases v@.len() - i,
    {
        let l = to_lower(v[i].as_str());
        if !(l == v[i]) {
            return false;
        }
        i = i + 1;
    }
    true
}

/// Whether every string is in ASCII small letters.
pub open spec fn seqs_lower(v: Seq<Seq<char>>) -> bool {
    forall|i: int| 0 <= i < v.len() ==> ascii_lower(#[trigger] v[i]) == v[i]
}

/// A filter as lists: the whitelist, if any, and the denied names.
pub type FilterLists = (Option<Seq<Seq<char>>>, Seq<Seq<char>>);

/// The lists a filter holds.
pub open spec fn filter_lists(f: AttributeFilter) -> FilterLists {
    (
        match f.allowed_list() {
            None => None,
            Some(a) => Some(strs_view(a)),
        },
        strs_view(f.denied_list()),
    )
}

/// Whether the lists of a filter are in small letters.
pub open spec fn lists_lower(x: FilterLists) -> bool {
    (x.0 matches Some(a) ==> seqs_lower(a)) && seqs_lower(x.1)
}

/// A filter: 0 without whitelist or 1 and the whitelist, then the denied names.
pub open spec fn enc_filter(x: FilterLists) -> Seq<u64> {
    (match x.0 {
        None => seq![0u64],
        Some(a) => seq![1u64] + enc_strs(a),
    }) + enc_strs(x.1)
}

proof fn lemma_lower_lists(v: Seq<String>)
    ensures
        all_lower(v) == seqs_lower(strs_view(v)),
{
    if all_lower(v) {
        assert forall|i: int| 0 <= i < strs_view(v).len() implies ascii_lower(#[trigger] strs_view(v)[i]) == strs_view(v)[i] by {
            assert(strs_view(v)[i] == v[i]@);
        }
    }
    if seqs_lower(strs_view(v)) {
        assert forall|i: int| 0 <= i < v.len() implies ascii_lower(#[trigger] v[i]@) == v[i]@ by {
            assert(strs_view(v)[i] == v[i]@);
        }
    }
}

/// Appends the words of a filter.
fn put_filter(out: &mut Vec<u64>, f: &AttributeFilter)
    ensures
        final(out)@ == old(out)@ + enc_filter(filter_lists(*f)),
{
    let ghost start = out@;
    match f.allowed() {
        None => {
            out.push(0);
        },
        Some(a) => {
            out.push(1);
            put_strs(out, a);
        },
    }
    put_strs(out, f.denied());
    proof {
        assert(out@ =~= start + enc_filter(filter_lists(*f)));
    }
}

/// Reads a filter at `pos`; its names must be in small letters.
fn get_filter(w: &Vec<u64>, pos: usize) -> (r: Option<(AttributeFilter, usize)>)
    ensures
        r matches Some((f, p)) ==> f.wf() && at(w@, pos as int, enc_filter(filter_lists(f))) && p == pos + enc_filter(filter_lists(f)).len(),
        forall|x: FilterLists| #[trigger] at(w@, pos as int, enc_filter(x)) && lists_lower(x) ==> (r matches Some((f, p)) && filter_lists(f) == x && p == pos + enc_filter(x).len()),
{
    if pos >= w.len() {
        return None;
    }
    let tag = w[pos];
    proof {
        assert forall|x: FilterLists| #[trigger] at(w@, pos as int, enc_filter(x)) implies (x.0 is None ==> tag == 0 && at(w@, pos + 1, enc_strs(x.1)))
            && (x.0 matches Some(a) ==> tag == 1 && at(w@, pos + 1, enc_strs(a)) && at(w@, pos + 1 + enc_strs(a).len(), enc_strs(x.1))) by {
            match x.0 {
                None => {
                    lemma_at_concat(w@, pos as int, seq![0u64], enc_strs(x.1));
                    assert(w@.subrange(pos as int, pos + 1)[0] == w@[pos as int]);
                },
                Some(a) => {
                    assert(enc_filter(x) =~= seq![1u64] + enc_strs(a) + enc_strs(x.1));
                    lemma_at_concat(w@, pos as int, seq![1u64] + enc_strs(a), enc_strs(x.1));
                    lemma_at_concat(w@, pos as int, seq![1u64], enc_strs(a));
                    assert(w@.subrange(pos as int, pos + 1)[0] == w@[pos as int]);
                },
            }
        }
    }
    let (allowed, q) = if tag == 0 {
        (None, pos + 1)
    } else if tag == 1 {
        match get_strs(w, pos + 1) {
            Some((a, q)) => {
                if !check_lower(&a) {
                    proof {
                        lemma_lower_lists(a@);
                    }
                    return None;
                }
                (Some(a), q)
            },
            None => {
                return None;
            },
        }
    } else {
        return None;
    };
    match get_strs(w, q) {
        Some((d, p)) => {
            if !check_lower(&d) {
                proof {
                    lemma_lower_lists(d@);
                }
                return None;
            }
            let ghost ga = allowed;
            let f = AttributeFilter::from_lists(allowed, d);
            proof {
                lemma_lower_lists(d@);
                match ga {
                    Some(a) => {
                        lemma_lower_lists(a@);
                        lemma_at_concat(w@, pos as int, seq![1u64], enc_strs(strs_view(a@)));
                        lemma_at_concat(w@, pos as int, seq![1u64] + enc_strs(strs_view(a@)), enc_strs(strs_view(d@)));
                        assert(w@.subrange(pos as int, pos + 1) =~= seq![1u64]);
                        assert(enc_filter(filter_lists(f)) =~= seq![1u64] + enc_strs(strs_view(a@)) + enc_strs(strs_view(d@)));
                    },
                    None => {
                        lemma_at_concat(w@, pos as int, seq![0u64], enc_strs(strs_view(d@)));
                        assert(w@.subrange(pos as int, pos + 1) =~= seq![0u64]);
                    },
                }
            }
            Some((f, p))
        },
        None => None,
    }
}

/// An object type's filters as lists: read, then write.
pub type AclLists = (FilterLists, FilterLists);

/// The lists of an object type's filters.
pub open spec fn acl_lists(a: ObjectAttributeAcl) -> AclLists {
    (filter_lists(a.read), filter_lists(a.write))
}

/// The keys and filter lists of an attribute map.
pub open spec fn acls_lists(m: Seq<(String, ObjectAttributeAcl)>) -> Seq<(Seq<char>, AclLists)> {
    m.map_values(|p: (String, ObjectAttributeAcl)| (p.0@, acl_lists(p.1)))
}

/// Whether every list of the map is in small letters.
pub open spec fn acls_lower(x: Seq<(Seq<char>, AclLists)>) -> bool {
    forall|i: int| 0 <= i < x.len() ==> lists_lower((#[trigger] x[i]).1.0) && lists_lower(x[i].1.1)
}

/// One entry of an attribute map: the key, the read filter, the write filter.
pub open spec fn enc_acl_entry(e: (Seq<char>, AclLists)) -> Seq<u64> {
    enc_str(e.0) + enc_filter(e.1.0) + enc_filter(e.1.1)
}

/// The entries below `k`, one after the other.
pub open spec fn acls_body(m: Seq<(Seq<char>, AclLists)>, k: int) -> Seq<u64>
    decreases k,
{
    if k <= 0 {
        Seq::<u64>::empty()
    } else {
        acls_body(m, k - 1) + enc_acl_entry(m[k - 1])
    }
}

/// An attribute map: the number of entries, then the entries.
pub open spec fn enc_acls(m: Seq<(Seq<char>, AclLists)>) -> Seq<u64> {
    seq![m.len() as u64] + acls_body(m, m.len() as int)
}

proof fn lemma_acls_body_eq(a: Seq<(Seq<char>, AclLists)>, b: Seq<(Seq<char>, AclLists)>, k: int)
    requires
        0 <= k <= a.len(),
        k <= b.len(),
        a.subrange(0, k) == b.subrange(0, k),
    ensures
        acls_body(a, k) == acls_body(b, k),
    decreases k,
{
    if k > 0 {
        assert(a.subrange(0, k - 1) =~= a.subrange(0, k).subrange(0, k - 1));
        assert(b.subrange(0, k - 1) =~= b.subrange(0, k).subrange(0, k - 1));
        lemma_acls_body_eq(a, b, k - 1);
        assert(a[k - 1] == a.subrange(0, k)[k - 1]);
        assert(b[k - 1] == b.subrange(0, k)[k - 1]);
    }
}

proof fn lemma_acls_body_len(x: Seq<(Seq<char>, AclLists)>, k: int)
    requires
        k >= 0,
    ensures
        acls_body(x, k).len() >= k,
    decreases k,
{
    if k > 0 {
        lemma_acls_body_len(x, k - 1);
    }
}

proof fn lemma_acls_body_prefix(w: Seq<u64>, pos: int, x: Seq<(Seq<char>, AclLists)>, k: int, n: int)
    requires
        0 <= k <= n,
        at(w, pos, acls_body(x, n)),
    ensures
        at(w, pos, acls_body(x, k)),
    decreases n,
{
    if k < n {
        lemma_at_concat(w, pos, acls_body(x, n - 1), enc_acl_entry(x[n - 1]));
        lemma_acls_body_prefix(w, pos, x, k, n - 1);
    }
}

/// Appends the words of an attribute map.
fn put_acls(out: &mut Vec<u64>, m: &Vec<(String, ObjectAttributeAcl)>)
    ensures
        final(out)@ == old(out)@ + enc_acls(acls_lists(m@)),
{
    let ghost start = out@;
    let ghost mv = acls_lists(m@);
    out.push(m.len() as u64);
    let mut i: usize = 0;
    while i < m.len()
        invariant
            i <= m@.len(),
            mv == acls_lists(m@),
            out@ == start + seq![m@.len() as u64] + acls_body(mv, i as int),
        decreases m@.len() - i,
    {
        let ghost before = out@;
        put_str(out, m[i].0.as_str());
        put_filter(out, &m[i].1.read);
        put_filter(out, &m[i].1.write);
        proof {
            assert(mv[i as int] == (m@[i as int].0@, acl_lists(m@[i as int].1)));
            assert(out@ =~= before + enc_acl_entry(mv[i as int]));
            assert(out@ =~= start + seq![m@.len() as u64] + acls_body(mv, i + 1));
        }
        i = i + 1;
    }
    proof {
        assert(out@ =~= start + enc_acls(mv));
    }
}

/// Reads one entry of an attribute map at `pos`.
fn get_acl_entry(w: &Vec<u64>, pos: usize) -> (r: Option<((String, ObjectAttributeAcl), usize)>)
    ensures
        r matches Some((e, p)) ==> e.1.wf() && at(w@, pos as int, enc_acl_entry((e.0@, acl_lists(e.1)))) && p == pos + enc_acl_entry((e.0@, acl_lists(e.1))).len(),
        forall|x: (Seq<char>, AclLists)| #[trigger] at(w@, pos as int, enc_acl_entry(x)) && lists_lower(x.1.0) && lists_lower(x.1.1)
            ==> (r matches Some((e, p)) && (e.0@, acl_lists(e.1)) == x && p == pos + enc_acl_entry(x).len()),
{
    proof {
        assert forall|x: (Seq<char>, AclLists)| #[trigger] at(w@, pos as int, enc_acl_entry(x)) implies at(w@, pos as int, enc_str(x.0))
            && at(w@, pos + enc_str(x.0).len(), enc_filter(x.1.0)) && at(w@, pos + enc_str(x.0).len() + enc_filter(x.1.0).len(), enc_filter(x.1.1)) by {
            lemma_at_concat(w@, pos as int, enc_str(x.0) + enc_filter(x.1.0), enc_filter(x.1.1));
            lemma_at_concat(w@, pos as int, enc_str(x.0), enc_filter(x.1.0));
        }
    }
    let (key, p1) = match get_str(w, pos) {
        Some(k) => k,
        None => {
            return None;
        },
    };
    let (read, p2) = match get_filter(w, p1) {
        Some(f) => f,
        None => {
            return None;
        },
    };
    let (write, p3) = match get_filter(w, p2) {
        Some(f) => f,
        None => {
            return None;
        },
    };
    let acl = ObjectAttributeAcl::new(read, write);
    proof {
        let x = (key@, acl_lists(acl));
        assert(filter_lists(acl.read) == filter_lists(read));
        assert(filter_lists(acl.write) == filter_lists(write));
        lemma_at_concat(w@, pos as int, enc_str(x.0), enc_filter(x.1.0));
        lemma_at_concat(w@, pos as int, enc_str(x.0) + enc_filter(x.1.0), enc_filter(x.1.1));
    }
    Some(((key, acl), p3))
}

/// Reads an attribute map at `pos`.
fn get_acls(w: &Vec<u64>, pos: usize) -> (r: Option<(Vec<(String, ObjectAttributeAcl)>, usize)>)
    ensures
        r matches Some((m, p)) ==> crate::engine::acls_wf(m@) && at(w@, pos as int, enc_acls(acls_lists(m@))) && p == pos + enc_acls(acls_lists(m@)).len(),
        forall|x: Seq<(Seq<char>, AclLists)>| #[trigger] at(w@, pos as int, enc_acls(x)) && acls_lower(x) ==> (r matches Some((m, p)) && acls_lists(m@) == x && p == pos + enc_acls(x).len()),
{
    if pos >= w.len() {
        return None;
    }
    let n = w[pos];
    let wl = w.len();
    let mut m: Vec<(String, ObjectAttributeAcl)> = Vec::new();
    let mut q: usize = pos + 1;
    let mut i: u64 = 0;
    proof {
        assert forall|x: Seq<(Seq<char>, AclLists)>| #[trigger] at(w@, pos as int, enc_acls(x)) implies x.len() == n && at(w@, pos + 1, acls_body(x, x.len() as int)) by {
            lemma_at_concat(w@, pos as int, seq![x.len() as u64], acls_body(x, x.len() as int));
            assert(w@.subrange(pos as int, pos + 1)[0] == w@[pos as int]);
            lemma_acls_body_len(x, x.len() as int);
            assert(x.len() < wl);
        }
        assert(acls_body(acls_lists(m@), 0) =~= Seq::<u64>::empty());
        assert(w@.subrange(pos + 1, pos + 1) =~= Seq::<u64>::empty());
    }
    while i < n
        invariant
            pos < w@.len(),
            n == w@[pos as int],
            i <= n,
            m@.len() == i,
            crate::engine::acls_wf(m@),
            at(w@, pos + 1, acls_body(acls_lists(m@), i as int)),
            q == pos + 1 + acls_body(acls_lists(m@), i as int).len(),
            forall|x: Seq<(Seq<char>, AclLists)>| #[trigger] at(w@, pos as int, enc_acls(x)) ==> x.len() == n && at(w@, pos + 1, acls_body(x, x.len() as int)) && (acls_lower(x) ==> acls_lists(m@) == x.subrange(0, i as int)),
        decreases n - i,
    {
        let ghost mv = acls_lists(m@);
        proof {
            assert forall|x: Seq<(Seq<char>, AclLists)>| #[trigger] at(w@, pos as int, enc_acls(x)) && acls_lower(x) implies at(w@, q as int, enc_acl_entry(x[i as int])) by {
                lemma_acls_body_prefix(w@, pos + 1, x, i + 1, x.len() as int);
                lemma_at_concat(w@, pos + 1, acls_body(x, i as int), enc_acl_entry(x[i as int]));
                assert(mv.subrange(0, i as int) =~= mv);
                lemma_acls_body_eq(x, mv, i as int);
            }
        }
        match get_acl_entry(w, q) {
            Some((e, p)) => {
                let ghost ev = (e.0@, acl_lists(e.1));
                m.push(e);
                proof {
                    let nv = acls_lists(m@);
                    assert(nv.subrange(0, i as int) =~= mv.subrange(0, i as int));
                    assert(mv.subrange(0, i as int) =~= mv);
                    lemma_acls_body_eq(nv, mv, i as int);
                    assert(nv[i as int] == ev);
                    lemma_at_concat(w@, pos + 1, acls_body(nv, i as int), enc_acl_entry(ev));
                    assert forall|x: Seq<(Seq<char>, AclLists)>| #[trigger] at(w@, pos as int, enc_acls(x)) && acls_lower(x) implies acls_lists(m@) == x.subrange(0, i + 1) by {
                        assert(lists_lower(x[i as int].1.0) && lists_lower(x[i as int].1.1));
                        assert(acls_lists(m@) =~= x.subrange(0, i + 1));
                    }
                    assert forall|j: int| 0 <= j < m@.len() implies (#[trigger] m@[j]).1.wf() by {
                        if j < i {
                            assert(m@[j] == m@.subrange(0, i as int)[j]);
                        }
                    }
                }
                q = p;
            },
            None => {
                proof {
                    assert forall|x: Seq<(Seq<char>, AclLists)>| #[trigger] at(w@, pos as int, enc_acls(x)) implies !acls_lower(x) by {
                        if acls_lower(x) {
                            assert(lists_lower(x[i as int].1.0) && lists_lower(x[i as int].1.1));
                            assert(at(w@, q as int, enc_acl_entry(x[i as int])));
                        }
                    }
                }
                return None;
            },
        }
        i = i + 1;
    }
    proof {
        let mv = acls_lists(m@);
        assert(mv.len() == i);
        assert(w@.subrange(pos as int, pos + 1)[0] == n);
        assert(w@.subrange(pos as int, pos + 1) =~= seq![mv.len() as u64]);
        lemma_at_concat(w@, pos as int, seq![mv.len() as u64], acls_body(mv, mv.len() as int));
        assert forall|x: Seq<(Seq<char>, AclLists)>| #[trigger] at(w@, pos as int, enc_acls(x)) && acls_lower(x) implies acls_lists(m@) == x by {
            assert(x.subrange(0, x.len() as int) =~= x);
        }
    }
    Some((m, q))
}

/// A scope rule as plain values: name, subtree, self-only, deny, priority, the two
/// permission words, and its attribute map.
pub type EntryLists = (Seq<char>, bool, bool, bool, i16, u64, u64, Seq<(Seq<char>, AclLists)>);

/// The plain values of a scope rule.
pub open spec fn entry_lists(e: ScopedEntry) -> EntryLists {
    (
        e.dn_lower@,
        e.subtree,
        e.self_only,
        e.deny,
        e.priority,
        e.permissions.low_word(),
        e.permissions.high_word(),
        acls_lists(e.attr_acls@),
    )
}

/// The word of a flag.
pub open spec fn bool_word(b: bool) -> u64 {
    if b {
        1
    } else {
        0
    }
}

/// The word of a priority: its 16 bits.
pub open spec fn prio_word(p: i16) -> u64 {
    (p as u16) as u64
}

/// A scope rule: its name, the three flags, the priority, the permission words, and its
/// attribute map.
pub open spec fn enc_entry(x: EntryLists) -> Seq<u64> {
    enc_str(x.0) + seq![bool_word(x.1), bool_word(x.2), bool_word(x.3), prio_word(x.4), x.5, x.6]
        + enc_acls(x.7)
}

/// The rules below `k`, one after the other.
pub open spec fn entries_body(s: Seq<EntryLists>, k: int) -> Seq<u64>
    decreases k,
{
    if k <= 0 {
        Seq::<u64>::empty()
    } else {
        entries_body(s, k - 1) + enc_entry(s[k - 1])
    }
}

/// A list of scope rules: how many, then the rules.
pub open spec fn enc_entries(s: Seq<EntryLists>) -> Seq<u64> {
    seq![s.len() as u64] + entries_body(s, s.len() as int)
}

/// Whether every attribute map of the rules is in small letters.
pub open spec fn entries_lower(s: Seq<EntryLists>) -> bool {
    forall|i: int| 0 <= i < s.len() ==> acls_lower((#[trigger] s[i]).7)
}

proof fn lemma_prio_word(p: i16)
    ensures
        prio_word(p) <= 0xFFFF,
        ((prio_word(p) as u16) as i16) == p,
{
    assert(((p as u16) as u64) <= 0xFFFF) by (bit_vector);
    assert(((((p as u16) as u64) as u16) as i16) == p) by (bit_vector);
}

proof fn lemma_entries_body_eq(a: Seq<EntryLists>, b: Seq<EntryLists>, k: int)
    requires
        0 <= k <= a.len(),
        k <= b.len(),
        a.subrange(0, k) == b.subrange(0, k),
    ensures
        entries_body(a, k) == entries_body(b, k),
    decreases k,
{
    if k > 0 {
        assert(a.subrange(0, k - 1) =~= a.subrange(0, k).subrange(0, k - 1));
        assert(b.subrange(0, k - 1) =~= b.subrange(0, k).subrange(0, k - 1));
        lemma_entries_body_eq(a, b, k - 1);
        assert(a[k - 1] == a.subrange(0, k)[k - 1]);
        assert(b[k - 1] == b.subrange(0, k)[k - 1]);
    }
}

proof fn lemma_entries_body_len(x: Seq<EntryLists>, k: int)
    requires
        k >= 0,
    ensures
        entries_body(x, k).len() >= k,
    decreases k,
{
    if k > 0 {
        lemma_entries_body_len(x, k - 1);
    }
}

proof fn lemma_entries_body_prefix(w: Seq<u64>, pos: int, x: Seq<EntryLists>, k: int, n: int)
    requires
        0 <= k <= n,
        at(w, pos, entries_body(x, n)),
    ensures
        at(w, pos, entries_body(x, k)),
    decreases n,
{
    if k < n {
        lemma_at_concat(w, pos, entries_body(x, n - 1), enc_entry(x[n - 1]));
        lemma_entries_body_prefix(w, pos, x, k, n - 1);
    }
}

/// Appends the words of a scope rule.
fn put_entry(out: &mut Vec<u64>, e: &ScopedEntry)
    ensures
        final(out)@ == old(out)@ + enc_entry(entry_lists(*e)),
{
    let ghost start = out@;
    put_str(out, e.dn_lower.as_str());
    out.push(if e.subtree { 1 } else { 0 });
    out.push(if e.self_only { 1 } else { 0 });
    out.push(if e.deny { 1 } else { 0 });
    out.push(e.priority as u16 as u64);
    let (low, high) = e.permissions.to_words();
    out.push(low);
    out.push(high);
    put_acls(out, &e.attr_acls);
    proof {
        assert(out@ =~= start + enc_entry(entry_lists(*e)));
    }
}

/// Reads a flag word.
fn get_bool(u: u64) -> (r: Option<bool>)
    ensures
        r matches Some(b) ==> bool_word(b) == u,
        (u == 0 || u == 1) ==> r is Some,
{
    if u == 0 {
        Some(false)
    } else if u == 1 {
        Some(true)
    } else {
        None
    }
}

/// Reads a scope rule at `pos`.
fn get_entry(w: &Vec<u64>, pos: usize) -> (r: Option<(ScopedEntry, usize)>)
    ensures
        r matches Some((e, p)) ==> crate::engine::acls_wf(e.attr_acls@) && at(w@, pos as int, enc_entry(entry_lists(e))) && p == pos + enc_entry(entry_lists(e)).len(),
        forall|x: EntryLists| #[trigger] at(w@, pos as int, enc_entry(x)) && acls_lower(x.7) ==> (r matches Some((e, p)) && entry_lists(e) == x && p == pos + enc_entry(x).len()),
{
    proof {
        assert forall|x: EntryLists| #[trigger] at(w@, pos as int, enc_entry(x)) implies at(w@, pos as int, enc_str(x.0))
            && at(w@, pos + enc_str(x.0).len(), seq![bool_word(x.1), bool_word(x.2), bool_word(x.3), prio_word(x.4), x.5, x.6])
            && at(w@, pos + enc_str(x.0).len() + 6, enc_acls(x.7)) by {
            let mid = seq![bool_word(x.1), bool_word(x.2), bool_word(x.3), prio_word(x.4), x.5, x.6];
            lemma_at_concat(w@, pos as int, enc_str(x.0) + mid, enc_acls(x.7));
            lemma_at_concat(w@, pos as int, enc_str(x.0), mid);
        }
    }
    let (dn, q) = match get_str(w, pos) {
        Some(d) => d,
        None => {
            return None;
        },
    };
    if q > w.len() || w.len() - q < 6 {
        return None;
    }
    let ghost mid = w@.subrange(q as int, q + 6);
    proof {
        assert forall|x: EntryLists| #[trigger] at(w@, pos as int, enc_entry(x)) implies mid == seq![bool_word(x.1), bool_word(x.2), bool_word(x.3), prio_word(x.4), x.5, x.6] by {}
    }
    let subtree = match get_bool(w[q]) {
        Some(b) => b,
        None => {
            proof {
                assert forall|x: EntryLists| !#[trigger] at(w@, pos as int, enc_entry(x)) by {
                    if at(w@, pos as int, enc_entry(x)) {
                        assert(mid[0] == w@[q as int]);
                    }
                }
            }
            return None;
        },
    };
    let self_only = match get_bool(w[q + 1]) {
        Some(b) => b,
        None => {
            proof {
                assert forall|x: EntryLists| !#[trigger] at(w@, pos as int, enc_entry(x)) by {
                    if at(w@, pos as int, enc_entry(x)) {
                        assert(mid[1] == w@[q + 1]);
                    }
                }
            }
            return None;
        },
    };
    let deny = match get_bool(w[q + 2]) {
        Some(b) => b,
        None => {
            proof {
                assert forall|x: EntryLists| !#[trigger] at(w@, pos as int, enc_entry(x)) by {
                    if at(w@, pos as int, enc_entry(x)) {
                        assert(mid[2] == w@[q + 2]);
                    }
                }
            }
            return None;
        },
    };
    let pw = w[q + 3];
    if pw > 0xFFFF {
        proof {
            assert forall|x: EntryLists| !#[trigger] at(w@, pos as int, enc_entry(x)) by {
                if at(w@, pos as int, enc_entry(x)) {
                    assert(mid[3] == w@[q + 3]);
                    lemma_prio_word(x.4);
                }
            }
        }
        return None;
    }
    let priority = pw as u16 as i16;
    let low = w[q + 4];
    let high = w[q + 5];
    let (acls, p) = match get_acls(w, q + 6) {
        Some(a) => a,
        None => {
            return None;
        },
    };
    let e = ScopedEntry {
        dn_lower: dn,
        subtree,
        self_only,
        deny,
        priority,
        permissions: crate::bitmap::PermissionBitmap::from_words(low, high),
        attr_acls: acls,
    };
    proof {
        let x = entry_lists(e);
        assert(prio_word(priority) == pw) by {
            let pp = pw;
            assert(pp <= 0xFFFF ==> (((pp as u16) as i16) as u16) as u64 == pp) by (bit_vector);
        }
        assert(mid =~= seq![bool_word(x.1), bool_word(x.2), bool_word(x.3), prio_word(x.4), x.5, x.6]);
        lemma_at_concat(w@, pos as int, enc_str(x.0), mid);
        lemma_at_concat(w@, pos as int, enc_str(x.0) + mid, enc_acls(x.7));
        assert forall|y: EntryLists| #[trigger] at(w@, pos as int, enc_entry(y)) && acls_lower(y.7) implies entry_lists(e) == y && p == pos + enc_entry(y).len() by {
            lemma_prio_word(y.4);
            assert(mid[0] == bool_word(y.1));
            assert(mid[1] == bool_word(y.2));
            assert(mid[2] == bool_word(y.3));
            assert(mid[3] == prio_word(y.4));
            assert(mid[4] == y.5);
            assert(mid[5] == y.6);
        }
    }
    Some((e, p))
}

/// Appends the words of a list of scope rules.
fn put_entries(out: &mut Vec<u64>, s: &[ScopedEntry])
    ensures
        final(out)@ == old(out)@ + enc_entries(s@.map_values(|e: ScopedEntry| entry_lists(e))),
{
    let ghost start = out@;
    let ghost sv = s@.map_values(|e: ScopedEntry| entry_lists(e));
    out.push(s.len() as u64);
    let mut i: usize = 0;
    while i < s.len()
        invariant
            i <= s@.len(),
            sv == s@.map_values(|e: ScopedEntry| entry_lists(e)),
            out@ == start + seq![s@.len() as u64] + entries_body(sv, i as int),
        decreases s@.len() - i,
    {
        put_entry(out, &s[i]);
        proof {
            assert(sv[i as int] == entry_lists(s@[i as int]));
            assert(out@ =~= start + seq![s@.len() as u64] + entries_body(sv, i + 1));
        }
        i = i + 1;
    }
    proof {
        assert(out@ =~= start + enc_entries(sv));
    }
}

/// Reads a list of scope rules at `pos`.
fn get_entries(w: &Vec<u64>, pos: usize) -> (r: Option<(Vec<ScopedEntry>, usize)>)
    ensures
        r matches Some((v, p)) ==> (forall|j: int| 0 <= j < v@.len() ==> crate::engine::acls_wf(#[trigger] v@[j].attr_acls@))
            && at(w@, pos as int, enc_entries(v@.map_values(|e: ScopedEntry| entry_lists(e)))) && p == pos + enc_entries(v@.map_values(|e: ScopedEntry| entry_lists(e))).len(),
        forall|x: Seq<EntryLists>| #[trigger] at(w@, pos as int, enc_entries(x)) && entries_lower(x) ==> (r matches Some((v, p)) && v@.map_values(|e: ScopedEntry| entry_lists(e)) == x && p == pos + enc_entries(x).len()),
{
    if pos >= w.len() {
        return None;
    }
    let n = w[pos];
    let wl = w.len();
    let mut v: Vec<ScopedEntry> = Vec::new();
    let mut q: usize = pos + 1;
    let mut i: u64 = 0;
    proof {
        assert forall|x: Seq<EntryLists>| #[trigger] at(w@, pos as int, enc_entries(x)) implies x.len() == n && at(w@, pos + 1, entries_body(x, x.len() as int)) by {
            lemma_at_concat(w@, pos as int, seq![x.len() as u64], entries_body(x, x.len() as int));
            assert(w@.subrange(pos as int, pos + 1)[0] == w@[pos as int]);
            lemma_entries_body_len(x, x.len() as int);
            assert(x.len() < wl);
        }
        assert(entries_body(v@.map_values(|e: ScopedEntry| entry_lists(e)), 0) =~= Seq::<u64>::empty());
        assert(w@.subrange(pos + 1, pos + 1) =~= Seq::<u64>::empty());
    }
    while i < n
        invariant
            pos < w@.len(),
            n == w@[pos as int],
            i <= n,
            v@.len() == i,
            forall|j: int| 0 <= j < v@.len() ==> crate::engine::acls_wf(#[trigger] v@[j].attr_acls@),
            at(w@, pos + 1, entries_body(v@.map_values(|e: ScopedEntry| entry_lists(e)), i as int)),
            q == pos + 1 + entries_body(v@.map_values(|e: ScopedEntry| entry_lists(e)), i as int).len(),
            forall|x: Seq<EntryLists>| #[trigger] at(w@, pos as int, enc_entries(x)) ==> x.len() == n && at(w@, pos + 1, entries_body(x, x.len() as int)) && (entries_lower(x) ==> v@.map_values(|e: ScopedEntry| entry_lists(e)) == x.subrange(0, i as int)),
        decreases n - i,
    {
        let ghost vv = v@.map_values(|e: ScopedEntry| entry_lists(e));
        proof {
            assert forall|x: Seq<EntryLists>| #[trigger] at(w@, pos as int, enc_entries(x)) && entries_lower(x) implies at(w@, q as int, enc_entry(x[i as int])) by {
                lemma_entries_body_prefix(w@, pos + 1, x, i + 1, x.len() as int);
                lemma_at_concat(w@, pos + 1, entries_body(x, i as int), enc_entry(x[i as int]));
                assert(vv.subrange(0, i as int) =~= vv);
                lemma_entries_body_eq(x, vv, i as int);
            }
        }
        match get_entry(w, q) {
            Some((e, p)) => {
                let ghost ev = entry_lists(e);
                let ghost old_v = v@;
                v.push(e);
                proof {
                    let nv = v@.map_values(|e: ScopedEntry| entry_lists(e));
                    assert(nv.subrange(0, i as int) =~= vv.subrange(0, i as int));
                    assert(vv.subrange(0, i as int) =~= vv);
                    lemma_entries_body_eq(nv, vv, i as int);
                    assert(nv[i as int] == ev);
                    lemma_at_concat(w@, pos + 1, entries_body(nv, i as int), enc_entry(ev));
                    assert forall|x: Seq<EntryLists>| #[trigger] at(w@, pos as int, enc_entries(x)) && entries_lower(x) implies v@.map_values(|e: ScopedEntry| entry_lists(e)) == x.subrange(0, i + 1) by {
                        assert(acls_lower(x[i as int].7));
                        assert(v@.map_values(|e: ScopedEntry| entry_lists(e)) =~= x.subrange(0, i + 1));
                    }
                    assert forall|j: int| 0 <= j < v@.len() implies crate::engine::acls_wf(#[trigger] v@[j].attr_acls@) by {
                        if j < i {
                            assert(v@[j] == old_v[j]);
                        }
                    }
                }
                q = p;
            },
            None => {
                proof {
                    assert forall|x: Seq<EntryLists>| #[trigger] at(w@, pos as int, enc_entries(x)) implies !entries_lower(x) by {
                        if entries_lower(x) {
                            assert(acls_lower(x[i as int].7));
                            assert(at(w@, q as int, enc_entry(x[i as int])));
                        }
                    }
                }
                return None;
            },
        }
        i = i + 1;
    }
    proof {
        let vv = v@.map_values(|e: ScopedEntry| entry_lists(e));
        assert(vv.len() == i);
        assert(w@.subrange(pos as int, pos + 1)[0] == n);
        assert(w@.subrange(pos as int, pos + 1) =~= seq![vv.len() as u64]);
        lemma_at_concat(w@, pos as int, seq![vv.len() as u64], entries_body(vv, vv.len() as int));
        assert forall|x: Seq<EntryLists>| #[trigger] at(w@, pos as int, enc_entries(x)) && entries_lower(x) implies v@.map_values(|e: ScopedEntry| entry_lists(e)) == x by {
            assert(x.subrange(0, x.len() as int) =~= x);
        }
    }
    Some((v, q))
}

/// Compiled rules as plain values: the principal's name, the global grant and denial
/// words, the global attribute map, and the scope rules.
pub type UserLists = (Seq<char>, u64, u64, u64, u64, Seq<(Seq<char>, AclLists)>, Seq<EntryLists>);

/// The plain values of compiled rules.
pub open spec fn user_lists(u: UserAcl) -> UserLists {
    (
        u.dn_view(),
        u.allow_spec().low_word(),
        u.allow_spec().high_word(),
        u.deny_spec().low_word(),
        u.deny_spec().high_word(),
        acls_lists(u.global_acls()),
        u.scoped_seq().map_values(|e: ScopedEntry| entry_lists(e)),
    )
}

/// Whether plain values can be compiled rules: names in small letters in every filter,
/// and scope rules in ascending priority.
pub open spec fn user_ok(x: UserLists) -> bool {
    &&& acls_lower(x.5)
    &&& entries_lower(x.6)
    &&& forall|i: int, j: int| 0 <= i < j < x.6.len() ==> (#[trigger] x.6[i]).4 <= (#[trigger] x.6[j]).4
}

/// The stored form of compiled rules: the name, the four permission words, the global
/// attribute map, the scope rules.
pub open spec fn enc_user(x: UserLists) -> Seq<u64> {
    enc_str(x.0) + seq![x.1, x.2, x.3, x.4] + enc_acls(x.5) + enc_entries(x.6)
}

proof fn lemma_lists_of_wf_filter(f: AttributeFilter)
    requires
        f.wf(),
    ensures
        lists_lower(filter_lists(f)),
{
    lemma_lower_lists(f.denied_list());
    match f.allowed_list() {
        Some(a) => {
            lemma_lower_lists(a);
        },
        None => {},
    }
}

proof fn lemma_acls_lower_of_wf(m: Seq<(String, ObjectAttributeAcl)>)
    requires
        crate::engine::acls_wf(m),
    ensures
        acls_lower(acls_lists(m)),
{
    assert forall|i: int| 0 <= i < acls_lists(m).len() implies lists_lower((#[trigger] acls_lists(m)[i]).1.0) && lists_lower(acls_lists(m)[i].1.1) by {
        assert(m[i].1.wf());
        lemma_lists_of_wf_filter(m[i].1.read);
        lemma_lists_of_wf_filter(m[i].1.write);
    }
}

/// The stored form of `acl`.
pub fn serialize(acl: &UserAcl) -> (r: Vec<u64>)
    ensures
        r@ == enc_user(user_lists(*acl)),
        user_ok(user_lists(*acl)),
{
    proof {
        use_type_invariant(acl);
        lemma_acls_lower_of_wf(acl.global_acls());
        let sv = acl.scoped_seq().map_values(|e: ScopedEntry| entry_lists(e));
        assert forall|i: int| 0 <= i < sv.len() implies acls_lower((#[trigger] sv[i]).7) by {
            lemma_acls_lower_of_wf(acl.scoped_seq()[i].attr_acls@);
        }
    }
    let mut out: Vec<u64> = Vec::new();
    put_str(&mut out, acl.user_dn());
    let (al, ah) = acl.global_allow().to_words();
    let (dl, dh) = acl.global_deny().to_words();
    out.push(al);
    out.push(ah);
    out.push(dl);
    out.push(dh);
    put_acls(&mut out, acl.global_attr_acls());
    put_entries(&mut out, acl.scoped_entries());
    proof {
        assert(out@ =~= enc_user(user_lists(*acl)));
    }
    out
}

/// The parts of compiled rules read from `words`, all of it.
fn read_user(words: &Vec<u64>) -> (r: Option<(String, u64, u64, u64, u64, Vec<(String, ObjectAttributeAcl)>, Vec<ScopedEntry>)>)
    ensures
        r matches Some((dn, al, ah, dl, dh, g, sc)) ==> crate::engine::acls_wf(g@)
            && (forall|j: int| 0 <= j < sc@.len() ==> crate::engine::acls_wf(#[trigger] sc@[j].attr_acls@))
            && words@ == enc_user((dn@, al, ah, dl, dh, acls_lists(g@), sc@.map_values(|e: ScopedEntry| entry_lists(e)))),
        forall|x: UserLists| words@ == enc_user(x) && #[trigger] user_ok(x) ==> (r matches Some((dn, al, ah, dl, dh, g, sc))
            && (dn@, al, ah, dl, dh, acls_lists(g@), sc@.map_values(|e: ScopedEntry| entry_lists(e))) == x),
{
    proof {
        assert forall|x: UserLists| words@ == enc_user(x) && #[trigger] user_ok(x) implies at(words@, 0, enc_str(x.0))
            && at(words@, enc_str(x.0).len() as int, seq![x.1, x.2, x.3, x.4])
            && at(words@, (enc_str(x.0).len() + 4) as int, enc_acls(x.5))
            && at(words@, (enc_str(x.0).len() + 4 + enc_acls(x.5).len()) as int, enc_entries(x.6))
            && words@.len() == enc_str(x.0).len() + 4 + enc_acls(x.5).len() + enc_entries(x.6).len() by {
            let a = enc_str(x.0);
            let b = seq![x.1, x.2, x.3, x.4];
            let c = enc_acls(x.5);
            let d = enc_entries(x.6);
            assert(words@.subrange(0, words@.len() as int) =~= words@);
            assert(enc_user(x) == a + b + c + d);
            assert(at(words@, 0, a + b + c + d));
            lemma_at_concat(words@, 0, a + b + c, d);
            lemma_at_concat(words@, 0, a + b, c);
            lemma_at_concat(words@, 0, a, b);
        }
    }
    let (dn, q) = match get_str(words, 0) {
        Some(d) => d,
        None => {
            return None;
        },
    };
    if q > words.len() || words.len() - q < 4 {
        return None;
    }
    let ghost mid = words@.subrange(q as int, q + 4);
    let al = words[q];
    let ah = words[q + 1];
    let dl = words[q + 2];
    let dh = words[q + 3];
    let (global, p1) = match get_acls(words, q + 4) {
        Some(g) => g,
        None => {
            return None;
        },
    };
    let (scoped, p2) = match get_entries(words, p1) {
        Some(s) => s,
        None => {
            return None;
        },
    };
    if p2 != words.len() {
        return None;
    }
    proof {
        let x = (dn@, al, ah, dl, dh, acls_lists(global@), scoped@.map_values(|e: ScopedEntry| entry_lists(e)));
        assert(mid =~= seq![x.1, x.2, x.3, x.4]);
        lemma_at_concat(words@, 0, enc_str(x.0), mid);
        lemma_at_concat(words@, 0, enc_str(x.0) + mid, enc_acls(x.5));
        lemma_at_concat(words@, 0, enc_str(x.0) + mid + enc_acls(x.5), enc_entries(x.6));
        assert(words@.subrange(0, words@.len() as int) =~= words@);
        assert(enc_user(x) == enc_str(x.0) + mid + enc_acls(x.5) + enc_entries(x.6));
        assert forall|y: UserLists| words@ == enc_user(y) && #[trigger] user_ok(y) implies x == y by {
            assert(mid[0] == y.1);
            assert(mid[1] == y.2);
            assert(mid[2] == y.3);
            assert(mid[3] == y.4);
        }
    }
    Some((dn, al, ah, dl, dh, global, scoped))
}

/// Compiled rules read back from their stored form. A sequence of words that is not the
/// stored form of compiled rules is a `MalformedSerialization` error.
pub fn deserialize(words: &Vec<u64>) -> (r: Result<UserAcl, crate::errors::HeraclesError>)
    ensures
        r matches Ok(v) ==> words@ == enc_user(user_lists(v)),
        forall|x: UserLists| words@ == enc_user(x) && #[trigger] user_ok(x) ==> (r matches Ok(v) && user_lists(v) == x),
        r matches Err(e) ==> e is MalformedSerialization,
{
    let (dn, al, ah, dl, dh, global, scoped) = match read_user(words) {
        Some(parts) => parts,
        None => {
            return Err(crate::errors::HeraclesError::MalformedSerialization(String::from_str("not the stored form of compiled rules")));
        },
    };
    let ghost sv = scoped@.map_values(|e: ScopedEntry| entry_lists(e));
    let mut k: usize = 1;
    while k < scoped.len()
        invariant
            1 <= k,
            sv == scoped@.map_values(|e: ScopedEntry| entry_lists(e)),
            forall|x: UserLists| words@ == enc_user(x) && #[trigger] user_ok(x) ==> x.6 == sv,
            forall|i: int, j: int| 0 <= i < j < k && j < scoped@.len() ==> scoped@[i].priority <= scoped@[j].priority,
        decreases scoped@.len() - k,
    {
        if scoped[k - 1].priority > scoped[k].priority {
            proof {
                assert(sv[k - 1].4 == scoped@[k - 1].priority);
                assert(sv[k as int].4 == scoped@[k as int].priority);
                assert forall|x: UserLists| !(words@ == enc_user(x) && #[trigger] user_ok(x)) by {
                    if words@ == enc_user(x) && user_ok(x) {
                        assert(x.6[k - 1].4 <= x.6[k as int].4);
                    }
                }
            }
            return Err(crate::errors::HeraclesError::MalformedSerialization(String::from_str("scope rules out of priority order")));
        }
        k = k + 1;
    }
    let v = UserAcl::from_parts(
        dn,
        crate::bitmap::PermissionBitmap::from_words(al, ah),
        crate::bitmap::PermissionBitmap::from_words(dl, dh),
        global,
        scoped,
    );
    Ok(v)
}

proof fn lemma_names_eq(a: Seq<String>, b: Seq<String>)
    requires
        strs_view(a) == strs_view(b),
    ensures
        names(a) == names(b),
{
    assert forall|x: Seq<char>| names(a).contains(x) <==> names(b).contains(x) by {
        assert(a.len() == strs_view(a).len() && b.len() == strs_view(b).len());
        if names(a).contains(x) {
            let i = choose|i: int| 0 <= i < a.len() && a[i]@ == x;
            assert(strs_view(a)[i] == a[i]@ && strs_view(b)[i] == b[i]@);
            assert(b[i]@ == x);
        }
        if names(b).contains(x) {
            let i = choose|i: int| 0 <= i < b.len() && b[i]@ == x;
            assert(strs_view(a)[i] == a[i]@ && strs_view(b)[i] == b[i]@);
            assert(a[i]@ == x);
        }
    }
    assert(names(a) =~= names(b));
}

proof fn lemma_filter_view_eq(f: AttributeFilter, g: AttributeFilter)
    requires
        filter_lists(f) == filter_lists(g),
    ensures
        f@ == g@,
{
    lemma_names_eq(f.denied_list(), g.denied_list());
    match (f.allowed_list(), g.allowed_list()) {
        (Some(a), Some(b)) => {
            lemma_names_eq(a, b);
        },
        _ => {},
    }
}

proof fn lemma_lookup_eq(m1: Seq<(String, ObjectAttributeAcl)>, m2: Seq<(String, ObjectAttributeAcl)>, k: Seq<char>)
    requires
        acls_lists(m1) == acls_lists(m2),
    ensures
        (lookup_acl(m1, k) is None) == (lookup_acl(m2, k) is None),
        lookup_acl(m1, k) matches Some(a1) ==> (lookup_acl(m2, k) matches Some(a2) && a1.read@ == a2.read@ && a1.write@ == a2.write@),
    decreases m1.len(),
{
    assert(m1.len() == acls_lists(m1).len());
    assert(m2.len() == acls_lists(m2).len());
    if m1.len() > 0 {
        assert(acls_lists(m1)[0] == acls_lists(m2)[0]);
        if m1[0].0@ == k {
            lemma_filter_view_eq(m1[0].1.read, m2[0].1.read);
            lemma_filter_view_eq(m1[0].1.write, m2[0].1.write);
        } else {
            assert(acls_lists(m1.skip(1)) =~= acls_lists(m1).skip(1));
            assert(acls_lists(m2.skip(1)) =~= acls_lists(m2).skip(1));
            lemma_lookup_eq(m1.skip(1), m2.skip(1), k);
        }
    }
}

proof fn lemma_entry_same(e1: ScopedEntry, e2: ScopedEntry, t: Seq<char>, s: bool)
    requires
        entry_lists(e1) == entry_lists(e2),
    ensures
        scope_matches(e1, t, s) == scope_matches(e2, t, s),
        e1.permissions == e2.permissions,
{
    crate::bitmap::PermissionBitmap::lemma_words_ext(e1.permissions, e2.permissions);
}

proof fn lemma_fold_perms_eq(base: Set<nat>, s1: Seq<ScopedEntry>, s2: Seq<ScopedEntry>, t: Seq<char>, is_self: bool)
    requires
        s1.map_values(|e: ScopedEntry| entry_lists(e)) == s2.map_values(|e: ScopedEntry| entry_lists(e)),
    ensures
        fold_perms(base, s1, t, is_self) == fold_perms(base, s2, t, is_self),
    decreases s1.len(),
{
    assert(s1.len() == s1.map_values(|e: ScopedEntry| entry_lists(e)).len());
    assert(s2.len() == s2.map_values(|e: ScopedEntry| entry_lists(e)).len());
    if s1.len() > 0 {
        assert(s1.drop_last().map_values(|e: ScopedEntry| entry_lists(e)) =~= s2.drop_last().map_values(|e: ScopedEntry| entry_lists(e))) by {
            assert forall|i: int| 0 <= i < s1.len() - 1 implies entry_lists(s1.drop_last()[i]) == entry_lists(s2.drop_last()[i]) by {
                assert(s1.map_values(|e: ScopedEntry| entry_lists(e))[i] == s2.map_values(|e: ScopedEntry| entry_lists(e))[i]);
            }
        }
        lemma_fold_perms_eq(base, s1.drop_last(), s2.drop_last(), t, is_self);
        assert(s1.map_values(|e: ScopedEntry| entry_lists(e))[s1.len() - 1] == s2.map_values(|e: ScopedEntry| entry_lists(e))[s1.len() - 1]);
        lemma_entry_same(s1.last(), s2.last(), t, is_self);
    }
}

proof fn lemma_fold_filter_eq(f: FilterView, s1: Seq<ScopedEntry>, s2: Seq<ScopedEntry>, ot: Seq<char>, act: Seq<char>, t: Seq<char>, is_self: bool)
    requires
        s1.map_values(|e: ScopedEntry| entry_lists(e)) == s2.map_values(|e: ScopedEntry| entry_lists(e)),
    ensures
        fold_filter(f, s1, ot, act, t, is_self) == fold_filter(f, s2, ot, act, t, is_self),
    decreases s1.len(),
{
    assert(s1.len() == s1.map_values(|e: ScopedEntry| entry_lists(e)).len());
    assert(s2.len() == s2.map_values(|e: ScopedEntry| entry_lists(e)).len());
    if s1.len() > 0 {
        assert(s1.drop_last().map_values(|e: ScopedEntry| entry_lists(e)) =~= s2.drop_last().map_values(|e: ScopedEntry| entry_lists(e))) by {
            assert forall|i: int| 0 <= i < s1.len() - 1 implies entry_lists(s1.drop_last()[i]) == entry_lists(s2.drop_last()[i]) by {
                assert(s1.map_values(|e: ScopedEntry| entry_lists(e))[i] == s2.map_values(|e: ScopedEntry| entry_lists(e))[i]);
            }
        }
        lemma_fold_filter_eq(f, s1.drop_last(), s2.drop_last(), ot, act, t, is_self);
        assert(s1.map_values(|e: ScopedEntry| entry_lists(e))[s1.len() - 1] == s2.map_values(|e: ScopedEntry| entry_lists(e))[s1.len() - 1]);
        let e1 = s1.last();
        let e2 = s2.last();
        lemma_entry_same(e1, e2, t, is_self);
        lemma_lookup_eq(e1.attr_acls@, e2.attr_acls@, ot);
    }
}

/// Compiled rules read back from their stored form agree with the rules stored: the
/// same permissions and the same attribute filter on every target, so `check`,
/// `check_attribute`, `filter_attributes` and `effective_permissions` give the same
/// answers.
pub proof fn lemma_round_trip_agrees(u: UserAcl, v: UserAcl)
    requires
        u.wf(),
        v.wf(),
        user_lists(v) == user_lists(u),
    ensures
        forall|t: Seq<char>| #[trigger] v.effective(t) == u.effective(t),
        forall|t: Seq<char>, req: Set<nat>| #[trigger] v.allows(t, req) == u.allows(t, req),
        forall|t: Seq<char>, ot: Seq<char>, act: Seq<char>| #[trigger] v.resolved_filter(t, ot, act) == u.resolved_filter(t, ot, act),
        forall|t: Seq<char>| #[trigger] v.is_self_spec(t) == u.is_self_spec(t),
{
    crate::bitmap::PermissionBitmap::lemma_words_ext(v.allow_spec(), u.allow_spec());
    crate::bitmap::PermissionBitmap::lemma_words_ext(v.deny_spec(), u.deny_spec());
    assert forall|t: Seq<char>| #[trigger] v.effective(t) == u.effective(t) by {
        lemma_fold_perms_eq(v.allow_spec()@.difference(v.deny_spec()@), v.scoped_seq(), u.scoped_seq(), ascii_lower(t), v.is_self_spec(t));
    }
    assert forall|t: Seq<char>, req: Set<nat>| #[trigger] v.allows(t, req) == u.allows(t, req) by {
        assert(v.effective(t) == u.effective(t));
    }
    assert forall|t: Seq<char>, ot: Seq<char>, act: Seq<char>| #[trigger] v.resolved_filter(t, ot, act) == u.resolved_filter(t, ot, act) by {
        lemma_lookup_eq(v.global_acls(), u.global_acls(), ot);
        assert(base_filter(v.global_acls(), ot, act) == base_filter(u.global_acls(), ot, act));
        lemma_fold_filter_eq(base_filter(u.global_acls(), ot, act), v.scoped_seq(), u.scoped_seq(), ot, act, ascii_lower(t), u.is_self_spec(t));
    }
}

} // verus!
