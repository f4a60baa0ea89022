//! Distinguished names: escaping values, splitting and parsing names, and building them.
use vstd::prelude::*;

use crate::errors::HeraclesError;
use vstd::string::StringSliceAdditionalSpecFns;
use vstd::utf8::encode_utf8;
use crate::text::{chars_of, string_of, trim_str, trimmed, to_lowercase, lower_of};

verus! {

/// Characters that are always escaped in a name's value.
pub open spec fn dn_special(c: char) -> bool {
    c == '"' || c == '+' || c == ',' || c == ';' || c == '<' || c == '>' || c == '\\' || c == '='
}

/// The escaped form of character `c` at position `i` of a value whose UTF-8 length is
/// `n`: special characters, a space first or at position `n - 1`, and a '#' first get a
/// backslash. (For ASCII values position `n - 1` is the last character.)
pub open spec fn escape_dn_char(c: char, i: int, n: int) -> Seq<char> {
    if dn_special(c) || (c == ' ' && (i == 0 || i == n - 1)) || (c == '#' && i == 0) {
        seq!['\\', c]
    } else {
        seq![c]
    }
}

/// The escaped form of the first `k` characters of `s`, whose UTF-8 length is `n`.
pub open spec fn escape_dn_prefix(s: Seq<char>, k: int, n: int) -> Seq<char>
    decreases k,
{
    if k <= 0 {
        Seq::<char>::empty()
    } else {
        escape_dn_prefix(s, k - 1, n) + escape_dn_char(s[k - 1], k - 1, n)
    }
}

/// The escaped form of a value.
pub open spec fn escape_dn(s: Seq<char>) -> Seq<char> {
    escape_dn_prefix(s, s.len() as int, (encode_utf8(s).len() as usize) as int)
}

/// Escapes a value for use in a distinguished name.
pub fn escape_dn_value(value: &str) -> (r: String)
    ensures
        r@ == escape_dn(value@),
{
    let s = chars_of(value);
    let n = s.len();
    let bytes = value.len();
    let mut out: Vec<char> = Vec::new();
    let mut i: usize = 0;
    while i < n
        invariant
            n == s@.len(),
            s@ == value@,
            i <= n,
            bytes == value.spec_bytes().len() as usize,
            out@ == escape_dn_prefix(s@, i as int, bytes as int),
        decreases n - i,
    {
        let c = s[i];
        let special = c == '"' || c == '+' || c == ',' || c == ';' || c == '<' || c == '>' || c
            == '\\' || c == '=';
        if special || (c == ' ' && (i == 0 || i + 1 == bytes)) || (c == '#' && i == 0) {
            out.push('\\');
            out.push(c);
        } else {
            out.push(c);
        }
        proof {
            assert(out@ =~= escape_dn_prefix(s@, i + 1, bytes as int));
        }
        i = i + 1;
    }
    string_of(&out)
}

/// The escaped form of one character in a search filter value.
pub open spec fn escape_filter_char(c: char) -> Seq<char> {
    if c == '*' {
        seq!['\\', '2', 'a']
    } else if c == '(' {
        seq!['\\', '2', '8']
    } else if c == ')' {
        seq!['\\', '2', '9']
    } else if c == '\\' {
        seq!['\\', '5', 'c']
    } else if c == '\0' {
        seq!['\\', '0', '0']
    } else {
        seq![c]
    }
}

/// The escaped form of the first `k` characters of a filter value.
pub open spec fn escape_filter_prefix(s: Seq<char>, k: int) -> Seq<char>
    decreases k,
{
    if k <= 0 {
        Seq::<char>::empty()
    } else {
        escape_filter_prefix(s, k - 1) + escape_filter_char(s[k - 1])
    }
}

/// The escaped form of a filter value.
pub open spec fn escape_filter(s: Seq<char>) -> Seq<char> {
    escape_filter_prefix(s, s.len() as int)
}

/// Escapes a value for use in a search filter: '*', '(', ')', '\' and NUL become
/// backslash and two hex digits.
pub fn escape_filter_value(value: &str) -> (r: String)
    ensures
        r@ == escape_filter(value@),
{
    let s = chars_of(value);
    let n = s.len();
    let mut out: Vec<char> = Vec::new();
    let mut i: usize = 0;
    while i < n
        invariant
            n == s@.len(),
            s@ == value@,
            i <= n,
            out@ == escape_filter_prefix(s@, i as int),
        decreases n - i,
    {
        let c = s[i];
        if c == '*' {
            out.push('\\');
            out.push('2');
            out.push('a');
        } else if c == '(' {
            out.push('\\');
            out.push('2');
            out.push('8');
        } else if c == ')' {
            out.push('\\');
            out.push('2');
            out.push('9');
        } else if c == '\\' {
            out.push('\\');
            out.push('5');
            out.push('c');
        } else if c == '\0' {
            out.push('\\');
            out.push('0');
            out.push('0');
        } else {
            out.push(c);
        }
        proof {
            assert(out@ =~= escape_filter_prefix(s@, i + 1));
        }
        i = i + 1;
    }
    string_of(&out)
}

/// Whether `c` is an ASCII hex digit.
pub open spec fn is_hex(c: char) -> bool {
    ('0' <= c && c <= '9') || ('a' <= c && c <= 'f') || ('A' <= c && c <= 'F')
}

/// The value of the hex digit `c`.
pub open spec fn hex_val(c: char) -> nat {
    if '0' <= c && c <= '9' {
        (c as nat - '0' as nat) as nat
    } else if 'a' <= c && c <= 'f' {
        (c as nat - 'a' as nat + 10) as nat
    } else {
        (c as nat - 'A' as nat + 10) as nat
    }
}

/// The character whose code is the byte written by the hex digits `a` and `b`.
pub open spec fn hex_pair_char(a: char, b: char) -> char {
    ((16 * hex_val(a) + hex_val(b)) as u8) as char
}

/// The unescaped form of a value: a backslash and two hex digits stand for the character
/// of that byte code, a backslash and any other character for that character; a lone
/// backslash at the end stays, and of a backslash, a hex digit and the end only the digit
/// stays.
pub open spec fn unescape_dn(s: Seq<char>) -> Seq<char>
    decreases s.len(),
{
    if s.len() == 0 {
        s
    } else if s[0] != '\\' {
        seq![s[0]] + unescape_dn(s.skip(1))
    } else if s.len() == 1 {
        seq!['\\']
    } else if !is_hex(s[1]) {
        seq![s[1]] + unescape_dn(s.skip(2))
    } else if s.len() == 2 {
        seq![s[1]]
    } else if is_hex(s[2]) {
        seq![hex_pair_char(s[1], s[2])] + unescape_dn(s.skip(3))
    } else {
        seq![s[1], s[2]] + unescape_dn(s.skip(3))
    }
}

/// The value of a hex digit.
fn hex_value(c: char) -> (r: u8)
    requires
        is_hex(c),
    ensures
        r == hex_val(c),
        r < 16,
{
    if '0' <= c && c <= '9' {
        (c as u32 - '0' as u32) as u8
    } else if 'a' <= c && c <= 'f' {
        (c as u32 - 'a' as u32 + 10) as u8
    } else {
        (c as u32 - 'A' as u32 + 10) as u8
    }
}

/// Whether `c` is an ASCII hex digit.
fn hex_digit(c: char) -> (r: bool)
    ensures
        r == is_hex(c),
{
    ('0' <= c && c <= '9') || ('a' <= c && c <= 'f') || ('A' <= c && c <= 'F')
}

/// Undoes the escapes of a value.
pub fn unescape_dn_value(value: &str) -> (r: String)
    ensures
        r@ == unescape_dn(value@),
{
    let s = chars_of(value);
    let n = s.len();
    let mut out: Vec<char> = Vec::new();
    let mut i: usize = 0;
    proof {
        assert(s@.skip(0) =~= s@);
    }
    while i < n
        invariant
            n == s@.len(),
            s@ == value@,
            i <= n,
            unescape_dn(s@) == out@ + unescape_dn(s@.skip(i as int)),
        decreases n - i,
    {
        let ghost rest = s@.skip(i as int);
        let c = s[i];
        assert(rest[0] == c);
        if c != '\\' {
            out.push(c);
            proof {
                assert(rest.skip(1) =~= s@.skip(i + 1));
                assert(out@ + unescape_dn(s@.skip(i + 1)) =~= unescape_dn(s@));
            }
            i = i + 1;
        } else if i + 1 == n {
            out.push('\\');
            proof {
                assert(s@.skip(n as int) =~= Seq::<char>::empty());
                assert(out@ + unescape_dn(s@.skip(n as int)) =~= unescape_dn(s@));
            }
            i = n;
        } else {
            let n1 = s[i + 1];
            assert(rest[1] == n1);
            if !hex_digit(n1) {
                out.push(n1);
                proof {
                    assert(rest.skip(2) =~= s@.skip(i + 2));
                    assert(out@ + unescape_dn(s@.skip(i + 2)) =~= unescape_dn(s@));
                }
                i = i + 2;
            } else if i + 2 == n {
                out.push(n1);
                proof {
                    assert(s@.skip(n as int) =~= Seq::<char>::empty());
                    assert(out@ + unescape_dn(s@.skip(n as int)) =~= unescape_dn(s@));
                }
                i = n;
            } else {
                let n2 = s[i + 2];
                assert(rest[2] == n2);
                if hex_digit(n2) {
                    let b: u8 = hex_value(n1) * 16 + hex_value(n2);
                    let ch = b as char;
                    assert(ch == hex_pair_char(n1, n2));
                    out.push(ch);
                } else {
                    out.push(n1);
                    out.push(n2);
                }
                proof {
                    assert(rest.skip(3) =~= s@.skip(i + 3));
                    assert(out@ + unescape_dn(s@.skip(i + 3)) =~= unescape_dn(s@));
                }
                i = i + 3;
            }
        }
    }
    proof {
        assert(s@.skip(n as int) =~= Seq::<char>::empty());
        assert(out@ + Seq::<char>::empty() =~= out@);
    }
    string_of(&out)
}

/// State while splitting a name: the parts so far, the current part, and whether the
/// previous character was an escaping backslash.
pub type SplitState = (Seq<Seq<char>>, Seq<char>, bool);

/// The state after one more character `c`.
pub open spec fn split_step(st: SplitState, c: char) -> SplitState {
    if st.2 {
        (st.0, st.1.push(c), false)
    } else if c == '\\' {
        (st.0, st.1.push(c), true)
    } else if c == ',' {
        (
            if st.1.len() > 0 {
                st.0.push(trimmed(st.1))
            } else {
                st.0
            },
            Seq::<char>::empty(),
            false,
        )
    } else {
        (st.0, st.1.push(c), false)
    }
}

/// The state after the characters of `s`.
pub open spec fn split_state(s: Seq<char>) -> SplitState
    decreases s.len(),
{
    if s.len() == 0 {
        (Seq::<Seq<char>>::empty(), Seq::<char>::empty(), false)
    } else {
        split_step(split_state(s.drop_last()), s.last())
    }
}

/// The trimmed parts of a name, split at commas that no backslash escapes; empty parts
/// are dropped before trimming.
pub open spec fn split_dn_spec(s: Seq<char>) -> Seq<Seq<char>> {
    let st = split_state(s);
    if st.1.len() > 0 {
        st.0.push(trimmed(st.1))
    } else {
        st.0
    }
}

/// The characters of each string.
pub open spec fn views(v: Seq<String>) -> Seq<Seq<char>> {
    v.map_values(|s: String| s@)
}

/// Splits a name into its trimmed components at commas that no backslash escapes.
pub fn split_dn(dn: &str) -> (r: Vec<String>)
    ensures
        views(r@) == split_dn_spec(dn@),
{
    let s = chars_of(dn);
    let n = s.len();
    let mut parts: Vec<String> = Vec::new();
    let mut cur: Vec<char> = Vec::new();
    let mut escaped = false;
    let mut i: usize = 0;
    proof {
        assert(s@.subrange(0, 0) =~= Seq::<char>::empty());
        assert(views(parts@) =~= Seq::<Seq<char>>::empty());
    }
    while i < n
        invariant
            n == s@.len(),
            s@ == dn@,
            i <= n,
            (views(parts@), cur@, escaped) == split_state(s@.subrange(0, i as int)),
        decreases n - i,
    {
        let c = s[i];
        let ghost before = views(parts@);
        proof {
            let sub = s@.subrange(0, i + 1);
            assert(sub.drop_last() =~= s@.subrange(0, i as int));
            assert(sub.last() == c);
        }
        if escaped {
            cur.push(c);
            escaped = false;
        } else if c == '\\' {
            cur.push(c);
            escaped = true;
        } else if c == ',' {
            if cur.len() > 0 {
                let whole = string_of(&cur);
                let t = trim_str(whole.as_str());
                parts.push(t.to_owned());
                proof {
                    assert(views(parts@) =~= before.push(trimmed(cur@)));
                }
            }
            cur = Vec::new();
        } else {
            cur.push(c);
        }
        i = i + 1;
    }
    proof {
        assert(s@.subrange(0, n as int) =~= s@);
    }
    if cur.len() > 0 {
        let ghost before = views(parts@);
        let whole = string_of(&cur);
        let t = trim_str(whole.as_str());
        parts.push(t.to_owned());
        proof {
            assert(views(parts@) =~= before.push(trimmed(cur@)));
        }
    }
    parts
}

/// Where `c` first occurs in `s`, or the length of `s` when it does not.
pub open spec fn first_pos(s: Seq<char>, c: char) -> int
    decreases s.len(),
{
    if s.len() == 0 {
        0
    } else if s[0] == c {
        0
    } else {
        1 + first_pos(s.skip(1), c)
    }
}

proof fn lemma_first_pos(s: Seq<char>, c: char, k: int)
    requires
        0 <= k <= s.len(),
        forall|j: int| 0 <= j < k ==> s[j] != c,
        k == s.len() || s[k] == c,
    ensures
        first_pos(s, c) == k,
    decreases k,
{
    if k > 0 {
        lemma_first_pos(s.skip(1), c, k - 1);
    }
}

/// One component of a name: an attribute type and its value.
#[derive(Debug, Clone, PartialEq, Eq)]
pub struct RdnComponent {
    pub attr_type: String,
    pub attr_value: String,
}

/// The type and value of a component, if the text `s` holds a '='.
pub open spec fn parse_rdn(s: Seq<char>) -> Option<(Seq<char>, Seq<char>)> {
    let k = first_pos(s, '=');
    if k < s.len() {
        Some((trimmed(s.subrange(0, k)), unescape_dn(trimmed(s.subrange(k + 1, s.len() as int)))))
    } else {
        None
    }
}

/// The text of a component: its type, '=', and its escaped value.
pub open spec fn rdn_text(t: Seq<char>, v: Seq<char>) -> Seq<char> {
    t + seq!['='] + escape_dn(v)
}

impl RdnComponent {
    /// The component `attr_type=attr_value`.
    pub fn new(attr_type: &str, attr_value: &str) -> (r: Self)
        ensures
            r.attr_type@ == attr_type@,
            r.attr_value@ == attr_value@,
    {
        RdnComponent { attr_type: attr_type.to_owned(), attr_value: attr_value.to_owned() }
    }

    /// Reads "type=value": both sides trimmed, the value unescaped; a text without '=' is
    /// a `Schema` error.
    pub fn parse(s: &str) -> (r: Result<Self, HeraclesError>)
        ensures
            match parse_rdn(s@) {
                Some(p) => r matches Ok(c) && c.attr_type@ == p.0 && c.attr_value@ == p.1,
                None => r matches Err(HeraclesError::Schema(m)) && m@ == "Invalid RDN: "@ + s@,
            },
    {
        let n = s.unicode_len();
        let mut k: usize = 0;
        while k < n && s.get_char(k) != '='
            invariant
                n == s@.len(),
                k <= n,
                forall|j: int| 0 <= j < k ==> s@[j] != '=',
            decreases n - k,
        {
            k = k + 1;
        }
        proof {
            lemma_first_pos(s@, '=', k as int);
        }
        if k == n {
            let mut m = String::from_str("Invalid RDN: ");
            m.append(s);
            return Err(HeraclesError::Schema(m));
        }
        let t = trim_str(s.substring_char(0, k));
        let v = trim_str(s.substring_char(k + 1, n));
        Ok(RdnComponent { attr_type: t.to_owned(), attr_value: unescape_dn_value(v) })
    }

    /// The text "type=value" with the value escaped.
    pub fn to_string(&self) -> (r: String)
        ensures
            r@ == rdn_text(self.attr_type@, self.attr_value@),
    {
        let mut r = self.attr_type.clone();
        r.append("=");
        let e = escape_dn_value(self.attr_value.as_str());
        r.append(e.as_str());
        proof {
            reveal_strlit("=");
            assert(r@ =~= rdn_text(self.attr_type@, self.attr_value@));
        }
        r
    }

    /// A copy of this component.
    pub fn copy(&self) -> (r: Self)
        ensures
            r.attr_type@ == self.attr_type@,
            r.attr_value@ == self.attr_value@,
    {
        RdnComponent { attr_type: self.attr_type.clone(), attr_value: self.attr_value.clone() }
    }
}

/// The type and value of each component.
pub open spec fn rdn_views(v: Seq<RdnComponent>) -> Seq<(Seq<char>, Seq<char>)> {
    v.map_values(|c: RdnComponent| (c.attr_type@, c.attr_value@))
}

/// The texts of the components joined by commas.
pub open spec fn join_rdns(v: Seq<(Seq<char>, Seq<char>)>) -> Seq<char>
    decreases v.len(),
{
    if v.len() == 0 {
        Seq::<char>::empty()
    } else if v.len() == 1 {
        rdn_text(v[0].0, v[0].1)
    } else {
        join_rdns(v.drop_last()) + seq![','] + rdn_text(v.last().0, v.last().1)
    }
}

/// Copies of a list of components.
fn copy_rdns(v: &[RdnComponent], from: usize) -> (r: Vec<RdnComponent>)
    requires
        from <= v@.len(),
    ensures
        rdn_views(r@) == rdn_views(v@).subrange(from as int, v@.len() as int),
{
    let mut r: Vec<RdnComponent> = Vec::new();
    let mut i: usize = from;
    while i < v.len()
        invariant
            from <= i <= v@.len(),
            r@.len() == i - from,
            forall|j: int| 0 <= j < r@.len() ==> (#[trigger] r@[j]).attr_type@ == v@[j + from].attr_type@
                && r@[j].attr_value@ == v@[j + from].attr_value@,
        decreases v@.len() - i,
    {
        r.push(v[i].copy());
        i = i + 1;
    }
    proof {
        assert(rdn_views(r@) =~= rdn_views(v@).subrange(from as int, v@.len() as int));
    }
    r
}

/// A distinguished name: its components from the entry itself up to the root.
#[derive(Debug, Clone, PartialEq, Eq)]
pub struct DistinguishedName {
    pub components: Vec<RdnComponent>,
}

/// The components that the parts of a split name give, if every part holds a '='.
pub open spec fn parse_parts(parts: Seq<Seq<char>>) -> Option<Seq<(Seq<char>, Seq<char>)>>
    decreases parts.len(),
{
    if parts.len() == 0 {
        Some(Seq::<(Seq<char>, Seq<char>)>::empty())
    } else {
        match (parse_parts(parts.drop_last()), parse_rdn(parts.last())) {
            (Some(a), Some(b)) => Some(a.push(b)),
            _ => None,
        }
    }
}

impl DistinguishedName {
    /// The components' types and values.
    pub open spec fn view_rdns(&self) -> Seq<(Seq<char>, Seq<char>)> {
        rdn_views(self.components@)
    }

    /// The name with no component.
    pub fn empty() -> (r: Self)
        ensures
            r.components@.len() == 0,
    {
        DistinguishedName { components: Vec::new() }
    }

    /// The name with the given components.
    pub fn from_components(components: Vec<RdnComponent>) -> (r: Self)
        ensures
            r.components@ == components@,
    {
        DistinguishedName { components }
    }

    /// Reads a name: empty text is the empty name; otherwise the text is split at
    /// unescaped commas and each part read as a component, and a part without '=' is a
    /// `Schema` error.
    pub fn parse(dn: &str) -> (r: Result<Self, HeraclesError>)
        ensures
            dn@.len() == 0 ==> (r matches Ok(d) && d.components@.len() == 0),
            dn@.len() > 0 ==> match parse_parts(split_dn_spec(dn@)) {
                Some(cs) => r matches Ok(d) && d.view_rdns() == cs,
                None => r matches Err(HeraclesError::Schema(_)),
            },
    {
        if dn.unicode_len() == 0 {
            return Ok(Self::empty());
        }
        let parts = split_dn(dn);
        let mut components: Vec<RdnComponent> = Vec::new();
        let mut i: usize = 0;
        proof {
            assert(views(parts@).subrange(0, 0) =~= Seq::<Seq<char>>::empty());
            assert(rdn_views(components@) =~= Seq::<(Seq<char>, Seq<char>)>::empty());
        }
        while i < parts.len()
            invariant
                i <= parts@.len(),
                views(parts@) == split_dn_spec(dn@),
                parse_parts(views(parts@).subrange(0, i as int)) == Some(rdn_views(components@)),
            decreases parts@.len() - i,
        {
            proof {
                let sub = views(parts@).subrange(0, i + 1);
                assert(sub.drop_last() =~= views(parts@).subrange(0, i as int));
                assert(sub.last() == parts@[i as int]@);
            }
            match RdnComponent::parse(parts[i].as_str()) {
                Ok(c) => {
                    let ghost before = rdn_views(components@);
                    components.push(c);
                    proof {
                        assert(rdn_views(components@) =~= before.push((c.attr_type@, c.attr_value@)));
                    }
                },
                Err(e) => {
                    proof {
                        lemma_parse_parts_none(views(parts@), i as int);
                    }
                    return Err(e);
                },
            }
            i = i + 1;
        }
        proof {
            assert(views(parts@).subrange(0, parts@.len() as int) =~= views(parts@));
        }
        Ok(DistinguishedName { components })
    }

    /// The first component, if any.
    pub fn rdn(&self) -> (r: Option<&RdnComponent>)
        ensures
            self.components@.len() == 0 ==> r is None,
            self.components@.len() > 0 ==> r == Some(&self.components@[0]),
    {
        if self.components.len() == 0 {
            None
        } else {
            Some(&self.components[0])
        }
    }

    /// The name without its first component, when it has at least two.
    pub fn parent(&self) -> (r: Option<Self>)
        ensures
            self.components@.len() <= 1 ==> r is None,
            self.components@.len() > 1 ==> (r matches Some(p) && p.view_rdns() == self.view_rdns().skip(1)),
    {
        if self.components.len() <= 1 {
            None
        } else {
            let c = copy_rdns(self.components.as_slice(), 1);
            proof {
                assert(self.view_rdns().skip(1) =~= self.view_rdns().subrange(1, self.components@.len() as int));
            }
            Some(DistinguishedName { components: c })
        }
    }

    /// The value of the first component, if any.
    pub fn rdn_value(&self) -> (r: Option<&str>)
        ensures
            self.components@.len() == 0 ==> r is None,
            self.components@.len() > 0 ==> (r matches Some(v) && v@ == self.components@[0].attr_value@),
    {
        if self.components.len() == 0 {
            None
        } else {
            Some(self.components[0].attr_value.as_str())
        }
    }

    /// The type of the first component, if any.
    pub fn rdn_type(&self) -> (r: Option<&str>)
        ensures
            self.components@.len() == 0 ==> r is None,
            self.components@.len() > 0 ==> (r matches Some(v) && v@ == self.components@[0].attr_type@),
    {
        if self.components.len() == 0 {
            None
        } else {
            Some(self.components[0].attr_type.as_str())
        }
    }

    /// Whether `base`'s components are the last components of this name.
    pub fn is_under(&self, base: &DistinguishedName) -> (r: bool)
        ensures
            r == (base.view_rdns().len() <= self.view_rdns().len() && self.view_rdns().subrange(
                self.view_rdns().len() - base.view_rdns().len(),
                self.view_rdns().len() as int,
            ) == base.view_rdns()),
    {
        let n = self.components.len();
        let m = base.components.len();
        if m > n {
            return false;
        }
        let off = n - m;
        let mut j: usize = 0;
        while j < m
            invariant
                n == self.components@.len(),
                m == base.components@.len(),
                off == n - m,
                j <= m,
                forall|q: int| 0 <= q < j ==> self.view_rdns()[off + q] == base.view_rdns()[q],
            decreases m - j,
        {
            let a = &self.components[off + j];
            let b = &base.components[j];
            if !(a.attr_type == b.attr_type && a.attr_value == b.attr_value) {
                proof {
                    assert(self.view_rdns().subrange(off as int, n as int)[j as int] != base.view_rdns()[j as int]);
                }
                return false;
            }
            j = j + 1;
        }
        proof {
            assert(self.view_rdns().subrange(off as int, n as int) =~= base.view_rdns());
        }
        true
    }

    /// This name's components followed by `base`'s.
    pub fn append(&self, base: &DistinguishedName) -> (r: Self)
        ensures
            r.view_rdns() == self.view_rdns() + base.view_rdns(),
    {
        let mut c = copy_rdns(self.components.as_slice(), 0);
        let mut d = copy_rdns(base.components.as_slice(), 0);
        let ghost cv = rdn_views(c@);
        let ghost dv = rdn_views(d@);
        c.append(&mut d);
        proof {
            assert(self.view_rdns().subrange(0, self.components@.len() as int) =~= self.view_rdns());
            assert(base.view_rdns().subrange(0, base.components@.len() as int) =~= base.view_rdns());
            assert(rdn_views(c@) =~= cv + dv);
        }
        DistinguishedName { components: c }
    }

    /// Number of components.
    pub fn len(&self) -> (r: usize)
        ensures
            r == self.components@.len(),
    {
        self.components.len()
    }

    /// Whether there is no component.
    pub fn is_empty(&self) -> (r: bool)
        ensures
            r == (self.components@.len() == 0),
    {
        self.components.len() == 0
    }

    /// The same name with every attribute type in lower case; values are kept.
    pub fn to_canonical(&self) -> (r: Self)
        ensures
            r.components@.len() == self.components@.len(),
            forall|i: int|
                0 <= i < r.components@.len() ==> (#[trigger] r.components@[i]).attr_type@ == lower_of(
                    self.components@[i].attr_type@,
                ) && r.components@[i].attr_value@ == self.components@[i].attr_value@,
    {
        let mut out: Vec<RdnComponent> = Vec::new();
        let mut i: usize = 0;
        while i < self.components.len()
            invariant
                i <= self.components@.len(),
                out@.len() == i,
                forall|j: int|
                    0 <= j < i ==> (#[trigger] out@[j]).attr_type@ == lower_of(self.components@[j].attr_type@)
                        && out@[j].attr_value@ == self.components@[j].attr_value@,
            decreases self.components@.len() - i,
        {
            let c = &self.components[i];
            out.push(RdnComponent { attr_type: to_lowercase(c.attr_type.as_str()), attr_value: c.attr_value.clone() });
            i = i + 1;
        }
        DistinguishedName { components: out }
    }

    /// The text of the name: the components' texts joined by commas.
    pub fn to_string(&self) -> (r: String)
        ensures
            r@ == join_rdns(self.view_rdns()),
    {
        let mut r = String::new();
        let mut i: usize = 0;
        proof {
            reveal_strlit(",");
            assert(self.view_rdns().subrange(0, 0) =~= Seq::<(Seq<char>, Seq<char>)>::empty());
        }
        while i < self.components.len()
            invariant
                i <= self.components@.len(),
                r@ == join_rdns(self.view_rdns().subrange(0, i as int)),
            decreases self.components@.len() - i,
        {
            proof {
                reveal_strlit(",");
                let sub = self.view_rdns().subrange(0, i + 1);
                assert(sub.drop_last() =~= self.view_rdns().subrange(0, i as int));
            }
            if i > 0 {
                r.append(",");
            }
            let t = self.components[i].to_string();
            r.append(t.as_str());
            proof {
                let sub = self.view_rdns().subrange(0, i + 1);
                assert(r@ =~= join_rdns(sub));
            }
            i = i + 1;
        }
        proof {
            assert(self.view_rdns().subrange(0, self.components@.len() as int) =~= self.view_rdns());
        }
        r
    }
}

proof fn lemma_parse_parts_none(parts: Seq<Seq<char>>, i: int)
    requires
        0 <= i < parts.len(),
        parse_rdn(parts[i]) is None,
    ensures
        parse_parts(parts) is None,
    decreases parts.len(),
{
    if i < parts.len() - 1 {
        lemma_parse_parts_none(parts.drop_last(), i);
    }
}

/// A name under construction, leaf first.
#[derive(Debug)]
pub struct DnBuilder {
    components: Vec<RdnComponent>,
}

impl DnBuilder {
    /// The components so far.
    pub closed spec fn rdns(&self) -> Seq<(Seq<char>, Seq<char>)> {
        rdn_views(self.components@)
    }

    /// A builder with no component.
    pub fn new() -> (r: Self)
        ensures
            r.rdns().len() == 0,
    {
        DnBuilder { components: Vec::new() }
    }

    /// Adds the component `attr_type=attr_value`.
    pub fn add(self, attr_type: &str, attr_value: &str) -> (r: Self)
        ensures
            r.rdns() == self.rdns().push((attr_type@, attr_value@)),
    {
        let mut r = self;
        let ghost before = rdn_views(r.components@);
        r.components.push(RdnComponent::new(attr_type, attr_value));
        proof {
            assert(rdn_views(r.components@) =~= before.push((attr_type@, attr_value@)));
        }
        r
    }

    /// Adds "uid=value".
    pub fn uid(self, value: &str) -> (r: Self)
        ensures
            r.rdns() == self.rdns().push(("uid"@, value@)),
    {
        self.add("uid", value)
    }

    /// Adds "cn=value".
    pub fn cn(self, value: &str) -> (r: Self)
        ensures
            r.rdns() == self.rdns().push(("cn"@, value@)),
    {
        self.add("cn", value)
    }

    /// Adds "ou=value".
    pub fn ou(self, value: &str) -> (r: Self)
        ensures
            r.rdns() == self.rdns().push(("ou"@, value@)),
    {
        self.add("ou", value)
    }

    /// Adds "dc=value".
    pub fn dc(self, value: &str) -> (r: Self)
        ensures
            r.rdns() == self.rdns().push(("dc"@, value@)),
    {
        self.add("dc", value)
    }

    /// Adds the components of the name `base`; nothing when it does not parse.
    pub fn base(self, base: &str) -> (r: Self)
        ensures
            base@.len() == 0 ==> r.rdns() == self.rdns(),
            base@.len() > 0 ==> match parse_parts(split_dn_spec(base@)) {
                Some(cs) => r.rdns() == self.rdns() + cs,
                None => r.rdns() == self.rdns(),
            },
    {
        let mut r = self;
        match DistinguishedName::parse(base) {
            Ok(dn) => {
                let mut extra = dn.components;
                let ghost before = rdn_views(r.components@);
                let ghost ev = rdn_views(extra@);
                r.components.append(&mut extra);
                proof {
                    assert(rdn_views(r.components@) =~= before + ev);
                    if base@.len() == 0 {
                        assert(ev =~= Seq::<(Seq<char>, Seq<char>)>::empty());
                        assert(before + ev =~= before);
                    }
                }
            },
            Err(_) => {},
        }
        r
    }

    /// The name built.
    pub fn build(self) -> (r: DistinguishedName)
        ensures
            r.view_rdns() == self.rdns(),
    {
        DistinguishedName { components: self.components }
    }
}

} // verus!
