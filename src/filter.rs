//! Search filters as values, and their text form.
use vstd::prelude::*;

use crate::dn::{escape_filter, escape_filter_value};

verus! {

broadcast use vstd::std_specs::vec::group_vec_axioms;

/// A search filter.
#[derive(Debug, PartialEq, Eq)]
pub enum LdapFilter {
    /// `(attr=value)`.
    Equals(String, String),
    /// `(attr=*)`.
    Present(String),
    /// `(attr=initial*any1*any2*final)`.
    Substring(String, Option<String>, Vec<String>, Option<String>),
    /// `(attr>=value)`.
    GreaterOrEqual(String, String),
    /// `(attr<=value)`.
    LessOrEqual(String, String),
    /// `(attr~=value)`.
    Approx(String, String),
    /// `(!filter)`.
    Not(Box<LdapFilter>),
    /// `(&filter1filter2...)`.
    And(Vec<LdapFilter>),
    /// `(|filter1filter2...)`.
    Or(Vec<LdapFilter>),
    /// Filter text used as it is.
    Raw(String),
}

/// `(attr` then `op`, the escaped value and `)`.
pub open spec fn simple_text(attr: Seq<char>, op: Seq<char>, value: Seq<char>) -> Seq<char> {
    seq!['('] + attr + op + escape_filter(value) + seq![')']
}

/// The escaped middle parts of a substring filter, each followed by '*'.
pub open spec fn any_text(parts: Seq<String>, k: int) -> Seq<char>
    decreases k,
{
    if k <= 0 {
        Seq::<char>::empty()
    } else {
        any_text(parts, k - 1) + escape_filter(parts[k - 1]@) + seq!['*']
    }
}

/// The escaped form of an optional part, or nothing.
pub open spec fn opt_text(o: Option<String>) -> Seq<char> {
    match o {
        Some(s) => escape_filter(s@),
        None => Seq::<char>::empty(),
    }
}

/// The text form of a filter.
pub open spec fn filter_text(f: LdapFilter) -> Seq<char>
    decreases f, 0int,
{
    match f {
        LdapFilter::Equals(a, v) => simple_text(a@, seq!['='], v@),
        LdapFilter::Present(a) => seq!['('] + a@ + seq!['=', '*', ')'],
        LdapFilter::Substring(a, i, any, fin) => seq!['('] + a@ + seq!['='] + opt_text(i) + seq!['*']
            + any_text(any@, any@.len() as int) + opt_text(fin) + seq![')'],
        LdapFilter::GreaterOrEqual(a, v) => simple_text(a@, seq!['>', '='], v@),
        LdapFilter::LessOrEqual(a, v) => simple_text(a@, seq!['<', '='], v@),
        LdapFilter::Approx(a, v) => simple_text(a@, seq!['~', '='], v@),
        LdapFilter::Not(inner) => seq!['(', '!'] + filter_text(*inner) + seq![')'],
        LdapFilter::And(fs) => seq!['(', '&'] + list_text(fs@, fs@.len() as int) + seq![')'],
        LdapFilter::Or(fs) => seq!['(', '|'] + list_text(fs@, fs@.len() as int) + seq![')'],
        LdapFilter::Raw(s) => s@,
    }
}

/// The text forms of the first `k` filters, one after the other.
pub open spec fn list_text(fs: Seq<LdapFilter>, k: int) -> Seq<char>
    decreases fs, k,
{
    if k <= 0 || k > fs.len() {
        Seq::<char>::empty()
    } else {
        list_text(fs, k - 1) + filter_text(fs[k - 1])
    }
}

/// The text of `o` escaped, appended to `r`.
fn push_opt(r: &mut String, o: &Option<String>)
    ensures
        final(r)@ == old(r)@ + opt_text(*o),
{
    match o {
        Some(s) => {
            let e = escape_filter_value(s.as_str());
            r.append(e.as_str());
        },
        None => {
            proof {
                assert(old(r)@ + Seq::<char>::empty() =~= old(r)@);
            }
        },
    }
}

/// `(attr`, `op`, the escaped value, `)`.
fn simple(attr: &String, op: &str, value: &String) -> (r: String)
    ensures
        r@ == seq!['('] + attr@ + op@ + escape_filter(value@) + seq![')'],
{
    let mut r = String::from_str("(");
    r.append(attr.as_str());
    r.append(op);
    let e = escape_filter_value(value.as_str());
    r.append(e.as_str());
    r.append(")");
    proof {
        reveal_strlit("(");
        reveal_strlit(")");
        assert(r@ =~= seq!['('] + attr@ + op@ + escape_filter(value@) + seq![')']);
    }
    r
}

impl LdapFilter {
    /// `(attr=value)`.
    pub fn eq(attr: &str, value: &str) -> (r: Self)
        ensures
            r matches LdapFilter::Equals(a, v) && a@ == attr@ && v@ == value@,
    {
        LdapFilter::Equals(attr.to_owned(), value.to_owned())
    }

    /// `(attr=*)`.
    pub fn present(attr: &str) -> (r: Self)
        ensures
            r matches LdapFilter::Present(a) && a@ == attr@,
    {
        LdapFilter::Present(attr.to_owned())
    }

    /// `(attr=*value*)`.
    pub fn contains(attr: &str, value: &str) -> (r: Self)
        ensures
            r matches LdapFilter::Substring(a, None, any, None) && a@ == attr@ && any@.len() == 1
                && any@[0]@ == value@,
    {
        let mut any: Vec<String> = Vec::new();
        any.push(value.to_owned());
        LdapFilter::Substring(attr.to_owned(), None, any, None)
    }

    /// `(attr=value*)`.
    pub fn starts_with(attr: &str, value: &str) -> (r: Self)
        ensures
            r matches LdapFilter::Substring(a, Some(i), any, None) && a@ == attr@ && i@ == value@
                && any@.len() == 0,
    {
        LdapFilter::Substring(attr.to_owned(), Some(value.to_owned()), Vec::new(), None)
    }

    /// `(attr=*value)`.
    pub fn ends_with(attr: &str, value: &str) -> (r: Self)
        ensures
            r matches LdapFilter::Substring(a, None, any, Some(f)) && a@ == attr@ && f@ == value@
                && any@.len() == 0,
    {
        LdapFilter::Substring(attr.to_owned(), None, Vec::new(), Some(value.to_owned()))
    }

    /// `(attr>=value)`.
    pub fn gte(attr: &str, value: &str) -> (r: Self)
        ensures
            r matches LdapFilter::GreaterOrEqual(a, v) && a@ == attr@ && v@ == value@,
    {
        LdapFilter::GreaterOrEqual(attr.to_owned(), value.to_owned())
    }

    /// `(attr<=value)`.
    pub fn lte(attr: &str, value: &str) -> (r: Self)
        ensures
            r matches LdapFilter::LessOrEqual(a, v) && a@ == attr@ && v@ == value@,
    {
        LdapFilter::LessOrEqual(attr.to_owned(), value.to_owned())
    }

    /// `(attr~=value)`.
    pub fn approx(attr: &str, value: &str) -> (r: Self)
        ensures
            r matches LdapFilter::Approx(a, v) && a@ == attr@ && v@ == value@,
    {
        LdapFilter::Approx(attr.to_owned(), value.to_owned())
    }

    /// `(!filter)`.
    pub fn not(filter: LdapFilter) -> (r: Self)
        ensures
            r == LdapFilter::Not(Box::new(filter)),
    {
        LdapFilter::Not(Box::new(filter))
    }

    /// All of `filters`.
    pub fn and(filters: Vec<LdapFilter>) -> (r: Self)
        ensures
            r == LdapFilter::And(filters),
    {
        LdapFilter::And(filters)
    }

    /// Any of `filters`.
    pub fn or(filters: Vec<LdapFilter>) -> (r: Self)
        ensures
            r == LdapFilter::Or(filters),
    {
        LdapFilter::Or(filters)
    }

    /// Filter text used as it is.
    pub fn raw(filter: &str) -> (r: Self)
        ensures
            r matches LdapFilter::Raw(s) && s@ == filter@,
    {
        LdapFilter::Raw(filter.to_owned())
    }

    /// The text form, with every value escaped.
    pub fn to_string(&self) -> (r: String)
        ensures
            r@ == filter_text(*self),
        decreases *self,
    {
        match self {
            LdapFilter::Equals(a, v) => {
                proof {
                    reveal_strlit("=");
                    assert("="@ =~= seq!['=']);
                }
                simple(a, "=", v)
            },
            LdapFilter::Present(a) => {
                let mut r = String::from_str("(");
                r.append(a.as_str());
                r.append("=*)");
                proof {
                    reveal_strlit("(");
                    reveal_strlit("=*)");
                    assert(r@ =~= seq!['('] + a@ + seq!['=', '*', ')']);
                }
                r
            },
            LdapFilter::Substring(a, initial, any, fin) => {
                let mut r = String::from_str("(");
                r.append(a.as_str());
                r.append("=");
                push_opt(&mut r, initial);
                r.append("*");
                proof {
                    reveal_strlit("(");
                    reveal_strlit("=");
                    reveal_strlit("*");
                }
                let ghost head = r@;
                let mut k: usize = 0;
                while k < any.len()
                    invariant
                        k <= any@.len(),
                        r@ == head + any_text(any@, k as int),
                    decreases any@.len() - k,
                {
                    let e = escape_filter_value(any[k].as_str());
                    r.append(e.as_str());
                    r.append("*");
                    proof {
                        reveal_strlit("*");
                        assert(r@ =~= head + any_text(any@, k + 1));
                    }
                    k = k + 1;
                }
                push_opt(&mut r, fin);
                r.append(")");
                proof {
                    reveal_strlit(")");
                    assert(r@ =~= filter_text(*self));
                }
                r
            },
            LdapFilter::GreaterOrEqual(a, v) => {
                proof {
                    reveal_strlit(">=");
                    assert(">="@ =~= seq!['>', '=']);
                }
                simple(a, ">=", v)
            },
            LdapFilter::LessOrEqual(a, v) => {
                proof {
                    reveal_strlit("<=");
                    assert("<="@ =~= seq!['<', '=']);
                }
                simple(a, "<=", v)
            },
            LdapFilter::Approx(a, v) => {
                proof {
                    reveal_strlit("~=");
                    assert("~="@ =~= seq!['~', '=']);
                }
                simple(a, "~=", v)
            },
            LdapFilter::Not(inner) => {
                let mut r = String::from_str("(!");
                let t = inner.to_string();
                r.append(t.as_str());
                r.append(")");
                proof {
                    reveal_strlit("(!");
                    reveal_strlit(")");
                    assert(r@ =~= filter_text(*self));
                }
                r
            },
            LdapFilter::And(fs) => {
                let r = Self::list_string("(&", fs);
                proof {
                    reveal_strlit("(&");
                    assert(r@ =~= filter_text(*self));
                }
                r
            },
            LdapFilter::Or(fs) => {
                let r = Self::list_string("(|", fs);
                proof {
                    reveal_strlit("(|");
                    assert(r@ =~= filter_text(*self));
                }
                r
            },
            LdapFilter::Raw(s) => s.clone(),
        }
    }

    /// `open`, the text forms of `fs`, then `)`.
    fn list_string(open: &str, fs: &Vec<LdapFilter>) -> (r: String)
        ensures
            r@ == open@ + list_text(fs@, fs@.len() as int) + seq![')'],
        decreases fs,
    {
        let mut r = String::from_str(open);
        let mut k: usize = 0;
        proof {
            assert(open@ + list_text(fs@, 0) =~= open@);
        }
        while k < fs.len()
            invariant
                k <= fs@.len(),
                r@ == open@ + list_text(fs@, k as int),
            decreases fs@.len() - k,
        {
            proof {
                assert(decreases_to!(fs => fs@[k as int]));
            }
            let t = fs[k].to_string();
            r.append(t.as_str());
            proof {
                assert(r@ =~= open@ + list_text(fs@, k + 1));
            }
            k = k + 1;
        }
        r.append(")");
        proof {
            reveal_strlit(")");
        }
        r
    }

    /// The text form, with every value escaped.
    pub fn to_string_escaped(&self) -> (r: String)
        ensures
            r@ == filter_text(*self),
    {
        self.to_string()
    }
}

/// Filters gathered one by one, then combined.
#[derive(Debug)]
pub struct FilterBuilder {
    filters: Vec<LdapFilter>,
}

/// `fs` combined: the one filter alone, or `combine` of them all.
pub open spec fn combined(fs: Seq<LdapFilter>, r: LdapFilter, or: bool) -> bool {
    if fs.len() == 1 {
        r == fs[0]
    } else if or {
        r matches LdapFilter::Or(v) && v@ == fs
    } else {
        r matches LdapFilter::And(v) && v@ == fs
    }
}

impl FilterBuilder {
    /// The filters gathered so far.
    pub closed spec fn gathered(&self) -> Seq<LdapFilter> {
        self.filters@
    }

    /// A builder with no filter.
    pub fn new() -> (r: Self)
        ensures
            r.gathered().len() == 0,
    {
        FilterBuilder { filters: Vec::new() }
    }

    /// Adds `filter`.
    pub fn filter(self, filter: LdapFilter) -> (r: Self)
        ensures
            r.gathered() == self.gathered().push(filter),
    {
        let mut r = self;
        r.filters.push(filter);
        r
    }

    /// Adds `(attr=value)`.
    pub fn eq(self, attr: &str, value: &str) -> (r: Self)
        ensures
            r.gathered().len() == self.gathered().len() + 1,
            r.gathered().drop_last() == self.gathered(),
            r.gathered().last() matches LdapFilter::Equals(a, v) && a@ == attr@ && v@ == value@,
    {
        let r = self.filter(LdapFilter::eq(attr, value));
        proof {
            assert(r.gathered().drop_last() =~= self.gathered());
        }
        r
    }

    /// Adds `(attr=*)`.
    pub fn present(self, attr: &str) -> (r: Self)
        ensures
            r.gathered().len() == self.gathered().len() + 1,
            r.gathered().drop_last() == self.gathered(),
            r.gathered().last() matches LdapFilter::Present(a) && a@ == attr@,
    {
        let r = self.filter(LdapFilter::present(attr));
        proof {
            assert(r.gathered().drop_last() =~= self.gathered());
        }
        r
    }

    /// Adds `(attr=*value*)`.
    pub fn contains(self, attr: &str, value: &str) -> (r: Self)
        ensures
            r.gathered().len() == self.gathered().len() + 1,
            r.gathered().drop_last() == self.gathered(),
            r.gathered().last() matches LdapFilter::Substring(a, None, any, None) && a@ == attr@
                && any@.len() == 1 && any@[0]@ == value@,
    {
        let r = self.filter(LdapFilter::contains(attr, value));
        proof {
            assert(r.gathered().drop_last() =~= self.gathered());
        }
        r
    }

    /// Adds `(attr=value*)`.
    pub fn starts_with(self, attr: &str, value: &str) -> (r: Self)
        ensures
            r.gathered().len() == self.gathered().len() + 1,
            r.gathered().drop_last() == self.gathered(),
            r.gathered().last() matches LdapFilter::Substring(a, Some(i), any, None) && a@ == attr@
                && i@ == value@ && any@.len() == 0,
    {
        let r = self.filter(LdapFilter::starts_with(attr, value));
        proof {
            assert(r.gathered().drop_last() =~= self.gathered());
        }
        r
    }

    /// Adds `(attr=*value)`.
    pub fn ends_with(self, attr: &str, value: &str) -> (r: Self)
        ensures
            r.gathered().len() == self.gathered().len() + 1,
            r.gathered().drop_last() == self.gathered(),
            r.gathered().last() matches LdapFilter::Substring(a, None, any, Some(f)) && a@ == attr@
                && f@ == value@ && any@.len() == 0,
    {
        let r = self.filter(LdapFilter::ends_with(attr, value));
        proof {
            assert(r.gathered().drop_last() =~= self.gathered());
        }
        r
    }

    /// Adds `(objectClass=class)`.
    pub fn object_class(self, class: &str) -> (r: Self)
        ensures
            r.gathered().len() == self.gathered().len() + 1,
            r.gathered().drop_last() == self.gathered(),
            r.gathered().last() matches LdapFilter::Equals(a, v) && a@ == "objectClass"@ && v@
                == class@,
    {
        let r = self.filter(LdapFilter::eq("objectClass", class));
        proof {
            assert(r.gathered().drop_last() =~= self.gathered());
        }
        r
    }

    /// All gathered filters: the single one alone, otherwise their conjunction.
    pub fn build_and(self) -> (r: LdapFilter)
        ensures
            combined(self.gathered(), r, false),
    {
        let mut fs = self.filters;
        if fs.len() == 1 {
            let f = fs.pop();
            match f {
                Some(f) => f,
                None => LdapFilter::And(Vec::new()),
            }
        } else {
            LdapFilter::And(fs)
        }
    }

    /// Any gathered filter: the single one alone, otherwise their disjunction.
    pub fn build_or(self) -> (r: LdapFilter)
        ensures
            combined(self.gathered(), r, true),
    {
        let mut fs = self.filters;
        if fs.len() == 1 {
            let f = fs.pop();
            match f {
                Some(f) => f,
                None => LdapFilter::Or(Vec::new()),
            }
        } else {
            LdapFilter::Or(fs)
        }
    }
}

} // verus!
