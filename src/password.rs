//! Password hashes in the directory's "{SCHEME}value" form: which scheme a stored value
//! uses, hashing a password under a scheme, and checking a password against a stored hash.
use vstd::prelude::*;

use base64::Engine;
use rand::RngCore;
use sha2::Digest;

use crate::errors::HeraclesError;
use crate::text::{has_prefix, starts_with, str_eq};
use vstd::string::StringSliceAdditionalSpecFns;

verus! {

/// What `str::to_uppercase` gives for `s`.
pub uninterp spec fn upper_of(s: Seq<char>) -> Seq<char>;

/// The SHA-1 digest of `b`.
pub uninterp spec fn sha1_of(b: Seq<u8>) -> Seq<u8>;

/// The SHA-256 digest of `b`.
pub uninterp spec fn sha256_of(b: Seq<u8>) -> Seq<u8>;

/// The SHA-512 digest of `b`.
pub uninterp spec fn sha512_of(b: Seq<u8>) -> Seq<u8>;

/// The MD5 digest of `b`.
pub uninterp spec fn md5_of(b: Seq<u8>) -> Seq<u8>;

/// The standard padded base64 writing of `b`.
pub uninterp spec fn base64_of(b: Seq<u8>) -> Seq<char>;

/// The bytes that the standard padded base64 text `s` stands for, if it is such a text.
pub uninterp spec fn base64_decoded(s: Seq<char>) -> Option<Seq<u8>>;

/// Whether argon2 accepts `password` for the PHC string `hash`; `None` when `hash` does
/// not parse.
pub uninterp spec fn argon2_verdict(password: Seq<char>, hash: Seq<char>) -> Option<bool>;

/// Whether bcrypt accepts `password` for `hash`; `None` when bcrypt reports an error.
pub uninterp spec fn bcrypt_verdict(password: Seq<char>, hash: Seq<char>) -> Option<bool>;

/// Relies on `str::to_uppercase`: its result depends on the characters of `s` alone.
#[verifier::external_body]
fn to_upper(s: &str) -> (r: String)
    ensures
        r@ == upper_of(s@),
{
    s.to_uppercase()
}

/// Relies on `sha1::Sha1::digest`: the 20-byte SHA-1 digest.
#[verifier::external_body]
fn sha1_digest(data: &[u8]) -> (r: Vec<u8>)
    ensures
        r@ == sha1_of(data@),
        r@.len() == 20,
{
    sha1::Sha1::digest(data).to_vec()
}

/// Relies on `sha2::Sha256::digest`: the 32-byte SHA-256 digest.
#[verifier::external_body]
fn sha256_digest(data: &[u8]) -> (r: Vec<u8>)
    ensures
        r@ == sha256_of(data@),
        r@.len() == 32,
{
    sha2::Sha256::digest(data).to_vec()
}

/// Relies on `sha2::Sha512::digest`: the 64-byte SHA-512 digest.
#[verifier::external_body]
fn sha512_digest(data: &[u8]) -> (r: Vec<u8>)
    ensures
        r@ == sha512_of(data@),
        r@.len() == 64,
{
    sha2::Sha512::digest(data).to_vec()
}

/// Relies on `md5::Md5::digest` (the md-5 package): the 16-byte MD5 digest.
#[verifier::external_body]
fn md5_digest(data: &[u8]) -> (r: Vec<u8>)
    ensures
        r@ == md5_of(data@),
        r@.len() == 16,
{
    md5::Md5::digest(data).to_vec()
}

/// Relies on base64's `STANDARD.encode`: padded standard base64.
#[verifier::external_body]
fn base64_encode(data: &[u8]) -> (r: String)
    ensures
        r@ == base64_of(data@),
{
    base64::engine::general_purpose::STANDARD.encode(data)
}

/// Relies on base64's `STANDARD.decode`: the bytes, or an error when `s` is not padded
/// standard base64.
#[verifier::external_body]
fn base64_decode(s: &str) -> (r: Option<Vec<u8>>)
    ensures
        match r {
            Some(v) => base64_decoded(s@) == Some(v@),
            None => base64_decoded(s@) is None,
        },
{
    base64::engine::general_purpose::STANDARD.decode(s).ok()
}

/// Relies on rand's `thread_rng().fill_bytes`: `n` random bytes.
#[verifier::external_body]
fn random_bytes(n: usize) -> (r: Vec<u8>)
    ensures
        r@.len() == n,
{
    let mut salt = vec![0u8; n];
    rand::thread_rng().fill_bytes(&mut salt);
    salt
}

/// Relies on argon2's `Argon2::default().hash_password` with a salt from `OsRng`: the PHC
/// string, or the error's text.
#[verifier::external_body]
fn argon2_hash(password: &str) -> (r: Result<String, String>) {
    let salt = argon2::password_hash::SaltString::generate(&mut argon2::password_hash::rand_core::OsRng);
    argon2::PasswordHasher::hash_password(&argon2::Argon2::default(), password.as_bytes(), &salt)
        .map(|h| h.to_string())
        .map_err(|e| e.to_string())
}

/// Relies on argon2's `PasswordHash::new` and `Argon2::default().verify_password`: whether
/// the password matches, or `None` when the hash does not parse.
#[verifier::external_body]
fn argon2_verify(password: &str, hash: &str) -> (r: Option<bool>)
    ensures
        r == argon2_verdict(password@, hash@),
{
    match argon2::PasswordHash::new(hash) {
        Ok(parsed) => Some(
            argon2::PasswordVerifier::verify_password(&argon2::Argon2::default(), password.as_bytes(), &parsed)
                .is_ok(),
        ),
        Err(_) => None,
    }
}

/// Relies on `bcrypt::hash` at `bcrypt::DEFAULT_COST`: the hash, or the error's text.
#[verifier::external_body]
fn bcrypt_hash(password: &str) -> (r: Result<String, String>) {
    bcrypt::hash(password, bcrypt::DEFAULT_COST).map_err(|e| e.to_string())
}

/// Relies on `bcrypt::verify`: whether the password matches, or `None` on an error.
#[verifier::external_body]
fn bcrypt_verify(password: &str, hash: &str) -> (r: Option<bool>)
    ensures
        r == bcrypt_verdict(password@, hash@),
{
    bcrypt::verify(password, hash).ok()
}

/// The schemes a stored password hash can use.
#[derive(Debug, Clone, Copy, PartialEq, Eq, Structural)]
pub enum HashMethod {
    Ssha,
    Argon2id,
    Bcrypt,
    Sha512,
    Ssha512,
    Sha256,
    Ssha256,
    Md5,
    Smd5,
    Plain,
}

/// The prefix that marks a stored hash of scheme `m`; empty for plain text.
pub open spec fn scheme_of(m: HashMethod) -> Seq<char> {
    match m {
        HashMethod::Ssha => "{SSHA}"@,
        HashMethod::Argon2id => "{ARGON2}"@,
        HashMethod::Bcrypt => "{BCRYPT}"@,
        HashMethod::Sha512 => "{SHA512}"@,
        HashMethod::Ssha512 => "{SSHA512}"@,
        HashMethod::Sha256 => "{SHA256}"@,
        HashMethod::Ssha256 => "{SSHA256}"@,
        HashMethod::Md5 => "{MD5}"@,
        HashMethod::Smd5 => "{SMD5}"@,
        HashMethod::Plain => ""@,
    }
}

/// The scheme an upper-case name stands for, with or without braces.
pub open spec fn method_named(u: Seq<char>) -> Option<HashMethod> {
    if u == "SSHA"@ || u == "{SSHA}"@ {
        Some(HashMethod::Ssha)
    } else if u == "ARGON2"@ || u == "ARGON2ID"@ || u == "{ARGON2}"@ {
        Some(HashMethod::Argon2id)
    } else if u == "BCRYPT"@ || u == "{BCRYPT}"@ {
        Some(HashMethod::Bcrypt)
    } else if u == "SHA512"@ || u == "{SHA512}"@ {
        Some(HashMethod::Sha512)
    } else if u == "SSHA512"@ || u == "{SSHA512}"@ {
        Some(HashMethod::Ssha512)
    } else if u == "SHA256"@ || u == "{SHA256}"@ {
        Some(HashMethod::Sha256)
    } else if u == "SSHA256"@ || u == "{SSHA256}"@ {
        Some(HashMethod::Ssha256)
    } else if u == "MD5"@ || u == "{MD5}"@ {
        Some(HashMethod::Md5)
    } else if u == "SMD5"@ || u == "{SMD5}"@ {
        Some(HashMethod::Smd5)
    } else if u == "PLAIN"@ || u == "CLEAR"@ || u == "CLEARTEXT"@ {
        Some(HashMethod::Plain)
    } else {
        None
    }
}

/// The scheme of a stored hash, from its upper-case form `u` and the hash `h` itself;
/// longer prefixes are tried first, and a bcrypt hash may also start with "$2".
pub open spec fn method_of_prefix(u: Seq<char>, h: Seq<char>) -> Option<HashMethod> {
    if has_prefix(u, "{SSHA512}"@) {
        Some(HashMethod::Ssha512)
    } else if has_prefix(u, "{SSHA256}"@) {
        Some(HashMethod::Ssha256)
    } else if has_prefix(u, "{SSHA}"@) {
        Some(HashMethod::Ssha)
    } else if has_prefix(u, "{SHA512}"@) {
        Some(HashMethod::Sha512)
    } else if has_prefix(u, "{SHA256}"@) {
        Some(HashMethod::Sha256)
    } else if has_prefix(u, "{ARGON2}"@) {
        Some(HashMethod::Argon2id)
    } else if has_prefix(u, "{BCRYPT}"@) || has_prefix(h, "$2"@) {
        Some(HashMethod::Bcrypt)
    } else if has_prefix(u, "{SMD5}"@) {
        Some(HashMethod::Smd5)
    } else if has_prefix(u, "{MD5}"@) {
        Some(HashMethod::Md5)
    } else {
        None
    }
}

impl HashMethod {
    /// The prefix that marks a stored hash of this scheme; empty for plain text.
    pub fn scheme(&self) -> (r: &'static str)
        ensures
            r@ == scheme_of(*self),
    {
        match self {
            HashMethod::Ssha => "{SSHA}",
            HashMethod::Argon2id => "{ARGON2}",
            HashMethod::Bcrypt => "{BCRYPT}",
            HashMethod::Sha512 => "{SHA512}",
            HashMethod::Ssha512 => "{SSHA512}",
            HashMethod::Sha256 => "{SHA256}",
            HashMethod::Ssha256 => "{SSHA256}",
            HashMethod::Md5 => "{MD5}",
            HashMethod::Smd5 => "{SMD5}",
            HashMethod::Plain => "",
        }
    }

    /// The scheme named by `upper`, an upper-case name with or without braces.
    pub fn from_upper(upper: &str) -> (r: Option<Self>)
        ensures
            r == method_named(upper@),
    {
        let u = upper;
        if str_eq(u, "SSHA") || str_eq(u, "{SSHA}") {
            Some(HashMethod::Ssha)
        } else if str_eq(u, "ARGON2") || str_eq(u, "ARGON2ID") || str_eq(u, "{ARGON2}") {
            Some(HashMethod::Argon2id)
        } else if str_eq(u, "BCRYPT") || str_eq(u, "{BCRYPT}") {
            Some(HashMethod::Bcrypt)
        } else if str_eq(u, "SHA512") || str_eq(u, "{SHA512}") {
            Some(HashMethod::Sha512)
        } else if str_eq(u, "SSHA512") || str_eq(u, "{SSHA512}") {
            Some(HashMethod::Ssha512)
        } else if str_eq(u, "SHA256") || str_eq(u, "{SHA256}") {
            Some(HashMethod::Sha256)
        } else if str_eq(u, "SSHA256") || str_eq(u, "{SSHA256}") {
            Some(HashMethod::Ssha256)
        } else if str_eq(u, "MD5") || str_eq(u, "{MD5}") {
            Some(HashMethod::Md5)
        } else if str_eq(u, "SMD5") || str_eq(u, "{SMD5}") {
            Some(HashMethod::Smd5)
        } else if str_eq(u, "PLAIN") || str_eq(u, "CLEAR") || str_eq(u, "CLEARTEXT") {
            Some(HashMethod::Plain)
        } else {
            None
        }
    }

    /// The scheme named by `s`, in any case, with or without braces.
    pub fn from_str(s: &str) -> (r: Option<Self>)
        ensures
            r == method_named(upper_of(s@)),
    {
        let u = to_upper(s);
        Self::from_upper(u.as_str())
    }

    /// The scheme of the stored hash `hash`, given `upper`, its upper-case form.
    pub fn detect_upper(upper: &str, hash: &str) -> (r: Option<Self>)
        ensures
            r == method_of_prefix(upper@, hash@),
    {
        let u = upper;
        if starts_with(u, "{SSHA512}") {
            Some(HashMethod::Ssha512)
        } else if starts_with(u, "{SSHA256}") {
            Some(HashMethod::Ssha256)
        } else if starts_with(u, "{SSHA}") {
            Some(HashMethod::Ssha)
        } else if starts_with(u, "{SHA512}") {
            Some(HashMethod::Sha512)
        } else if starts_with(u, "{SHA256}") {
            Some(HashMethod::Sha256)
        } else if starts_with(u, "{ARGON2}") {
            Some(HashMethod::Argon2id)
        } else if starts_with(u, "{BCRYPT}") || starts_with(hash, "$2") {
            Some(HashMethod::Bcrypt)
        } else if starts_with(u, "{SMD5}") {
            Some(HashMethod::Smd5)
        } else if starts_with(u, "{MD5}") {
            Some(HashMethod::Md5)
        } else {
            None
        }
    }

    /// The scheme of the stored hash `hash`, read from its prefix in any case.
    pub fn detect(hash: &str) -> (r: Option<Self>)
        ensures
            r == method_of_prefix(upper_of(hash@), hash@),
    {
        let u = to_upper(hash);
        Self::detect_upper(u.as_str(), hash)
    }

    /// Whether the scheme is salted or deliberately slow.
    pub fn is_secure(&self) -> (r: bool)
        ensures
            r == (*self == HashMethod::Argon2id || *self == HashMethod::Bcrypt || *self
                == HashMethod::Ssha512 || *self == HashMethod::Ssha256 || *self == HashMethod::Ssha),
    {
        match self {
            HashMethod::Argon2id | HashMethod::Bcrypt | HashMethod::Ssha512 | HashMethod::Ssha256
            | HashMethod::Ssha => true,
            _ => false,
        }
    }

    /// The scheme's prefix, as for display.
    pub fn to_string(&self) -> (r: String)
        ensures
            r@ == scheme_of(*self),
    {
        String::from_str(self.scheme())
    }
}

impl Default for HashMethod {
    /// Salted SHA-1, the directory's customary default.
    fn default() -> (r: Self)
        ensures
            r == HashMethod::Ssha,
    {
        HashMethod::Ssha
    }
}

/// A stored password hash and its scheme.
#[derive(Debug, Clone)]
pub struct PasswordHash {
    pub method: HashMethod,
    pub hash: String,
}

/// The part of `h` after the prefix of scheme `m`, or all of `h` when it is no longer
/// than the prefix.
pub open spec fn hash_value(m: HashMethod, h: Seq<char>) -> Seq<char> {
    if h.len() > scheme_of(m).len() {
        h.subrange(scheme_of(m).len() as int, h.len() as int)
    } else {
        h
    }
}

impl PasswordHash {
    /// A hash of scheme `method`.
    pub fn new(method: HashMethod, hash: String) -> (r: Self)
        ensures
            r.method == method,
            r.hash == hash,
    {
        PasswordHash { method, hash }
    }

    /// The stored hash `hash` with the scheme read from its prefix;
    /// `UnsupportedHashMethod` when no scheme is recognised.
    pub fn parse(hash: &str) -> (r: Result<Self, HeraclesError>)
        ensures
            match method_of_prefix(upper_of(hash@), hash@) {
                Some(m) => r matches Ok(p) && p.method == m && p.hash@ == hash@,
                None => r matches Err(HeraclesError::UnsupportedHashMethod(s)) && s@ == hash@,
            },
    {
        match HashMethod::detect(hash) {
            Some(method) => Ok(PasswordHash { method, hash: hash.to_owned() }),
            None => Err(HeraclesError::UnsupportedHashMethod(hash.to_owned())),
        }
    }

    /// The hash without its scheme prefix.
    pub fn value(&self) -> (r: &str)
        ensures
            r@ == hash_value(self.method, self.hash@),
    {
        let n = self.method.scheme().unicode_len();
        let h = self.hash.as_str();
        let len = h.unicode_len();
        if len > n {
            h.substring_char(n, len)
        } else {
            h
        }
    }
}

/// Hashes passwords under a chosen scheme.
pub trait PasswordHasher {
    fn hash(&self, password: &str, method: HashMethod) -> Result<PasswordHash, HeraclesError>;
}

/// Checks passwords against stored hashes.
pub trait PasswordVerifier {
    fn verify(&self, password: &str, hash: &PasswordHash) -> Result<bool, HeraclesError>;
}

/// The library's own hasher and verifier.
#[derive(Debug, Default)]
pub struct DefaultPasswordHasher;

impl PasswordHasher for DefaultPasswordHasher {
    fn hash(&self, password: &str, method: HashMethod) -> Result<PasswordHash, HeraclesError> {
        hash_password(password, method)
    }
}

impl PasswordVerifier for DefaultPasswordHasher {
    fn verify(&self, password: &str, hash: &PasswordHash) -> Result<bool, HeraclesError> {
        verify_password(password, hash)
    }
}

/// `prefix` followed by the base64 writing of `data`.
fn prefixed_base64(prefix: &str, data: &Vec<u8>) -> (r: String)
    ensures
        r@ == prefix@ + base64_of(data@),
{
    let mut r = String::from_str(prefix);
    let e = base64_encode(data.as_slice());
    r.append(e.as_str());
    r
}

/// The bytes of `password` followed by `salt`.
fn salted_input(password: &str, salt: &[u8]) -> (r: Vec<u8>)
    ensures
        r@ == password.spec_bytes() + salt@,
{
    let mut input = password.as_bytes_vec();
    let mut i: usize = 0;
    let ghost start = input@;
    while i < salt.len()
        invariant
            i <= salt@.len(),
            input@ == start + salt@.subrange(0, i as int),
        decreases salt@.len() - i,
    {
        input.push(salt[i]);
        proof {
            assert(input@ =~= start + salt@.subrange(0, i + 1));
        }
        i = i + 1;
    }
    proof {
        assert(salt@.subrange(0, salt@.len() as int) =~= salt@);
    }
    input
}

/// Which digest a scheme uses.
pub open spec fn digest_of(m: HashMethod, b: Seq<u8>) -> Seq<u8> {
    match m {
        HashMethod::Ssha => sha1_of(b),
        HashMethod::Sha256 | HashMethod::Ssha256 => sha256_of(b),
        HashMethod::Sha512 | HashMethod::Ssha512 => sha512_of(b),
        _ => md5_of(b),
    }
}

/// The digest length of a scheme.
pub open spec fn digest_len(m: HashMethod) -> nat {
    match m {
        HashMethod::Ssha => 20,
        HashMethod::Sha256 | HashMethod::Ssha256 => 32,
        HashMethod::Sha512 | HashMethod::Ssha512 => 64,
        _ => 16,
    }
}

/// The digest of `data` under the digest that scheme `m` uses.
fn digest_for(m: HashMethod, data: &[u8]) -> (r: Vec<u8>)
    ensures
        r@ == digest_of(m, data@),
        r@.len() == digest_len(m),
{
    match m {
        HashMethod::Ssha => sha1_digest(data),
        HashMethod::Sha256 | HashMethod::Ssha256 => sha256_digest(data),
        HashMethod::Sha512 | HashMethod::Ssha512 => sha512_digest(data),
        _ => md5_digest(data),
    }
}

/// The salt length of a salted scheme.
pub open spec fn salt_len(m: HashMethod) -> nat {
    match m {
        HashMethod::Ssha | HashMethod::Smd5 => 8,
        _ => 16,
    }
}

/// Whether `m` is one of the salted digest schemes.
pub open spec fn is_salted_digest(m: HashMethod) -> bool {
    m == HashMethod::Ssha || m == HashMethod::Ssha256 || m == HashMethod::Ssha512 || m
        == HashMethod::Smd5
}

/// Whether `m` is one of the plain digest schemes.
pub open spec fn is_plain_digest(m: HashMethod) -> bool {
    m == HashMethod::Sha256 || m == HashMethod::Sha512 || m == HashMethod::Md5
}

/// The stored form of a salted digest: the prefix, then base64 of the digest of the
/// password and salt followed by the salt.
pub open spec fn salted_form(m: HashMethod, password: Seq<u8>, salt: Seq<u8>) -> Seq<char> {
    scheme_of(m) + base64_of(digest_of(m, password + salt) + salt)
}

/// The stored form of a plain digest: the prefix, then base64 of the digest.
pub open spec fn plain_form(m: HashMethod, password: Seq<u8>) -> Seq<char> {
    scheme_of(m) + base64_of(digest_of(m, password))
}

/// A salted digest of `password` under `m` with the given salt.
pub fn hash_salted_with(password: &str, m: HashMethod, salt: &Vec<u8>) -> (r: String)
    requires
        is_salted_digest(m),
    ensures
        r@ == salted_form(m, password.spec_bytes(), salt@),
{
    let input = salted_input(password, salt.as_slice());
    let mut d = digest_for(m, input.as_slice());
    let mut s = salt.clone();
    assert(s@ == salt@) by {
        assert(s@ =~= salt@);
    }
    d.append(&mut s);
    prefixed_base64(m.scheme(), &d)
}

/// A plain digest of `password` under `m`.
pub fn hash_plain_digest(password: &str, m: HashMethod) -> (r: String)
    requires
        is_plain_digest(m),
    ensures
        r@ == plain_form(m, password.spec_bytes()),
{
    let input = password.as_bytes_vec();
    let d = digest_for(m, input.as_slice());
    prefixed_base64(m.scheme(), &d)
}

/// Hashes `password` under `method`. Salted digests draw a fresh random salt (8 bytes for
/// SHA-1 and MD5, 16 for the others); argon2 and bcrypt salt themselves; plain text is
/// stored as is. Argon2 and bcrypt failures come back as `PasswordHash` errors.
pub fn hash_password(password: &str, method: HashMethod) -> (r: Result<PasswordHash, HeraclesError>)
    ensures
        r matches Ok(p) ==> p.method == method,
        is_salted_digest(method) ==> (r matches Ok(p) && exists|salt: Seq<u8>|
            salt.len() == salt_len(method) && p.hash@ == salted_form(method, password.spec_bytes(), salt)),
        is_plain_digest(method) ==> (r matches Ok(p) && p.hash@ == plain_form(method, password.spec_bytes())),
        method == HashMethod::Plain ==> (r matches Ok(p) && p.hash@ == password@),
        method == HashMethod::Argon2id ==> (r matches Ok(p) ==> has_prefix(p.hash@, "{ARGON2}"@)),
        method == HashMethod::Bcrypt ==> (r matches Ok(p) ==> has_prefix(p.hash@, "{BCRYPT}"@)),
        r is Err ==> (method == HashMethod::Argon2id || method == HashMethod::Bcrypt),
{
    match method {
        HashMethod::Ssha | HashMethod::Smd5 | HashMethod::Ssha256 | HashMethod::Ssha512 => {
            let n: usize = if method == HashMethod::Ssha || method == HashMethod::Smd5 {
                8
            } else {
                16
            };
            let salt = random_bytes(n);
            let h = hash_salted_with(password, method, &salt);
            Ok(PasswordHash { method, hash: h })
        },
        HashMethod::Sha256 | HashMethod::Sha512 | HashMethod::Md5 => {
            let h = hash_plain_digest(password, method);
            Ok(PasswordHash { method, hash: h })
        },
        HashMethod::Plain => Ok(PasswordHash { method, hash: password.to_owned() }),
        HashMethod::Argon2id => match argon2_hash(password) {
            Ok(h) => {
                let mut r = String::from_str("{ARGON2}");
                r.append(h.as_str());
                proof {
                    assert(has_prefix(r@, "{ARGON2}"@)) by {
                        assert(r@.subrange(0, "{ARGON2}"@.len() as int) =~= "{ARGON2}"@);
                    }
                }
                Ok(PasswordHash { method, hash: r })
            },
            Err(e) => Err(HeraclesError::PasswordHash(e)),
        },
        HashMethod::Bcrypt => match bcrypt_hash(password) {
            Ok(h) => {
                let mut r = String::from_str("{BCRYPT}");
                r.append(h.as_str());
                proof {
                    assert(has_prefix(r@, "{BCRYPT}"@)) by {
                        assert(r@.subrange(0, "{BCRYPT}"@.len() as int) =~= "{BCRYPT}"@);
                    }
                }
                Ok(PasswordHash { method, hash: r })
            },
            Err(e) => Err(HeraclesError::PasswordHash(e)),
        },
    }
}

/// `h` without the prefix `upper` or `lower`, or all of `h` when it has neither.
pub open spec fn strip_scheme(h: Seq<char>, upper: Seq<char>, lower: Seq<char>) -> Seq<char> {
    if has_prefix(h, upper) {
        h.subrange(upper.len() as int, h.len() as int)
    } else if has_prefix(h, lower) {
        h.subrange(lower.len() as int, h.len() as int)
    } else {
        h
    }
}

/// `h` without the prefix `upper` or `lower`, or all of `h` when it has neither.
fn strip_either<'a>(h: &'a str, upper: &str, lower: &str) -> (r: &'a str)
    ensures
        r@ == strip_scheme(h@, upper@, lower@),
{
    let n = h.unicode_len();
    if starts_with(h, upper) {
        h.substring_char(upper.unicode_len(), n)
    } else if starts_with(h, lower) {
        h.substring_char(lower.unicode_len(), n)
    } else {
        h
    }
}

/// Whether two byte strings are equal, looking at every byte whatever the first difference.
pub fn constant_time_eq(a: &[u8], b: &[u8]) -> (r: bool)
    ensures
        r == (a@ == b@),
{
    if a.len() != b.len() {
        return false;
    }
    let mut acc: u8 = 0;
    let mut i: usize = 0;
    while i < a.len()
        invariant
            i <= a@.len(),
            a@.len() == b@.len(),
            (acc == 0) == (forall|j: int| 0 <= j < i ==> a@[j] == b@[j]),
        decreases a@.len() - i,
    {
        let x = a[i];
        let y = b[i];
        proof {
            let old_acc = acc;
            assert((old_acc | (x ^ y)) == 0u8 <==> (old_acc == 0u8 && x == y)) by (bit_vector);
        }
        acc = acc | (x ^ y);
        i = i + 1;
    }
    proof {
        if acc == 0 {
            assert(a@ =~= b@);
        }
    }
    acc == 0
}

/// The lowercase form of each scheme prefix, also accepted when checking.
pub open spec fn lower_scheme_of(m: HashMethod) -> Seq<char> {
    match m {
        HashMethod::Ssha => "{ssha}"@,
        HashMethod::Argon2id => "{argon2}"@,
        HashMethod::Bcrypt => "{bcrypt}"@,
        HashMethod::Sha512 => "{sha512}"@,
        HashMethod::Ssha512 => "{ssha512}"@,
        HashMethod::Sha256 => "{sha256}"@,
        HashMethod::Ssha256 => "{ssha256}"@,
        HashMethod::Md5 => "{md5}"@,
        HashMethod::Smd5 => "{smd5}"@,
        HashMethod::Plain => ""@,
    }
}

/// The lowercase prefix of a scheme.
fn lower_scheme(m: HashMethod) -> (r: &'static str)
    ensures
        r@ == lower_scheme_of(m),
{
    match m {
        HashMethod::Ssha => "{ssha}",
        HashMethod::Argon2id => "{argon2}",
        HashMethod::Bcrypt => "{bcrypt}",
        HashMethod::Sha512 => "{sha512}",
        HashMethod::Ssha512 => "{ssha512}",
        HashMethod::Sha256 => "{sha256}",
        HashMethod::Ssha256 => "{ssha256}",
        HashMethod::Md5 => "{md5}",
        HashMethod::Smd5 => "{smd5}",
        HashMethod::Plain => "",
    }
}

/// The outcome of checking `password` (as bytes `pw`, as text `pt`) against the stored
/// hash `h` of scheme `m`: for salted digests the decoded value splits into digest and
/// salt, for plain digests the base64 texts are compared.
pub open spec fn verdict(m: HashMethod, pw: Seq<u8>, pt: Seq<char>, h: Seq<char>) -> Result<bool, ()> {
    let v = strip_scheme(h, scheme_of(m), lower_scheme_of(m));
    if is_salted_digest(m) {
        match base64_decoded(v) {
            None => Err(()),
            Some(d) => if d.len() < digest_len(m) {
                Err(())
            } else {
                Ok(digest_of(m, pw + d.subrange(digest_len(m) as int, d.len() as int)) == d.subrange(
                    0,
                    digest_len(m) as int,
                ))
            },
        }
    } else if is_plain_digest(m) {
        Ok(v == base64_of(digest_of(m, pw)))
    } else if m == HashMethod::Argon2id {
        match argon2_verdict(pt, v) {
            Some(b) => Ok(b),
            None => Err(()),
        }
    } else if m == HashMethod::Bcrypt {
        match bcrypt_verdict(pt, v) {
            Some(b) => Ok(b),
            None => Err(()),
        }
    } else {
        Ok(pt == h)
    }
}

/// The bytes of `v` from `from` to `to`.
fn sub_bytes(v: &Vec<u8>, from: usize, to: usize) -> (r: Vec<u8>)
    requires
        from <= to <= v@.len(),
    ensures
        r@ == v@.subrange(from as int, to as int),
{
    let mut r: Vec<u8> = Vec::new();
    let mut i: usize = from;
    while i < to
        invariant
            from <= i <= to <= v@.len(),
            r@ == v@.subrange(from as int, i as int),
        decreases to - i,
    {
        r.push(v[i]);
        proof {
            assert(r@ =~= v@.subrange(from as int, i + 1));
        }
        i = i + 1;
    }
    r
}

/// Checks `password` against the stored hash. The scheme prefix is optional, in upper or
/// lower case. A salted value that is not base64, or too short to hold a digest, is a
/// `PasswordVerify` error; so is an argon2 hash that does not parse or a bcrypt failure.
pub fn verify_password(password: &str, hash: &PasswordHash) -> (r: Result<bool, HeraclesError>)
    ensures
        match verdict(hash.method, password.spec_bytes(), password@, hash.hash@) {
            Ok(b) => r == Ok::<bool, HeraclesError>(b),
            Err(_) => r matches Err(HeraclesError::PasswordVerify(_)),
        },
{
    let m = hash.method;
    let h = hash.hash.as_str();
    if m == HashMethod::Plain {
        return Ok(str_eq(password, h));
    }
    let v = strip_either(h, m.scheme(), lower_scheme(m));
    if m == HashMethod::Argon2id {
        return match argon2_verify(password, v) {
            Some(b) => Ok(b),
            None => Err(HeraclesError::PasswordVerify(String::from_str("Invalid Argon2 hash"))),
        };
    }
    if m == HashMethod::Bcrypt {
        return match bcrypt_verify(password, v) {
            Some(b) => Ok(b),
            None => Err(HeraclesError::PasswordVerify(String::from_str("bcrypt verify failed"))),
        };
    }
    if m == HashMethod::Sha256 || m == HashMethod::Sha512 || m == HashMethod::Md5 {
        let input = password.as_bytes_vec();
        let d = digest_for(m, input.as_slice());
        let e = base64_encode(d.as_slice());
        return Ok(str_eq(v, e.as_str()));
    }
    match base64_decode(v) {
        None => Err(HeraclesError::PasswordVerify(String::from_str("Invalid base64"))),
        Some(decoded) => {
            let n: usize = if m == HashMethod::Ssha {
                20
            } else if m == HashMethod::Ssha256 {
                32
            } else if m == HashMethod::Ssha512 {
                64
            } else {
                16
            };
            if decoded.len() < n {
                return Err(HeraclesError::PasswordVerify(String::from_str("Invalid hash length")));
            }
            let stored = sub_bytes(&decoded, 0, n);
            let salt = sub_bytes(&decoded, n, decoded.len());
            let input = salted_input(password, salt.as_slice());
            let computed = digest_for(m, input.as_slice());
            Ok(constant_time_eq(computed.as_slice(), stored.as_slice()))
        },
    }
}

} // verus!
