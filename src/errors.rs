//! Error type of the library.
use vstd::prelude::*;

verus! {

/// Everything that can go wrong in the library, each with a message.
#[derive(Debug, Clone, PartialEq, Eq)]
pub enum HeraclesError {
    LdapConnection(String),
    LdapBind(String),
    LdapSearch(String),
    LdapAdd(String),
    LdapModify(String),
    LdapDelete(String),
    LdapNotFound(String),
    LdapAlreadyExists(String),
    InvalidDN(String),
    InvalidFilter(String),
    PasswordHash(String),
    PasswordVerify(String),
    UnsupportedHashMethod(String),
    SchemaValidation(String),
    Configuration(String),
    Pool(String),
    Timeout(String),
    Internal(String),
    Schema(String),
    Config(String),
    /// A permission bit position that is not below 128.
    OutOfRangeBit(u8),
    /// A stored form that does not parse.
    MalformedSerialization(String),
}

} // verus!
