//! Settings for reaching the directory server.
use vstd::prelude::*;

use crate::errors::HeraclesError;
use crate::text::{has_prefix, starts_with};

verus! {

/// Relies on `Duration::from_secs`, which builds the span of `secs` whole seconds.
pub assume_specification[ std::time::Duration::from_secs ](secs: u64) -> std::time::Duration;

/// Connection settings for the directory server.
#[derive(Debug, Clone)]
pub struct LdapConfig {
    /// Server address, "ldap://..." or "ldaps://...".
    pub uri: String,
    /// Base of the directory tree.
    pub base_dn: String,
    /// Identity used to bind.
    pub bind_dn: String,
    /// Password used to bind.
    pub bind_password: String,
    /// Whether to upgrade the connection with TLS.
    pub use_tls: bool,
    /// Largest number of pooled connections.
    pub pool_size: usize,
    /// Timeout of one operation, in seconds.
    pub timeout_seconds: u64,
    /// Most entries per search; 0 for no limit.
    pub size_limit: i32,
    /// Most seconds per search; 0 for no limit.
    pub time_limit: i32,
}

/// The first problem `validate` reports for the given settings, if any.
pub open spec fn config_problem(uri: Seq<char>, base_dn: Seq<char>, bind_dn: Seq<char>, pool_size: usize) -> Option<Seq<char>> {
    if uri.len() == 0 {
        Some("URI cannot be empty"@)
    } else if !has_prefix(uri, "ldap://"@) && !has_prefix(uri, "ldaps://"@) {
        Some("URI must start with ldap:// or ldaps://"@)
    } else if base_dn.len() == 0 {
        Some("Base DN cannot be empty"@)
    } else if bind_dn.len() == 0 {
        Some("Bind DN cannot be empty"@)
    } else if pool_size == 0 {
        Some("Pool size must be greater than 0"@)
    } else {
        None
    }
}

impl LdapConfig {
    /// Settings for the given server and identity, without TLS, with a pool of 10
    /// connections, a 30-second timeout and no search limits.
    pub fn new(uri: &str, base_dn: &str, bind_dn: &str, bind_password: &str) -> (r: Self)
        ensures
            r.uri@ == uri@,
            r.base_dn@ == base_dn@,
            r.bind_dn@ == bind_dn@,
            r.bind_password@ == bind_password@,
            !r.use_tls,
            r.pool_size == 10,
            r.timeout_seconds == 30,
            r.size_limit == 0,
            r.time_limit == 0,
    {
        LdapConfig {
            uri: uri.to_owned(),
            base_dn: base_dn.to_owned(),
            bind_dn: bind_dn.to_owned(),
            bind_password: bind_password.to_owned(),
            use_tls: false,
            pool_size: 10,
            timeout_seconds: 30,
            size_limit: 0,
            time_limit: 0,
        }
    }

    /// The operation timeout as a span of time.
    pub fn timeout(&self) -> std::time::Duration {
        std::time::Duration::from_secs(self.timeout_seconds)
    }

    /// Checks the settings: a non-empty "ldap://" or "ldaps://" address, non-empty base
    /// and bind names, and a pool of at least one connection.
    pub fn validate(&self) -> (r: Result<(), HeraclesError>)
        ensures
            match config_problem(self.uri@, self.base_dn@, self.bind_dn@, self.pool_size) {
                None => r is Ok,
                Some(m) => r matches Err(HeraclesError::Configuration(s)) && s@ == m,
            },
    {
        let uri = self.uri.as_str();
        if uri.unicode_len() == 0 {
            return Err(HeraclesError::Configuration(String::from_str("URI cannot be empty")));
        }
        if !starts_with(uri, "ldap://") && !starts_with(uri, "ldaps://") {
            return Err(
                HeraclesError::Configuration(
                    String::from_str("URI must start with ldap:// or ldaps://"),
                ),
            );
        }
        if self.base_dn.as_str().unicode_len() == 0 {
            return Err(HeraclesError::Configuration(String::from_str("Base DN cannot be empty")));
        }
        if self.bind_dn.as_str().unicode_len() == 0 {
            return Err(HeraclesError::Configuration(String::from_str("Bind DN cannot be empty")));
        }
        if self.pool_size == 0 {
            return Err(
                HeraclesError::Configuration(String::from_str("Pool size must be greater than 0")),
            );
        }
        Ok(())
    }
}

impl Default for LdapConfig {
    /// A local server at "ldap://localhost:389" with base "dc=example,dc=com", bound
    /// as "cn=admin,dc=example,dc=com" with an empty password, otherwise as `new`.
    fn default() -> (r: Self)
        ensures
            r.uri@ == "ldap://localhost:389"@,
            r.base_dn@ == "dc=example,dc=com"@,
            r.bind_dn@ == "cn=admin,dc=example,dc=com"@,
            r.bind_password@.len() == 0,
            !r.use_tls,
            r.pool_size == 10,
            r.timeout_seconds == 30,
            r.size_limit == 0,
            r.time_limit == 0,
    {
        LdapConfig {
            uri: String::from_str("ldap://localhost:389"),
            base_dn: String::from_str("dc=example,dc=com"),
            bind_dn: String::from_str("cn=admin,dc=example,dc=com"),
            bind_password: String::new(),
            use_tls: false,
            pool_size: 10,
            timeout_seconds: 30,
            size_limit: 0,
            time_limit: 0,
        }
    }
}

} // verus!
