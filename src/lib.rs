//! Access-control core of a directory-service identity platform: permission
//! bitmaps, attribute filters, an ACL compiler and evaluator, and the directory
//! helpers around them.
pub mod errors;
pub mod text;
pub mod bitmap;
pub mod attributes;
pub mod engine;
pub mod compiler;
pub mod operations;
pub mod config;
pub mod password;
pub mod dn;
pub mod filter;
pub mod patterns;
pub mod pool;
pub mod session;
pub mod codec;

pub use errors::HeraclesError;
pub use bitmap::PermissionBitmap;
pub use attributes::{AttributeFilter, ObjectAttributeAcl};
pub use engine::{AclVerdict, ScopedEntry, UserAcl};
pub use compiler::{compile, AclRow, AttrRuleRow};
pub use config::LdapConfig;
pub use dn::{escape_dn_value, escape_filter_value, split_dn, unescape_dn_value, DistinguishedName, DnBuilder, RdnComponent};
pub use filter::{FilterBuilder, LdapFilter};
pub use pool::{LdapConnectionManager, LdapPoolBuilder, PoolSettings, PoolStatus};
pub use password::{hash_password, verify_password, DefaultPasswordHasher, HashMethod, PasswordHash, PasswordHasher, PasswordVerifier};
pub use operations::{LdapEntry, LdapModification, SearchBuilder, SearchScope};
