use heracles_core::session::{add_failure, contains_str, delete_failure, modify_failure, search_base};
use heracles_core::HeraclesError;

#[test]
fn search_base_forms() {
    assert_eq!(search_base("ou=users,dc=x", "dc=y"), "ou=users,dc=x");
    assert_eq!(search_base("", "dc=example,dc=com"), "dc=example,dc=com");
    assert_eq!(search_base("people", "dc=example,dc=com"), "people,dc=example,dc=com");
}

#[test]
fn substring_search() {
    assert!(contains_str("rc=68 entryAlreadyExists", "68"));
    assert!(contains_str("abc", ""));
    assert!(!contains_str("ab", "abc"));
    assert!(!contains_str("abcab", "ba"));
    assert!(contains_str("abcab", "cab"));
}

#[test]
fn failure_meanings() {
    assert_eq!(add_failure("cn=a", "rc=68: Already exists"), HeraclesError::LdapAlreadyExists("cn=a".to_string()));
    assert_eq!(add_failure("cn=a", "rc=50"), HeraclesError::LdapAdd("rc=50".to_string()));
    assert_eq!(modify_failure("cn=a", "No such object"), HeraclesError::LdapNotFound("cn=a".to_string()));
    assert_eq!(modify_failure("cn=a", "rc=19"), HeraclesError::LdapModify("rc=19".to_string()));
    assert_eq!(delete_failure("cn=a", "rc=32"), HeraclesError::LdapNotFound("cn=a".to_string()));
    assert_eq!(delete_failure("cn=a", "busy"), HeraclesError::LdapDelete("busy".to_string()));
}
