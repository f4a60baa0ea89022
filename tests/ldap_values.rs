use heracles_core::{HeraclesError, LdapConfig, LdapEntry, LdapModification, SearchBuilder, SearchScope};

#[test]
fn test_ldap_entry_new() {
    let entry = LdapEntry::new("uid=test,ou=users,dc=example,dc=com");
    assert_eq!(entry.dn, "uid=test,ou=users,dc=example,dc=com");
    assert!(entry.attributes.is_empty());
}

#[test]
fn test_ldap_entry_with_attributes() {
    let entry = LdapEntry::new("uid=test,ou=users,dc=example,dc=com")
        .with_single("cn", "Test User")
        .with_attribute("objectClass", vec!["inetOrgPerson", "posixAccount"]);

    assert_eq!(entry.get_first("cn"), Some("Test User"));
    assert!(entry.has_object_class("inetOrgPerson"));
    assert!(entry.has_object_class("posixAccount"));
    assert!(!entry.has_object_class("groupOfNames"));
}

#[test]
fn entry_values_are_replaced() {
    let entry = LdapEntry::new("cn=x")
        .with_single("mail", "a@x")
        .with_attribute("mail", vec!["b@x", "c@x"])
        .with_attribute("objectClass", vec!["Person"])
        .with_attribute("empty", Vec::<&str>::new());
    assert_eq!(entry.get_all("mail"), Some(&vec!["b@x".to_string(), "c@x".to_string()]));
    assert_eq!(entry.get_first("mail"), Some("b@x"));
    assert_eq!(entry.get_first("empty"), None);
    assert_eq!(entry.get_first("sn"), None);
    assert_eq!(entry.get_all("sn"), None);
    assert!(entry.has_object_class("PERSON"));
    assert_eq!(entry.attributes.len(), 3);
}

#[test]
fn test_ldap_entry_rdn() {
    let entry = LdapEntry::new("uid=test,ou=users,dc=example,dc=com");
    assert_eq!(entry.rdn(), Some("uid=test"));
    assert_eq!(LdapEntry::new("dc=com").rdn(), Some("dc=com"));
    assert_eq!(LdapEntry::new("").rdn(), Some(""));
}

#[test]
fn test_ldap_modification_add() {
    let mod_op = LdapModification::add("memberUid", vec!["user1", "user2"]);
    match mod_op {
        LdapModification::Add { attr, values } => {
            assert_eq!(attr, "memberUid");
            assert_eq!(values, vec!["user1", "user2"]);
        }
        _ => panic!("Expected Add modification"),
    }
}

#[test]
fn test_ldap_modification_replace_single() {
    let mod_op = LdapModification::replace_single("description", "New description");
    match mod_op {
        LdapModification::Replace { attr, values } => {
            assert_eq!(attr, "description");
            assert_eq!(values, vec!["New description"]);
        }
        _ => panic!("Expected Replace modification"),
    }
}

#[test]
fn modification_delete_forms() {
    match LdapModification::delete("memberUid", vec!["u1"]) {
        LdapModification::Delete { attr, values } => {
            assert_eq!(attr, "memberUid");
            assert_eq!(values, vec!["u1"]);
        }
        _ => panic!("Expected Delete modification"),
    }
    match LdapModification::delete_all("mail") {
        LdapModification::Delete { attr, values } => {
            assert_eq!(attr, "mail");
            assert!(values.is_empty());
        }
        _ => panic!("Expected Delete modification"),
    }
    match LdapModification::replace("sn", vec!["a", "b"]) {
        LdapModification::Replace { attr, values } => {
            assert_eq!(attr, "sn");
            assert_eq!(values, vec!["a", "b"]);
        }
        _ => panic!("Expected Replace modification"),
    }
}

#[test]
fn test_search_builder() {
    let search = SearchBuilder::new("ou=users")
        .scope(SearchScope::OneLevel)
        .filter("(uid=*)")
        .attributes(vec!["cn", "mail", "uid"])
        .size_limit(100);

    assert_eq!(search.get_base(), "ou=users");
    assert_eq!(search.get_scope(), SearchScope::OneLevel);
    assert_eq!(search.get_filter(), "(uid=*)");
    assert_eq!(search.get_attributes(), vec!["cn", "mail", "uid"]);
    assert_eq!(search.get_size_limit(), Some(100));
}

#[test]
fn search_builder_defaults() {
    let search = SearchBuilder::new("dc=x").add_attribute("cn");
    assert_eq!(search.get_scope(), SearchScope::Subtree);
    assert_eq!(search.get_filter(), "(objectClass=*)");
    assert_eq!(search.get_attributes(), vec!["cn"]);
    assert_eq!(search.get_size_limit(), None);
    assert_eq!(SearchScope::default(), SearchScope::Subtree);
}

#[test]
fn test_config_new() {
    let config = LdapConfig::new("ldap://localhost:389", "dc=test,dc=com", "cn=admin,dc=test,dc=com", "secret");

    assert_eq!(config.uri, "ldap://localhost:389");
    assert_eq!(config.base_dn, "dc=test,dc=com");
    assert_eq!(config.pool_size, 10);
}

#[test]
fn test_config_validate_valid() {
    let config = LdapConfig::new("ldap://localhost:389", "dc=test,dc=com", "cn=admin,dc=test,dc=com", "secret");

    assert!(config.validate().is_ok());
}

#[test]
fn test_config_validate_invalid_uri() {
    let mut config = LdapConfig::default();
    config.uri = "invalid://localhost".into();

    assert!(config.validate().is_err());
}

#[test]
fn test_config_validate_empty_base_dn() {
    let mut config = LdapConfig::default();
    config.uri = "ldap://localhost:389".into();
    config.base_dn = String::new();

    assert!(config.validate().is_err());
}

#[test]
fn config_validation_messages() {
    let msg = |c: &LdapConfig| match c.validate() {
        Err(HeraclesError::Configuration(m)) => m,
        other => panic!("unexpected {:?}", other),
    };
    let mut c = LdapConfig::default();
    assert!(c.validate().is_ok());
    assert_eq!(c.timeout_seconds, 30);
    c.uri = "ldaps://h".into();
    assert!(c.validate().is_ok());
    c.pool_size = 0;
    assert_eq!(msg(&c), "Pool size must be greater than 0");
    c.bind_dn = String::new();
    assert_eq!(msg(&c), "Bind DN cannot be empty");
    c.base_dn = String::new();
    assert_eq!(msg(&c), "Base DN cannot be empty");
    c.uri = "http://h".into();
    assert_eq!(msg(&c), "URI must start with ldap:// or ldaps://");
    c.uri = String::new();
    assert_eq!(msg(&c), "URI cannot be empty");
}
