use heracles_core::{
    escape_dn_value, escape_filter_value, split_dn, unescape_dn_value, DistinguishedName, DnBuilder,
    HeraclesError, RdnComponent,
};

#[test]
fn test_rdn_component_parse() {
    let rdn = RdnComponent::parse("uid=testuser").unwrap();
    assert_eq!(rdn.attr_type, "uid");
    assert_eq!(rdn.attr_value, "testuser");
}

#[test]
fn rdn_component_parse_trims_and_unescapes() {
    let rdn = RdnComponent::parse(" cn = a\\2Cb\\=c ").unwrap();
    assert_eq!(rdn.attr_type, "cn");
    assert_eq!(rdn.attr_value, "a,b=c");
    match RdnComponent::parse("novalue") {
        Err(HeraclesError::Schema(m)) => assert_eq!(m, "Invalid RDN: novalue"),
        other => panic!("unexpected {:?}", other),
    }
}

#[test]
fn test_rdn_component_display() {
    let rdn = RdnComponent::new("cn", "Test, User");
    assert_eq!(rdn.to_string(), "cn=Test\\, User");
}

#[test]
fn test_dn_parse() {
    let dn = DistinguishedName::parse("uid=test,ou=users,dc=example,dc=com").unwrap();
    assert_eq!(dn.components.len(), 4);
    assert_eq!(dn.rdn_type(), Some("uid"));
    assert_eq!(dn.rdn_value(), Some("test"));
}

#[test]
fn dn_parse_edge_cases() {
    let empty = DistinguishedName::parse("").unwrap();
    assert!(empty.is_empty());
    assert_eq!(empty.len(), 0);
    assert_eq!(empty.rdn(), None);
    assert!(DistinguishedName::parse("uid=a,broken,dc=x").is_err());
    let skipped = DistinguishedName::parse("uid=a,,dc=x").unwrap();
    assert_eq!(skipped.len(), 2);
}

#[test]
fn test_dn_display() {
    let dn = DistinguishedName::parse("uid=test,ou=users,dc=example,dc=com").unwrap();
    assert_eq!(dn.to_string(), "uid=test,ou=users,dc=example,dc=com");
}

#[test]
fn test_dn_parent() {
    let dn = DistinguishedName::parse("uid=test,ou=users,dc=example,dc=com").unwrap();
    let parent = dn.parent().unwrap();
    assert_eq!(parent.to_string(), "ou=users,dc=example,dc=com");
    assert!(DistinguishedName::parse("dc=com").unwrap().parent().is_none());
}

#[test]
fn test_dn_is_under() {
    let dn = DistinguishedName::parse("uid=test,ou=users,dc=example,dc=com").unwrap();
    let base = DistinguishedName::parse("dc=example,dc=com").unwrap();
    let other = DistinguishedName::parse("dc=other,dc=com").unwrap();

    assert!(dn.is_under(&base));
    assert!(!dn.is_under(&other));
    assert!(!base.is_under(&dn));
    assert!(dn.is_under(&DistinguishedName::empty()));
}

#[test]
fn dn_append_and_components() {
    let leaf = DistinguishedName::from_components(vec![RdnComponent::new("uid", "a")]);
    let base = DistinguishedName::parse("dc=x").unwrap();
    let whole = leaf.append(&base);
    assert_eq!(whole.to_string(), "uid=a,dc=x");
    assert_eq!(whole.rdn(), Some(&RdnComponent::new("uid", "a")));
}

#[test]
fn test_dn_builder() {
    let dn = DnBuilder::new().uid("testuser").ou("users").dc("example").dc("com").build();

    assert_eq!(dn.to_string(), "uid=testuser,ou=users,dc=example,dc=com");
}

#[test]
fn test_dn_builder_with_base() {
    let dn = DnBuilder::new().uid("testuser").base("ou=users,dc=example,dc=com").build();

    assert_eq!(dn.to_string(), "uid=testuser,ou=users,dc=example,dc=com");
    let kept = DnBuilder::new().cn("x").base("garbage").add("o", "y").build();
    assert_eq!(kept.to_string(), "cn=x,o=y");
}

#[test]
fn test_escape_dn_value() {
    assert_eq!(escape_dn_value("simple"), "simple");
    assert_eq!(escape_dn_value("with,comma"), "with\\,comma");
    assert_eq!(escape_dn_value("with+plus"), "with\\+plus");
    assert_eq!(escape_dn_value(" leading"), "\\ leading");
    assert_eq!(escape_dn_value("trailing "), "trailing\\ ");
    assert_eq!(escape_dn_value("#hash"), "\\#hash");
    assert_eq!(escape_dn_value("a#b c=d"), "a#b c\\=d");
}

#[test]
fn test_unescape_dn_value() {
    assert_eq!(unescape_dn_value("simple"), "simple");
    assert_eq!(unescape_dn_value("with\\,comma"), "with,comma");
    assert_eq!(unescape_dn_value("with\\+plus"), "with+plus");
    assert_eq!(unescape_dn_value("\\ leading"), " leading");
}

#[test]
fn unescape_hex_and_odd_endings() {
    assert_eq!(unescape_dn_value("a\\41b"), "aAb");
    assert_eq!(unescape_dn_value("x\\4g"), "x4g");
    assert_eq!(unescape_dn_value("end\\"), "end\\");
    assert_eq!(unescape_dn_value("end\\4"), "end4");
    assert_eq!(unescape_dn_value(&escape_dn_value(" a,b ")), " a,b ");
}

#[test]
fn test_escape_filter_value() {
    assert_eq!(escape_filter_value("simple"), "simple");
    assert_eq!(escape_filter_value("with*wildcard"), "with\\2awildcard");
    assert_eq!(escape_filter_value("(parens)"), "\\28parens\\29");
    assert_eq!(escape_filter_value("back\\slash"), "back\\5cslash");
    assert_eq!(escape_filter_value("nul\0"), "nul\\00");
}

#[test]
fn test_split_dn_with_escaped_comma() {
    let parts = split_dn("cn=Test\\, User,ou=users,dc=example,dc=com");
    assert_eq!(parts.len(), 4);
    assert_eq!(parts[0], "cn=Test\\, User");
    assert_eq!(split_dn(" a=1 , b=2 "), vec!["a=1".to_string(), "b=2".to_string()]);
}

#[test]
fn test_dn_canonical() {
    let dn = DistinguishedName::parse("UID=Test,OU=Users,DC=Example,DC=COM").unwrap();
    let canonical = dn.to_canonical();
    assert_eq!(canonical.rdn_type(), Some("uid"));
    assert_eq!(canonical.rdn_value(), Some("Test"));
}
