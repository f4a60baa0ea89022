use heracles_core::patterns;
use heracles_core::{FilterBuilder, LdapFilter};

#[test]
fn test_equality_filter() {
    let filter = LdapFilter::eq("uid", "testuser");
    assert_eq!(filter.to_string(), "(uid=testuser)");
}

#[test]
fn test_equality_filter_escape() {
    let filter = LdapFilter::eq("cn", "Test (User)");
    assert_eq!(filter.to_string(), "(cn=Test \\28User\\29)");
}

#[test]
fn test_presence_filter() {
    let filter = LdapFilter::present("mail");
    assert_eq!(filter.to_string(), "(mail=*)");
}

#[test]
fn test_substring_contains() {
    let filter = LdapFilter::contains("cn", "test");
    assert_eq!(filter.to_string(), "(cn=*test*)");
}

#[test]
fn test_substring_starts_with() {
    let filter = LdapFilter::starts_with("cn", "test");
    assert_eq!(filter.to_string(), "(cn=test*)");
}

#[test]
fn test_substring_ends_with() {
    let filter = LdapFilter::ends_with("mail", "@example.com");
    assert_eq!(filter.to_string(), "(mail=*@example.com)");
}

#[test]
fn substring_with_all_parts() {
    let filter = LdapFilter::Substring(
        "cn".to_string(),
        Some("a(".to_string()),
        vec!["b".to_string(), "c*".to_string()],
        Some("d".to_string()),
    );
    assert_eq!(filter.to_string(), "(cn=a\\28*b*c\\2a*d)");
}

#[test]
fn test_and_filter() {
    let filter = LdapFilter::and(vec![LdapFilter::eq("objectClass", "inetOrgPerson"), LdapFilter::eq("uid", "test")]);
    assert_eq!(filter.to_string(), "(&(objectClass=inetOrgPerson)(uid=test))");
}

#[test]
fn test_or_filter() {
    let filter = LdapFilter::or(vec![LdapFilter::eq("uid", "user1"), LdapFilter::eq("uid", "user2")]);
    assert_eq!(filter.to_string(), "(|(uid=user1)(uid=user2))");
}

#[test]
fn test_not_filter() {
    let filter = LdapFilter::not(LdapFilter::eq("disabled", "true"));
    assert_eq!(filter.to_string(), "(!(disabled=true))");
}

#[test]
fn test_complex_filter() {
    let filter = LdapFilter::and(vec![
        LdapFilter::eq("objectClass", "inetOrgPerson"),
        LdapFilter::or(vec![LdapFilter::eq("uid", "admin"), LdapFilter::starts_with("cn", "Admin")]),
        LdapFilter::not(LdapFilter::eq("accountLocked", "true")),
    ]);
    assert_eq!(
        filter.to_string(),
        "(&(objectClass=inetOrgPerson)(|(uid=admin)(cn=Admin*))(!(accountLocked=true)))"
    );
}

#[test]
fn raw_approx_and_escaped() {
    assert_eq!(LdapFilter::raw("(x=*)").to_string(), "(x=*)");
    assert_eq!(LdapFilter::approx("cn", "jon").to_string(), "(cn~=jon)");
    assert_eq!(LdapFilter::eq("cn", "a*").to_string_escaped(), "(cn=a\\2a)");
    assert_eq!(LdapFilter::and(vec![]).to_string(), "(&)");
}

#[test]
fn test_filter_builder() {
    let filter = FilterBuilder::new().object_class("inetOrgPerson").eq("uid", "testuser").present("mail").build_and();

    assert_eq!(filter.to_string(), "(&(objectClass=inetOrgPerson)(uid=testuser)(mail=*))");
}

#[test]
fn builder_single_and_or() {
    let one = FilterBuilder::new().contains("cn", "x").build_or();
    assert_eq!(one.to_string(), "(cn=*x*)");
    let two = FilterBuilder::new().starts_with("cn", "a").ends_with("sn", "b").build_or();
    assert_eq!(two.to_string(), "(|(cn=a*)(sn=*b))");
    let with = FilterBuilder::new().filter(LdapFilter::gte("n", "1")).build_and();
    assert_eq!(with.to_string(), "(n>=1)");
}

#[test]
fn test_pattern_hrc_user() {
    let filter = patterns::hrc_user();
    assert!(filter.to_string().contains("inetOrgPerson"));
    assert!(filter.to_string().contains("hrcAcl"));
}

#[test]
fn test_pattern_user_by_uid() {
    let filter = patterns::user_by_uid("john.doe");
    assert_eq!(filter.to_string(), "(&(objectClass=inetOrgPerson)(uid=john.doe))");
}

#[test]
fn other_patterns() {
    assert_eq!(patterns::posix_user().to_string(), "(objectClass=posixAccount)");
    assert_eq!(patterns::posix_group().to_string(), "(objectClass=posixGroup)");
    assert_eq!(patterns::organizational_unit().to_string(), "(objectClass=organizationalUnit)");
    assert_eq!(patterns::user_by_mail("a@b").to_string(), "(&(objectClass=inetOrgPerson)(mail=a@b))");
    assert!(patterns::system().to_string().starts_with("(|(objectClass=hrcServer)"));
    assert_eq!(patterns::dns_zone().to_string(), "(objectClass=dNSZone)");
    assert_eq!(patterns::dhcp_subnet().to_string(), "(objectClass=dhcpSubnet)");
    assert_eq!(patterns::sudo_rule().to_string(), "(objectClass=sudoRole)");
    assert_eq!(patterns::user_with_ssh_key().to_string(), "(&(objectClass=ldapPublicKey)(sshPublicKey=*))");
}

#[test]
fn test_greater_or_equal() {
    let filter = LdapFilter::gte("uidNumber", "1000");
    assert_eq!(filter.to_string(), "(uidNumber>=1000)");
}

#[test]
fn test_less_or_equal() {
    let filter = LdapFilter::lte("uidNumber", "65000");
    assert_eq!(filter.to_string(), "(uidNumber<=65000)");
}
