use heracles_core::{compile, AclRow, AttrRuleRow, PermissionBitmap};

fn test_user() -> &'static str {
    "uid=testuser,ou=users,dc=example,dc=com"
}

fn row(name: &str, low: i64, high: i64, scope_dn: &str, scope_type: &str, self_only: bool, deny: bool, priority: i16, attr_rules: Vec<AttrRuleRow>) -> AclRow {
    AclRow {
        policy_name: name.to_string(),
        perm_low: low,
        perm_high: high,
        scope_dn: scope_dn.to_string(),
        scope_type: scope_type.to_string(),
        self_only,
        deny,
        priority,
        attr_rules,
    }
}

fn rule(object_type: &str, action: &str, rule_type: &str, attrs: &[&str]) -> AttrRuleRow {
    AttrRuleRow {
        object_type: object_type.to_string(),
        action: action.to_string(),
        rule_type: rule_type.to_string(),
        attributes: attrs.iter().map(|s| s.to_string()).collect(),
    }
}

#[test]
fn test_compile_empty() {
    let acl = compile(test_user(), Vec::new());

    assert_eq!(acl.user_dn(), test_user());
    assert!(acl.global_allow().is_empty());
    assert!(acl.global_deny().is_empty());
    assert!(acl.scoped_entries().is_empty());
}

#[test]
fn test_compile_global_allow() {
    let rows = vec![row("Basic User", 0b111, 0, "", "subtree", false, false, 0, vec![])];
    let acl = compile(test_user(), rows);

    assert!(acl.global_allow().has_bit(0));
    assert!(acl.global_allow().has_bit(1));
    assert!(acl.global_allow().has_bit(2));
    assert!(!acl.global_allow().has_bit(3));
}

#[test]
fn test_compile_global_deny() {
    let rows = vec![
        row("Full Access", 0b1111, 0, "", "subtree", false, false, 0, vec![]),
        row("Deny Delete", 0b1000, 0, "", "subtree", false, true, 10, vec![]),
    ];
    let acl = compile(test_user(), rows);

    assert!(acl.global_deny().has_bit(3));
    assert!(acl.global_allow().has_bit(3));
}

#[test]
fn test_compile_scoped_entries() {
    let rows = vec![
        row("Global", 0b1, 0, "", "subtree", false, false, 0, vec![]),
        row("Special OU", 0b10, 0, "ou=special,dc=example,dc=com", "subtree", false, false, 5, vec![]),
    ];
    let acl = compile(test_user(), rows);

    assert_eq!(acl.scoped_entries().len(), 1);
    assert_eq!(acl.scoped_entries()[0].dn_lower, "ou=special,dc=example,dc=com");
    assert!(acl.scoped_entries()[0].subtree);
}

#[test]
fn scope_names_and_types_are_folded() {
    let rows = vec![
        row("A", 0b10, 0, "OU=Special,DC=X", "SubTree", false, false, 0, vec![]),
        row("B", 0b10, 0, "ou=b,dc=x", "onelevel", false, false, 0, vec![]),
    ];
    let acl = compile(test_user(), rows);
    assert_eq!(acl.scoped_entries()[0].dn_lower, "ou=special,dc=x");
    assert!(acl.scoped_entries()[0].subtree);
    assert!(!acl.scoped_entries()[1].subtree);
}

#[test]
fn test_compile_self_only_creates_scoped() {
    let rows = vec![row("Self Service", 0b10, 0, "", "subtree", true, false, 0, vec![])];
    let acl = compile(test_user(), rows);

    assert!(acl.global_allow().is_empty());
    assert_eq!(acl.scoped_entries().len(), 1);
    assert!(acl.scoped_entries()[0].self_only);
}

#[test]
fn test_compile_with_attr_rules() {
    let rows = vec![row(
        "Limited",
        0b11,
        0,
        "",
        "subtree",
        false,
        false,
        0,
        vec![
            rule("user", "read", "allow", &["cn", "sn", "mail"]),
            rule("user", "write", "allow", &["mail", "telephoneNumber"]),
            rule("user", "read", "deny", &["userPassword"]),
        ],
    )];
    let acl = compile(test_user(), rows);

    assert!(acl.check_attribute("uid=other,ou=users,dc=example,dc=com", PermissionBitmap::from_bit(0), "user", "read", "cn"));
    assert!(!acl.check_attribute("uid=other,ou=users,dc=example,dc=com", PermissionBitmap::from_bit(0), "user", "read", "userPassword"));
}

#[test]
fn test_compile_high_bits() {
    let rows = vec![row("High Bits", 0, 0b11, "", "subtree", false, false, 0, vec![])];
    let acl = compile(test_user(), rows);

    assert!(acl.global_allow().has_bit(64));
    assert!(acl.global_allow().has_bit(65));
    assert!(!acl.global_allow().has_bit(0));
}

#[test]
fn test_priority_ordering_in_compiled() {
    let rows = vec![
        row("High Priority", 0b1, 0, "ou=test,dc=example,dc=com", "subtree", false, false, 100, vec![]),
        row("Low Priority", 0b10, 0, "ou=test,dc=example,dc=com", "subtree", false, false, 1, vec![]),
    ];
    let acl = compile(test_user(), rows);

    assert_eq!(acl.scoped_entries().len(), 2);
    assert_eq!(acl.scoped_entries()[0].priority, 1);
    assert_eq!(acl.scoped_entries()[1].priority, 100);
}

#[test]
fn global_allow_only_scenario() {
    let acl = compile("uid=u,ou=users,dc=x", vec![row("P", 0b111, 0, "", "base", false, false, 0, vec![])]);
    assert!(acl.check("uid=v,ou=users,dc=x", PermissionBitmap::from_bits(&[0, 1])));
    assert!(!acl.check("uid=v,ou=users,dc=x", PermissionBitmap::from_bits(&[0, 3])));
}

#[test]
fn global_allow_and_deny_scenario() {
    let acl = compile(
        "uid=u,ou=users,dc=x",
        vec![
            row("P", 0b111, 0, "", "base", false, false, 0, vec![]),
            row("D", 0b1000, 0, "", "base", false, true, 0, vec![]),
        ],
    );
    for target in ["uid=v,ou=users,dc=x", "uid=u,ou=users,dc=x", "dc=x"] {
        assert_eq!(acl.effective_permissions(target).to_bits(), vec![0, 1, 2]);
    }
}

#[test]
fn scoped_extension_scenario() {
    let acl = compile(
        "uid=u,ou=users,dc=x",
        vec![
            row("G", 0b1, 0, "", "base", false, false, 0, vec![]),
            row("S", 1 << 5, 0, "ou=special,dc=x", "subtree", false, false, 0, vec![]),
        ],
    );
    assert!(!acl.check("uid=j,ou=users,dc=x", PermissionBitmap::from_bit(5)));
    assert!(acl.check("uid=j,ou=special,dc=x", PermissionBitmap::from_bit(5)));
}

#[test]
fn scoped_deny_overrides_global_scenario() {
    let acl = compile(
        "uid=u,ou=users,dc=x",
        vec![
            row("G", 0b111, 0, "", "base", false, false, 0, vec![]),
            row("R", 0b10, 0, "ou=restricted,dc=x", "subtree", false, true, 10, vec![]),
        ],
    );
    assert!(!acl.check("uid=j,ou=restricted,dc=x", PermissionBitmap::from_bit(1)));
    assert!(acl.check("uid=j,ou=users,dc=x", PermissionBitmap::from_bit(1)));
}

#[test]
fn self_only_scenario() {
    let acl = compile("uid=u,ou=users,dc=x", vec![row("S", 0b10, 0, "", "subtree", true, false, 0, vec![])]);
    assert!(acl.check("uid=u,ou=users,dc=x", PermissionBitmap::from_bit(1)));
    assert!(!acl.check("uid=w,ou=users,dc=x", PermissionBitmap::from_bit(1)));
}

#[test]
fn attribute_whitelist_with_deny_scenario() {
    let acl = compile(
        "uid=u,ou=users,dc=x",
        vec![row(
            "P",
            0b11,
            0,
            "",
            "base",
            false,
            false,
            0,
            vec![
                rule("user", "read", "allow", &["cn", "sn", "mail", "userPassword"]),
                rule("user", "read", "deny", &["userPassword"]),
            ],
        )],
    );
    let target = "uid=v,ou=users,dc=x";
    assert!(acl.check_attribute(target, PermissionBitmap::from_bit(0), "user", "read", "cn"));
    assert!(!acl.check_attribute(target, PermissionBitmap::from_bit(0), "user", "read", "userPassword"));
    assert!(!acl.check_attribute(target, PermissionBitmap::from_bit(0), "user", "read", "homeDirectory"));
    assert!(acl.check_attribute(target, PermissionBitmap::from_bit(0), "user", "write", "homeDirectory"));
    assert!(!acl.check_attribute(target, PermissionBitmap::from_bit(7), "user", "read", "cn"));
    assert_eq!(
        acl.filter_attributes(target, PermissionBitmap::from_bit(1), "user", "read", &["mail", "userPassword", "cn", "x"]),
        vec!["mail".to_string(), "cn".to_string()]
    );
    assert!(acl.filter_attributes(target, PermissionBitmap::from_bit(9), "user", "read", &["mail"]).is_empty());
}

#[test]
fn global_deny_rules_only_add_denied_names() {
    let acl = compile(
        "uid=u,dc=x",
        vec![
            row("A", 0b1, 0, "", "base", false, false, 0, vec![rule("user", "read", "allow", &["cn", "mail"])]),
            row("D", 0, 0, "", "base", false, true, 0, vec![rule("user", "read", "deny", &["Mail"]), rule("group", "write", "deny", &["member"])]),
        ],
    );
    let t = "uid=v,dc=x";
    let b = PermissionBitmap::from_bit(0);
    assert!(acl.check_attribute(t, b, "user", "read", "cn"));
    assert!(!acl.check_attribute(t, b, "user", "read", "mail"));
    assert!(!acl.check_attribute(t, b, "user", "read", "sn"));
    assert!(acl.check_attribute(t, b, "group", "read", "member"));
    assert!(!acl.check_attribute(t, b, "group", "write", "member"));
    assert!(acl.check_attribute(t, b, "group", "write", "cn"));
}

#[test]
fn scoped_rules_adjust_attribute_filters() {
    let acl = compile(
        "uid=u,dc=x",
        vec![
            row("A", 0b1, 0, "", "base", false, false, 0, vec![rule("user", "read", "allow", &["cn"])]),
            row("S", 0, 0, "ou=s,dc=x", "subtree", false, false, 1, vec![rule("user", "read", "allow", &["sn"])]),
            row("T", 0, 0, "ou=s,dc=x", "subtree", false, true, 2, vec![rule("user", "read", "deny", &["cn"])]),
        ],
    );
    let b = PermissionBitmap::from_bit(0);
    assert!(acl.check_attribute("uid=a,dc=x", b, "user", "read", "cn"));
    assert!(!acl.check_attribute("uid=a,dc=x", b, "user", "read", "sn"));
    assert!(!acl.check_attribute("uid=a,ou=s,dc=x", b, "user", "read", "cn"));
    assert!(acl.check_attribute("uid=a,ou=s,dc=x", b, "user", "read", "sn"));
    let v = acl.evaluate("uid=a,ou=s,dc=x", b);
    assert!(v.allowed);
    assert!(v.attr_filter.is_attribute_permitted("anything"));
}
