use heracles_core::{PermissionBitmap, ScopedEntry, UserAcl};

fn test_user_dn() -> String {
    "uid=testuser,ou=users,dc=example,dc=com".to_string()
}

fn entry(dn: &str, subtree: bool, self_only: bool, deny: bool, priority: i16, perms: PermissionBitmap) -> ScopedEntry {
    ScopedEntry {
        dn_lower: dn.to_string(),
        subtree,
        self_only,
        deny,
        priority,
        permissions: perms,
        attr_acls: Vec::new(),
    }
}

#[test]
fn test_empty_acl_denies_all() {
    let acl = UserAcl::empty(test_user_dn());
    let required = PermissionBitmap::from_bit(0);

    assert!(!acl.check("uid=other,ou=users,dc=example,dc=com", required));
}

#[test]
fn test_superuser_allows_all() {
    let acl = UserAcl::superuser(test_user_dn());
    let required = PermissionBitmap::from_bits(&[0, 1, 2, 50, 100, 127]);

    assert!(acl.check("uid=other,ou=users,dc=example,dc=com", required));
}

#[test]
fn test_global_allow() {
    let acl = UserAcl::new(
        test_user_dn(),
        PermissionBitmap::from_bits(&[0, 1, 2]),
        PermissionBitmap::new(),
        Vec::new(),
        Vec::new(),
    );

    assert!(acl.check("uid=other,ou=users,dc=example,dc=com", PermissionBitmap::from_bits(&[0, 1])));
    assert!(!acl.check("uid=other,ou=users,dc=example,dc=com", PermissionBitmap::from_bits(&[0, 3])));
}

#[test]
fn test_global_deny() {
    let acl = UserAcl::new(
        test_user_dn(),
        PermissionBitmap::from_bits(&[0, 1, 2]),
        PermissionBitmap::from_bit(1),
        Vec::new(),
        Vec::new(),
    );

    assert!(!acl.check("uid=other,ou=users,dc=example,dc=com", PermissionBitmap::from_bit(1)));
    assert!(acl.check("uid=other,ou=users,dc=example,dc=com", PermissionBitmap::from_bits(&[0, 2])));
}

#[test]
fn test_scoped_entry_subtree() {
    let e = entry("ou=users,dc=example,dc=com", true, false, false, 0, PermissionBitmap::from_bit(5));

    assert!(e.matches("uid=john,ou=users,dc=example,dc=com", "", false));
    assert!(e.matches("ou=users,dc=example,dc=com", "", false));
    assert!(!e.matches("uid=john,ou=groups,dc=example,dc=com", "", false));
}

#[test]
fn test_scoped_entry_base() {
    let e = entry("uid=john,ou=users,dc=example,dc=com", false, false, false, 0, PermissionBitmap::from_bit(5));

    assert!(e.matches("uid=john,ou=users,dc=example,dc=com", "", false));
    assert!(!e.matches("ou=users,dc=example,dc=com", "", false));
}

#[test]
fn test_scoped_entry_self_only() {
    let user_dn = "uid=testuser,ou=users,dc=example,dc=com";
    let e = entry("ou=users,dc=example,dc=com", true, true, false, 0, PermissionBitmap::from_bit(5));

    assert!(e.matches(&user_dn.to_ascii_lowercase(), &user_dn.to_ascii_lowercase(), true));
    assert!(!e.matches("uid=other,ou=users,dc=example,dc=com", &user_dn.to_ascii_lowercase(), false));
}

#[test]
fn scope_boundary_is_a_whole_component() {
    let sub = entry("ou=a,dc=x", true, false, false, 0, PermissionBitmap::from_bit(0));
    assert!(sub.matches("cn=p,ou=a,dc=x", "", false));
    assert!(sub.matches("ou=a,dc=x", "", false));
    assert!(!sub.matches("ou=ab,dc=x", "", false));
    assert!(!sub.matches("xou=a,dc=x", "", false));
    let base = entry("ou=a,dc=x", false, false, false, 0, PermissionBitmap::from_bit(0));
    assert!(base.matches("ou=a,dc=x", "", false));
    assert!(!base.matches("cn=p,ou=a,dc=x", "", false));
    let everywhere = entry("", true, false, false, 0, PermissionBitmap::from_bit(0));
    assert!(everywhere.matches("anything", "", false));
}

#[test]
fn test_scoped_allow_extends_global() {
    let acl = UserAcl::new(
        test_user_dn(),
        PermissionBitmap::from_bit(0),
        PermissionBitmap::new(),
        Vec::new(),
        vec![entry("ou=special,dc=example,dc=com", true, false, false, 0, PermissionBitmap::from_bit(5))],
    );

    assert!(acl.check("uid=john,ou=users,dc=example,dc=com", PermissionBitmap::from_bit(0)));
    assert!(!acl.check("uid=john,ou=users,dc=example,dc=com", PermissionBitmap::from_bit(5)));
    assert!(acl.check("uid=john,ou=special,dc=example,dc=com", PermissionBitmap::from_bit(0)));
    assert!(acl.check("uid=john,ou=special,dc=example,dc=com", PermissionBitmap::from_bit(5)));
}

#[test]
fn test_scoped_deny_overrides_allow() {
    let acl = UserAcl::new(
        test_user_dn(),
        PermissionBitmap::from_bits(&[0, 1, 2]),
        PermissionBitmap::new(),
        Vec::new(),
        vec![entry("ou=restricted,dc=example,dc=com", true, false, true, 10, PermissionBitmap::from_bit(1))],
    );

    assert!(acl.check("uid=john,ou=users,dc=example,dc=com", PermissionBitmap::from_bit(1)));
    assert!(!acl.check("uid=john,ou=restricted,dc=example,dc=com", PermissionBitmap::from_bit(1)));
    assert!(acl.check("uid=john,ou=restricted,dc=example,dc=com", PermissionBitmap::from_bits(&[0, 2])));
}

#[test]
fn test_priority_ordering() {
    let acl = UserAcl::new(
        test_user_dn(),
        PermissionBitmap::new(),
        PermissionBitmap::new(),
        Vec::new(),
        vec![
            entry("ou=users,dc=example,dc=com", true, false, false, 0, PermissionBitmap::from_bit(5)),
            entry("ou=users,dc=example,dc=com", true, false, true, 10, PermissionBitmap::from_bit(5)),
        ],
    );

    assert!(!acl.check("uid=john,ou=users,dc=example,dc=com", PermissionBitmap::from_bit(5)));
}

#[test]
fn priority_not_input_order_decides() {
    let acl = UserAcl::new(
        test_user_dn(),
        PermissionBitmap::new(),
        PermissionBitmap::new(),
        Vec::new(),
        vec![
            entry("ou=users,dc=example,dc=com", true, false, true, 10, PermissionBitmap::from_bit(5)),
            entry("ou=users,dc=example,dc=com", true, false, false, 1, PermissionBitmap::from_bit(5)),
        ],
    );
    assert!(!acl.effective_permissions("uid=john,ou=users,dc=example,dc=com").has_bit(5));
    let prios: Vec<i16> = acl.scoped_entries().iter().map(|e| e.priority).collect();
    assert_eq!(prios, vec![1, 10]);
}

#[test]
fn two_allows_union_whatever_the_order() {
    for order in [false, true] {
        let a = entry("ou=users,dc=x", true, false, false, 1, PermissionBitmap::from_bit(3));
        let b = entry("ou=users,dc=x", true, false, false, 100, PermissionBitmap::from_bit(9));
        let scoped = if order { vec![a, b] } else { vec![b, a] };
        let acl = UserAcl::new("uid=u,dc=x".to_string(), PermissionBitmap::new(), PermissionBitmap::new(), Vec::new(), scoped);
        assert_eq!(acl.effective_permissions("uid=j,ou=users,dc=x").to_bits(), vec![3, 9]);
    }
}

#[test]
fn equal_priorities_keep_input_order() {
    let acl = UserAcl::new(
        test_user_dn(),
        PermissionBitmap::new(),
        PermissionBitmap::new(),
        Vec::new(),
        vec![
            entry("a", false, false, false, 5, PermissionBitmap::from_bit(1)),
            entry("b", false, false, false, 2, PermissionBitmap::from_bit(1)),
            entry("c", false, false, false, 5, PermissionBitmap::from_bit(1)),
            entry("d", false, false, false, -3, PermissionBitmap::from_bit(1)),
        ],
    );
    let names: Vec<String> = acl.scoped_entries().iter().map(|e| e.dn_lower.clone()).collect();
    assert_eq!(names, vec!["d", "b", "a", "c"]);
}

#[test]
fn test_self_service() {
    let user_dn = test_user_dn();
    let acl = UserAcl::new(
        user_dn.clone(),
        PermissionBitmap::new(),
        PermissionBitmap::new(),
        Vec::new(),
        vec![entry("ou=users,dc=example,dc=com", true, true, false, 0, PermissionBitmap::from_bit(1))],
    );

    assert!(acl.check(&user_dn, PermissionBitmap::from_bit(1)));
    assert!(acl.check("UID=TestUser,ou=users,dc=example,dc=com", PermissionBitmap::from_bit(1)));
    assert!(!acl.check("uid=other,ou=users,dc=example,dc=com", PermissionBitmap::from_bit(1)));
}

#[test]
fn test_effective_permissions() {
    let acl = UserAcl::new(
        test_user_dn(),
        PermissionBitmap::from_bits(&[0, 1, 2]),
        PermissionBitmap::from_bit(2),
        Vec::new(),
        vec![entry("ou=special,dc=example,dc=com", true, false, false, 0, PermissionBitmap::from_bit(5))],
    );

    let eff1 = acl.effective_permissions("uid=john,ou=users,dc=example,dc=com");
    assert!(eff1.has_bit(0));
    assert!(eff1.has_bit(1));
    assert!(!eff1.has_bit(2));
    assert!(!eff1.has_bit(5));

    let eff2 = acl.effective_permissions("uid=john,ou=special,dc=example,dc=com");
    assert!(eff2.has_bit(0));
    assert!(eff2.has_bit(1));
    assert!(!eff2.has_bit(2));
    assert!(eff2.has_bit(5));
}

#[test]
fn empty_requirement_always_passes() {
    let acl = UserAcl::empty(test_user_dn());
    assert!(acl.check("anything", PermissionBitmap::new()));
    assert!(acl.evaluate("anything", PermissionBitmap::new()).allowed);
    assert!(!acl.evaluate("anything", PermissionBitmap::from_bit(0)).allowed);
}

#[test]
fn accessors_and_is_self() {
    let acl = UserAcl::new(
        "UID=Me,dc=x".to_string(),
        PermissionBitmap::from_bit(4),
        PermissionBitmap::from_bit(7),
        Vec::new(),
        Vec::new(),
    );
    assert_eq!(acl.user_dn(), "UID=Me,dc=x");
    assert!(acl.is_self("uid=me,DC=X"));
    assert!(!acl.is_self("uid=you,dc=x"));
    assert_eq!(acl.global_allow(), PermissionBitmap::from_bit(4));
    assert_eq!(acl.global_deny(), PermissionBitmap::from_bit(7));
    assert!(acl.global_attr_acls().is_empty());
}

#[test]
fn engine_test_serde_roundtrip() {
    let acl = UserAcl::new(
        test_user_dn(),
        PermissionBitmap::from_bits(&[0, 1, 64, 127]),
        PermissionBitmap::from_bit(5),
        Vec::new(),
        vec![entry("ou=test,dc=example,dc=com", true, false, false, 10, PermissionBitmap::from_bit(10))],
    );

    let json = serde_json::to_string(&heracles_core::codec::serialize(&acl)).expect("serialize");
    let words: Vec<u64> = serde_json::from_str(&json).expect("deserialize");
    let restored = heracles_core::codec::deserialize(&words).expect("deserialize");

    assert_eq!(acl.user_dn(), restored.user_dn());
    assert_eq!(acl.global_allow(), restored.global_allow());
    assert_eq!(acl.global_deny(), restored.global_deny());
    assert_eq!(acl.scoped_entries().len(), restored.scoped_entries().len());
}
