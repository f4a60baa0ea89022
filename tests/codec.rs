use heracles_core::codec::{deserialize, serialize};
use heracles_core::{
    compile, AclRow, AttrRuleRow, AttributeFilter, HeraclesError, ObjectAttributeAcl, PermissionBitmap, ScopedEntry, UserAcl,
};

fn row(low: i64, high: i64, dn: &str, self_only: bool, deny: bool, priority: i16, rules: Vec<AttrRuleRow>) -> AclRow {
    AclRow {
        policy_name: "P".to_string(),
        perm_low: low,
        perm_high: high,
        scope_dn: dn.to_string(),
        scope_type: "subtree".to_string(),
        self_only,
        deny,
        priority,
        attr_rules: rules,
    }
}

fn rule(action: &str, kind: &str, attrs: &[&str]) -> AttrRuleRow {
    AttrRuleRow {
        object_type: "user".to_string(),
        action: action.to_string(),
        rule_type: kind.to_string(),
        attributes: attrs.iter().map(|s| s.to_string()).collect(),
    }
}

fn sample() -> UserAcl {
    compile(
        "uid=Ünïcode,ou=users,dc=x",
        vec![
            row(-1, i64::MIN, "", false, false, 0, vec![rule("read", "allow", &["CN", "mail"]), rule("write", "deny", &["userPassword"])]),
            row(0b1000, 0, "", false, true, 0, vec![rule("read", "deny", &["mail"])]),
            row(1 << 5, 0, "ou=special,dc=x", false, false, 7, vec![rule("read", "allow", &["sn"])]),
            row(0b10, 0, "ou=special,dc=x", false, true, -3, vec![]),
            row(0b100, 1, "", true, false, 7, vec![]),
        ],
    )
}

#[test]
fn stored_form_round_trip() {
    let acl = sample();
    let words = serialize(&acl);
    let back = deserialize(&words).unwrap();
    assert_eq!(serialize(&back), words);
    assert_eq!(back.user_dn(), acl.user_dn());
    for target in ["uid=Ünïcode,ou=users,dc=x", "uid=a,ou=special,dc=x", "dc=x", "ou=special,dc=x"] {
        assert_eq!(back.effective_permissions(target), acl.effective_permissions(target));
        for attr in ["cn", "mail", "sn", "userPassword", "other"] {
            for action in ["read", "write"] {
                assert_eq!(
                    back.check_attribute(target, PermissionBitmap::from_bit(0), "user", action, attr),
                    acl.check_attribute(target, PermissionBitmap::from_bit(0), "user", action, attr)
                );
            }
        }
        assert_eq!(
            back.filter_attributes(target, PermissionBitmap::new(), "user", "read", &["cn", "mail", "sn"]),
            acl.filter_attributes(target, PermissionBitmap::new(), "user", "read", &["cn", "mail", "sn"])
        );
    }
}

#[test]
fn empty_rules_round_trip() {
    let acl = UserAcl::empty("uid=a".to_string());
    let words = serialize(&acl);
    assert_eq!(words, vec![5, 'u' as u64, 'i' as u64, 'd' as u64, '=' as u64, 'a' as u64, 0, 0, 0, 0, 0, 0]);
    assert_eq!(deserialize(&words).unwrap().user_dn(), "uid=a");
}

#[test]
fn malformed_stored_forms() {
    let words = serialize(&sample());
    let is_malformed = |w: &Vec<u64>| matches!(deserialize(w), Err(HeraclesError::MalformedSerialization(_)));
    assert!(is_malformed(&vec![]));
    assert!(is_malformed(&words[..words.len() - 1].to_vec()));
    let mut longer = words.clone();
    longer.push(0);
    assert!(is_malformed(&longer));
    let mut bad_char = words.clone();
    bad_char[1] = 0xD800;
    assert!(is_malformed(&bad_char));
    let mut bad_len = words.clone();
    bad_len[0] = u64::MAX;
    assert!(is_malformed(&bad_len));
    // Scope rules must come in ascending priority.
    let one = serialize(&UserAcl::new(
        "u".to_string(),
        PermissionBitmap::new(),
        PermissionBitmap::new(),
        Vec::new(),
        vec![ScopedEntry {
            dn_lower: "dc=x".to_string(),
            subtree: true,
            self_only: false,
            deny: false,
            priority: 2,
            permissions: PermissionBitmap::from_bit(1),
            attr_acls: Vec::new(),
        }],
    ));
    assert_eq!(one[7], 1);
    let entry: Vec<u64> = one[8..].to_vec();
    let with_priority = |p: u64| {
        let mut w = one[..7].to_vec();
        w.push(2);
        w.extend_from_slice(&entry);
        let mut second = entry.clone();
        second[8] = p;
        w.extend_from_slice(&second);
        w
    };
    assert!(deserialize(&with_priority(3)).is_ok());
    assert!(is_malformed(&with_priority(1)));
    // Filter names must be in small letters.
    let filtered = serialize(&UserAcl::new(
        "u".to_string(),
        PermissionBitmap::new(),
        PermissionBitmap::new(),
        vec![("user".to_string(), ObjectAttributeAcl::new(AttributeFilter::with_allowed(&["cn"]), AttributeFilter::allow_all()))],
        Vec::new(),
    ));
    assert_eq!(filtered[15], 'c' as u64);
    assert!(deserialize(&filtered).is_ok());
    let mut upper = filtered.clone();
    upper[15] = 'C' as u64;
    assert!(is_malformed(&upper));
}
