use heracles_core::{AttributeFilter, ObjectAttributeAcl};

fn strings(v: &[&str]) -> Vec<String> {
    v.iter().map(|s| s.to_string()).collect()
}

#[test]
fn test_allow_all() {
    let filter = AttributeFilter::allow_all();
    assert!(filter.is_attribute_permitted("anything"));
    assert!(filter.is_attribute_permitted("userPassword"));
    assert!(filter.is_allow_all());
}

#[test]
fn test_deny_all() {
    let filter = AttributeFilter::deny_all();
    assert!(!filter.is_attribute_permitted("anything"));
    assert!(!filter.is_attribute_permitted("cn"));
}

#[test]
fn test_whitelist_mode() {
    let filter = AttributeFilter::with_allowed(&["cn", "sn", "mail"]);

    assert!(filter.is_attribute_permitted("cn"));
    assert!(filter.is_attribute_permitted("CN"));
    assert!(filter.is_attribute_permitted("sn"));
    assert!(filter.is_attribute_permitted("mail"));
    assert!(!filter.is_attribute_permitted("telephoneNumber"));
    assert!(filter.is_whitelist_mode());
}

#[test]
fn test_deny_list() {
    let filter = AttributeFilter::with_denied(&["userPassword", "sshPublicKey"]);

    assert!(filter.is_attribute_permitted("cn"));
    assert!(filter.is_attribute_permitted("mail"));
    assert!(!filter.is_attribute_permitted("userPassword"));
    assert!(!filter.is_attribute_permitted("USERPASSWORD"));
    assert!(!filter.is_attribute_permitted("sshPublicKey"));
    assert!(!filter.is_whitelist_mode());
}

#[test]
fn test_combined_allow_deny() {
    let allowed = strings(&["cn", "sn", "userPassword"]);
    let denied = strings(&["userPassword"]);

    let filter = AttributeFilter::new(Some(allowed), denied);

    assert!(!filter.is_attribute_permitted("userPassword"));
    assert!(filter.is_attribute_permitted("cn"));
    assert!(filter.is_attribute_permitted("sn"));
    assert!(!filter.is_attribute_permitted("mail"));
}

#[test]
fn new_folds_names_to_small_letters() {
    let filter = AttributeFilter::new(Some(strings(&["CN", "Mail", "cn"])), strings(&["UserPassword"]));
    assert_eq!(filter.allowed().unwrap(), &strings(&["cn", "mail"]));
    assert_eq!(filter.denied(), &strings(&["userpassword"]));
    assert!(!filter.is_allow_all());
    assert!(AttributeFilter::new(None, Vec::new()).is_allow_all());
}

#[test]
fn test_filter_attributes() {
    let filter = AttributeFilter::with_allowed(&["cn", "sn", "mail"]);
    let attrs = vec!["cn", "sn", "mail", "telephoneNumber", "homeDirectory"];
    let filtered = filter.filter_attributes(&attrs);

    assert_eq!(filtered, vec!["cn", "sn", "mail"]);
}

#[test]
fn filter_attributes_owned_keeps_order() {
    let filter = AttributeFilter::with_denied(&["sn"]);
    let attrs = strings(&["mail", "SN", "cn"]);
    assert_eq!(filter.filter_attributes_owned(&attrs), strings(&["mail", "cn"]));
}

#[test]
fn test_merge_denies_union() {
    let mut filter1 = AttributeFilter::with_denied(&["userPassword"]);
    let filter2 = AttributeFilter::with_denied(&["sshPublicKey"]);

    filter1.merge(&filter2);

    assert!(!filter1.is_attribute_permitted("userPassword"));
    assert!(!filter1.is_attribute_permitted("sshPublicKey"));
    assert!(filter1.is_attribute_permitted("cn"));
}

#[test]
fn test_merge_allows_union() {
    let mut filter1 = AttributeFilter::with_allowed(&["cn", "sn"]);
    let filter2 = AttributeFilter::with_allowed(&["mail", "telephoneNumber"]);

    filter1.merge(&filter2);

    assert!(filter1.is_attribute_permitted("cn"));
    assert!(filter1.is_attribute_permitted("sn"));
    assert!(filter1.is_attribute_permitted("mail"));
    assert!(filter1.is_attribute_permitted("telephoneNumber"));
    assert!(!filter1.is_attribute_permitted("homeDirectory"));
}

#[test]
fn test_merge_allow_all_with_whitelist() {
    let mut filter1 = AttributeFilter::allow_all();
    let filter2 = AttributeFilter::with_allowed(&["cn", "sn"]);

    filter1.merge(&filter2);

    assert!(filter1.is_whitelist_mode());
    assert!(filter1.is_attribute_permitted("cn"));
    assert!(filter1.is_attribute_permitted("sn"));
}

#[test]
fn merge_whitelist_with_unrestricted_keeps_whitelist() {
    let f = AttributeFilter::with_allowed(&["cn"]);
    let g = AttributeFilter::with_denied(&["mail"]);
    let m = f.merged(&g);
    assert!(m.is_whitelist_mode());
    assert!(m.is_attribute_permitted("cn"));
    assert!(!m.is_attribute_permitted("sn"));
    assert!(!m.is_attribute_permitted("mail"));
    let both_open = AttributeFilter::allow_all().merged(&AttributeFilter::allow_all());
    assert!(both_open.is_allow_all());
}

#[test]
fn merged_keeps_denies_of_either_side() {
    let f = AttributeFilter::with_denied(&["a"]);
    let g = AttributeFilter::with_allowed(&["a", "b"]);
    assert!(!f.merged(&g).is_attribute_permitted("a"));
    assert!(!g.merged(&f).is_attribute_permitted("A"));
    assert!(g.merged(&f).is_attribute_permitted("b"));
}

#[test]
fn case_does_not_matter() {
    let f = AttributeFilter::with_allowed(&["cn"]);
    assert!(f.is_attribute_permitted("CN"));
    assert!(f.is_attribute_permitted("cn"));
    assert!(f.is_attribute_permitted("Cn"));
    let both = AttributeFilter::new(Some(strings(&["x"])), strings(&["X"]));
    assert!(!both.is_attribute_permitted("x"));
}

#[test]
fn test_object_attribute_acl() {
    let acl = ObjectAttributeAcl::new(
        AttributeFilter::with_allowed(&["cn", "sn", "mail", "userPassword"]),
        AttributeFilter::with_allowed(&["cn", "sn", "mail"]),
    );

    assert!(acl.can_read("cn"));
    assert!(acl.can_read("userPassword"));
    assert!(acl.can_write("cn"));
    assert!(!acl.can_write("userPassword"));
}

#[test]
fn object_acl_filters_and_merge() {
    let mut acl = ObjectAttributeAcl::deny_all();
    assert!(!acl.can_read("cn"));
    assert!(acl.filter_write(&["cn"]).is_empty());
    let open = ObjectAttributeAcl::allow_all();
    assert_eq!(open.filter_read(&["cn", "sn"]), vec!["cn", "sn"]);
    let extra = ObjectAttributeAcl::new(
        AttributeFilter::with_allowed(&["cn"]),
        AttributeFilter::with_allowed(&["sn"]),
    );
    acl.merge(&extra);
    assert!(acl.can_read("cn"));
    assert!(!acl.can_read("sn"));
    assert!(acl.can_write("sn"));
}

#[test]
fn test_add_allowed() {
    let mut filter = AttributeFilter::allow_all();

    filter.add_allowed(&["cn", "sn"]);
    assert!(filter.is_whitelist_mode());
    assert!(filter.is_attribute_permitted("cn"));
    assert!(!filter.is_attribute_permitted("mail"));

    filter.add_allowed(&["mail"]);
    assert!(filter.is_attribute_permitted("mail"));
}

#[test]
fn test_add_denied() {
    let mut filter = AttributeFilter::allow_all();

    filter.add_denied(&["userPassword"]);
    assert!(!filter.is_attribute_permitted("userPassword"));
    assert!(filter.is_attribute_permitted("cn"));
}
