use std::time::Duration;

use heracles_core::{HeraclesError, LdapConfig, LdapConnectionManager, LdapPoolBuilder, PoolStatus};

#[test]
fn test_pool_builder_default() {
    let config = LdapConfig::default();
    let builder = LdapPoolBuilder::new(config);
    assert_eq!(builder.get_max_size(), 10);
}

#[test]
fn test_pool_builder_custom_size() {
    let config = LdapConfig { pool_size: 20, ..Default::default() };
    let builder = LdapPoolBuilder::new(config).max_size(15);
    assert_eq!(builder.get_max_size(), 15);
}

#[test]
fn test_pool_builder_validation_fails() {
    let config = LdapConfig { uri: "".to_string(), ..Default::default() };
    let result = LdapPoolBuilder::new(config).settings();
    assert!(result.is_err());
}

#[test]
fn pool_settings_carry_the_limits() {
    let s = LdapPoolBuilder::new(LdapConfig::default())
        .max_size(3)
        .wait_timeout(Duration::from_secs(1))
        .create_timeout(Duration::from_secs(2))
        .recycle_timeout(Duration::from_secs(4))
        .settings()
        .unwrap();
    assert_eq!(s.max_size, 3);
    assert_eq!(s.wait_timeout, Some(Duration::from_secs(1)));
    assert_eq!(s.create_timeout, Some(Duration::from_secs(2)));
    assert_eq!(s.recycle_timeout, Some(Duration::from_secs(4)));
    assert_eq!(s.config.uri, "ldap://localhost:389");
    let zero = LdapConfig { pool_size: 0, ..Default::default() };
    match LdapPoolBuilder::new(zero).settings() {
        Err(HeraclesError::Configuration(m)) => assert_eq!(m, "Pool size must be greater than 0"),
        other => panic!("unexpected {:?}", other.is_ok()),
    }
    let m = LdapConnectionManager::new(LdapConfig::default());
    assert_eq!(m.config.pool_size, 10);
    assert_eq!(LdapConfig::default().timeout(), Duration::from_secs(30));
}

#[test]
fn test_pool_status_display() {
    let status = PoolStatus { max_size: 10, size: 5, available: 3, waiting: 2 };
    let display = status.to_string();
    assert!(display.contains("max=10"));
    assert!(display.contains("size=5"));
    assert!(display.contains("available=3"));
    assert!(display.contains("waiting=2"));
    assert_eq!(display, "Pool[max=10, size=5, available=3, waiting=2]");
}
