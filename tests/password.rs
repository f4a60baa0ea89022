use heracles_core::password::constant_time_eq;
use heracles_core::{
    hash_password, verify_password, DefaultPasswordHasher, HashMethod, HeraclesError, PasswordHash,
    PasswordHasher, PasswordVerifier,
};

#[test]
fn test_ssha_hash_verify() {
    let password = "test_password_123";
    let hash = hash_password(password, HashMethod::Ssha).unwrap();

    assert!(hash.hash.starts_with("{SSHA}"));
    assert!(verify_password(password, &hash).unwrap());
    assert!(!verify_password("wrong_password", &hash).unwrap());
}

#[test]
fn test_argon2_hash_verify() {
    let password = "secure_password_456";
    let hash = hash_password(password, HashMethod::Argon2id).unwrap();

    assert!(hash.hash.starts_with("{ARGON2}"));
    assert!(verify_password(password, &hash).unwrap());
    assert!(!verify_password("wrong_password", &hash).unwrap());
}

#[test]
fn test_bcrypt_hash_verify() {
    let password = "bcrypt_password_789";
    let hash = hash_password(password, HashMethod::Bcrypt).unwrap();

    assert!(hash.hash.starts_with("{BCRYPT}"));
    assert!(verify_password(password, &hash).unwrap());
    assert!(!verify_password("wrong_password", &hash).unwrap());
}

#[test]
fn test_sha512_hash_verify() {
    let password = "sha512_password";
    let hash = hash_password(password, HashMethod::Sha512).unwrap();

    assert!(hash.hash.starts_with("{SHA512}"));
    assert!(verify_password(password, &hash).unwrap());
    assert!(!verify_password("wrong", &hash).unwrap());
}

#[test]
fn test_ssha512_hash_verify() {
    let password = "ssha512_password";
    let hash = hash_password(password, HashMethod::Ssha512).unwrap();

    assert!(hash.hash.starts_with("{SSHA512}"));
    assert!(verify_password(password, &hash).unwrap());
    assert!(!verify_password("wrong", &hash).unwrap());
}

#[test]
fn test_sha256_hash_verify() {
    let password = "sha256_password";
    let hash = hash_password(password, HashMethod::Sha256).unwrap();

    assert!(hash.hash.starts_with("{SHA256}"));
    assert!(verify_password(password, &hash).unwrap());
    assert!(!verify_password("wrong", &hash).unwrap());
}

#[test]
fn test_ssha256_hash_verify() {
    let password = "ssha256_password";
    let hash = hash_password(password, HashMethod::Ssha256).unwrap();

    assert!(hash.hash.starts_with("{SSHA256}"));
    assert!(verify_password(password, &hash).unwrap());
    assert!(!verify_password("wrong", &hash).unwrap());
}

#[test]
fn test_md5_hash_verify() {
    let password = "md5_password";
    let hash = hash_password(password, HashMethod::Md5).unwrap();

    assert!(hash.hash.starts_with("{MD5}"));
    assert!(verify_password(password, &hash).unwrap());
    assert!(!verify_password("wrong", &hash).unwrap());
}

#[test]
fn test_smd5_hash_verify() {
    let password = "smd5_password";
    let hash = hash_password(password, HashMethod::Smd5).unwrap();

    assert!(hash.hash.starts_with("{SMD5}"));
    assert!(verify_password(password, &hash).unwrap());
    assert!(!verify_password("wrong", &hash).unwrap());
}

#[test]
fn known_digest_values() {
    let md5 = hash_password("password", HashMethod::Md5).unwrap();
    assert_eq!(md5.hash, "{MD5}X03MO1qnZdYdgyfeuILPmQ==");
    let sha512 = hash_password("abc", HashMethod::Sha512).unwrap();
    assert_eq!(
        sha512.hash,
        "{SHA512}3a81oZNherrMQXNJriBBMRLm+k6JqX6iCp7u5ktV05ohkpkqJ0/BqDa6PCOj/uu9RU1EI2Q86A4qmslPpUyknw=="
    );
    let sha = hash_password("abc", HashMethod::Sha256).unwrap();
    assert_eq!(sha.hash, "{SHA256}ungWv48Bz+pBQUDeXa4iI7ADYaOWF3qctBD/YfIAFa0=");
    let lower = PasswordHash::new(HashMethod::Md5, "{md5}X03MO1qnZdYdgyfeuILPmQ==".to_string());
    assert!(verify_password("password", &lower).unwrap());
    let bare = PasswordHash::new(HashMethod::Md5, "X03MO1qnZdYdgyfeuILPmQ==".to_string());
    assert!(verify_password("password", &bare).unwrap());
}

#[test]
fn salted_hashes_differ_and_have_their_length() {
    let a = hash_password("same", HashMethod::Ssha).unwrap();
    let b = hash_password("same", HashMethod::Ssha).unwrap();
    assert_ne!(a.hash, b.hash);
    // 20 digest bytes and 8 salt bytes are 28 bytes, 40 base64 characters.
    assert_eq!(a.value().len(), 40);
}

#[test]
fn verify_errors() {
    let bad = PasswordHash::new(HashMethod::Ssha, "{SSHA}not base64!".to_string());
    assert!(matches!(verify_password("x", &bad), Err(HeraclesError::PasswordVerify(_))));
    let short = PasswordHash::new(HashMethod::Ssha256, "{SSHA256}AAAA".to_string());
    assert!(matches!(verify_password("x", &short), Err(HeraclesError::PasswordVerify(_))));
    let argon = PasswordHash::new(HashMethod::Argon2id, "{ARGON2}garbage".to_string());
    assert!(matches!(verify_password("x", &argon), Err(HeraclesError::PasswordVerify(_))));
    let plain = hash_password("open", HashMethod::Plain).unwrap();
    assert_eq!(plain.hash, "open");
    assert!(verify_password("open", &plain).unwrap());
    assert!(!verify_password("closed", &plain).unwrap());
}

#[test]
fn test_hash_method_detection() {
    assert_eq!(HashMethod::detect("{SSHA}abc123"), Some(HashMethod::Ssha));
    assert_eq!(HashMethod::detect("{ARGON2}$argon2id$v=19..."), Some(HashMethod::Argon2id));
    assert_eq!(HashMethod::detect("{BCRYPT}$2b$..."), Some(HashMethod::Bcrypt));
    assert_eq!(HashMethod::detect("{SHA512}abc123"), Some(HashMethod::Sha512));
    assert_eq!(HashMethod::detect("plaintext"), None);
    assert_eq!(HashMethod::detect("{ssha512}x"), Some(HashMethod::Ssha512));
    assert_eq!(HashMethod::detect("$2y$10$abc"), Some(HashMethod::Bcrypt));
    assert_eq!(HashMethod::detect("{smd5}x"), Some(HashMethod::Smd5));
}

#[test]
fn method_names() {
    assert_eq!(HashMethod::from_str("ssha"), Some(HashMethod::Ssha));
    assert_eq!(HashMethod::from_str("{Argon2}"), Some(HashMethod::Argon2id));
    assert_eq!(HashMethod::from_str("argon2id"), Some(HashMethod::Argon2id));
    assert_eq!(HashMethod::from_str("cleartext"), Some(HashMethod::Plain));
    assert_eq!(HashMethod::from_str("rot13"), None);
    assert_eq!(HashMethod::Ssha512.scheme(), "{SSHA512}");
    assert_eq!(HashMethod::Plain.scheme(), "");
    assert_eq!(HashMethod::Bcrypt.to_string(), "{BCRYPT}");
    assert_eq!(HashMethod::default(), HashMethod::Ssha);
}

#[test]
fn test_hash_method_is_secure() {
    assert!(HashMethod::Argon2id.is_secure());
    assert!(HashMethod::Bcrypt.is_secure());
    assert!(HashMethod::Ssha512.is_secure());
    assert!(HashMethod::Ssha.is_secure());
    assert!(!HashMethod::Md5.is_secure());
    assert!(!HashMethod::Plain.is_secure());
}

#[test]
fn test_password_hash_parse() {
    let hash = PasswordHash::parse("{SSHA}abc123xyz").unwrap();
    assert_eq!(hash.method, HashMethod::Ssha);
    assert_eq!(hash.value(), "abc123xyz");
    match PasswordHash::parse("nothing") {
        Err(HeraclesError::UnsupportedHashMethod(s)) => assert_eq!(s, "nothing"),
        _ => panic!("expected an unsupported scheme"),
    }
}

#[test]
fn test_constant_time_eq() {
    assert!(constant_time_eq(b"hello", b"hello"));
    assert!(!constant_time_eq(b"hello", b"world"));
    assert!(!constant_time_eq(b"hello", b"hell"));
}

#[test]
fn test_default_hasher() {
    let hasher = DefaultPasswordHasher;
    let password = "test123";
    let hash = hasher.hash(password, HashMethod::Ssha).unwrap();
    assert!(hasher.verify(password, &hash).unwrap());
}
