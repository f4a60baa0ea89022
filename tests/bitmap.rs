use heracles_core::{HeraclesError, PermissionBitmap};

#[test]
fn test_empty_bitmap() {
    let empty = PermissionBitmap::new();
    assert!(empty.is_empty());
    assert_eq!(empty.count(), 0);
}

#[test]
fn test_all_bitmap() {
    let all = PermissionBitmap::all();
    assert!(!all.is_empty());
    assert_eq!(all.count(), 128);
}

#[test]
fn test_from_bit() {
    let perm = PermissionBitmap::from_bit(0);
    assert!(perm.has_bit(0));
    assert!(!perm.has_bit(1));
    assert_eq!(perm.count(), 1);

    let perm127 = PermissionBitmap::from_bit(127);
    assert!(perm127.has_bit(127));
    assert!(!perm127.has_bit(126));
}

#[test]
fn try_from_bit_rejects_out_of_range() {
    assert_eq!(PermissionBitmap::try_from_bit(128), Err(HeraclesError::OutOfRangeBit(128)));
    assert_eq!(PermissionBitmap::try_from_bit(255), Err(HeraclesError::OutOfRangeBit(255)));
    assert_eq!(PermissionBitmap::try_from_bit(127), Ok(PermissionBitmap::from_bit(127)));
}

#[test]
fn test_halves_roundtrip() {
    let before = PermissionBitmap::from_bit(0)
        .union(PermissionBitmap::from_bit(63))
        .union(PermissionBitmap::from_bit(64))
        .union(PermissionBitmap::from_bit(127));

    let (low, high) = before.to_halves();
    let reconstructed = PermissionBitmap::from_halves(low, high);

    assert_eq!(before, reconstructed);
}

#[test]
fn halves_are_signed_words() {
    let b = PermissionBitmap::from_bits(&[0, 63, 64, 127]);
    let (low, high) = b.to_halves();
    assert_eq!(low, i64::MIN + 1);
    assert_eq!(high, i64::MIN + 1);
    let c = PermissionBitmap::from_halves(-1, 0);
    assert_eq!(c.count(), 64);
    assert!(c.has_bit(63));
    assert!(!c.has_bit(64));
    assert_eq!(PermissionBitmap::from_halves(0b111, 0).to_bits(), vec![0, 1, 2]);
}

#[test]
fn raw_value_round_trip() {
    let b = PermissionBitmap::from_raw((1u128 << 127) | 5);
    assert_eq!(b.to_bits(), vec![0, 2, 127]);
    assert_eq!(b.as_raw(), (1u128 << 127) | 5);
}

#[test]
fn test_has_all() {
    let user = PermissionBitmap::from_bits(&[0, 1, 2, 5]);
    let required = PermissionBitmap::from_bits(&[0, 1]);

    assert!(user.has(required));
    assert!(!user.has(PermissionBitmap::from_bits(&[0, 3])));
}

#[test]
fn test_has_any() {
    let user = PermissionBitmap::from_bits(&[0, 1, 2]);

    assert!(user.has_any(PermissionBitmap::from_bits(&[1, 5, 10])));
    assert!(!user.has_any(PermissionBitmap::from_bits(&[5, 10, 15])));
}

#[test]
fn test_union() {
    let a = PermissionBitmap::from_bits(&[0, 1]);
    let b = PermissionBitmap::from_bits(&[1, 2]);
    let combined = a.union(b);

    assert!(combined.has_bit(0));
    assert!(combined.has_bit(1));
    assert!(combined.has_bit(2));
    assert!(!combined.has_bit(3));
    assert_eq!(combined.count(), 3);
}

#[test]
fn test_subtract() {
    let allowed = PermissionBitmap::from_bits(&[0, 1, 2, 3]);
    let denied = PermissionBitmap::from_bits(&[1, 3]);
    let effective = allowed.subtract(denied);

    assert!(effective.has_bit(0));
    assert!(!effective.has_bit(1));
    assert!(effective.has_bit(2));
    assert!(!effective.has_bit(3));
}

#[test]
fn intersection_and_single_bits() {
    let a = PermissionBitmap::from_bits(&[0, 1, 70]);
    let b = PermissionBitmap::from_bits(&[1, 70, 90]);
    assert_eq!(a.intersection(b).to_bits(), vec![1, 70]);
    assert_eq!(a.set_bit(90).to_bits(), vec![0, 1, 70, 90]);
    assert_eq!(a.clear_bit(70).to_bits(), vec![0, 1]);
    assert_eq!(a.set_bit(200), a);
    assert_eq!(a.clear_bit(200), a);
    assert!(!a.has_bit(200));
    assert_eq!(PermissionBitmap::from_bits(&[3, 200, 3]).to_bits(), vec![3]);
}

#[test]
fn test_to_bits() {
    let perm = PermissionBitmap::from_bits(&[0, 5, 10, 127]);
    let bits = perm.to_bits();
    assert_eq!(bits, vec![0, 5, 10, 127]);
}

#[test]
fn test_bitops() {
    let a = PermissionBitmap::from_bit(0);
    let b = PermissionBitmap::from_bit(1);

    let or = a | b;
    assert!(or.has_bit(0));
    assert!(or.has_bit(1));

    let and = or & PermissionBitmap::from_bit(0);
    assert!(and.has_bit(0));
    assert!(!and.has_bit(1));
}

#[test]
fn test_display() {
    let empty = PermissionBitmap::new();
    assert_eq!(empty.to_string(), "(none)");

    let perm = PermissionBitmap::from_bits(&[0, 5, 10]);
    assert_eq!(perm.to_string(), "bits[0,5,10]");
    assert_eq!(PermissionBitmap::from_bits(&[127, 64]).to_string(), "bits[64,127]");
}

#[test]
fn algebra_on_values() {
    let a = PermissionBitmap::from_bits(&[0, 63, 64, 127]);
    let b = PermissionBitmap::from_bits(&[1, 63, 100]);
    assert_eq!(a.union(b), b.union(a));
    assert_eq!(a.union(PermissionBitmap::new()), a);
    assert!(a.subtract(a).is_empty());
    assert_eq!(a.has(b), a.union(b) == a);
    let c = PermissionBitmap::from_bits(&[0, 127]);
    assert!(a.has(c));
    assert_eq!(a.union(c), a);
}

#[test]
fn bitmap_test_serde_roundtrip() {
    let before = PermissionBitmap::from_bits(&[0, 64, 127]);
    let json = serde_json::to_string(&before.to_halves()).unwrap();
    let (low, high): (i64, i64) = serde_json::from_str(&json).unwrap();
    let restored = PermissionBitmap::from_halves(low, high);
    assert_eq!(before, restored);
}
