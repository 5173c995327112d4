use hp_data_structures::hash_key::{hash_u64, HashKey};
use std::collections::hash_map::DefaultHasher;
use std::hash::Hasher;

#[test]
fn digest_is_the_default_hashers() {
    for x in [0u64, 1, 2, 255, 256, u64::MAX] {
        let mut hasher = DefaultHasher::new();
        hasher.write(&x.to_le_bytes());
        assert_eq!(hash_u64(x), hasher.finish());
    }
}

#[test]
fn digest_depends_on_the_key_alone() {
    assert_eq!(7u64.hash(), 7u64.hash());
    assert_eq!(HashKey::hash(&7u32), hash_u64(7));
    assert_eq!(HashKey::hash(&-1i32), hash_u64(u64::MAX));
    assert_ne!(hash_u64(1), hash_u64(2));
}

#[test]
fn same_key_is_identity() {
    assert!(3u8.same_key(&3));
    assert!(!3u8.same_key(&4));
    assert!((-5i64).same_key(&-5));
    assert!(!(-5i64).same_key(&5));
}
