use hp_data_structures::concurrent_hash_map::{LockFreeHashMap, BUCKETS};

#[test]
fn test_insert_and_get() {
    let mut map = LockFreeHashMap::new();
    map.insert(1, "a");
    assert_eq!(map.get(&1), Some("a"));
}

#[test]
fn new_map_is_empty() {
    let map: LockFreeHashMap<u64, u64> = LockFreeHashMap::new();
    assert_eq!(map.len(), 0);
    assert!(map.is_empty());
    assert_eq!(map.bucket_count(), BUCKETS);
    assert_eq!(map.bucket_count(), 64);
    assert_eq!(map.get(&0), None);
    assert!(!map.contains_key(&0));
}

#[test]
fn insert_returns_the_previous_value() {
    let mut map: LockFreeHashMap<u64, String> = LockFreeHashMap::new();
    assert_eq!(map.insert(7, "one".to_string()), None);
    assert_eq!(map.insert(7, "two".to_string()), Some("one".to_string()));
    assert_eq!(map.get(&7), Some("two".to_string()));
    assert_eq!(map.len(), 1);
}

#[test]
fn second_insert_wins() {
    let mut map: LockFreeHashMap<i64, i64> = LockFreeHashMap::with_buckets(4);
    map.insert(-3, 1);
    map.insert(-3, 2);
    assert_eq!(map.get(&-3), Some(2));
    assert_eq!(map.len(), 1);
    // Nothing of the first value is left behind.
    assert_eq!(map.remove(&-3), Some(2));
    assert_eq!(map.get(&-3), None);
    assert_eq!(map.remove(&-3), None);
    assert!(map.is_empty());
}

#[test]
fn thousand_keys_from_eight_writers_lose_nothing() {
    // Eight writers take turns; writer w inserts the keys that are w modulo 8.
    let mut map: LockFreeHashMap<u64, u64> = LockFreeHashMap::new();
    let mut next: Vec<u64> = (0..8).collect();
    let mut pending = true;
    while pending {
        pending = false;
        for w in 0..8 {
            if next[w] < 1000 {
                assert_eq!(map.insert(next[w], next[w] * 3 + 1), None);
                next[w] += 8;
                pending = true;
            }
        }
    }
    assert_eq!(map.len(), 1000);
    for k in 0..1000u64 {
        assert_eq!(map.get(&k), Some(k * 3 + 1));
        assert!(map.contains_key(&k));
    }
    assert_eq!(map.get(&1000), None);
    assert_eq!(map.bucket_count(), 64);
}

#[test]
fn distinct_keys_in_any_order_are_all_found() {
    let orders: [Vec<u32>; 3] =
        [(0..100).collect(), (0..100).rev().collect(), (0..100).map(|i| (i * 37) % 100).collect()];
    for order in orders {
        let mut map: LockFreeHashMap<u32, u32> = LockFreeHashMap::with_buckets(7);
        for k in &order {
            map.insert(*k, k + 1000);
        }
        assert_eq!(map.len(), 100);
        for k in 0..100 {
            assert_eq!(map.get(&k), Some(k + 1000));
        }
    }
}

#[test]
fn one_bucket_chains_everything() {
    let mut map: LockFreeHashMap<u8, u8> = LockFreeHashMap::with_buckets(1);
    assert_eq!(map.bucket_count(), 1);
    for k in 0..50u8 {
        assert_eq!(map.insert(k, k + 1), None);
    }
    assert_eq!(map.len(), 50);
    for k in 0..50u8 {
        assert_eq!(map.get(&k), Some(k + 1));
    }
    // Unlink from the head, the middle and the tail of the chain.
    assert_eq!(map.remove(&49), Some(50));
    assert_eq!(map.remove(&25), Some(26));
    assert_eq!(map.remove(&0), Some(1));
    assert_eq!(map.len(), 47);
    for k in 0..50u8 {
        let expected = if k == 49 || k == 25 || k == 0 { None } else { Some(k + 1) };
        assert_eq!(map.get(&k), expected);
    }
}

#[test]
fn remove_then_get_is_none() {
    let mut map: LockFreeHashMap<usize, usize> = LockFreeHashMap::new();
    for k in 0..200 {
        map.insert(k, k);
    }
    for k in (0..200).step_by(2) {
        assert_eq!(map.remove(&k), Some(k));
    }
    assert_eq!(map.len(), 100);
    for k in 0..200 {
        assert_eq!(map.get(&k), if k % 2 == 0 { None } else { Some(k) });
        assert_eq!(map.contains_key(&k), k % 2 == 1);
    }
    assert_eq!(map.remove(&0), None);
    assert_eq!(map.len(), 100);
}

#[test]
fn clear_empties_the_map_and_keeps_the_buckets() {
    let mut map: LockFreeHashMap<i32, i32> = LockFreeHashMap::with_buckets(16);
    for k in -20..20 {
        map.insert(k, k * k);
    }
    assert_eq!(map.len(), 40);
    map.clear();
    assert_eq!(map.len(), 0);
    assert!(map.is_empty());
    assert_eq!(map.bucket_count(), 16);
    assert_eq!(map.get(&3), None);
    assert_eq!(map.insert(3, 9), None);
    assert_eq!(map.get(&3), Some(9));
}

#[test]
fn every_integer_key_type_files_and_finds() {
    let mut a: LockFreeHashMap<u16, u8> = LockFreeHashMap::new();
    a.insert(65535, 1);
    assert_eq!(a.get(&65535), Some(1));
    let mut b: LockFreeHashMap<i8, u8> = LockFreeHashMap::new();
    b.insert(-128, 2);
    b.insert(127, 3);
    assert_eq!(b.get(&-128), Some(2));
    assert_eq!(b.get(&127), Some(3));
    let mut c: LockFreeHashMap<i16, u8> = LockFreeHashMap::new();
    c.insert(-1, 4);
    assert_eq!(c.get(&-1), Some(4));
    assert_eq!(c.get(&1), None);
    let mut d: LockFreeHashMap<isize, u8> = LockFreeHashMap::new();
    d.insert(isize::MIN, 5);
    assert_eq!(d.get(&isize::MIN), Some(5));
}
