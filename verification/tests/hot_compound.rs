use memkv::hot_compound::CompoundHot;

#[test]
fn hot_compound_test_basic() {
    let mut t = CompoundHot::new();
    t.insert(b"hello", 1);
    t.insert(b"world", 2);
    assert_eq!(t.get(b"hello"), Some(1));
    assert_eq!(t.get(b"world"), Some(2));
    assert_eq!(t.get(b"missing"), None);
}

#[test]
fn hot_compound_test_update() {
    let mut t = CompoundHot::new();
    assert_eq!(t.insert(b"key", 1), None);
    assert_eq!(t.insert(b"key", 2), Some(1));
    assert_eq!(t.get(b"key"), Some(2));
}

#[test]
fn hot_compound_test_many() {
    let mut t = CompoundHot::new();
    for i in 0..1000u64 {
        let key = format!("key{:05}", i);
        t.insert(key.as_bytes(), i);
    }
    assert_eq!(t.len(), 1000);
    for i in 0..1000u64 {
        let key = format!("key{:05}", i);
        assert_eq!(t.get(key.as_bytes()), Some(i), "Failed at {}", i);
    }
}

#[test]
fn compound_hot_sizes_and_prefixes() {
    let mut t = CompoundHot::new();
    assert!(t.is_empty());
    t.insert(b"a", 1);
    t.insert(b"ab", 2);
    t.insert(b"abc", 3);
    assert_eq!(t.get(b"a"), Some(1));
    assert_eq!(t.get(b"ab"), Some(2));
    assert_eq!(t.get(b"abc"), Some(3));
    assert_eq!(t.len(), 3);
    // Keys of 1, 2 and 3 bytes, each after a two-byte length; three leaves of 12 bytes;
    // two nodes of 14 bytes.
    assert_eq!(t.memory_usage_actual(), (6 + 3 * 2) + 3 * 12 + 2 * 14);
    t.shrink_to_fit();
    assert_eq!(t.memory_usage_actual(), 76);
    assert!(t.memory_usage() >= 76);
    assert_eq!(t.insert(b"a\0", 9), None);
    assert_eq!(t.len(), 3);
}
