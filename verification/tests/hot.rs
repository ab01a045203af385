use memkv::hot_final::Ptr;
use memkv::{InlineHot, HOT};

#[test]
fn hot_final_test_basic() {
    let mut t = HOT::new();
    t.insert(b"hello", 1);
    t.insert(b"world", 2);
    assert_eq!(t.get(b"hello"), Some(1));
    assert_eq!(t.get(b"world"), Some(2));
    assert_eq!(t.get(b"missing"), None);
}

#[test]
fn hot_final_test_update() {
    let mut t = HOT::new();
    assert_eq!(t.insert(b"key", 1), None);
    assert_eq!(t.insert(b"key", 2), Some(1));
    assert_eq!(t.get(b"key"), Some(2));
}

#[test]
fn test_three() {
    let mut t = HOT::new();
    t.insert(b"aaa", 1);
    t.insert(b"bbb", 2);
    t.insert(b"ccc", 3);
    assert_eq!(t.get(b"aaa"), Some(1));
    assert_eq!(t.get(b"bbb"), Some(2));
    assert_eq!(t.get(b"ccc"), Some(3));
}

#[test]
fn hot_final_test_many() {
    let mut t = HOT::new();
    for i in 0..1000u64 {
        let key = format!("key{:05}", i);
        t.insert(key.as_bytes(), i);
    }
    assert_eq!(t.len(), 1000);
    for i in 0..1000u64 {
        let key = format!("key{:05}", i);
        assert_eq!(t.get(key.as_bytes()), Some(i), "Failed at {}", i);
    }
}

#[test]
fn test_prefixes() {
    let mut t = HOT::new();
    t.insert(b"a", 1);
    t.insert(b"ab", 2);
    t.insert(b"abc", 3);
    t.insert(b"abcd", 4);
    assert_eq!(t.get(b"a"), Some(1));
    assert_eq!(t.get(b"ab"), Some(2));
    assert_eq!(t.get(b"abc"), Some(3));
    assert_eq!(t.get(b"abcd"), Some(4));
}

#[test]
fn test_random_order() {
    let mut t = HOT::new();
    let keys = [5, 2, 8, 1, 9, 3, 7, 4, 6, 0];
    for &i in &keys {
        let key = format!("key{:02}", i);
        t.insert(key.as_bytes(), i as u64);
    }
    for &i in &keys {
        let key = format!("key{:02}", i);
        assert_eq!(t.get(key.as_bytes()), Some(i as u64), "Failed at {}", i);
    }
}

#[test]
fn hot_final_test_ptr_roundtrip() {
    let leaf = Ptr::leaf(0x123456789ABC);
    let bytes = leaf.to_bytes();
    let restored = Ptr::from_bytes(bytes);
    assert_eq!(leaf, restored);
    assert!(restored.is_leaf());
    assert_eq!(restored.leaf_idx(), 0x123456789ABC);

    let node = Ptr::node(0x7FFF_FFFF_FFFF);
    let bytes = node.to_bytes();
    let restored = Ptr::from_bytes(bytes);
    assert_eq!(node, restored);
    assert!(restored.is_node());
    assert_eq!(restored.node_off(), 0x7FFF_FFFF_FFFF);

    let null = Ptr::null();
    let bytes = null.to_bytes();
    let restored = Ptr::from_bytes(bytes);
    assert!(restored.is_null());
}

#[test]
fn hot_inline_test_basic() {
    let mut t = InlineHot::new();
    t.insert(b"hello", 1);
    t.insert(b"world", 2);
    assert_eq!(t.get(b"hello"), Some(1));
    assert_eq!(t.get(b"world"), Some(2));
    assert_eq!(t.get(b"missing"), None);
}

#[test]
fn hot_inline_test_update() {
    let mut t = InlineHot::new();
    assert_eq!(t.insert(b"key", 1), None);
    assert_eq!(t.insert(b"key", 2), Some(1));
    assert_eq!(t.get(b"key"), Some(2));
}

#[test]
fn hot_inline_test_many() {
    let mut t = InlineHot::new();
    for i in 0..1000u64 {
        let key = format!("key{:05}", i);
        t.insert(key.as_bytes(), i);
    }
    assert_eq!(t.len(), 1000);
    for i in 0..1000u64 {
        let key = format!("key{:05}", i);
        assert_eq!(t.get(key.as_bytes()), Some(i), "Failed at {}", i);
    }
}

#[test]
fn hot_inline_test_ptr_roundtrip() {
    let leaf = Ptr::leaf(0x123456789ABC);
    let bytes = leaf.to_bytes();
    let restored = Ptr::from_bytes(bytes);
    assert_eq!(leaf, restored);
    assert!(restored.is_leaf());
    assert_eq!(restored.leaf_off(), 0x123456789ABC);

    let node = Ptr::node(0x7FFF_FFFF_FFFF);
    let bytes = node.to_bytes();
    let restored = Ptr::from_bytes(bytes);
    assert_eq!(node, restored);
    assert!(restored.is_node());
    assert_eq!(restored.node_off(), 0x7FFF_FFFF_FFFF);

    let null = Ptr::null();
    let bytes = null.to_bytes();
    let restored = Ptr::from_bytes(bytes);
    assert!(restored.is_null());
}

#[test]
fn test_inline_hot() {
    let mut hot = InlineHot::new();
    hot.insert(b"test", 42);
    assert_eq!(hot.get(b"test"), Some(42));
}

#[test]
fn hot_keys_equal_when_padded_are_refused() {
    let mut t = HOT::new();
    assert_eq!(t.insert(b"a", 1), None);
    assert_eq!(t.insert(b"a\0", 2), None);
    assert_eq!(t.get(b"a"), Some(1));
    assert_eq!(t.get(b"a\0"), None);
    assert_eq!(t.len(), 1);

    let mut u = InlineHot::new();
    assert_eq!(u.insert(b"a", 1), None);
    assert_eq!(u.insert(b"a\0", 2), None);
    assert_eq!(u.get(b"a"), Some(1));
    assert_eq!(u.get(b"a\0"), None);
    assert_eq!(u.len(), 1);
}

#[test]
fn inline_hot_memory_counts_entries() {
    let mut t = InlineHot::new();
    assert!(t.is_empty());
    t.insert(b"abc", 7);
    t.insert(b"abd", 8);
    // Two entries of 2 + 3 + 8 bytes and one node of 14 bytes.
    assert_eq!(t.memory_usage_actual(), 26 + 14);
    assert!(t.memory_usage() >= 40);
    t.shrink_to_fit();
    assert_eq!(t.memory_usage_actual(), 40);
    assert_eq!(t.get(b"abd"), Some(8));
    assert_eq!(t.insert(b"abc", 9), Some(7));
    assert_eq!(t.memory_usage_actual(), 40);
    assert_eq!(t.get(b"abc"), Some(9));
}

#[test]
fn inline_hot_random_order_and_prefixes() {
    let mut t = InlineHot::new();
    let keys = [5, 2, 8, 1, 9, 3, 7, 4, 6, 0];
    for &i in &keys {
        let key = format!("key{:02}", i);
        t.insert(key.as_bytes(), i as u64);
    }
    t.insert(b"k", 100);
    t.insert(b"key", 101);
    for &i in &keys {
        let key = format!("key{:02}", i);
        assert_eq!(t.get(key.as_bytes()), Some(i as u64));
    }
    assert_eq!(t.get(b"k"), Some(100));
    assert_eq!(t.get(b"key"), Some(101));
    assert_eq!(t.len(), 12);
}
