use memkv::art_compact2::UltraCompactArt;

#[test]
fn test_ultra_compact_basic() {
    let mut tree: UltraCompactArt<u64> = UltraCompactArt::new();

    tree.insert(b"hello", 1);
    tree.insert(b"world", 2);
    tree.insert(b"help", 3);

    assert_eq!(tree.get(b"hello"), Some(&1));
    assert_eq!(tree.get(b"world"), Some(&2));
    assert_eq!(tree.get(b"help"), Some(&3));
    assert_eq!(tree.get(b"hell"), None);
}

#[test]
fn test_ultra_compact_many() {
    let mut tree: UltraCompactArt<u64> = UltraCompactArt::new();

    for i in 0..1000u64 {
        let key = format!("key:{:08}", i);
        tree.insert(key.as_bytes(), i);
    }

    assert_eq!(tree.len(), 1000);

    for i in 0..1000u64 {
        let key = format!("key:{:08}", i);
        assert_eq!(tree.get(key.as_bytes()), Some(&i));
    }
}

#[test]
fn ultra_compact_update_and_prefix_keys() {
    let mut tree: UltraCompactArt<u64> = UltraCompactArt::default();
    assert!(tree.is_empty());
    assert_eq!(tree.insert(b"abc", 1), None);
    assert_eq!(tree.insert(b"ab", 2), None);
    assert_eq!(tree.insert(b"abcdef", 3), None);
    assert_eq!(tree.insert(b"", 4), None);
    assert_eq!(tree.insert(b"abd", 5), None);
    assert_eq!(tree.insert(b"abc", 10), Some(1));
    assert_eq!(tree.insert(b"ab", 20), Some(2));
    assert_eq!(tree.len(), 5);
    assert_eq!(tree.get(b"abc"), Some(&10));
    assert_eq!(tree.get(b"ab"), Some(&20));
    assert_eq!(tree.get(b"abcdef"), Some(&3));
    assert_eq!(tree.get(b""), Some(&4));
    assert_eq!(tree.get(b"abd"), Some(&5));
    assert_eq!(tree.get(b"a"), None);
    assert_eq!(tree.get(b"abcde"), None);
    assert!(tree.contains(b"abd"));
    assert!(!tree.contains(b"abe"));
}

#[test]
fn ultra_compact_wide_fanout() {
    let mut tree: UltraCompactArt<u64> = UltraCompactArt::new();
    for b in 0..=255u8 {
        tree.insert(&[7, b, 1], b as u64);
    }
    for b in (0..=255u8).rev() {
        tree.insert(&[7, b], 1000 + b as u64);
    }
    assert_eq!(tree.len(), 512);
    for b in 0..=255u8 {
        assert_eq!(tree.get(&[7, b, 1]), Some(&(b as u64)));
        assert_eq!(tree.get(&[7, b]), Some(&(1000 + b as u64)));
    }
    assert_eq!(tree.get(&[7]), None);
}

#[test]
fn ultra_compact_memory_stats() {
    let mut tree: UltraCompactArt<u64> = UltraCompactArt::new();
    let empty = tree.memory_stats();
    assert_eq!(empty.node_bytes, 0);
    assert_eq!(empty.arena_bytes, 0);
    tree.insert(b"ab", 1);
    tree.insert(b"ac", 2);
    let stats = tree.memory_stats();
    // Keys "ab" and "ac" and the prefix "a" in the arena.
    assert_eq!(stats.arena_bytes, 5);
    // One Node4 and two leaves of a reference and a u64.
    assert_eq!(stats.node_bytes, 51 + 2 * (6 + 8));
    assert_eq!(stats.leaf_count, 2);
    assert_eq!(stats.node4_count, 1);
}
