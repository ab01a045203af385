use memkv::art::KeyBound;
use memkv::art_compact::CompactArt;
use memkv::art_compact2::UltraCompactArt;

#[test]
fn test_compact_art_basic() {
    let mut tree: CompactArt<u64> = CompactArt::new();

    tree.insert(b"hello", 1);
    tree.insert(b"world", 2);
    tree.insert(b"help", 3);

    assert_eq!(tree.get(b"hello"), Some(&1));
    assert_eq!(tree.get(b"world"), Some(&2));
    assert_eq!(tree.get(b"help"), Some(&3));
    assert_eq!(tree.get(b"hell"), None);
}

#[test]
fn test_compact_art_update() {
    let mut tree: CompactArt<u64> = CompactArt::new();

    assert!(tree.insert(b"key", 1).is_none());
    assert_eq!(tree.insert(b"key", 2), Some(1));
    assert_eq!(tree.get(b"key"), Some(&2));
}

#[test]
fn test_compact_art_many_keys() {
    let mut tree: CompactArt<u64> = CompactArt::new();

    for i in 0..1000u64 {
        let key = format!("key:{:08}", i);
        tree.insert(key.as_bytes(), i);
    }

    assert_eq!(tree.len(), 1000);

    for i in 0..1000u64 {
        let key = format!("key:{:08}", i);
        assert_eq!(tree.get(key.as_bytes()), Some(&i));
    }
}

#[test]
fn test_compact_art_prefix_scan() {
    let mut tree: CompactArt<u64> = CompactArt::new();

    tree.insert(b"user:1001", 1);
    tree.insert(b"user:1002", 2);
    tree.insert(b"user:1003", 3);
    tree.insert(b"post:1001", 100);

    let users = tree.prefix_scan(b"user:");
    assert_eq!(users.len(), 3);
}

#[test]
fn compact_art_remove_prunes_and_keeps_the_rest() {
    let mut tree: CompactArt<u64> = CompactArt::default();
    tree.insert(b"a", 1);
    tree.insert(b"ab", 2);
    tree.insert(b"abc", 3);
    tree.insert(b"b", 4);
    assert_eq!(tree.remove(b"ab"), Some(2));
    assert_eq!(tree.remove(b"ab"), None);
    assert_eq!(tree.remove(b"zz"), None);
    assert_eq!(tree.get(b"a"), Some(&1));
    assert_eq!(tree.get(b"abc"), Some(&3));
    assert_eq!(tree.remove(b"abc"), Some(3));
    assert_eq!(tree.remove(b"a"), Some(1));
    assert_eq!(tree.len(), 1);
    assert!(tree.contains(b"b"));
    assert_eq!(tree.remove(b"b"), Some(4));
    assert!(tree.is_empty());
    assert_eq!(tree.get(b"b"), None);
    tree.insert(b"c", 5);
    assert_eq!(tree.get(b"c"), Some(&5));
}

#[test]
fn compact_art_range_in_key_order() {
    let mut tree: CompactArt<u64> = CompactArt::new();
    for i in (0..100u64).rev() {
        let key = format!("k{:02}", i);
        tree.insert(key.as_bytes(), i);
    }
    let r = tree.range(KeyBound::Included(b"k10".to_vec()), KeyBound::Included(b"k12".to_vec()));
    assert_eq!(r, vec![(b"k10".to_vec(), 10), (b"k11".to_vec(), 11), (b"k12".to_vec(), 12)]);
    let all = tree.range(KeyBound::Unbounded, KeyBound::Unbounded);
    assert_eq!(all.len(), 100);
    assert_eq!(all[0], (b"k00".to_vec(), 0));
    assert_eq!(all[99], (b"k99".to_vec(), 99));
}

#[test]
fn ultra_compact_prefix_scan_and_range() {
    let mut tree: UltraCompactArt<u64> = UltraCompactArt::new();
    tree.insert(b"user:1001", 1);
    tree.insert(b"user:1002", 2);
    tree.insert(b"user:1003", 3);
    tree.insert(b"post:1001", 100);
    tree.insert(b"user:", 7);
    let users = tree.prefix_scan(b"user:");
    assert_eq!(
        users,
        vec![
            (b"user:".to_vec(), 7),
            (b"user:1001".to_vec(), 1),
            (b"user:1002".to_vec(), 2),
            (b"user:1003".to_vec(), 3)
        ]
    );
    let r = tree.range(KeyBound::Excluded(b"post:1001".to_vec()), KeyBound::Excluded(b"user:1001".to_vec()));
    assert_eq!(r, vec![(b"user:".to_vec(), 7)]);
}

#[test]
fn compact_art_memory_stats() {
    let mut tree: CompactArt<u64> = CompactArt::new();
    tree.insert(b"ab", 1);
    tree.insert(b"ac", 2);
    tree.insert(b"a", 3);
    let stats = tree.memory_stats();
    assert_eq!(stats.key_arena_bytes, 5);
    assert_eq!(stats.leaf_count, 2);
    assert_eq!(stats.node4_count, 1);
    assert_eq!(stats.internal_leaf_count, 1);
    assert!(stats.node_bytes >= 68 + 1 + 2 * (6 + 8));
}
