use memkv::art::{AdaptiveRadixTree, KeyBound};
use memkv::art::node::Node;

#[test]
fn test_art_insert_get() {
    let mut tree: AdaptiveRadixTree<u64> = AdaptiveRadixTree::new();

    tree.insert(b"hello", 1);
    tree.insert(b"world", 2);
    tree.insert(b"help", 3);

    assert_eq!(tree.get(b"hello"), Some(&1));
    assert_eq!(tree.get(b"world"), Some(&2));
    assert_eq!(tree.get(b"help"), Some(&3));
    assert_eq!(tree.get(b"hell"), None);
    assert_eq!(tree.get(b"helper"), None);
}

#[test]
fn test_art_update() {
    let mut tree: AdaptiveRadixTree<u64> = AdaptiveRadixTree::new();

    assert!(tree.insert(b"key", 1).is_none());
    assert_eq!(tree.insert(b"key", 2), Some(1));
    assert_eq!(tree.get(b"key"), Some(&2));
}

#[test]
fn test_art_remove() {
    let mut tree: AdaptiveRadixTree<u64> = AdaptiveRadixTree::new();

    tree.insert(b"hello", 1);
    tree.insert(b"world", 2);

    assert_eq!(tree.remove(b"hello"), Some(1));
    assert_eq!(tree.get(b"hello"), None);
    assert_eq!(tree.get(b"world"), Some(&2));
}

#[test]
fn test_art_prefix_sharing() {
    let mut tree: AdaptiveRadixTree<u64> = AdaptiveRadixTree::new();

    tree.insert(b"user:1001", 1);
    tree.insert(b"user:1002", 2);
    tree.insert(b"user:1003", 3);
    tree.insert(b"post:1001", 100);

    assert_eq!(tree.get(b"user:1001"), Some(&1));
    assert_eq!(tree.get(b"user:1002"), Some(&2));
    assert_eq!(tree.get(b"user:1003"), Some(&3));
    assert_eq!(tree.get(b"post:1001"), Some(&100));
}

#[test]
fn test_art_empty_key() {
    let mut tree: AdaptiveRadixTree<u64> = AdaptiveRadixTree::new();

    tree.insert(b"", 42);
    assert_eq!(tree.get(b""), Some(&42));

    tree.insert(b"a", 1);
    assert_eq!(tree.get(b""), Some(&42));
    assert_eq!(tree.get(b"a"), Some(&1));
}

#[test]
fn art_len_counts_distinct_keys() {
    let mut tree: AdaptiveRadixTree<u64> = AdaptiveRadixTree::new();
    assert!(tree.is_empty());
    tree.insert(b"a", 1);
    tree.insert(b"ab", 2);
    tree.insert(b"a", 3);
    assert_eq!(tree.len(), 2);
    assert_eq!(tree.remove(b"zz"), None);
    assert_eq!(tree.remove(b"a"), Some(3));
    assert_eq!(tree.len(), 1);
    assert_eq!(tree.get(b"ab"), Some(&2));
}

#[test]
fn art_grows_through_every_node_kind() {
    let mut tree: AdaptiveRadixTree<u64> = AdaptiveRadixTree::new();
    for b in 0..=255u8 {
        tree.insert(&[b'k', b], b as u64);
    }
    assert_eq!(tree.len(), 256);
    for b in 0..=255u8 {
        assert_eq!(tree.get(&[b'k', b]), Some(&(b as u64)));
    }
    for b in 0..=255u8 {
        assert_eq!(tree.remove(&[b'k', b]), Some(b as u64));
    }
    assert!(tree.is_empty());
}

#[test]
fn art_many_keys_insert_remove() {
    let mut tree: AdaptiveRadixTree<u64> = AdaptiveRadixTree::new();
    for i in 0..2000u64 {
        let key = format!("key{:05}", (i * 7919) % 2000);
        tree.insert(key.as_bytes(), i);
    }
    assert_eq!(tree.len(), 2000);
    for i in 0..1000u64 {
        let key = format!("key{:05}", i);
        assert!(tree.remove(key.as_bytes()).is_some());
    }
    assert_eq!(tree.len(), 1000);
    for i in 0..2000u64 {
        let key = format!("key{:05}", i);
        assert_eq!(tree.get(key.as_bytes()).is_some(), i >= 1000);
    }
}

#[test]
fn test_art_prefix_scan() {
    let mut tree: AdaptiveRadixTree<u64> = AdaptiveRadixTree::new();

    tree.insert(b"user:1001", 1);
    tree.insert(b"user:1002", 2);
    tree.insert(b"user:1003", 3);
    tree.insert(b"post:1001", 100);

    let users: Vec<_> = tree.prefix_scan(b"user:");
    assert_eq!(users.len(), 3);
}

#[test]
fn art_prefix_scan_is_sorted_and_exact() {
    let mut tree: AdaptiveRadixTree<u64> = AdaptiveRadixTree::new();
    for (i, k) in ["b", "ab", "a", "abc", "b\u{7f}", "ac", ""].iter().enumerate() {
        tree.insert(k.as_bytes(), i as u64);
    }
    let got = tree.prefix_scan(b"a");
    assert_eq!(
        got,
        vec![(b"a".to_vec(), 2), (b"ab".to_vec(), 1), (b"abc".to_vec(), 3), (b"ac".to_vec(), 5)]
    );
    let all = tree.prefix_scan(b"");
    assert_eq!(all.len(), 7);
    assert_eq!(all[0], (b"".to_vec(), 6));
    assert!(tree.prefix_scan(b"z").is_empty());
}

#[test]
fn art_range_bounds() {
    let mut tree: AdaptiveRadixTree<u64> = AdaptiveRadixTree::new();
    for i in 0..300u64 {
        let key = format!("k{:03}", i);
        tree.insert(key.as_bytes(), i);
    }
    let r = tree.range(KeyBound::Included(b"k010".to_vec()), KeyBound::Excluded(b"k013".to_vec()));
    assert_eq!(r, vec![(b"k010".to_vec(), 10), (b"k011".to_vec(), 11), (b"k012".to_vec(), 12)]);
    let r = tree.range(KeyBound::Excluded(b"k297".to_vec()), KeyBound::Unbounded);
    assert_eq!(r, vec![(b"k298".to_vec(), 298), (b"k299".to_vec(), 299)]);
    let r = tree.range(KeyBound::Unbounded, KeyBound::Included(b"k001".to_vec()));
    assert_eq!(r, vec![(b"k000".to_vec(), 0), (b"k001".to_vec(), 1)]);
    let all = tree.range(KeyBound::Unbounded, KeyBound::Unbounded);
    assert_eq!(all.len(), 300);
    for w in all.windows(2) {
        assert!(w[0].0 < w[1].0);
    }
}

#[test]
fn art_prefix_scan_of_high_bytes() {
    let mut tree: AdaptiveRadixTree<u64> = AdaptiveRadixTree::new();
    tree.insert(&[0xff, 0xff], 1);
    tree.insert(&[0xff, 0xff, 0x01], 2);
    tree.insert(&[0xff, 0xfe], 3);
    let got = tree.prefix_scan(&[0xff, 0xff]);
    assert_eq!(got, vec![(vec![0xff, 0xff], 1), (vec![0xff, 0xff, 0x01], 2)]);
}

#[test]
fn art_memory_stats_counts_nodes() {
    let mut tree: AdaptiveRadixTree<u64> = AdaptiveRadixTree::new();
    let empty = tree.memory_stats();
    assert_eq!(empty.leaf_count, 0);
    assert_eq!(empty.node_bytes, 0);
    tree.insert(b"ab", 1);
    tree.insert(b"ac", 2);
    let stats = tree.memory_stats();
    assert_eq!(stats.leaf_count, 2);
    assert_eq!(stats.node4_count, 1);
    assert_eq!(stats.node16_count, 0);
    assert_eq!(stats.key_bytes, 4);
    assert_eq!(stats.value_bytes, 16);
    // A Node4 with a one-byte prefix and two children, two leaves with two-byte keys.
    assert!(stats.node_bytes >= 77 + 1 + 2 * 8 + 2 * (24 + 2 + 8));
}

#[test]
fn art_small_nodes_keep_child_keys_sorted() {
    let mut n: Node<u64> = Node::new_node4();
    n.add_child(b'c', Box::new(Node::new_leaf(b"c".to_vec(), 3)));
    n.add_child(b'a', Box::new(Node::new_leaf(b"a".to_vec(), 1)));
    n.add_child(b'b', Box::new(Node::new_leaf(b"b".to_vec(), 2)));
    match &n {
        Node::Node4 { keys, num_children, .. } => {
            assert_eq!(*num_children, 3);
            assert_eq!(&keys[..3], b"abc");
        }
        _ => panic!("expected a Node4"),
    }
    assert_eq!(n.find_child(b'a'), Some(0));
    assert_eq!(n.find_child(b'c'), Some(2));
    assert_eq!(n.num_children(), 3);
}
