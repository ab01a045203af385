use memkv::hybrid::{HybridBuilder, HybridIndex};

#[test]
fn hybrid_test_basic() {
    let mut index = HybridIndex::new();

    index.insert(b"hello", 1);
    index.insert(b"world", 2);

    assert_eq!(index.get(b"hello"), Some(1));
    assert_eq!(index.get(b"world"), Some(2));
    assert_eq!(index.get(b"notfound"), None);

    assert_eq!(index.len(), 2);
}

#[test]
fn test_compact() {
    let mut index = HybridIndex::with_threshold(10);

    for i in 0..20u64 {
        let key = format!("key{:02}", i);
        index.insert(key.as_bytes(), i);
    }

    assert!(index.frozen.is_some());
    assert_eq!(index.len(), 20);

    for i in 0..20u64 {
        let key = format!("key{:02}", i);
        assert_eq!(index.get(key.as_bytes()), Some(i));
    }
}

#[test]
fn test_builder() {
    let mut builder = HybridBuilder::new();

    for i in 0..100u64 {
        let key = format!("key{:03}", i);
        builder.add(key.as_bytes(), i);
    }

    let index = builder.finish();

    assert_eq!(index.len(), 100);

    for i in 0..100u64 {
        let key = format!("key{:03}", i);
        assert_eq!(index.get(key.as_bytes()), Some(i));
    }

    let stats = index.memory_stats();
    println!("Memory: frozen={} bytes, buffer={} bytes", stats.frozen_bytes, stats.buffer_bytes);
}

#[test]
fn hybrid_insert_returns_previous_buffer_value() {
    let mut index = HybridIndex::new();
    assert_eq!(index.insert(b"a", 1), None);
    assert_eq!(index.insert(b"a", 5), Some(1));
    assert_eq!(index.get(b"a"), Some(5));
    assert_eq!(index.len(), 1);
    assert!(!index.is_empty());
}

#[test]
fn hybrid_compact_keeps_contents_and_buffer_wins() {
    let mut index = HybridIndex::with_threshold(1000);
    index.insert(b"b", 2);
    index.insert(b"a", 1);
    index.compact();
    assert!(index.frozen.is_some());
    assert_eq!(index.len(), 2);
    index.insert(b"a", 10);
    index.insert(b"c", 3);
    assert_eq!(index.get(b"a"), Some(10));
    index.compact();
    assert_eq!(index.get(b"a"), Some(10));
    assert_eq!(index.get(b"b"), Some(2));
    assert_eq!(index.get(b"c"), Some(3));
    assert_eq!(index.len(), 3);
    let stats = index.memory_stats();
    assert_eq!(stats.buffer_entries, 0);
    assert_eq!(stats.buffer_bytes, 0);
    assert!(stats.frozen_bytes > 0);
    assert_eq!(stats.total_bytes, stats.frozen_bytes);
}

#[test]
fn hybrid_memory_stats_of_buffer() {
    let mut index = HybridIndex::new();
    index.insert(b"abc", 1);
    index.insert(b"de", 2);
    let stats = index.memory_stats();
    assert_eq!(stats.frozen_bytes, 0);
    assert_eq!(stats.buffer_entries, 2);
    assert_eq!(stats.buffer_bytes, 5 + 2 * 56);
    assert_eq!(stats.total_bytes, 5 + 2 * 56);
    assert_eq!(stats.len, 2);
}

#[test]
fn hybrid_empty_builder_gives_empty_index() {
    let index = HybridBuilder::new().finish();
    assert!(index.is_empty());
    assert!(index.frozen.is_none());
    assert_eq!(index.get(b"x"), None);
}

#[test]
fn hybrid_reinsert_of_compacted_key_counts_once() {
    let mut index = HybridIndex::with_threshold(1000);
    index.insert(b"k", 1);
    index.compact();
    assert_eq!(index.insert(b"k", 2), None);
    assert_eq!(index.len(), 1);
    assert_eq!(index.get(b"k"), Some(2));
    index.insert(b"m", 3);
    assert_eq!(index.len(), 2);
    index.compact();
    assert_eq!(index.len(), 2);
    assert_eq!(index.memory_stats().len, 2);
}

#[test]
fn hybrid_transducer_size_depends_on_the_pairs() {
    let mut a = HybridIndex::with_threshold(1000);
    let mut b = HybridIndex::with_threshold(1000);
    for i in 0..50u64 {
        let key = format!("key{:03}", i);
        a.insert(key.as_bytes(), i);
        b.insert(key.as_bytes(), i);
    }
    a.compact();
    b.compact();
    let sa = a.memory_stats().frozen_bytes;
    assert_eq!(sa, b.memory_stats().frozen_bytes);
    assert!(sa >= 36);
}
