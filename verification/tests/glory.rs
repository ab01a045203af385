use memkv::glory::Glory;
use memkv::hot2::Hot2;

#[test]
fn mod_test_basic() {
    let mut tree = Glory::new();

    tree.insert(b"hello", 1);
    tree.insert(b"world", 2);

    assert_eq!(tree.get(b"hello"), Some(1));
    assert_eq!(tree.get(b"world"), Some(2));
    assert_eq!(tree.get(b"notfound"), None);
    assert_eq!(tree.len(), 2);
}

#[test]
fn mod_test_prefix() {
    let mut tree = Glory::new();

    tree.insert(b"test", 1);
    tree.insert(b"testing", 2);
    tree.insert(b"tested", 3);

    assert_eq!(tree.get(b"test"), Some(1));
    assert_eq!(tree.get(b"testing"), Some(2));
    assert_eq!(tree.get(b"tested"), Some(3));
}

#[test]
fn mod_test_update() {
    let mut tree = Glory::new();

    assert_eq!(tree.insert(b"key", 1), None);
    assert_eq!(tree.insert(b"key", 2), Some(1));
    assert_eq!(tree.get(b"key"), Some(2));
    assert_eq!(tree.len(), 1);
}

#[test]
fn mod_test_many() {
    let mut tree = Glory::new();

    let keys: Vec<String> = (0..1000u64).map(|i| format!("key{:04}", (i * 997) % 1000)).collect();

    for (i, key) in keys.iter().enumerate() {
        tree.insert(key.as_bytes(), i as u64);
    }

    let mut found = 0;
    for i in 0..1000u64 {
        let key = format!("key{:04}", i);
        if tree.get(key.as_bytes()).is_some() {
            found += 1;
        }
    }

    assert_eq!(found, 1000);
    assert_eq!(tree.len(), 1000);

    let stats = tree.memory_stats();
    let overhead_per_key = stats.overhead_bytes as f64 / tree.len() as f64;
    println!("Memory stats for 1000 keys:");
    println!("  Data: {} bytes", stats.data_bytes);
    println!("  Offsets: {} bytes", stats.offsets_bytes);
    println!("  Raw keys: {} bytes", stats.raw_key_bytes);
    println!("  Total: {} bytes", stats.total_bytes);
    println!("  Overhead: {:.1} bytes/key", overhead_per_key);
    assert!(overhead_per_key < 35.0, "Overhead too high: {:.1}", overhead_per_key);
}

#[test]
fn test_large() {
    let mut tree = Glory::with_capacity(10000, 80000);

    for i in 0..10000u64 {
        let key = format!("key{:05}", i);
        tree.insert(key.as_bytes(), i);
    }

    let mut correct = 0;
    for i in 0..10000u64 {
        let key = format!("key{:05}", i);
        if tree.get(key.as_bytes()) == Some(i) {
            correct += 1;
        }
    }

    assert_eq!(correct, 10000);

    let stats = tree.memory_stats();
    let overhead_per_key = stats.overhead_bytes as f64 / tree.len() as f64;
    println!("  Overhead: {:.1} bytes/key", overhead_per_key);
    assert!(overhead_per_key < 16.0, "Overhead too high: {:.1}", overhead_per_key);
}

#[test]
fn glory_stats_exact_for_presized() {
    let mut tree = Glory::with_capacity(2, 10);
    tree.insert(b"ab", 1);
    tree.insert(b"c", 2);
    let stats = tree.memory_stats();
    assert_eq!(stats.raw_key_bytes, 3);
    assert!(stats.data_bytes >= 23);
    assert_eq!(stats.total_bytes, stats.data_bytes + stats.offsets_bytes);
    assert_eq!(stats.overhead_bytes, stats.total_bytes - 3);
}

#[test]
fn hot2_test_basic() {
    let mut tree = Hot2::new();
    tree.insert(b"hello", 1);
    tree.insert(b"world", 2);

    assert_eq!(tree.get(b"hello"), Some(1));
    assert_eq!(tree.get(b"world"), Some(2));
    assert_eq!(tree.get(b"notfound"), None);
}

#[test]
fn hot2_test_many() {
    let mut tree = Hot2::new();

    for i in 0..1000u64 {
        let key = format!("key{:04}", i);
        tree.insert(key.as_bytes(), i);
    }

    let mut correct = 0;
    for i in 0..1000u64 {
        let key = format!("key{:04}", i);
        if tree.get(key.as_bytes()) == Some(i) {
            correct += 1;
        }
    }

    assert_eq!(correct, 1000);
    assert_eq!(tree.len(), 1000);
}

#[test]
fn hot2_update_returns_old() {
    let mut tree = Hot2::new();
    assert_eq!(tree.insert(b"k", 1), None);
    assert_eq!(tree.insert(b"k", 5), Some(1));
    assert_eq!(tree.get(b"k"), Some(5));
    assert_eq!(tree.len(), 1);
    assert!(!tree.is_empty());
}
