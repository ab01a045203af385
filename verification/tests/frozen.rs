use memkv::frozen::prefix_end;
use memkv::{FrozenLayer, FrozenLayerBuilder};

#[test]
fn mod_test_basic_operations() {
    let data = vec![(b"apple".as_slice(), 1u64), (b"banana".as_slice(), 2u64), (b"cherry".as_slice(), 3u64)];

    let layer = FrozenLayer::from_sorted_iter(data).unwrap();

    assert_eq!(layer.get(b"apple"), Some(1));
    assert_eq!(layer.get(b"banana"), Some(2));
    assert_eq!(layer.get(b"cherry"), Some(3));
    assert_eq!(layer.get(b"grape"), None);

    assert_eq!(layer.len(), 3);
}

#[test]
fn test_prefix_scan() {
    let data = vec![
        (b"post:1".as_slice(), 100u64),
        (b"user:1".as_slice(), 1u64),
        (b"user:2".as_slice(), 2u64),
        (b"user:3".as_slice(), 3u64),
    ];

    let layer = FrozenLayer::from_sorted_iter(data).unwrap();

    let users = layer.prefix_scan(b"user:");
    assert_eq!(users.len(), 3);
}

#[test]
fn test_compression() {
    let data: Vec<(Vec<u8>, u64)> = (0..1000u64).map(|i| (format!("key{:05}", i).into_bytes(), i)).collect();

    let raw_key_size: usize = data.iter().map(|(k, _)| k.len()).sum();

    let layer = FrozenLayer::from_sorted_iter(data.iter().map(|(k, v)| (k.as_slice(), *v)).collect()).unwrap();

    let stats = layer.stats();

    println!("Raw key data: {} bytes", raw_key_size);
    println!("FST size: {} bytes", stats.fst_bytes);
    println!("Bytes per key: {:.1}", stats.fst_bytes as f64 / stats.key_count as f64);

    assert!(stats.fst_bytes < raw_key_size);
}

#[test]
fn test_range_query() {
    let data = vec![
        (b"a".as_slice(), 1u64),
        (b"b".as_slice(), 2u64),
        (b"c".as_slice(), 3u64),
        (b"d".as_slice(), 4u64),
        (b"e".as_slice(), 5u64),
    ];

    let layer = FrozenLayer::from_sorted_iter(data).unwrap();

    let range = layer.range(b"b", b"e");
    assert_eq!(range.len(), 3);
    assert_eq!(range[0].1, 2);
    assert_eq!(range[2].1, 4);
}

#[test]
fn frozen_refuses_keys_out_of_order() {
    assert!(FrozenLayer::from_sorted_iter(vec![(b"b".as_slice(), 1u64), (b"a".as_slice(), 2u64)]).is_err());
    assert!(FrozenLayer::from_sorted_iter(vec![(b"a".as_slice(), 1u64), (b"a".as_slice(), 2u64)]).is_err());
    let mut b = FrozenLayerBuilder::new().unwrap();
    assert!(b.insert(b"m", 1).is_ok());
    assert!(b.insert(b"a", 2).is_err());
    assert!(b.insert(b"z", 3).is_ok());
    let layer = b.finish().unwrap();
    assert_eq!(layer.len(), 2);
    assert!(layer.contains(b"z"));
    assert!(!layer.contains(b"a"));
    let all = layer.iter();
    assert_eq!(all, vec![(b"m".to_vec(), 1), (b"z".to_vec(), 3)]);
}

#[test]
fn frozen_prefix_end_values() {
    assert_eq!(prefix_end(b"user:"), Some(b"user;".to_vec()));
    assert_eq!(prefix_end(&[1, 255, 255]), Some(vec![2]));
    assert_eq!(prefix_end(&[255, 255]), None);
    assert_eq!(prefix_end(b""), None);
}

#[test]
fn frozen_prefix_scan_of_high_bytes() {
    let k1 = [0xFFu8, 0x01];
    let k2 = [0xFFu8, 0xFF, 0x00];
    let layer = FrozenLayer::from_sorted_iter(vec![(b"a".as_slice(), 1u64), (&k1[..], 2), (&k2[..], 3)]).unwrap();
    let hi = layer.prefix_scan(&[0xFF]);
    assert_eq!(hi.len(), 2);
    assert_eq!(layer.prefix_scan(b"").len(), 3);
    assert_eq!(layer.prefix_scan(b"b").len(), 0);
}

#[test]
fn frozen_accepts_every_sorted_list() {
    let empty = FrozenLayer::from_sorted_iter(Vec::new()).unwrap();
    assert!(empty.is_empty());
    assert_eq!(empty.get(b""), None);
    let layer = FrozenLayer::from_sorted_iter(vec![(b"".as_slice(), 7u64), (b"a".as_slice(), 8u64)]).unwrap();
    assert_eq!(layer.len(), 2);
    assert_eq!(layer.get(b""), Some(7));
    assert_eq!(layer.get(b"a"), Some(8));
    let b = FrozenLayerBuilder::new().unwrap();
    assert!(b.finish().unwrap().is_empty());
}

#[test]
fn frozen_size_depends_on_the_pairs() {
    let data: Vec<(&[u8], u64)> = vec![(b"alpha", 1), (b"beta", 2), (b"gamma", 3)];
    let a = FrozenLayer::from_sorted_iter(data.clone()).unwrap();
    let b = FrozenLayer::from_sorted_iter(data).unwrap();
    assert_eq!(a.stats().fst_bytes, b.stats().fst_bytes);
    assert!(a.stats().fst_bytes >= 36);
    assert_eq!(a.stats().key_count, 3);
}
