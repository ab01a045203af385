use memkv::front_coded::{FrontCodedBuilder, FrontCodedIndex};

#[test]
fn front_coded_test_basic() {
    let data = vec![
        (b"apple".as_slice(), 1u64),
        (b"banana".as_slice(), 2u64),
        (b"cherry".as_slice(), 3u64),
    ];

    let index = FrontCodedIndex::from_sorted_iter(data);

    assert_eq!(index.get(b"apple"), Some(&1));
    assert_eq!(index.get(b"banana"), Some(&2));
    assert_eq!(index.get(b"cherry"), Some(&3));
    assert_eq!(index.get(b"grape"), None);
    assert_eq!(index.len(), 3);
}

#[test]
fn mod_test_prefix_sharing() {
    let data = vec![
        (b"document/1/author".as_slice(), 1u64),
        (b"document/1/content".as_slice(), 2u64),
        (b"document/1/title".as_slice(), 3u64),
        (b"document/2/author".as_slice(), 4u64),
        (b"document/2/content".as_slice(), 5u64),
    ];

    let index = FrontCodedIndex::from_sorted_iter(data);

    assert_eq!(index.get(b"document/1/author"), Some(&1));
    assert_eq!(index.get(b"document/2/content"), Some(&5));

    let stats = index.memory_stats();
    println!("Data bytes: {}", stats.data_bytes);
    println!("Bytes per key: {:.1}", stats.total_bytes as f64 / stats.num_keys as f64);
}

#[test]
fn mod_test_urls() {
    let urls: Vec<Vec<u8>> = vec![
        b"https://example.com/path/1".to_vec(),
        b"https://example.com/path/2".to_vec(),
        b"https://example.com/path/3".to_vec(),
        b"https://test.org/page/a".to_vec(),
        b"https://test.org/page/b".to_vec(),
    ];

    let data: Vec<_> = urls.iter().enumerate().map(|(i, url)| (url.as_slice(), i as u64)).collect();

    let index = FrontCodedIndex::from_sorted_iter(data);

    for (i, url) in urls.iter().enumerate() {
        assert_eq!(index.get(url), Some(&(i as u64)), "Failed for {}", String::from_utf8_lossy(url));
    }

    let stats = index.memory_stats();
    println!("URLs compression:");
    println!("  Data bytes: {}", stats.data_bytes);
    let raw_size: usize = urls.iter().map(|u| u.len()).sum();
    println!("  Raw size: {} bytes", raw_size);
}

#[test]
fn mod_test_many_keys() {
    let keys: Vec<Vec<u8>> =
        (0..1000).map(|i| format!("prefix/middle/suffix/{:05}", i).into_bytes()).collect();

    let data: Vec<_> = keys.iter().enumerate().map(|(i, k)| (k.as_slice(), i as u64)).collect();

    let index = FrontCodedIndex::from_sorted_iter(data);

    assert_eq!(index.len(), 1000);

    for (i, key) in keys.iter().enumerate() {
        assert_eq!(index.get(key), Some(&(i as u64)));
    }

    let stats = index.memory_stats();
    assert_eq!(stats.num_blocks, 63);
    assert_eq!(stats.num_keys, 1000);
}

#[test]
fn front_coded_builder_and_misses() {
    let mut b: FrontCodedBuilder<u64> = FrontCodedBuilder::new();
    for i in 0..40u64 {
        let k = format!("k{:03}", i * 2);
        b.add(k.as_bytes(), i);
    }
    let index = b.finish();
    assert_eq!(index.len(), 40);
    assert!(!index.is_empty());
    for i in 0..80u64 {
        let k = format!("k{:03}", i);
        let expected = if i % 2 == 0 { Some(i / 2) } else { None };
        assert_eq!(index.get(k.as_bytes()).copied(), expected);
    }
    assert_eq!(index.get(b"a"), None);
    assert_eq!(index.get(b"z"), None);
    assert_eq!(index.memory_stats().num_blocks, 3);
}

#[test]
fn front_coded_empty_index() {
    let index: FrontCodedIndex<u64> = FrontCodedIndex::from_sorted_iter(Vec::new());
    assert!(index.is_empty());
    assert_eq!(index.get(b""), None);
    assert_eq!(index.memory_stats().num_blocks, 0);
}

#[test]
fn front_coded_long_shared_prefix() {
    let base = vec![b'x'; 300];
    let mut k1 = base.clone();
    k1.push(b'a');
    let mut k2 = base.clone();
    k2.push(b'b');
    let index = FrontCodedIndex::from_sorted_iter(vec![(k1.as_slice(), 1u64), (k2.as_slice(), 2u64)]);
    assert_eq!(index.get(&k1), Some(&1));
    assert_eq!(index.get(&k2), Some(&2));
    assert_eq!(index.get(&base), None);
}
