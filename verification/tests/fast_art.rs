use memkv::FastArt;

#[test]
fn fast_art_test_basic() {
    let mut art = FastArt::new();

    assert!(art.insert(b"hello", 1).is_none());
    assert!(art.insert(b"world", 2).is_none());

    assert_eq!(art.get(b"hello"), Some(1));
    assert_eq!(art.get(b"world"), Some(2));
    assert_eq!(art.get(b"notfound"), None);

    assert_eq!(art.insert(b"hello", 3), Some(1));
    assert_eq!(art.get(b"hello"), Some(3));

    assert_eq!(art.len(), 2);
}

#[test]
fn fast_art_test_prefix_sharing() {
    let mut art = FastArt::new();

    art.insert(b"test", 1);
    art.insert(b"testing", 2);
    art.insert(b"tested", 3);

    assert_eq!(art.get(b"test"), Some(1));
    assert_eq!(art.get(b"testing"), Some(2));
    assert_eq!(art.get(b"tested"), Some(3));
}

#[test]
fn fast_art_test_many() {
    let mut art = FastArt::new();

    for i in 0..1000u64 {
        let key = format!("key{:04}", i);
        art.insert(key.as_bytes(), i);
    }

    assert_eq!(art.len(), 1000);

    for i in 0..1000u64 {
        let key = format!("key{:04}", i);
        assert_eq!(art.get(key.as_bytes()), Some(i), "Failed for key {}", i);
    }
}

#[test]
fn test_fast_art() {
    let mut art = FastArt::new();
    art.insert(b"test", 42);
    assert_eq!(art.get(b"test"), Some(42));
}

#[test]
fn fast_art_keys_with_zero_bytes_stay_apart() {
    let mut art = FastArt::new();
    assert_eq!(art.insert(b"a", 1), None);
    assert_eq!(art.insert(b"a\0", 2), None);
    assert_eq!(art.insert(b"", 3), None);
    assert_eq!(art.insert(b"\0", 4), None);
    assert_eq!(art.len(), 4);
    assert_eq!(art.get(b"a"), Some(1));
    assert_eq!(art.get(b"a\0"), Some(2));
    assert_eq!(art.get(b""), Some(3));
    assert_eq!(art.get(b"\0"), Some(4));
    assert_eq!(art.get(b"a\0\0"), None);
    assert!(!art.is_empty());
    assert!(FastArt::default().is_empty());
}
