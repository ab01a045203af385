use memkv::encoding::{
    common_prefix_len, decode_bytes, decode_varint, encode_bytes, encode_varint, front_decode,
    front_encode, varint_size,
};

#[test]
fn test_varint_roundtrip() {
    let test_values = [0, 1, 127, 128, 16383, 16384, u64::MAX];

    for &value in &test_values {
        let mut buf = [0u8; 10];
        let size = encode_varint(value, &mut buf);
        let (decoded, decoded_size) = decode_varint(&buf);

        assert_eq!(decoded, value);
        assert_eq!(size, decoded_size);
        assert_eq!(size, varint_size(value));
    }
}

#[test]
fn test_bytes_roundtrip() {
    let data = b"hello world";
    let mut buf = Vec::new();
    encode_bytes(data, &mut buf);

    let (decoded, size) = decode_bytes(&buf);
    assert_eq!(decoded, data);
    assert_eq!(size, buf.len());
}

#[test]
fn test_front_coding() {
    let key1 = b"user:alice";
    let key2 = b"user:bob";
    let key3 = b"user:carol";

    let (shared, suffix) = front_encode(key1, key2);
    assert_eq!(shared, 5);
    assert_eq!(suffix, b"bob");

    let decoded = front_decode(key1, shared, suffix);
    assert_eq!(decoded, key2);

    let (shared2, suffix2) = front_encode(key2, key3);
    assert_eq!(shared2, 5);
    assert_eq!(suffix2, b"carol");
}

#[test]
fn test_common_prefix_len() {
    assert_eq!(common_prefix_len(b"hello", b"help"), 3);
    assert_eq!(common_prefix_len(b"hello", b"world"), 0);
    assert_eq!(common_prefix_len(b"hello", b"hello"), 5);
    assert_eq!(common_prefix_len(b"", b"hello"), 0);
}

#[test]
fn varint_sizes_at_group_boundaries() {
    assert_eq!(varint_size(0), 1);
    assert_eq!(varint_size(127), 1);
    assert_eq!(varint_size(128), 2);
    assert_eq!(varint_size(16383), 2);
    assert_eq!(varint_size(16384), 3);
    assert_eq!(varint_size(u64::MAX), 10);
}

#[test]
fn varint_bytes_of_three_hundred() {
    let mut buf = [0u8; 10];
    let n = encode_varint(300, &mut buf);
    assert_eq!(n, 2);
    assert_eq!(&buf[..2], &[0xAC, 0x02]);
    let (v, used) = decode_varint(&[0xAC, 0x02, 0x7F]);
    assert_eq!(v, 300);
    assert_eq!(used, 2);
}

#[test]
fn bytes_roundtrip_leaves_the_rest() {
    let mut buf = Vec::new();
    encode_bytes(b"", &mut buf);
    encode_bytes(b"abc", &mut buf);
    assert_eq!(buf, vec![0, 3, b'a', b'b', b'c']);
    let (first, n) = decode_bytes(&buf);
    assert_eq!(first, b"");
    assert_eq!(n, 1);
    let (second, m) = decode_bytes(&buf[n..]);
    assert_eq!(second, b"abc");
    assert_eq!(m, 4);
}

#[test]
fn front_decode_of_a_longer_key() {
    let (shared, suffix) = front_encode(b"abc", b"abcdef");
    assert_eq!(shared, 3);
    assert_eq!(suffix, b"def");
    assert_eq!(front_decode(b"abc", shared, suffix), b"abcdef".to_vec());
}
