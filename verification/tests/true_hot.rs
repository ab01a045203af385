use memkv::hot::TrueHot;

#[test]
fn test_extract_bits() {
    let key = [0b10110100u8, 0b01011010];

    assert_eq!(TrueHot::extract_bits(&key, 0, 4), 0b1011);
    assert_eq!(TrueHot::extract_bits(&key, 4, 4), 0b0100);
    assert_eq!(TrueHot::extract_bits(&key, 0, 1), 1);
    assert_eq!(TrueHot::extract_bits(&key, 1, 1), 0);
}

#[test]
fn test_diff_bit() {
    let (diff, a_has, b_has) = TrueHot::find_first_diff_bit(b"hello", b"world");
    println!("Diff bit between hello and world: {} (a_has={}, b_has={})", diff, a_has, b_has);
    assert!(diff < 8);
    assert!(a_has && b_has);

    let (diff, a_has, b_has) = TrueHot::find_first_diff_bit(b"test", b"testing");
    println!("Diff bit between test and testing: {} (a_has={}, b_has={})", diff, a_has, b_has);
    assert_eq!(diff, 32);
    assert!(!a_has);
    assert!(b_has);
}

#[test]
fn extract_bits_across_bytes_and_past_the_end() {
    let key = [0b10110100u8, 0b01011010];
    assert_eq!(TrueHot::extract_bits(&key, 6, 4), 0b0001);
    assert_eq!(TrueHot::extract_bits(&key, 12, 6), 0b101000);
    assert_eq!(TrueHot::extract_bits(&key, 16, 8), 0);
    assert_eq!(TrueHot::extract_bits(&key, 3, 8), 0b10100010);
}

#[test]
fn diff_bit_exact_positions() {
    assert_eq!(TrueHot::find_first_diff_bit(b"hello", b"world"), (3, true, true));
    assert_eq!(TrueHot::find_first_diff_bit(b"ab", b"ab"), (16, false, false));
    assert_eq!(TrueHot::find_first_diff_bit(b"abc", b"ab"), (16, true, false));
    assert_eq!(TrueHot::find_first_diff_bit(&[0x00], &[0x01]), (7, true, true));
}
