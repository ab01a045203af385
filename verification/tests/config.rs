use memkv::Config;

#[test]
fn config_default_capacity() {
    assert_eq!(Config::default().initial_capacity, 1024);
}
