use std::mem::size_of;

#[test]
fn mod_test_node_sizes() {
    println!("TaggedPtr: {} bytes", size_of::<memkv::art_fast::TaggedPtr>());
    println!("NodeHeader: {} bytes", size_of::<memkv::art_fast::NodeHeader>());
    println!("Node4: {} bytes", size_of::<memkv::art_fast::Node4>());
    println!("Node16: {} bytes", size_of::<memkv::art_fast::Node16>());
    println!("Node48: {} bytes", size_of::<memkv::art_fast::Node48>());
    println!("Node256: {} bytes", size_of::<memkv::art_fast::Node256>());
    println!("Leaf: {} bytes (+ key)", size_of::<memkv::art_fast::Leaf>());

    assert_eq!(size_of::<memkv::art_fast::NodeHeader>(), 16);
}

#[test]
fn art_ultra_node_sizes() {
    println!("Node4 size: {} bytes", size_of::<memkv::art_ultra::Node4>());
    println!("Node16 size: {} bytes", size_of::<memkv::art_ultra::Node16>());
    println!("Node48 size: {} bytes", size_of::<memkv::art_ultra::Node48>());
    println!("Node256 size: {} bytes", size_of::<memkv::art_ultra::Node256>());

    assert!(size_of::<memkv::art_ultra::Node4>() <= 64);
    assert!(size_of::<memkv::art_ultra::Node16>() <= 128);
    assert!(size_of::<memkv::art_ultra::Node48>() <= 512);
    assert!(size_of::<memkv::art_ultra::Node256>() <= 1088);
}

#[test]
fn art_arena_node_sizes() {
    println!("NodeRef: {} bytes", size_of::<memkv::art_arena::NodeRef>());
    println!("DataRef: {} bytes", size_of::<memkv::art_arena::DataRef>());
    println!("ArenaNode<u64>: {} bytes", size_of::<memkv::art_arena::ArenaNode<u64>>());
    println!("ArenaNode<u32>: {} bytes", size_of::<memkv::art_arena::ArenaNode<u32>>());
}

#[test]
fn art_hot_node_sizes() {
    println!("HotNodeHeader: {} bytes", size_of::<memkv::art_hot::HotNodeHeader>());
    println!("HotNode: {} bytes", size_of::<memkv::art_hot::HotNode>());
    println!("HotLeaf: {} bytes (+ key)", size_of::<memkv::art_hot::HotLeaf>());
    println!("TaggedPtr: {} bytes", size_of::<memkv::art_hot::TaggedPtr>());
}

#[test]
fn test_node_size() {
    println!("CompactNode<u64>: {} bytes", size_of::<memkv::art_optimized::CompactNode<u64>>());
}

#[test]
fn test_size() {
    println!("LeanNode<u64>: {} bytes", size_of::<memkv::art_lean::LeanNode<u64>>());
}

#[test]
fn test_sizes() {
    println!("NodeHeader: {} bytes", size_of::<memkv::art_glory::NodeHeader>());
    println!("Ref: {} bytes", size_of::<memkv::art_glory::Ref>());
}

#[test]
fn test_key_ref_size() {
    assert_eq!(size_of::<memkv::art_compact::KeyRef>(), 6);
}

#[test]
fn test_data_ref_size() {
    assert_eq!(size_of::<memkv::art_compact2::DataRef>(), 6);
}

#[test]
fn six_byte_refs_keep_offset_and_length() {
    let k = memkv::art_compact::KeyRef::new(0x0102_0304, 0x0506);
    assert_eq!(k.offset(), 0x0102_0304);
    assert_eq!(k.len(), 0x0506);
    assert!(!k.is_null());
    assert!(memkv::art_compact::KeyRef::null().is_null());
    let d = memkv::art_compact2::DataRef::new(77, 3);
    assert_eq!(d.offset(), 77);
    assert_eq!(d.len(), 3);
    assert!(memkv::art_compact2::DataRef::empty().is_empty());
}

#[test]
fn fast_art_test_node_sizes() {
    println!("TaggedPtr: {} bytes", size_of::<memkv::art_fast::TaggedPtr>());
    println!("NodeHeader: {} bytes", size_of::<memkv::art_fast::NodeHeader>());
    println!("Node4: {} bytes", size_of::<memkv::art_fast::Node4>());
    println!("Node16: {} bytes", size_of::<memkv::art_fast::Node16>());
    println!("Node48: {} bytes", size_of::<memkv::art_fast::Node48>());
    println!("Node256: {} bytes", size_of::<memkv::art_fast::Node256>());
    println!("Leaf: {} bytes (+ key)", size_of::<memkv::art_fast::Leaf>());

    assert_eq!(size_of::<memkv::art_fast::NodeHeader>(), 16);
}
