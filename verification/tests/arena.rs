use memkv::arena::{Arena, ArenaSpan, OffsetArena};

#[test]
fn test_offset_arena() {
    let mut arena = OffsetArena::new(1024);

    let off1 = arena.alloc_bytes(b"hello");
    let off2 = arena.alloc_bytes(b"world");

    assert_eq!(arena.get_bytes(off1, 5), b"hello");
    assert_eq!(arena.get_bytes(off2, 5), b"world");
}

#[test]
fn test_arena_empty_bytes() {
    let mut arena = OffsetArena::new(1024);
    let off = arena.alloc_bytes(b"");
    assert!(off.is_null());
}

#[test]
fn offset_arena_offsets_follow_each_other() {
    let mut arena = OffsetArena::new(0);
    assert!(arena.is_empty());
    let a = arena.alloc_bytes(b"ab");
    let b = arena.alloc_bytes(b"cde");
    assert_eq!(a.as_usize(), 0);
    assert_eq!(b.as_usize(), 2);
    assert_eq!(arena.len(), 5);
    assert!(arena.capacity() >= 5);
    assert_eq!(arena.get_bytes(b, 3), b"cde");
}

#[test]
fn test_arena_basic() {
    let mut arena = Arena::new();

    let ptr1 = arena.alloc_bytes(b"hello");
    let ptr2 = arena.alloc_bytes(b"world");

    assert_eq!(arena.get(ptr1), b"hello");
    assert_eq!(arena.get(ptr2), b"world");
}

#[test]
fn arena_aligns_and_opens_chunks() {
    let mut arena = Arena::with_chunk_size(32);
    assert_eq!(arena.num_chunks(), 0);
    let a = arena.allocate(3, 1);
    assert_eq!(a, ArenaSpan { chunk: 0, start: 0, len: 3 });
    let b = arena.allocate(4, 16);
    assert_eq!(b, ArenaSpan { chunk: 0, start: 16, len: 4 });
    let c = arena.allocate(20, 8);
    assert_eq!(c, ArenaSpan { chunk: 1, start: 0, len: 20 });
    let d = arena.allocate(100, 8);
    assert_eq!(d, ArenaSpan { chunk: 2, start: 0, len: 100 });
    assert_eq!(arena.num_chunks(), 3);
    assert_eq!(arena.total_allocated(), 32 + 32 + 100);
}

#[test]
fn arena_empty_bytes_take_no_room() {
    let mut arena = Arena::default();
    let s = arena.alloc_bytes(b"");
    assert_eq!(s.len, 0);
    assert_eq!(arena.num_chunks(), 0);
    let x = arena.alloc_bytes(b"x");
    assert_eq!(arena.get(x), b"x");
}

#[test]
fn arena_totals_count_whole_chunks() {
    let mut a = Arena::with_chunk_size(64);
    assert_eq!(a.num_chunks(), 0);
    assert_eq!(a.total_allocated(), 0);
    let s = a.allocate(5, 1);
    assert_eq!(s.len, 5);
    assert_eq!(a.num_chunks(), 1);
    assert_eq!(a.total_allocated(), 64);
    let fresh = Arena::new();
    assert_eq!(fresh.total_allocated(), 0);
    assert_eq!(fresh.num_chunks(), 0);
}
