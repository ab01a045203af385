//! The encoding pieces of the byte-arena ART: 32-bit references into one arena and a
//! two-byte node header.
use vstd::prelude::*;

verus! {

/// A 32-bit offset into the arena; `0xFFFFFFFF` is null.
#[derive(Clone, Copy, PartialEq, Eq, Debug, Structural)]
pub struct Ref(pub u32);

impl Ref {
    fn null() -> (r: Self)
        ensures
            r.0 == 0xFFFF_FFFF,
    {
        Ref(0xFFFF_FFFF)
    }

    fn is_null(self) -> (r: bool)
        ensures
            r == (self.0 == 0xFFFF_FFFF),
    {
        self.0 == 0xFFFF_FFFF
    }

    fn new(offset: usize) -> (r: Self)
        requires
            offset < 0xFFFF_FFFF,
        ensures
            r.0 == offset,
    {
        Ref(offset as u32)
    }

    fn offset(self) -> (r: usize)
        ensures
            r == self.0,
    {
        self.0 as usize
    }
}

/// A node header: type, value flag and child count in `flags`, then the prefix length.
#[derive(Clone, Copy)]
pub struct NodeHeader {
    pub flags: u8,
    pub prefix_len: u8,
}

} // verus!
