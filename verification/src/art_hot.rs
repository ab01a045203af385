//! The node layout of the wide-node ART: up to 32 children per node, a value slot on
//! every node for keys that end there, and tagged child words.
use vstd::prelude::*;

verus! {

/// A child word: 0 is null, an odd word is a leaf.
#[derive(Clone, Copy, PartialEq, Eq, Structural)]
pub struct TaggedPtr(usize);

impl TaggedPtr {
    pub closed spec fn bits(self) -> usize {
        self.0
    }

    fn null() -> (r: Self)
        ensures
            r.bits() == 0,
    {
        TaggedPtr(0)
    }

    fn is_null(self) -> (r: bool)
        ensures
            r == (self.bits() == 0),
    {
        self.0 == 0
    }

    fn is_leaf(self) -> (r: bool)
        ensures
            r == (self.bits() & 1 != 0),
    {
        (self.0 & 1) != 0
    }
}

/// The header of a node.
#[derive(Clone, Copy)]
pub struct HotNodeHeader {
    pub partial_len: u32,
    pub num_children: u8,
    /// 1 if this node stores a value (for keys that end here).
    pub has_value: u8,
    pub partial: [u8; 10],
}

/// A node with up to 32 children.
pub struct HotNode {
    pub header: HotNodeHeader,
    /// The value of a key that ends at this node.
    pub node_value: u64,
    pub keys: [u8; 32],
    pub children: [TaggedPtr; 32],
}

/// A leaf: value and key length; the key bytes follow it in memory.
pub struct HotLeaf {
    pub value: u64,
    pub key_len: u32,
}

/// The wide-node ART's handle: its root word and its size.
pub struct HotArt {
    root: TaggedPtr,
    size: usize,
}

impl HotArt {
    pub closed spec fn spec_len(&self) -> nat {
        self.size as nat
    }

    pub fn new() -> (r: Self)
        ensures
            r.spec_len() == 0,
    {
        HotArt { root: TaggedPtr::null(), size: 0 }
    }

    pub fn len(&self) -> (r: usize)
        ensures
            r == self.spec_len(),
    {
        self.size
    }

    pub fn is_empty(&self) -> (r: bool)
        ensures
            r == (self.spec_len() == 0),
    {
        self.size == 0
    }
}

} // verus!
