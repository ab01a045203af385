//! The node layout of the lean ART: 32-bit node references, prefixes inline in the
//! smallest node and in the key arena otherwise.
use vstd::prelude::*;

verus! {

/// A 32-bit reference to a node; `u32::MAX` is null.
#[derive(Clone, Copy, Debug, PartialEq, Eq, Structural)]
pub struct NRef(pub u32);

impl NRef {
    /// Whether this is the null reference.
    pub fn is_null(self) -> (r: bool)
        ensures
            r == (self.0 == u32::MAX),
    {
        self.0 == u32::MAX
    }
}

/// A node of the lean ART; a key ending at a node keeps `(offset, len, value)` there.
#[derive(Clone)]
pub enum LeanNode<V: Clone> {
    /// 1-4 children with an inline 8-byte prefix.
    N4 {
        prefix: [u8; 8],
        prefix_len: u8,
        count: u8,
        keys: [u8; 4],
        children: [NRef; 4],
        value: Option<(u32, u16, V)>,
    },
    /// 5-16 children.
    N16 {
        prefix_off: u32,
        prefix_len: u16,
        count: u8,
        keys: [u8; 16],
        children: Box<[NRef; 16]>,
        value: Option<(u32, u16, V)>,
    },
    /// 17-48 children.
    N48 {
        prefix_off: u32,
        prefix_len: u16,
        count: u8,
        idx: Box<[u8; 256]>,
        children: Box<[NRef; 48]>,
        value: Option<(u32, u16, V)>,
    },
    /// 49-256 children.
    N256 {
        prefix_off: u32,
        prefix_len: u16,
        count: u16,
        children: Box<[NRef; 256]>,
        value: Option<(u32, u16, V)>,
    },
}

/// Memory statistics of the lean ART.
#[derive(Debug, Clone)]
pub struct LeanStats {
    pub key_bytes: usize,
    pub node_count: usize,
    pub node_bytes: usize,
}

} // verus!
