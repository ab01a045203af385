//! The node layout of the index-linked ART: 32-bit node indices, keys in an arena, short
//! prefixes inline in the smallest node.
use vstd::prelude::*;
use crate::art::node::find_key;

verus! {

/// A 32-bit index of a node; `u32::MAX` is null.
#[derive(Clone, Copy, Debug, PartialEq, Eq, Structural)]
pub struct NodeIdx(pub u32);

impl NodeIdx {
    /// Whether this is the null index.
    pub fn is_null(self) -> (r: bool)
        ensures
            r == (self.0 == u32::MAX),
    {
        self.0 == u32::MAX
    }
}

/// A 32-bit offset into the key arena.
#[derive(Clone, Copy, Debug, PartialEq, Eq, Structural)]
pub struct KeyIdx {
    offset: u32,
}

/// A node of the index-linked ART.
#[derive(Clone)]
pub enum CompactNode<V: Clone> {
    /// Leaf with its key in the arena.
    Leaf { key_offset: u32, key_len: u16, value: V },
    /// Node4 with its prefix inline (up to 12 bytes).
    Node4 {
        prefix: [u8; 12],
        prefix_len: u8,
        num_children: u8,
        keys: [u8; 4],
        children: [NodeIdx; 4],
        /// `(key_offset, key_len, value)` of a key ending here.
        leaf: Option<(u32, u16, V)>,
    },
    /// Node16 with its prefix in the arena.
    Node16 {
        prefix_offset: u32,
        prefix_len: u16,
        num_children: u8,
        keys: [u8; 16],
        children: [NodeIdx; 16],
        leaf: Option<(u32, u16, V)>,
    },
    /// Node48.
    Node48 {
        prefix_offset: u32,
        prefix_len: u16,
        num_children: u8,
        child_idx: Box<[u8; 256]>,
        children: [NodeIdx; 48],
        leaf: Option<(u32, u16, V)>,
    },
    /// Node256.
    Node256 {
        prefix_offset: u32,
        prefix_len: u16,
        num_children: u16,
        children: Box<[NodeIdx; 256]>,
        leaf: Option<(u32, u16, V)>,
    },
}

impl<V: Clone> CompactNode<V> {
    /// The child under `byte`, as the node's kind stores it.
    pub open spec fn child_under(self, byte: u8) -> Option<NodeIdx> {
        match self {
            CompactNode::Leaf { .. } => None,
            CompactNode::Node4 { keys, num_children, children, .. } => match find_key(
                keys@,
                num_children as int,
                byte,
                0,
            ) {
                Some(i) => Some(children@[i]),
                None => None,
            },
            CompactNode::Node16 { keys, num_children, children, .. } => match find_key(
                keys@,
                num_children as int,
                byte,
                0,
            ) {
                Some(i) => Some(children@[i]),
                None => None,
            },
            CompactNode::Node48 { child_idx, children, .. } => if child_idx@[byte as int] != 255 {
                Some(children@[child_idx@[byte as int] as int])
            } else {
                None
            },
            CompactNode::Node256 { children, .. } => if children@[byte as int].0 != u32::MAX {
                Some(children@[byte as int])
            } else {
                None
            },
        }
    }

    fn is_leaf(&self) -> (r: bool)
        ensures
            r == (*self is Leaf),
    {
        matches!(self, CompactNode::Leaf { .. })
    }

    fn find_child(&self, byte: u8) -> (r: Option<NodeIdx>)
        requires
            match *self {
                CompactNode::Node4 { num_children, .. } => num_children <= 4,
                CompactNode::Node16 { num_children, .. } => num_children <= 16,
                CompactNode::Node48 { child_idx, .. } => child_idx@[byte as int] == 255
                    || child_idx@[byte as int] < 48,
                _ => true,
            },
        ensures
            r == self.child_under(byte),
    {
        match self {
            CompactNode::Leaf { .. } => None,
            CompactNode::Node4 { keys, num_children, children, .. } => {
                let n = *num_children as usize;
                let mut i: usize = 0;
                while i < n
                    invariant
                        i <= n <= 4,
                        self.child_under(byte) == match find_key(keys@, n as int, byte, 0) {
                            Some(j) => Some(children@[j]),
                            None => None::<NodeIdx>,
                        },
                        find_key(keys@, n as int, byte, 0) == find_key(keys@, n as int, byte, i as int),
                    decreases n - i,
                {
                    if keys[i] == byte {
                        assert(find_key(keys@, n as int, byte, i as int) == Some(i as int));
                        return Some(children[i]);
                    }
                    i += 1;
                }
                None
            },
            CompactNode::Node16 { keys, num_children, children, .. } => {
                let n = *num_children as usize;
                let mut i: usize = 0;
                while i < n
                    invariant
                        i <= n <= 16,
                        self.child_under(byte) == match find_key(keys@, n as int, byte, 0) {
                            Some(j) => Some(children@[j]),
                            None => None::<NodeIdx>,
                        },
                        find_key(keys@, n as int, byte, 0) == find_key(keys@, n as int, byte, i as int),
                    decreases n - i,
                {
                    if keys[i] == byte {
                        assert(find_key(keys@, n as int, byte, i as int) == Some(i as int));
                        return Some(children[i]);
                    }
                    i += 1;
                }
                None
            },
            CompactNode::Node48 { child_idx, children, .. } => {
                let idx = child_idx[byte as usize];
                if idx != 255 {
                    Some(children[idx as usize])
                } else {
                    None
                }
            },
            CompactNode::Node256 { children, .. } => {
                let child = children[byte as usize];
                if !child.is_null() {
                    Some(child)
                } else {
                    None
                }
            },
        }
    }

    fn num_children(&self) -> (r: usize)
        ensures
            r == match *self {
                CompactNode::Leaf { .. } => 0,
                CompactNode::Node4 { num_children, .. } => num_children as int,
                CompactNode::Node16 { num_children, .. } => num_children as int,
                CompactNode::Node48 { num_children, .. } => num_children as int,
                CompactNode::Node256 { num_children, .. } => num_children as int,
            },
    {
        match self {
            CompactNode::Leaf { .. } => 0,
            CompactNode::Node4 { num_children, .. } => *num_children as usize,
            CompactNode::Node16 { num_children, .. } => *num_children as usize,
            CompactNode::Node48 { num_children, .. } => *num_children as usize,
            CompactNode::Node256 { num_children, .. } => *num_children as usize,
        }
    }
}

/// Memory statistics of the index-linked ART.
#[derive(Debug, Clone)]
pub struct OptArtStats {
    pub key_arena_bytes: usize,
    pub node_count: usize,
    pub node_arena_bytes: usize,
}

} // verus!
