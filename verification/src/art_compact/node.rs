//! Nodes of the compact ART: the layout of the plain ART's nodes, with each stored key held
//! as a reference into the key arena.
//!
//! Each key reference carries a ghost copy of the key's bytes; the tree's `valid` predicate
//! ties those copies to the arena.
use vstd::prelude::*;
use super::{CompactArtStats, KeyArena, KeyRef};
use crate::art::node::{
    kind_is, moved,
    byte_of_slot48, copy_bytes, count_dec, count_inc, dec, filled, find_key, free_slot48, inc,
    index_of_keys, lemma_byte_set_finite, lemma_find_key, lemma_find_key_at,
    lemma_find_key_distinct, lemma_find_key_extend, lemma_find_key_same, lemma_slots_bound,
    shift_keys, starts_with, used48, used_slots48, widen_keys, NodeType,
};

verus! {

/// A node in the compact ART.
pub enum CompactNode<V> {
    /// A leaf node with arena-backed key reference.
    Leaf {
        key_ref: KeyRef,
        /// The key's bytes.
        key: Ghost<Seq<u8>>,
        value: V,
    },
    /// A node with up to 4 children.
    Node4 {
        prefix: Vec<u8>,
        num_children: u8,
        /// Child keys, 4 slots.
        keys: Vec<u8>,
        children: Vec<Box<CompactNode<V>>>,
        /// Leaf value if a key ends at this node.
        leaf_value: Option<(KeyRef, V)>,
        /// The bytes of that key.
        leaf_key: Ghost<Seq<u8>>,
    },
    /// A node with 5-16 children.
    Node16 {
        prefix: Vec<u8>,
        num_children: u8,
        /// Child keys, 16 slots.
        keys: Vec<u8>,
        children: Vec<Box<CompactNode<V>>>,
        leaf_value: Option<(KeyRef, V)>,
        leaf_key: Ghost<Seq<u8>>,
    },
    /// A node with 17-48 children.
    Node48 {
        prefix: Vec<u8>,
        num_children: u8,
        /// Child slot of each byte (255 = none), 256 entries.
        child_index: Vec<u8>,
        children: Vec<Box<CompactNode<V>>>,
        leaf_value: Option<(KeyRef, V)>,
        leaf_key: Ghost<Seq<u8>>,
    },
    /// A node with 49-256 children.
    Node256 {
        prefix: Vec<u8>,
        num_children: u16,
        /// Child nodes, indexed by byte, 256 entries.
        children: Vec<Option<Box<CompactNode<V>>>>,
        leaf_value: Option<(KeyRef, V)>,
        leaf_key: Ghost<Seq<u8>>,
    },
}

/// The bytes with a child in a Node256.
pub open spec fn used256<V>(ch: Seq<Option<Box<CompactNode<V>>>>) -> Set<int> {
    Set::new(|b: int| 0 <= b < 256 && ch[b] is Some)
}

impl<V> CompactNode<V> {
    pub open spec fn is_inner(self) -> bool {
        !(self is Leaf)
    }

    pub open spec fn spec_prefix(self) -> Seq<u8> {
        match self {
            CompactNode::Leaf { .. } => Seq::empty(),
            CompactNode::Node4 { prefix, .. } => prefix@,
            CompactNode::Node16 { prefix, .. } => prefix@,
            CompactNode::Node48 { prefix, .. } => prefix@,
            CompactNode::Node256 { prefix, .. } => prefix@,
        }
    }

    /// The key of the value stored at this node.
    pub open spec fn spec_leaf_key(self) -> Seq<u8> {
        match self {
            CompactNode::Leaf { .. } => Seq::empty(),
            CompactNode::Node4 { leaf_key, .. } => leaf_key@,
            CompactNode::Node16 { leaf_key, .. } => leaf_key@,
            CompactNode::Node48 { leaf_key, .. } => leaf_key@,
            CompactNode::Node256 { leaf_key, .. } => leaf_key@,
        }
    }

    /// The value stored at this node: where its key lies, the value, and the key's bytes.
    pub open spec fn spec_leaf_value(self) -> Option<(KeyRef, V, Seq<u8>)> {
        let lv = match self {
            CompactNode::Leaf { .. } => None,
            CompactNode::Node4 { leaf_value, .. } => leaf_value,
            CompactNode::Node16 { leaf_value, .. } => leaf_value,
            CompactNode::Node48 { leaf_value, .. } => leaf_value,
            CompactNode::Node256 { leaf_value, .. } => leaf_value,
        };
        match lv {
            Some((r, v)) => Some((r, v, self.spec_leaf_key())),
            None => None,
        }
    }

    pub open spec fn spec_num_children(self) -> nat {
        match self {
            CompactNode::Leaf { .. } => 0,
            CompactNode::Node4 { num_children, .. } => num_children as nat,
            CompactNode::Node16 { num_children, .. } => num_children as nat,
            CompactNode::Node48 { num_children, .. } => num_children as nat,
            CompactNode::Node256 { num_children, .. } => num_children as nat,
        }
    }

    /// The position of the child for byte `b`, as `find_child` reports it.
    pub open spec fn child_pos(self, b: u8) -> Option<int> {
        match self {
            CompactNode::Leaf { .. } => None,
            CompactNode::Node4 { keys, num_children, .. } => find_key(keys@, num_children as int, b, 0),
            CompactNode::Node16 { keys, num_children, .. } => find_key(keys@, num_children as int, b, 0),
            CompactNode::Node48 { child_index, .. } => if child_index@[b as int] != 255 {
                Some(child_index@[b as int] as int)
            } else {
                None
            },
            CompactNode::Node256 { children, .. } => if children@[b as int] is Some {
                Some(b as int)
            } else {
                None
            },
        }
    }

    /// The child for byte `b`.
    pub open spec fn child_at(self, b: u8) -> Option<CompactNode<V>> {
        match self {
            CompactNode::Leaf { .. } => None,
            CompactNode::Node4 { children, .. } => match self.child_pos(b) {
                Some(i) => Some(*children@[i]),
                None => None,
            },
            CompactNode::Node16 { children, .. } => match self.child_pos(b) {
                Some(i) => Some(*children@[i]),
                None => None,
            },
            CompactNode::Node48 { children, .. } => match self.child_pos(b) {
                Some(i) => Some(*children@[i]),
                None => None,
            },
            CompactNode::Node256 { children, .. } => match children@[b as int] {
                Some(c) => Some(*c),
                None => None,
            },
        }
    }

    /// The layout constraints of each kind of node.
    pub open spec fn shape_ok(self) -> bool {
        match self {
            CompactNode::Leaf { .. } => true,
            CompactNode::Node4 { keys, num_children, children, .. } => {
                &&& keys@.len() == 4
                &&& num_children <= 4
                &&& num_children <= children@.len() <= 4
                &&& forall|i: int, j: int|
                    0 <= i < j < num_children ==> keys@[i] != keys@[j]
            },
            CompactNode::Node16 { keys, num_children, children, .. } => {
                &&& keys@.len() == 16
                &&& num_children <= 16
                &&& num_children <= children@.len() <= 16
                &&& forall|i: int, j: int|
                    0 <= i < j < num_children ==> keys@[i] != keys@[j]
            },
            CompactNode::Node48 { child_index, num_children, children, .. } => {
                &&& child_index@.len() == 256
                &&& children@.len() <= 48
                &&& num_children <= 48
                &&& num_children as nat == used48(child_index@).len()
                &&& forall|b: int|
                    0 <= b < 256 && child_index@[b] != 255 ==> child_index@[b] < children@.len()
                &&& forall|b1: int, b2: int|
                    0 <= b1 < 256 && 0 <= b2 < 256 && b1 != b2 && child_index@[b1] != 255
                        ==> child_index@[b1] != child_index@[b2]
            },
            CompactNode::Node256 { num_children, children, .. } => {
                &&& children@.len() == 256
                &&& num_children as nat == used256(children@).len()
            },
        }
    }

    /// The value that a key ending at this node finds in its leaf value.
    pub open spec fn leaf_value_lookup(self, key: Seq<u8>) -> Option<V> {
        match self.spec_leaf_value() {
            Some((_, v, k)) => if k == key {
                Some(v)
            } else {
                None
            },
            None => None,
        }
    }

    /// What a search for `key` finds from this node, entered after `depth` bytes of the key.
    pub open spec fn lookup(self, key: Seq<u8>, depth: int) -> Option<V>
        decreases self,
    {
        match self {
            CompactNode::Leaf { key: lk, value, .. } => if lk@ == key {
                Some(value)
            } else {
                None
            },
            _ => {
                let p = self.spec_prefix();
                if depth < 0 || key.len() < depth + p.len() || key.subrange(depth, depth + p.len())
                    != p {
                    None
                } else if depth + p.len() >= key.len() {
                    self.leaf_value_lookup(key)
                } else {
                    let b = key[depth + p.len()];
                    match self {
                        CompactNode::Node4 { children, .. } => match self.child_pos(b) {
                            Some(i) => if 0 <= i < children@.len() {
                                children@[i].lookup(key, depth + p.len() + 1)
                            } else {
                                None
                            },
                            None => None,
                        },
                        CompactNode::Node16 { children, .. } => match self.child_pos(b) {
                            Some(i) => if 0 <= i < children@.len() {
                                children@[i].lookup(key, depth + p.len() + 1)
                            } else {
                                None
                            },
                            None => None,
                        },
                        CompactNode::Node48 { children, .. } => match self.child_pos(b) {
                            Some(i) => if 0 <= i < children@.len() {
                                children@[i].lookup(key, depth + p.len() + 1)
                            } else {
                                None
                            },
                            None => None,
                        },
                        CompactNode::Node256 { children, .. } => if (b as int) < children@.len() {
                            match children@[b as int] {
                                Some(c) => c.lookup(key, depth + p.len() + 1),
                                None => None,
                            }
                        } else {
                            None
                        },
                        _ => None,
                    }
                }
            },
        }
    }
}

impl<V> CompactNode<V> {
    /// A freshly made inner node: no prefix, no value, no children.
    pub open spec fn empty_inner(self) -> bool {
        &&& self.is_inner()
        &&& self.spec_prefix().len() == 0
        &&& self.spec_leaf_value() is None
        &&& self.shape_ok()
        &&& self.spec_num_children() == 0
        &&& forall|b: u8| #[trigger] self.child_at(b) is None
    }

    /// `self` and `other` are the same kind of node with the same children; their prefixes
    /// and values may differ.
    pub open spec fn same_body(self, other: CompactNode<V>) -> bool {
        match (self, other) {
            (CompactNode::Leaf { .. }, _) => self == other,
            (
                CompactNode::Node4 { num_children: n1, keys: k1, children: c1, .. },
                CompactNode::Node4 { num_children: n2, keys: k2, children: c2, .. },
            ) => n1 == n2 && k1 == k2 && c1 == c2,
            (
                CompactNode::Node16 { num_children: n1, keys: k1, children: c1, .. },
                CompactNode::Node16 { num_children: n2, keys: k2, children: c2, .. },
            ) => n1 == n2 && k1 == k2 && c1 == c2,
            (
                CompactNode::Node48 { num_children: n1, child_index: i1, children: c1, .. },
                CompactNode::Node48 { num_children: n2, child_index: i2, children: c2, .. },
            ) => n1 == n2 && i1 == i2 && c1 == c2,
            (
                CompactNode::Node256 { num_children: n1, children: c1, .. },
                CompactNode::Node256 { num_children: n2, children: c2, .. },
            ) => n1 == n2 && c1 == c2,
            _ => false,
        }
    }

    /// The node's kind.
    pub open spec fn spec_node_type(self) -> NodeType {
        match self {
            CompactNode::Leaf { .. } => NodeType::Leaf,
            CompactNode::Node4 { .. } => NodeType::Node4,
            CompactNode::Node16 { .. } => NodeType::Node16,
            CompactNode::Node48 { .. } => NodeType::Node48,
            CompactNode::Node256 { .. } => NodeType::Node256,
        }
    }

    /// Create a new leaf node.
    pub fn new_leaf(key_ref: KeyRef, value: V, Ghost(key): Ghost<Seq<u8>>) -> (r: Self)
        ensures
            r == (CompactNode::Leaf { key_ref, key: Ghost(key), value }),
    {
        CompactNode::Leaf { key_ref, key: Ghost(key), value }
    }

    /// Create a new Node4.
    pub fn new_node4() -> (r: Self)
        ensures
            r is Node4,
            r.empty_inner(),
    {
        let r = CompactNode::Node4 {
            prefix: Vec::new(),
            num_children: 0,
            keys: filled(0, 4),
            children: Vec::with_capacity(4),
            leaf_value: None,
            leaf_key: Ghost(Seq::empty()),
        };
        assert forall|b: u8| #[trigger] r.child_at(b) is None by {
            assert(r.child_pos(b) is None);
        }
        r
    }

    /// Create a new Node16.
    pub fn new_node16() -> (r: Self)
        ensures
            r is Node16,
            r.empty_inner(),
    {
        let r = CompactNode::Node16 {
            prefix: Vec::new(),
            num_children: 0,
            keys: filled(0, 16),
            children: Vec::with_capacity(16),
            leaf_value: None,
            leaf_key: Ghost(Seq::empty()),
        };
        assert forall|b: u8| #[trigger] r.child_at(b) is None by {
            assert(r.child_pos(b) is None);
        }
        r
    }

    /// Create a new Node48.
    pub fn new_node48() -> (r: Self)
        ensures
            r is Node48,
            r.empty_inner(),
    {
        let ci = filled(255, 256);
        assert(used48(ci@) =~= Set::empty());
        let r = CompactNode::Node48 {
            prefix: Vec::new(),
            num_children: 0,
            child_index: ci,
            children: Vec::with_capacity(48),
            leaf_value: None,
            leaf_key: Ghost(Seq::empty()),
        };
        assert forall|b: u8| #[trigger] r.child_at(b) is None by {
            assert(ci@[b as int] == 255);
        }
        r
    }

    /// Create a new Node256.
    pub fn new_node256() -> (r: Self)
        ensures
            r is Node256,
            r.empty_inner(),
    {
        let mut children: Vec<Option<Box<CompactNode<V>>>> = Vec::with_capacity(256);
        let mut i: usize = 0;
        while i < 256
            invariant
                i <= 256,
                children@.len() == i,
                forall|j: int| 0 <= j < i ==> children@[j] is None,
            decreases 256 - i,
        {
            children.push(None);
            i += 1;
        }
        assert(used256(children@) =~= Set::empty());
        let r = CompactNode::Node256 {
            prefix: Vec::new(),
            num_children: 0,
            children,
            leaf_value: None,
            leaf_key: Ghost(Seq::empty()),
        };
        assert forall|b: u8| #[trigger] r.child_at(b) is None by {
            assert(children@[b as int] is None);
        }
        r
    }

    /// Get the node type.
    fn node_type(&self) -> (r: NodeType)
        ensures
            r == self.spec_node_type(),
    {
        match self {
            CompactNode::Leaf { .. } => NodeType::Leaf,
            CompactNode::Node4 { .. } => NodeType::Node4,
            CompactNode::Node16 { .. } => NodeType::Node16,
            CompactNode::Node48 { .. } => NodeType::Node48,
            CompactNode::Node256 { .. } => NodeType::Node256,
        }
    }

    /// Get the number of children.
    pub fn num_children(&self) -> (r: usize)
        ensures
            r == self.spec_num_children(),
    {
        match self {
            CompactNode::Leaf { .. } => 0,
            CompactNode::Node4 { num_children, .. } => *num_children as usize,
            CompactNode::Node16 { num_children, .. } => *num_children as usize,
            CompactNode::Node48 { num_children, .. } => *num_children as usize,
            CompactNode::Node256 { num_children, .. } => *num_children as usize,
        }
    }

    /// Set the prefix; a leaf is left as it is.
    pub fn set_prefix(&mut self, new_prefix: &[u8])
        ensures
            final(self).same_body(*old(self)),
            final(self).spec_leaf_value() == old(self).spec_leaf_value(),
            old(self).is_inner() ==> final(self).spec_prefix() == new_prefix@,
    {
        match self {
            CompactNode::Leaf { .. } => {},
            CompactNode::Node4 { prefix, .. } => {
                *prefix = copy_bytes(new_prefix, 0, new_prefix.len());
            },
            CompactNode::Node16 { prefix, .. } => {
                *prefix = copy_bytes(new_prefix, 0, new_prefix.len());
            },
            CompactNode::Node48 { prefix, .. } => {
                *prefix = copy_bytes(new_prefix, 0, new_prefix.len());
            },
            CompactNode::Node256 { prefix, .. } => {
                *prefix = copy_bytes(new_prefix, 0, new_prefix.len());
            },
        }
    }

    /// Get the prefix; a leaf has none.
    pub fn prefix(&self) -> (r: &[u8])
        ensures
            r@ == self.spec_prefix(),
    {
        match self {
            CompactNode::Leaf { .. } => &[],
            CompactNode::Node4 { prefix, .. } => prefix.as_slice(),
            CompactNode::Node16 { prefix, .. } => prefix.as_slice(),
            CompactNode::Node48 { prefix, .. } => prefix.as_slice(),
            CompactNode::Node256 { prefix, .. } => prefix.as_slice(),
        }
    }

    /// Set the value stored at this node, whose key is `k`; a leaf is left as it is.
    pub fn set_leaf_value(&mut self, value: Option<(KeyRef, V)>, Ghost(k): Ghost<Seq<u8>>)
        ensures
            final(self).same_body(*old(self)),
            final(self).spec_prefix() == old(self).spec_prefix(),
            old(self).is_inner() ==> final(self).spec_leaf_value() == match value {
                Some((r, v)) => Some((r, v, k)),
                None => None,
            },
            !old(self).is_inner() ==> *final(self) == *old(self),
    {
        match self {
            CompactNode::Leaf { .. } => {},
            CompactNode::Node4 { leaf_value, leaf_key, .. } => {
                *leaf_value = value;
                *leaf_key = Ghost(k);
            },
            CompactNode::Node16 { leaf_value, leaf_key, .. } => {
                *leaf_value = value;
                *leaf_key = Ghost(k);
            },
            CompactNode::Node48 { leaf_value, leaf_key, .. } => {
                *leaf_value = value;
                *leaf_key = Ghost(k);
            },
            CompactNode::Node256 { leaf_value, leaf_key, .. } => {
                *leaf_value = value;
                *leaf_key = Ghost(k);
            },
        }
    }

    /// The value stored at this node, with where its key lies.
    pub fn leaf_value(&self) -> (r: Option<&(KeyRef, V)>)
        ensures
            match r {
                Some(p) => self.spec_leaf_value() == Some((p.0, p.1, self.spec_leaf_key())),
                None => self.spec_leaf_value() is None,
            },
    {
        match self {
            CompactNode::Leaf { .. } => None,
            CompactNode::Node4 { leaf_value, .. } => leaf_value.as_ref(),
            CompactNode::Node16 { leaf_value, .. } => leaf_value.as_ref(),
            CompactNode::Node48 { leaf_value, .. } => leaf_value.as_ref(),
            CompactNode::Node256 { leaf_value, .. } => leaf_value.as_ref(),
        }
    }

    /// Take the value stored at this node (remove and return it).
    pub fn take_leaf_value(&mut self) -> (r: Option<(KeyRef, V)>)
        ensures
            r == match old(self).spec_leaf_value() {
                Some((a, v, _)) => Some((a, v)),
                None => None,
            },
            final(self).same_body(*old(self)),
            final(self).spec_prefix() == old(self).spec_prefix(),
            final(self).spec_leaf_value() is None,
    {
        match self {
            CompactNode::Leaf { .. } => None,
            CompactNode::Node4 { leaf_value, .. } => leaf_value.take(),
            CompactNode::Node16 { leaf_value, .. } => leaf_value.take(),
            CompactNode::Node48 { leaf_value, .. } => leaf_value.take(),
            CompactNode::Node256 { leaf_value, .. } => leaf_value.take(),
        }
    }
}

impl<V> CompactNode<V> {
    /// The node has no room for another child.
    pub open spec fn is_full(self) -> bool {
        match self {
            CompactNode::Node4 { num_children, .. } => num_children >= 4,
            CompactNode::Node16 { num_children, .. } => num_children >= 16,
            CompactNode::Node48 { num_children, .. } => num_children >= 48,
            _ => false,
        }
    }

    /// Find the index of a child with the given key byte.
    pub fn find_child(&self, key: u8) -> (r: Option<usize>)
        requires
            self.shape_ok(),
        ensures
            match r {
                Some(i) => self.child_pos(key) == Some(i as int),
                None => self.child_pos(key) is None,
            },
    {
        match self {
            CompactNode::Leaf { .. } => None,
            CompactNode::Node4 { keys, num_children, .. } => {
                let n = *num_children as usize;
                let mut i: usize = 0;
                while i < n
                    invariant
                        i <= n <= keys@.len(),
                        self.child_pos(key) == find_key(keys@, n as int, key, 0),
                        find_key(keys@, n as int, key, 0) == find_key(keys@, n as int, key, i as int),
                    decreases n - i,
                {
                    if keys[i] == key {
                        assert(find_key(keys@, n as int, key, i as int) == Some(i as int));
                        return Some(i);
                    }
                    i += 1;
                }
                None
            },
            CompactNode::Node16 { keys, num_children, .. } => {
                let n = *num_children as usize;
                let mut i: usize = 0;
                while i < n
                    invariant
                        i <= n <= keys@.len(),
                        self.child_pos(key) == find_key(keys@, n as int, key, 0),
                        find_key(keys@, n as int, key, 0) == find_key(keys@, n as int, key, i as int),
                    decreases n - i,
                {
                    if keys[i] == key {
                        assert(find_key(keys@, n as int, key, i as int) == Some(i as int));
                        return Some(i);
                    }
                    i += 1;
                }
                None
            },
            CompactNode::Node48 { child_index, .. } => {
                let idx = child_index[key as usize];
                if idx != 255 {
                    Some(idx as usize)
                } else {
                    None
                }
            },
            CompactNode::Node256 { children, .. } => {
                if children[key as usize].is_some() {
                    Some(key as usize)
                } else {
                    None
                }
            },
        }
    }
}

impl<V> CompactNode<V> {
    /// The node's kind, prefix and value are those of `other`.
    pub open spec fn same_frame(self, other: CompactNode<V>) -> bool {
        &&& self.spec_node_type() == other.spec_node_type()
        &&& self.spec_prefix() == other.spec_prefix()
        &&& self.spec_leaf_value() == other.spec_leaf_value()
    }

    /// Add a child node under `key`; a child already there is replaced.
    pub fn add_child(&mut self, key: u8, child: Box<CompactNode<V>>)
        requires
            old(self).is_inner(),
            old(self).shape_ok(),
            old(self).child_at(key) is None ==> !old(self).is_full(),
        ensures
            final(self).shape_ok(),
            final(self).same_frame(*old(self)),
            final(self).child_at(key) == Some(*child),
            forall|b: u8| b != key ==> #[trigger] final(self).child_at(b) == old(self).child_at(b),
            final(self).spec_num_children() == old(self).spec_num_children() + (if old(
                self,
            ).child_at(key) is None {
                1int
            } else {
                0int
            }),
    {
        let pos = self.find_child(key);
        let slot = match self {
            CompactNode::Node48 { child_index, children, .. } => if pos.is_none() {
                free_slot48(child_index, children.len())
            } else {
                None
            },
            _ => None,
        };
        match self {
            CompactNode::Leaf { .. } => {
                assert(false);
            },
            CompactNode::Node4 { keys, num_children, children, .. } => {
                let ghost k0 = keys@;
                let ghost c0 = children@;
                let ghost n0 = *num_children as int;
                proof {
                    lemma_find_key_distinct(k0, n0, key);
                }
                match pos {
                    Some(i) => {
                        children.set(i, child);
                        proof {
                            assert forall|b: u8| b != key implies (match #[trigger] find_key(
                                k0,
                                n0,
                                b,
                                0,
                            ) {
                                Some(j) => j != i && children@[j] == c0[j],
                                None => true,
                            }) by {
                                lemma_find_key_distinct(k0, n0, b);
                            }
                        }
                    },
                    None => {
                        let idx = *num_children as usize;
                        keys.set(idx, key);
                        if idx < children.len() {
                            children.set(idx, child);
                        } else {
                            children.push(child);
                        }
                        *num_children = *num_children + 1;
                        proof {
                            lemma_find_key_at(keys@, n0 + 1, key, 0, n0);
                            assert forall|b: u8| b != key implies #[trigger] find_key(
                                keys@,
                                n0 + 1,
                                b,
                                0,
                            ) == find_key(k0, n0, b, 0) && (match find_key(k0, n0, b, 0) {
                                Some(j) => j < n0 && children@[j] == c0[j],
                                None => true,
                            }) by {
                                lemma_find_key_extend(k0, keys@, n0, b, 0);
                                lemma_find_key(k0, n0, b, 0);
                            }
                        }
                    },
                }
            },
            CompactNode::Node16 { keys, num_children, children, .. } => {
                let ghost k0 = keys@;
                let ghost c0 = children@;
                let ghost n0 = *num_children as int;
                proof {
                    lemma_find_key_distinct(k0, n0, key);
                }
                match pos {
                    Some(i) => {
                        children.set(i, child);
                        proof {
                            assert forall|b: u8| b != key implies (match #[trigger] find_key(
                                k0,
                                n0,
                                b,
                                0,
                            ) {
                                Some(j) => j != i && children@[j] == c0[j],
                                None => true,
                            }) by {
                                lemma_find_key_distinct(k0, n0, b);
                            }
                        }
                    },
                    None => {
                        let idx = *num_children as usize;
                        keys.set(idx, key);
                        if idx < children.len() {
                            children.set(idx, child);
                        } else {
                            children.push(child);
                        }
                        *num_children = *num_children + 1;
                        proof {
                            lemma_find_key_at(keys@, n0 + 1, key, 0, n0);
                            assert forall|b: u8| b != key implies #[trigger] find_key(
                                keys@,
                                n0 + 1,
                                b,
                                0,
                            ) == find_key(k0, n0, b, 0) && (match find_key(k0, n0, b, 0) {
                                Some(j) => j < n0 && children@[j] == c0[j],
                                None => true,
                            }) by {
                                lemma_find_key_extend(k0, keys@, n0, b, 0);
                                lemma_find_key(k0, n0, b, 0);
                            }
                        }
                    },
                }
            },
            CompactNode::Node48 { child_index, num_children, children, .. } => {
                let ghost ci0 = child_index@;
                let ghost c0 = children@;
                proof {
                    lemma_byte_set_finite(used48(ci0));
                }
                match pos {
                    Some(i) => {
                        children.set(i, child);
                        assert forall|b: u8| b != key implies ci0[b as int] == 255 || ci0[b as int]
                            != i by {
                            assert(ci0[key as int] == i);
                        }
                    },
                    None => {
                        let s = match slot {
                            Some(s) => s,
                            None => {
                                proof {
                                    lemma_slots_bound(ci0, c0.len() as int);
                                }
                                children.len()
                            },
                        };
                        assert(!used_slots48(ci0).contains(s as int)) by {
                            if used_slots48(ci0).contains(s as int) {
                                let b = choose|b: int|
                                    used48(ci0).contains(b) && ci0[b] as int == s as int;
                                assert(ci0[b] != 255);
                            }
                        }
                        if s < children.len() {
                            children.set(s, child);
                        } else {
                            children.push(child);
                        }
                        child_index.set(key as usize, s as u8);
                        *num_children = *num_children + 1;
                        proof {
                            assert(used48(child_index@) =~= used48(ci0).insert(key as int));
                            assert forall|b: int| 0 <= b < 256 && b != key && ci0[b] != 255 implies
                                ci0[b] != s by {
                                assert(used48(ci0).contains(b));
                            }
                        }
                    },
                }
            },
            CompactNode::Node256 { children, num_children, .. } => {
                let ghost c0 = children@;
                if children[key as usize].is_none() {
                    proof {
                        lemma_byte_set_finite(used256(c0));
                        let after = used256(c0).insert(key as int);
                        lemma_byte_set_finite(after);
                    }
                    *num_children = *num_children + 1;
                }
                children.set(key as usize, Some(child));
                proof {
                    if c0[key as int] is None {
                        assert(used256(children@) =~= used256(c0).insert(key as int));
                    } else {
                        assert(used256(children@) =~= used256(c0));
                    }
                }
            },
        }
    }
}

impl<V> CompactNode<V> {
    /// Remove the child at position `idx` and return it; a fresh empty Node4 holds its slot.
    pub fn remove_child(&mut self, idx: usize) -> (r: Box<CompactNode<V>>)
        requires
            old(self).is_inner(),
            old(self).shape_ok(),
            exists|b: u8| old(self).child_pos(b) == Some(idx as int),
        ensures
            final(self).shape_ok(),
            final(self).same_frame(*old(self)),
            forall|b: u8|
                old(self).child_pos(b) == Some(idx as int) ==> old(self).child_at(b) == Some(*r)
                    && #[trigger] final(self).child_at(b) is None,
            forall|b: u8|
                old(self).child_pos(b) != Some(idx as int) ==> #[trigger] final(self).child_at(b)
                    == old(self).child_at(b),
            final(self).spec_num_children() == old(self).spec_num_children() - 1,
    {
        let ghost b0 = choose|b: u8| old(self).child_pos(b) == Some(idx as int);
        match self {
            CompactNode::Leaf { .. } => {
                assert(false);
                Box::new(CompactNode::new_node4())
            },
            CompactNode::Node4 { keys, num_children, children, .. } => {
                let ghost k0 = keys@;
                let ghost c0 = children@;
                let n = *num_children as usize;
                proof {
                    lemma_find_key_distinct(k0, n as int, b0);
                }
                let nk = shift_keys(keys, idx, n);
                let c = children.remove(idx);
                children.insert(n - 1, Box::new(CompactNode::new_node4()));
                *keys = nk;
                *num_children = *num_children - 1;
                proof {
                    let m = n as int - 1;
                    assert forall|i: int, j: int| 0 <= i < j < m implies nk@[i] != nk@[j] by {
                        let oi = if i < idx { i } else { i + 1 };
                        let oj = if j < idx { j } else { j + 1 };
                        assert(nk@[i] == k0[oi] && nk@[j] == k0[oj]);
                    }
                    assert forall|b: u8|
                        old(self).child_pos(b) == Some(idx as int) ==> find_key(nk@, m, b, 0) is None by {
                        lemma_find_key_distinct(k0, n as int, b);
                        lemma_find_key_distinct(nk@, m, b);
                        if old(self).child_pos(b) == Some(idx as int) {
                            if let Some(j) = find_key(nk@, m, b, 0) {
                                let oj = if j < idx { j } else { j + 1 };
                                assert(k0[oj] == b);
                            }
                        }
                    }
                    assert forall|b: u8| old(self).child_pos(b) != Some(idx as int) implies (match find_key(
                        nk@,
                        m,
                        b,
                        0,
                    ) {
                        Some(j) => j < m && children@[j] == c0[if j < idx { j } else { j + 1 }]
                            && find_key(k0, n as int, b, 0) == Some(if j < idx { j } else { j + 1 }),
                        None => find_key(k0, n as int, b, 0) is None,
                    }) by {
                        lemma_find_key_distinct(k0, n as int, b);
                        lemma_find_key_distinct(nk@, m, b);
                        if let Some(j) = find_key(nk@, m, b, 0) {
                            let oj = if j < idx { j } else { j + 1 };
                            assert(k0[oj] == b);
                        } else {
                            if let Some(oj) = find_key(k0, n as int, b, 0) {
                                let j = if oj < idx { oj } else { oj - 1 };
                                assert(nk@[j] == b);
                            }
                        }
                    }
                }
                c
            },
            CompactNode::Node16 { keys, num_children, children, .. } => {
                let ghost k0 = keys@;
                let ghost c0 = children@;
                let n = *num_children as usize;
                proof {
                    lemma_find_key_distinct(k0, n as int, b0);
                }
                let nk = shift_keys(keys, idx, n);
                let c = children.remove(idx);
                children.insert(n - 1, Box::new(CompactNode::new_node4()));
                *keys = nk;
                *num_children = *num_children - 1;
                proof {
                    let m = n as int - 1;
                    assert forall|i: int, j: int| 0 <= i < j < m implies nk@[i] != nk@[j] by {
                        let oi = if i < idx { i } else { i + 1 };
                        let oj = if j < idx { j } else { j + 1 };
                        assert(nk@[i] == k0[oi] && nk@[j] == k0[oj]);
                    }
                    assert forall|b: u8|
                        old(self).child_pos(b) == Some(idx as int) ==> find_key(nk@, m, b, 0) is None by {
                        lemma_find_key_distinct(k0, n as int, b);
                        lemma_find_key_distinct(nk@, m, b);
                        if old(self).child_pos(b) == Some(idx as int) {
                            if let Some(j) = find_key(nk@, m, b, 0) {
                                let oj = if j < idx { j } else { j + 1 };
                                assert(k0[oj] == b);
                            }
                        }
                    }
                    assert forall|b: u8| old(self).child_pos(b) != Some(idx as int) implies (match find_key(
                        nk@,
                        m,
                        b,
                        0,
                    ) {
                        Some(j) => j < m && children@[j] == c0[if j < idx { j } else { j + 1 }]
                            && find_key(k0, n as int, b, 0) == Some(if j < idx { j } else { j + 1 }),
                        None => find_key(k0, n as int, b, 0) is None,
                    }) by {
                        lemma_find_key_distinct(k0, n as int, b);
                        lemma_find_key_distinct(nk@, m, b);
                        if let Some(j) = find_key(nk@, m, b, 0) {
                            let oj = if j < idx { j } else { j + 1 };
                            assert(k0[oj] == b);
                        } else {
                            if let Some(oj) = find_key(k0, n as int, b, 0) {
                                let j = if oj < idx { oj } else { oj - 1 };
                                assert(nk@[j] == b);
                            }
                        }
                    }
                }
                c
            },
            CompactNode::Node48 { child_index, num_children, children, .. } => {
                let ghost ci0 = child_index@;
                let ghost c0 = children@;
                let kb = byte_of_slot48(child_index, idx);
                let c = children.remove(idx);
                children.insert(idx, Box::new(CompactNode::new_node4()));
                assert(ci0[b0 as int] == idx);
                match kb {
                    Some(k) => {
                        assert(k == b0);
                        proof {
                            lemma_byte_set_finite(used48(ci0));
                            assert(used48(ci0).contains(k as int));
                            assert(used48(ci0).remove(k as int).len() == used48(ci0).len() - 1);
                        }
                        child_index.set(k, 255);
                        *num_children = *num_children - 1;
                        assert(used48(child_index@) =~= used48(ci0).remove(k as int));
                    },
                    None => {
                        assert(false);
                    },
                }
                assert forall|j: int| 0 <= j < c0.len() && j != idx implies children@[j] == c0[j] by {}
                c
            },
            CompactNode::Node256 { children, num_children, .. } => {
                let ghost c0 = children@;
                proof {
                    lemma_byte_set_finite(used256(c0));
                    assert(used256(c0).contains(idx as int));
                }
                *num_children = *num_children - 1;
                let c = children.remove(idx);
                children.insert(idx, None);
                assert(used256(children@) =~= used256(c0).remove(idx as int));
                assert forall|j: int| 0 <= j < 256 && j != idx implies children@[j] == c0[j] by {}
                c.unwrap()
            },
        }
    }
}

/// The node counts of `s1` are those of `s0` moved by a node's change of kind from `t0` to
/// `t1`: the count of the kind it left goes down by one, that of the kind it took up by
/// one, and the other counters stay.
pub open spec fn counts_follow_kind(s0: CompactArtStats, s1: CompactArtStats, t0: NodeType, t1: NodeType) -> bool {
    &&& s1.node4_count == moved(s0.node4_count, kind_is(t1, NodeType::Node4) - kind_is(t0, NodeType::Node4))
    &&& s1.node16_count == moved(s0.node16_count, kind_is(t1, NodeType::Node16) - kind_is(t0, NodeType::Node16))
    &&& s1.node48_count == moved(s0.node48_count, kind_is(t1, NodeType::Node48) - kind_is(t0, NodeType::Node48))
    &&& s1.node256_count == moved(s0.node256_count, kind_is(t1, NodeType::Node256) - kind_is(t0, NodeType::Node256))
    &&& s1.leaf_count == s0.leaf_count
}

/// The counts after a node of kind `from` grows into the next larger kind.
pub open spec fn grown_stats(s: CompactArtStats, from: NodeType) -> CompactArtStats {
    match from {
        NodeType::Node4 => CompactArtStats {
            node4_count: dec(s.node4_count),
            node16_count: inc(s.node16_count),
            ..s
        },
        NodeType::Node16 => CompactArtStats {
            node16_count: dec(s.node16_count),
            node48_count: inc(s.node48_count),
            ..s
        },
        NodeType::Node48 => CompactArtStats {
            node48_count: dec(s.node48_count),
            node256_count: inc(s.node256_count),
            ..s
        },
        _ => s,
    }
}

impl<V> CompactNode<V> {
    /// Grow a Node4 into a Node16 with the same children; other nodes are left as they are.
    fn grow_to_node16(&mut self, stats: &mut CompactArtStats)
        requires
            old(self).shape_ok(),
        ensures
            final(self).shape_ok(),
            *old(self) is Node4 ==> *final(self) is Node16,
            !(*old(self) is Node4) ==> *final(self) == *old(self),
            final(self).spec_prefix() == old(self).spec_prefix(),
            final(self).spec_leaf_value() == old(self).spec_leaf_value(),
            final(self).spec_num_children() == old(self).spec_num_children(),
            forall|b: u8| #[trigger] final(self).child_at(b) == old(self).child_at(b),
            *final(stats) == if *old(self) is Node4 {
                grown_stats(*old(stats), NodeType::Node4)
            } else {
                *old(stats)
            },
            counts_follow_kind(*old(stats), *final(stats), old(self).spec_node_type(), final(self).spec_node_type()),
    {
        if let CompactNode::Node4 { .. } = self {
            let mut tmp = CompactNode::new_node4();
            std::mem::swap(self, &mut tmp);
            match tmp {
                CompactNode::Node4 { prefix, num_children, keys, children, leaf_value, leaf_key } => {
                    let nk = widen_keys(&keys, num_children as usize, 16);
                    let ghost n = num_children as int;
                    assert forall|b: u8| #[trigger] find_key(nk@, n, b, 0) == find_key(keys@, n, b, 0) by {
                        lemma_find_key_same(keys@, nk@, n, b, 0);
                    }
                    *self = CompactNode::Node16 {
                        prefix,
                        num_children,
                        keys: nk,
                        children,
                        leaf_value,
                        leaf_key,
                    };
                },
                other => {
                    *self = other;
                },
            }
            stats.node4_count = count_dec(stats.node4_count);
            stats.node16_count = count_inc(stats.node16_count);
        }
    }

    /// Grow a Node16 into a Node48 with the same children; other nodes are left as they are.
    fn grow_to_node48(&mut self, stats: &mut CompactArtStats)
        requires
            old(self).shape_ok(),
        ensures
            final(self).shape_ok(),
            *old(self) is Node16 ==> *final(self) is Node48,
            !(*old(self) is Node16) ==> *final(self) == *old(self),
            final(self).spec_prefix() == old(self).spec_prefix(),
            final(self).spec_leaf_value() == old(self).spec_leaf_value(),
            final(self).spec_num_children() == old(self).spec_num_children(),
            forall|b: u8| #[trigger] final(self).child_at(b) == old(self).child_at(b),
            *final(stats) == if *old(self) is Node16 {
                grown_stats(*old(stats), NodeType::Node16)
            } else {
                *old(stats)
            },
            counts_follow_kind(*old(stats), *final(stats), old(self).spec_node_type(), final(self).spec_node_type()),
    {
        if let CompactNode::Node16 { .. } = self {
            let mut tmp = CompactNode::new_node4();
            std::mem::swap(self, &mut tmp);
            match tmp {
                CompactNode::Node16 { prefix, num_children, keys, children, leaf_value, leaf_key } => {
                    let ci = index_of_keys(&keys, num_children as usize);
                    let ghost n = num_children as int;
                    proof {
                        let f = |i: int| keys@[i] as int;
                        let dom = vstd::set_lib::set_int_range(0, n);
                        vstd::set_lib::lemma_int_range(0, n);
                        assert(dom.map(f) =~= used48(ci@)) by {
                            assert forall|b: int| used48(ci@).contains(b) implies dom.map(f).contains(b) by {
                                assert(ci@[b] != 255);
                                assert(dom.contains(ci@[b] as int) && f(ci@[b] as int) == b);
                            }
                            assert forall|b: int| dom.map(f).contains(b) implies used48(ci@).contains(b) by {
                                let i = choose|i: int| dom.contains(i) && f(i) == b;
                                assert(0 <= b < 256);
                                assert(ci@[b] != 255);
                            }
                        }
                        assert(vstd::relations::injective_on(f, dom));
                        vstd::set_lib::lemma_map_size(dom, used48(ci@), f);
                        assert forall|b: u8| #[trigger] find_key(keys@, n, b, 0) == (if ci@[b as int] != 255 {
                            Some(ci@[b as int] as int)
                        } else {
                            None::<int>
                        }) by {
                            lemma_find_key_distinct(keys@, n, b);
                            assert(ci@[b as int] == ci@[b as int]);
                        }
                    }
                    *self = CompactNode::Node48 {
                        prefix,
                        num_children,
                        child_index: ci,
                        children,
                        leaf_value,
                        leaf_key,
                    };
                },
                other => {
                    *self = other;
                },
            }
            stats.node16_count = count_dec(stats.node16_count);
            stats.node48_count = count_inc(stats.node48_count);
        }
    }

    /// Grow a Node48 into a Node256 with the same children; other nodes are left as they are.
    fn grow_to_node256(&mut self, stats: &mut CompactArtStats)
        requires
            old(self).shape_ok(),
        ensures
            final(self).shape_ok(),
            *old(self) is Node48 ==> *final(self) is Node256,
            !(*old(self) is Node48) ==> *final(self) == *old(self),
            final(self).spec_prefix() == old(self).spec_prefix(),
            final(self).spec_leaf_value() == old(self).spec_leaf_value(),
            final(self).spec_num_children() == old(self).spec_num_children(),
            forall|b: u8| #[trigger] final(self).child_at(b) == old(self).child_at(b),
            *final(stats) == if *old(self) is Node48 {
                grown_stats(*old(stats), NodeType::Node48)
            } else {
                *old(stats)
            },
            counts_follow_kind(*old(stats), *final(stats), old(self).spec_node_type(), final(self).spec_node_type()),
    {
        if let CompactNode::Node48 { .. } = self {
            let mut tmp = CompactNode::new_node4();
            std::mem::swap(self, &mut tmp);
            match tmp {
                CompactNode::Node48 { prefix, num_children, child_index, children, leaf_value, leaf_key } => {
                    let ghost c0 = children@;
                    let ghost ci = child_index@;
                    let mut children = children;
                    let mut nc: Vec<Option<Box<CompactNode<V>>>> = Vec::with_capacity(256);
                    let mut byte: usize = 0;
                    while byte < 256
                        invariant
                            byte <= 256,
                            ci == child_index@,
                            ci.len() == 256,
                            children@.len() == c0.len(),
                            nc@.len() == byte,
                            forall|b: int|
                                0 <= b < 256 && ci[b] != 255 ==> ci[b] < c0.len(),
                            forall|b1: int, b2: int|
                                0 <= b1 < 256 && 0 <= b2 < 256 && b1 != b2 && ci[b1] != 255
                                    ==> ci[b1] != ci[b2],
                            forall|b: int|
                                byte <= b < 256 && ci[b] != 255 ==> children@[ci[b] as int]
                                    == c0[ci[b] as int],
                            forall|b: int|
                                0 <= b < byte ==> #[trigger] nc@[b] == if ci[b] != 255 {
                                    Some(c0[ci[b] as int])
                                } else {
                                    None
                                },
                        decreases 256 - byte,
                    {
                        let idx = child_index[byte];
                        if idx != 255 && (idx as usize) < children.len() {
                            let c = children.remove(idx as usize);
                            children.insert(idx as usize, Box::new(CompactNode::new_node4()));
                            nc.push(Some(c));
                        } else {
                            nc.push(None);
                        }
                        byte += 1;
                    }
                    assert(used256(nc@) =~= used48(ci));
                    *self = CompactNode::Node256 {
                        prefix,
                        num_children: num_children as u16,
                        children: nc,
                        leaf_value,
                        leaf_key,
                    };
                },
                other => {
                    *self = other;
                },
            }
            stats.node48_count = count_dec(stats.node48_count);
            stats.node256_count = count_inc(stats.node256_count);
        }
    }

    /// Add a child, growing the node first if it is full.
    pub fn add_child_grow(&mut self, key: u8, child: Box<CompactNode<V>>, stats: &mut CompactArtStats)
        requires
            old(self).is_inner(),
            old(self).shape_ok(),
        ensures
            final(self).shape_ok(),
            final(self).is_inner(),
            final(self).spec_prefix() == old(self).spec_prefix(),
            final(self).spec_leaf_value() == old(self).spec_leaf_value(),
            final(self).child_at(key) == Some(*child),
            forall|b: u8| b != key ==> #[trigger] final(self).child_at(b) == old(self).child_at(b),
            final(self).spec_num_children() == old(self).spec_num_children() + (if old(
                self,
            ).child_at(key) is None {
                1int
            } else {
                0int
            }),
            *final(stats) == if old(self).is_full() {
                grown_stats(*old(stats), old(self).spec_node_type())
            } else {
                *old(stats)
            },
            final(self).spec_node_type() == if old(self).is_full() {
                match old(self).spec_node_type() {
                    NodeType::Node4 => NodeType::Node16,
                    NodeType::Node16 => NodeType::Node48,
                    _ => NodeType::Node256,
                }
            } else {
                old(self).spec_node_type()
            },
            counts_follow_kind(*old(stats), *final(stats), old(self).spec_node_type(), final(self).spec_node_type()),
    {
        let nt = self.node_type();
        let n = self.num_children();
        if nt == NodeType::Node4 && n >= 4 {
            self.grow_to_node16(stats);
        } else if nt == NodeType::Node16 && n >= 16 {
            self.grow_to_node48(stats);
        } else if nt == NodeType::Node48 && n >= 48 {
            self.grow_to_node256(stats);
        }
        self.add_child(key, child);
    }
}

impl<V> CompactNode<V> {
    /// The subtree is well formed for a search that has consumed the bytes `path`: every key
    /// stored below begins with `path`, a value stored at an inner node has exactly the key
    /// spelled by the path to it, and each child sits under the byte that leads to it.
    pub open spec fn inv(self, path: Seq<u8>) -> bool
        decreases self,
    {
        match self {
            CompactNode::Leaf { key, .. } => starts_with(key@, path),
            _ => {
                let q = path + self.spec_prefix();
                &&& self.shape_ok()
                &&& match self.spec_leaf_value() {
                    Some((_, _, k)) => k == q,
                    None => true,
                }
                &&& match self {
                    CompactNode::Node4 { keys, num_children, children, .. } => forall|i: int|
                        0 <= i < num_children && i < children@.len() ==> (#[trigger] children@[i]).inv(
                            q.push(keys@[i]),
                        ),
                    CompactNode::Node16 { keys, num_children, children, .. } => forall|i: int|
                        0 <= i < num_children && i < children@.len() ==> (#[trigger] children@[i]).inv(
                            q.push(keys@[i]),
                        ),
                    CompactNode::Node48 { child_index, children, .. } => forall|b: int|
                        0 <= b < 256 && #[trigger] child_index@[b] != 255 && child_index@[b] < children@.len()
                            ==> children@[child_index@[b] as int].inv(q.push(b as u8)),
                    CompactNode::Node256 { children, .. } => forall|b: int|
                        0 <= b < children@.len() ==> match #[trigger] children@[b] {
                            Some(c) => c.inv(q.push(b as u8)),
                            None => true,
                        },
                    _ => true,
                }
            },
        }
    }

    /// What a search for `key` entered here after `depth` bytes finds, one level down.
    pub open spec fn step(self, key: Seq<u8>, depth: int) -> Option<V> {
        let p = self.spec_prefix();
        if depth < 0 || key.len() < depth + p.len() || key.subrange(depth, depth + p.len()) != p {
            None
        } else if depth + p.len() >= key.len() {
            self.leaf_value_lookup(key)
        } else {
            match self.child_at(key[depth + p.len()]) {
                Some(c) => c.lookup(key, depth + p.len() + 1),
                None => None,
            }
        }
    }

    /// The value a valid leaf value holds.
    pub open spec fn leaf_value_ok(self, q: Seq<u8>) -> bool {
        match self.spec_leaf_value() {
            Some((_, _, k)) => k == q,
            None => true,
        }
    }

    pub proof fn lemma_lookup_step(self, key: Seq<u8>, depth: int)
        requires
            self.is_inner(),
            self.shape_ok(),
        ensures
            self.lookup(key, depth) == self.step(key, depth),
    {
        let p = self.spec_prefix();
        if depth >= 0 && key.len() >= depth + p.len() && key.subrange(depth, depth + p.len()) == p
            && depth + p.len() < key.len() {
            let b = key[depth + p.len()];
            match self {
                CompactNode::Node4 { keys, num_children, .. } => {
                    lemma_find_key(keys@, num_children as int, b, 0);
                },
                CompactNode::Node16 { keys, num_children, .. } => {
                    lemma_find_key(keys@, num_children as int, b, 0);
                },
                _ => {},
            }
        }
    }

    /// The children of a valid node are valid, each for the path that leads to it.
    pub proof fn lemma_inv_child(self, path: Seq<u8>, b: u8)
        requires
            self.is_inner(),
            self.inv(path),
        ensures
            self.child_at(b) matches Some(c) ==> c.inv(path + self.spec_prefix() + seq![b]),
    {
        let q = path + self.spec_prefix();
        assert(q.push(b) =~= q + seq![b]);
        match self {
            CompactNode::Node4 { keys, num_children, children, .. } => {
                lemma_find_key(keys@, num_children as int, b, 0);
                if let Some(i) = self.child_pos(b) {
                    assert(children@[i].inv(q.push(keys@[i])));
                }
            },
            CompactNode::Node16 { keys, num_children, children, .. } => {
                lemma_find_key(keys@, num_children as int, b, 0);
                if let Some(i) = self.child_pos(b) {
                    assert(children@[i].inv(q.push(keys@[i])));
                }
            },
            CompactNode::Node48 { child_index, children, .. } => {
                if child_index@[b as int] != 255 {
                    assert(children@[child_index@[b as int] as int].inv(q.push((b as int) as u8)));
                }
            },
            CompactNode::Node256 { children, .. } => {
                if children@[b as int] is Some {
                    assert(children@[b as int].unwrap().inv(q.push((b as int) as u8)));
                }
            },
            _ => {},
        }
    }

    /// A node is valid when its shape, its value and each of its children are.
    pub proof fn lemma_inv_intro(self, path: Seq<u8>)
        requires
            self.is_inner(),
            self.shape_ok(),
            self.leaf_value_ok(path + self.spec_prefix()),
            forall|b: u8| #[trigger]
                self.child_at(b) matches Some(c) ==> c.inv(path + self.spec_prefix() + seq![b]),
        ensures
            self.inv(path),
    {
        let q = path + self.spec_prefix();
        match self {
            CompactNode::Node4 { keys, num_children, children, .. } => {
                assert forall|i: int| 0 <= i < num_children && i < children@.len() implies (#[trigger] children@[i]).inv(
                    q.push(keys@[i]),
                ) by {
                    let b = keys@[i];
                    lemma_find_key_distinct(keys@, num_children as int, b);
                    assert(self.child_at(b) == Some(*children@[i]));
                    assert(q.push(b) =~= q + seq![b]);
                }
            },
            CompactNode::Node16 { keys, num_children, children, .. } => {
                assert forall|i: int| 0 <= i < num_children && i < children@.len() implies (#[trigger] children@[i]).inv(
                    q.push(keys@[i]),
                ) by {
                    let b = keys@[i];
                    lemma_find_key_distinct(keys@, num_children as int, b);
                    assert(self.child_at(b) == Some(*children@[i]));
                    assert(q.push(b) =~= q + seq![b]);
                }
            },
            CompactNode::Node48 { child_index, children, .. } => {
                assert forall|b: int|
                    0 <= b < 256 && #[trigger] child_index@[b] != 255 && child_index@[b] < children@.len() implies children@[child_index@[b] as int].inv(
                    q.push(b as u8),
                ) by {
                    let bb = b as u8;
                    assert(bb as int == b);
                    assert(self.child_at(bb) == Some(*children@[child_index@[b] as int]));
                    assert(q.push(bb) =~= q + seq![bb]);
                }
            },
            CompactNode::Node256 { children, .. } => {
                assert forall|b: int| 0 <= b < children@.len() implies match #[trigger] children@[b] {
                    Some(c) => c.inv(q.push(b as u8)),
                    None => true,
                } by {
                    let bb = b as u8;
                    assert(bb as int == b);
                    assert(q.push(bb) =~= q + seq![bb]);
                    if let Some(c) = children@[b] {
                        assert(self.child_at(bb) == Some(*c));
                    }
                }
            },
            _ => {},
        }
    }

    /// A valid leaf value is where a search for its key ends.
    pub proof fn lemma_inv_leaf_value(self, path: Seq<u8>)
        requires
            self.is_inner(),
            self.inv(path),
        ensures
            self.leaf_value_ok(path + self.spec_prefix()),
    {
    }

    /// Whatever a search finds below a valid node has a key that begins with the node's path.
    pub proof fn lemma_lookup_path(self, path: Seq<u8>, key: Seq<u8>)
        requires
            self.inv(path),
            self.lookup(key, path.len() as int) is Some,
        ensures
            starts_with(key, path),
            self.is_inner() ==> starts_with(key, path + self.spec_prefix()),
        decreases self,
    {
        if self.is_inner() {
            let d = path.len() as int;
            let p = self.spec_prefix();
            let q = path + p;
            self.lemma_lookup_step(key, d);
            if d + p.len() >= key.len() {
                assert(key =~= q);
                assert(key.subrange(0, q.len() as int) =~= q);
            } else {
                let b = key[d + p.len()];
                self.lemma_inv_child(path, b);
                let c = self.child_at(b).unwrap();
                match self {
                    CompactNode::Node4 { keys, num_children, children, .. } => {
                        lemma_find_key(keys@, num_children as int, b, 0);
                    },
                    CompactNode::Node16 { keys, num_children, children, .. } => {
                        lemma_find_key(keys@, num_children as int, b, 0);
                    },
                    _ => {},
                }
                assert(decreases_to!(self => c)) by {
                    match self {
                        CompactNode::Node4 { children, .. } => {
                            assert(decreases_to!(self => children));
                        },
                        CompactNode::Node16 { children, .. } => {
                            assert(decreases_to!(self => children));
                        },
                        CompactNode::Node48 { children, .. } => {
                            assert(decreases_to!(self => children));
                        },
                        CompactNode::Node256 { children, .. } => {
                            assert(decreases_to!(self => children));
                        },
                        _ => {},
                    }
                }
                c.lemma_lookup_path(q + seq![b], key);
                assert(key.subrange(0, q.len() as int) =~= key.subrange(0, q.len() + 1int).subrange(0, q.len() as int));
                assert((q + seq![b]).subrange(0, q.len() as int) =~= q);
                assert(starts_with(key, q));
            }
            assert(starts_with(key, q));
            assert(key.subrange(0, d) =~= key.subrange(0, q.len() as int).subrange(0, d));
            assert(q.subrange(0, d) =~= path);
        }
    }
}

impl<V> CompactNode<V> {
    /// Nodes with the same body have the same children and shape.
    pub proof fn lemma_same_body(self, other: CompactNode<V>)
        requires
            self.same_body(other),
        ensures
            forall|b: u8| #[trigger] self.child_at(b) == other.child_at(b),
            forall|b: u8| #[trigger] self.child_pos(b) == other.child_pos(b),
            self.shape_ok() == other.shape_ok(),
            self.spec_num_children() == other.spec_num_children(),
            self.spec_node_type() == other.spec_node_type(),
            self.is_full() == other.is_full(),
    {
    }

    /// Different bytes lead to different child positions.
    pub proof fn lemma_child_pos_injective(self, b1: u8, b2: u8)
        requires
            self.shape_ok(),
            b1 != b2,
            self.child_pos(b1) is Some,
        ensures
            self.child_pos(b1) != self.child_pos(b2),
    {
        match self {
            CompactNode::Node4 { keys, num_children, .. } => {
                lemma_find_key_distinct(keys@, num_children as int, b1);
                lemma_find_key_distinct(keys@, num_children as int, b2);
            },
            CompactNode::Node16 { keys, num_children, .. } => {
                lemma_find_key_distinct(keys@, num_children as int, b1);
                lemma_find_key_distinct(keys@, num_children as int, b2);
            },
            _ => {},
        }
    }

    /// A node with no children has none under any byte.
    pub proof fn lemma_no_children(self)
        requires
            self.shape_ok(),
            self.spec_num_children() == 0,
        ensures
            forall|b: u8| #[trigger] self.child_at(b) is None,
    {
        assert forall|b: u8| #[trigger] self.child_at(b) is None by {
            match self {
                CompactNode::Node48 { child_index, .. } => {
                    lemma_byte_set_finite(used48(child_index@));
                    if child_index@[b as int] != 255 {
                        assert(used48(child_index@).contains(b as int));
                    }
                },
                CompactNode::Node256 { children, .. } => {
                    lemma_byte_set_finite(used256(children@));
                    if children@[b as int] is Some {
                        assert(used256(children@).contains(b as int));
                    }
                },
                _ => {},
            }
        }
    }

    /// Moving bytes between a node's prefix and the path above it changes neither its
    /// validity nor what a search that has followed the path finds below it.
    pub proof fn lemma_reprefix(self, other: CompactNode<V>, pa: Seq<u8>, pb: Seq<u8>)
        requires
            self.is_inner(),
            self.shape_ok(),
            other.same_body(self),
            other.spec_leaf_value() == self.spec_leaf_value(),
            pa.len() <= pb.len(),
            pa + self.spec_prefix() == pb + other.spec_prefix(),
        ensures
            self.inv(pa) ==> other.inv(pb),
            forall|k: Seq<u8>|
                pb.len() <= k.len() && k.subrange(pa.len() as int, pb.len() as int) == pb.subrange(
                    pa.len() as int,
                    pb.len() as int,
                ) ==> #[trigger] other.lookup(k, pb.len() as int) == self.lookup(k, pa.len() as int),
    {
        let q = pa + self.spec_prefix();
        other.lemma_same_body(self);
        if self.inv(pa) {
            assert forall|b: u8| #[trigger]
                other.child_at(b) matches Some(c) ==> c.inv(pb + other.spec_prefix() + seq![b]) by {
                self.lemma_inv_child(pa, b);
            }
            other.lemma_inv_intro(pb);
        }
        assert forall|k: Seq<u8>|
            pb.len() <= k.len() && k.subrange(pa.len() as int, pb.len() as int) == pb.subrange(
                pa.len() as int,
                pb.len() as int,
            ) implies #[trigger] other.lookup(k, pb.len() as int) == self.lookup(k, pa.len() as int) by {
            self.lemma_lookup_step(k, pa.len() as int);
            other.lemma_lookup_step(k, pb.len() as int);
            let da = pa.len() as int;
            let db = pb.len() as int;
            let ap = self.spec_prefix();
            let bp = other.spec_prefix();
            assert(da + ap.len() == db + bp.len()) by {
                assert((pa + ap).len() == (pb + bp).len());
            }
            assert(ap =~= pb.subrange(da, db) + bp) by {
                assert forall|i: int| 0 <= i < ap.len() implies ap[i] == (pb.subrange(da, db) + bp)[i] by {
                    assert((pa + ap)[da + i] == (pb + bp)[da + i]);
                }
            }
            if k.len() >= da + ap.len() {
                assert(k.subrange(da, da + ap.len()) =~= k.subrange(da, db) + k.subrange(
                    db,
                    db + bp.len(),
                ));
                if k.subrange(db, db + bp.len()) == bp {
                    assert(k.subrange(da, da + ap.len()) =~= ap);
                }
                if k.subrange(da, da + ap.len()) == ap {
                    assert(k.subrange(db, db + bp.len()) =~= ap.subrange(db - da, ap.len() as int));
                    assert(bp =~= ap.subrange(db - da, ap.len() as int));
                }
            }
        }
    }
}

/// `r` lies within the arena bytes `a` and refers to `bytes` there.
pub open spec fn ref_ok(a: Seq<u8>, r: KeyRef, bytes: Seq<u8>) -> bool {
    KeyArena::holds(a, r) && KeyArena::resolve(a, r) == bytes
}

/// A reference within `a` refers to the same bytes in any arena that begins with `a`.
pub proof fn lemma_ref_extend(a: Seq<u8>, a2: Seq<u8>, r: KeyRef)
    requires
        KeyArena::holds(a, r),
        a.len() <= a2.len(),
        a2.subrange(0, a.len() as int) == a,
    ensures
        KeyArena::holds(a2, r),
        KeyArena::resolve(a2, r) == KeyArena::resolve(a, r),
{
    if r.spec_offset() != u32::MAX && r.spec_len() > 0 {
        let lo = r.spec_offset() as int;
        let hi = (r.spec_offset() + r.spec_len()) as int;
        assert(a2.subrange(lo, hi) =~= a.subrange(lo, hi)) by {
            assert forall|i: int| 0 <= i < hi - lo implies a2.subrange(lo, hi)[i] == a.subrange(lo, hi)[i] by {
                assert(a2.subrange(0, a.len() as int)[lo + i] == a2[lo + i]);
            }
        }
    }
}

impl<V> CompactNode<V> {
    /// The references of the node's own key, prefix and stored value lie in `a` and refer
    /// to the bytes the node holds for them.
    pub open spec fn refs_ok(self, a: Seq<u8>) -> bool {
        match self {
            CompactNode::Leaf { key_ref, key, .. } => ref_ok(a, key_ref, key@),
            _ => match self.spec_leaf_value() {
                Some((r, _, k)) => ref_ok(a, r, k),
                None => true,
            },
        }
    }

    /// Every reference in the subtree lies in the arena bytes `a` and refers to the bytes
    /// the tree holds for it.
    pub open spec fn valid(self, a: Seq<u8>) -> bool
        decreases self,
    {
        &&& self.refs_ok(a)
        &&& match self {
            CompactNode::Node4 { num_children, children, .. } => forall|i: int|
                0 <= i < num_children && i < children@.len() ==> (#[trigger] children@[i]).valid(a),
            CompactNode::Node16 { num_children, children, .. } => forall|i: int|
                0 <= i < num_children && i < children@.len() ==> (#[trigger] children@[i]).valid(a),
            CompactNode::Node48 { child_index, children, .. } => forall|b: int|
                0 <= b < 256 && #[trigger] child_index@[b] != 255 && child_index@[b] < children@.len()
                    ==> children@[child_index@[b] as int].valid(a),
            CompactNode::Node256 { children, .. } => forall|b: int|
                0 <= b < children@.len() ==> match #[trigger] children@[b] {
                    Some(c) => c.valid(a),
                    None => true,
                },
            _ => true,
        }
    }

    /// The children of a valid node are valid.
    pub proof fn lemma_valid_child(self, a: Seq<u8>, b: u8)
        requires
            self.is_inner(),
            self.shape_ok(),
            self.valid(a),
        ensures
            self.child_at(b) matches Some(c) ==> c.valid(a),
    {
        match self {
            CompactNode::Node4 { keys, num_children, .. } => {
                lemma_find_key(keys@, num_children as int, b, 0);
            },
            CompactNode::Node16 { keys, num_children, .. } => {
                lemma_find_key(keys@, num_children as int, b, 0);
            },
            CompactNode::Node48 { child_index, children, .. } => {
                if child_index@[b as int] != 255 && child_index@[b as int] < children@.len() {
                    assert(children@[child_index@[b as int] as int].valid(a));
                }
            },
            CompactNode::Node256 { children, .. } => {
                if (b as int) < children@.len() && children@[b as int] is Some {
                    assert(children@[b as int].unwrap().valid(a));
                }
            },
            _ => {},
        }
    }

    /// A node is valid when its own references and each of its children are.
    pub proof fn lemma_valid_intro(self, a: Seq<u8>)
        requires
            self.is_inner(),
            self.shape_ok(),
            self.refs_ok(a),
            forall|b: u8| #[trigger] self.child_at(b) matches Some(c) ==> c.valid(a),
        ensures
            self.valid(a),
    {
        match self {
            CompactNode::Node4 { keys, num_children, children, .. } => {
                assert forall|i: int| 0 <= i < num_children && i < children@.len() implies (#[trigger] children@[i]).valid(a) by {
                    let b = keys@[i];
                    lemma_find_key_distinct(keys@, num_children as int, b);
                    assert(self.child_at(b) == Some(*children@[i]));
                }
            },
            CompactNode::Node16 { keys, num_children, children, .. } => {
                assert forall|i: int| 0 <= i < num_children && i < children@.len() implies (#[trigger] children@[i]).valid(a) by {
                    let b = keys@[i];
                    lemma_find_key_distinct(keys@, num_children as int, b);
                    assert(self.child_at(b) == Some(*children@[i]));
                }
            },
            CompactNode::Node48 { child_index, children, .. } => {
                assert forall|b: int|
                    0 <= b < 256 && #[trigger] child_index@[b] != 255 && child_index@[b] < children@.len() implies children@[child_index@[b] as int].valid(a) by {
                    let bb = b as u8;
                    assert(bb as int == b);
                    assert(self.child_at(bb) == Some(*children@[child_index@[b] as int]));
                }
            },
            CompactNode::Node256 { children, .. } => {
                assert forall|b: int| 0 <= b < children@.len() implies match #[trigger] children@[b] {
                    Some(c) => c.valid(a),
                    None => true,
                } by {
                    let bb = b as u8;
                    assert(bb as int == b);
                    if let Some(c) = children@[b] {
                        assert(self.child_at(bb) == Some(*c));
                    }
                }
            },
            _ => {},
        }
    }

    /// A valid subtree stays valid when bytes are added at the end of the arena.
    pub proof fn lemma_valid_extend(self, a: Seq<u8>, a2: Seq<u8>)
        requires
            self.valid(a),
            a.len() <= a2.len(),
            a2.subrange(0, a.len() as int) == a,
        ensures
            self.valid(a2),
        decreases self,
    {
        match self {
            CompactNode::Leaf { key_ref, .. } => {
                lemma_ref_extend(a, a2, key_ref);
            },
            _ => {
                if let Some((r, _, _)) = self.spec_leaf_value() {
                    lemma_ref_extend(a, a2, r);
                }
                match self {
                    CompactNode::Node4 { num_children, children, .. } => {
                        assert forall|i: int| 0 <= i < num_children && i < children@.len() implies (#[trigger] children@[i]).valid(a2) by {
                            assert(decreases_to!(self => children));
                            children@[i].lemma_valid_extend(a, a2);
                        }
                    },
                    CompactNode::Node16 { num_children, children, .. } => {
                        assert forall|i: int| 0 <= i < num_children && i < children@.len() implies (#[trigger] children@[i]).valid(a2) by {
                            assert(decreases_to!(self => children));
                            children@[i].lemma_valid_extend(a, a2);
                        }
                    },
                    CompactNode::Node48 { child_index, children, .. } => {
                        assert forall|b: int|
                            0 <= b < 256 && #[trigger] child_index@[b] != 255 && child_index@[b] < children@.len() implies children@[child_index@[b] as int].valid(a2) by {
                            assert(decreases_to!(self => children));
                            children@[child_index@[b] as int].lemma_valid_extend(a, a2);
                        }
                    },
                    CompactNode::Node256 { children, .. } => {
                        assert forall|b: int| 0 <= b < children@.len() implies match #[trigger] children@[b] {
                            Some(c) => c.valid(a2),
                            None => true,
                        } by {
                            if let Some(c) = children@[b] {
                                assert(decreases_to!(self => children));
                                c.lemma_valid_extend(a, a2);
                            }
                        }
                    },
                    _ => {},
                }
            },
        }
    }

    /// Turn the node into the next larger kind with the same children (a Node4 into a
    /// Node16, a Node16 into a Node48, a Node48 into a Node256); other nodes stay as they are.
    pub fn grow(&mut self, stats: &mut CompactArtStats)
        requires
            old(self).shape_ok(),
        ensures
            final(self).shape_ok(),
            final(self).spec_prefix() == old(self).spec_prefix(),
            final(self).spec_leaf_value() == old(self).spec_leaf_value(),
            final(self).spec_num_children() == old(self).spec_num_children(),
            forall|b: u8| #[trigger] final(self).child_at(b) == old(self).child_at(b),
            final(self).spec_node_type() == match old(self).spec_node_type() {
                NodeType::Node4 => NodeType::Node16,
                NodeType::Node16 => NodeType::Node48,
                NodeType::Node48 => NodeType::Node256,
                t => t,
            },
            *final(stats) == grown_stats(*old(stats), old(self).spec_node_type()),
            counts_follow_kind(*old(stats), *final(stats), old(self).spec_node_type(), final(self).spec_node_type()),
    {
        match self.node_type() {
            NodeType::Node4 => self.grow_to_node16(stats),
            NodeType::Node16 => self.grow_to_node48(stats),
            NodeType::Node48 => self.grow_to_node256(stats),
            _ => {},
        }
    }

    /// Whether the node is full, so that one more child needs a larger kind of node.
    pub fn should_grow(&self) -> (r: bool)
        ensures
            r == (self.is_inner() && self.is_full()),
    {
        match self {
            CompactNode::Leaf { .. } => false,
            CompactNode::Node4 { num_children, .. } => *num_children >= 4,
            CompactNode::Node16 { num_children, .. } => *num_children >= 16,
            CompactNode::Node48 { num_children, .. } => *num_children >= 48,
            CompactNode::Node256 { .. } => false,
        }
    }
}

} // verus!
