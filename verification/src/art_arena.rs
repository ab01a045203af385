//! Arena-based ART: all nodes live in one vector and refer to each other by 32-bit index;
//! keys and prefixes live in one byte arena.
use vstd::prelude::*;
use crate::art::node::{
    find_key, lemma_byte_set_finite, lemma_distinct_keys_count, lemma_find_key, lemma_find_key_at, lemma_find_key_distinct,
    lemma_find_key_extend, used48,
};

verus! {

/// A 32-bit reference to a node in the arena.
#[derive(Clone, Copy, Debug, PartialEq, Eq, Structural)]
pub struct NodeRef(pub u32);

impl NodeRef {
    /// The null reference.
    pub fn null() -> (r: Self)
        ensures
            r.0 == u32::MAX,
    {
        NodeRef(u32::MAX)
    }

    /// Whether this is the null reference.
    pub fn is_null(self) -> (r: bool)
        ensures
            r == (self.0 == u32::MAX),
    {
        self.0 == u32::MAX
    }

    fn new(idx: usize) -> (r: Self)
        requires
            idx < u32::MAX,
        ensures
            r.0 == idx,
    {
        NodeRef(idx as u32)
    }

    fn index(self) -> (r: usize)
        ensures
            r == self.0,
    {
        self.0 as usize
    }
}

/// A compact reference to data in the arena: offset and length.
#[derive(Clone, Copy, Debug, PartialEq, Eq, Structural)]
pub struct DataRef {
    offset: u32,
    len: u16,
}

impl DataRef {
    pub closed spec fn spec_offset(self) -> nat {
        self.offset as nat
    }

    pub closed spec fn spec_len(self) -> nat {
        self.len as nat
    }

    /// The reference to no bytes.
    pub closed spec fn spec_empty() -> DataRef {
        DataRef { offset: 0, len: 0 }
    }

    /// A reference is fixed by its offset and length; the empty one has both zero.
    pub proof fn lemma_ext(a: DataRef, b: DataRef)
        ensures
            (a.spec_offset() == b.spec_offset() && a.spec_len() == b.spec_len()) == (a == b),
            Self::spec_empty().spec_offset() == 0,
            Self::spec_empty().spec_len() == 0,
    {
    }

    pub fn empty() -> (r: Self)
        ensures
            r == Self::spec_empty(),
            r.spec_offset() == 0,
            r.spec_len() == 0,
    {
        DataRef { offset: 0, len: 0 }
    }

    pub fn new(offset: usize, len: usize) -> (r: Self)
        requires
            offset <= u32::MAX,
            len <= u16::MAX,
        ensures
            r.spec_offset() == offset,
            r.spec_len() == len,
    {
        DataRef { offset: offset as u32, len: len as u16 }
    }

    pub fn offset(self) -> (r: usize)
        ensures
            r == self.spec_offset(),
    {
        self.offset as usize
    }

    pub fn len(self) -> (r: usize)
        ensures
            r == self.spec_len(),
    {
        self.len as usize
    }

    pub fn is_empty(self) -> (r: bool)
        ensures
            r == (self.spec_len() == 0),
    {
        self.len == 0
    }
}

impl Default for NodeRef {
    fn default() -> (r: Self)
        ensures
            r.0 == 0,
    {
        NodeRef(0)
    }
}

impl Default for DataRef {
    fn default() -> (r: Self)
        ensures
            r == DataRef::spec_empty(),
            r.spec_offset() == 0,
            r.spec_len() == 0,
    {
        DataRef::empty()
    }
}

/// A node in the arena-based ART.
#[derive(Clone)]
pub enum ArenaNode<V: Clone> {
    /// A leaf node stores a key reference and value.
    Leaf { key_ref: DataRef, value: V },
    /// Node4: 1-4 children.
    Node4 {
        prefix_ref: DataRef,
        num_children: u8,
        keys: Vec<u8>,
        children: Vec<NodeRef>,
        /// Value for keys that end at this node.
        leaf: Option<(DataRef, V)>,
    },
    /// Node16: 5-16 children.
    Node16 {
        prefix_ref: DataRef,
        num_children: u8,
        keys: Vec<u8>,
        children: Vec<NodeRef>,
        leaf: Option<(DataRef, V)>,
    },
    /// Node48: 17-48 children.
    Node48 {
        prefix_ref: DataRef,
        num_children: u8,
        /// Maps byte value to child index (255 = empty).
        child_index: Vec<u8>,
        children: Vec<NodeRef>,
        leaf: Option<(DataRef, V)>,
    },
    /// Node256: 49-256 children, direct indexing.
    Node256 { prefix_ref: DataRef, num_children: u16, children: Vec<NodeRef>, leaf: Option<(DataRef, V)> },
}

/// The bytes of a Node256 with a child.
pub open spec fn used_refs(ch: Seq<NodeRef>) -> Set<int> {
    Set::new(|b: int| 0 <= b < 256 && ch[b].0 != u32::MAX)
}

/// A vector of `n` null references.
fn null_refs(n: usize) -> (r: Vec<NodeRef>)
    ensures
        r@.len() == n,
        forall|i: int| 0 <= i < n ==> r@[i].0 == u32::MAX,
{
    let mut r: Vec<NodeRef> = Vec::with_capacity(n);
    let mut i: usize = 0;
    while i < n
        invariant
            i <= n,
            r@.len() == i,
            forall|j: int| 0 <= j < i ==> r@[j].0 == u32::MAX,
        decreases n - i,
    {
        r.push(NodeRef::null());
        i += 1;
    }
    r
}

/// A vector of `n` copies of `b`.
fn bytes_of(b: u8, n: usize) -> (r: Vec<u8>)
    ensures
        r@.len() == n,
        forall|i: int| 0 <= i < n ==> r@[i] == b,
{
    let mut r: Vec<u8> = Vec::with_capacity(n);
    let mut i: usize = 0;
    while i < n
        invariant
            i <= n,
            r@.len() == i,
            forall|j: int| 0 <= j < i ==> r@[j] == b,
        decreases n - i,
    {
        r.push(b);
        i += 1;
    }
    r
}

/// The first position below `n` whose key is `key`.
fn slot_of(keys: &Vec<u8>, n: usize, key: u8) -> (r: Option<usize>)
    requires
        n <= keys@.len(),
    ensures
        r == match find_key(keys@, n as int, key, 0) {
            Some(i) => Some(i as usize),
            None => None::<usize>,
        },
{
    let mut i: usize = 0;
    while i < n
        invariant
            i <= n <= keys@.len(),
            find_key(keys@, n as int, key, 0) == find_key(keys@, n as int, key, i as int),
        decreases n - i,
    {
        if keys[i] == key {
            return Some(i);
        }
        i += 1;
    }
    None
}

impl<V: Clone> ArenaNode<V> {
    pub closed spec fn spec_prefix_ref(self) -> DataRef {
        match self {
            ArenaNode::Leaf { .. } => DataRef { offset: 0, len: 0 },
            ArenaNode::Node4 { prefix_ref, .. } => prefix_ref,
            ArenaNode::Node16 { prefix_ref, .. } => prefix_ref,
            ArenaNode::Node48 { prefix_ref, .. } => prefix_ref,
            ArenaNode::Node256 { prefix_ref, .. } => prefix_ref,
        }
    }

    pub open spec fn spec_leaf(self) -> Option<(DataRef, V)> {
        match self {
            ArenaNode::Leaf { .. } => None,
            ArenaNode::Node4 { leaf, .. } => leaf,
            ArenaNode::Node16 { leaf, .. } => leaf,
            ArenaNode::Node48 { leaf, .. } => leaf,
            ArenaNode::Node256 { leaf, .. } => leaf,
        }
    }

    pub open spec fn spec_num_children(self) -> nat {
        match self {
            ArenaNode::Leaf { .. } => 0,
            ArenaNode::Node4 { num_children, .. } => num_children as nat,
            ArenaNode::Node16 { num_children, .. } => num_children as nat,
            ArenaNode::Node48 { num_children, .. } => num_children as nat,
            ArenaNode::Node256 { num_children, .. } => num_children as nat,
        }
    }

    /// The child under byte `b`.
    pub open spec fn child_of(self, b: u8) -> Option<NodeRef> {
        match self {
            ArenaNode::Leaf { .. } => None,
            ArenaNode::Node4 { keys, num_children, children, .. } => match find_key(
                keys@,
                num_children as int,
                b,
                0,
            ) {
                Some(i) => Some(children@[i]),
                None => None,
            },
            ArenaNode::Node16 { keys, num_children, children, .. } => match find_key(
                keys@,
                num_children as int,
                b,
                0,
            ) {
                Some(i) => Some(children@[i]),
                None => None,
            },
            ArenaNode::Node48 { child_index, children, .. } => if child_index@[b as int] != 255 {
                Some(children@[child_index@[b as int] as int])
            } else {
                None
            },
            ArenaNode::Node256 { children, .. } => if children@[b as int].0 != u32::MAX {
                Some(children@[b as int])
            } else {
                None
            },
        }
    }

    /// The layout constraints of each kind of node.
    pub open spec fn shape_ok(self) -> bool {
        match self {
            ArenaNode::Leaf { .. } => true,
            ArenaNode::Node4 { keys, num_children, children, .. } => {
                &&& keys@.len() == 4
                &&& children@.len() == 4
                &&& num_children <= 4
                &&& forall|i: int, j: int|
                    0 <= i < j < num_children ==> keys@[i] != keys@[j]
                &&& forall|i: int| 0 <= i < num_children ==> (#[trigger] children@[i]).0 != u32::MAX
            },
            ArenaNode::Node16 { keys, num_children, children, .. } => {
                &&& keys@.len() == 16
                &&& children@.len() == 16
                &&& num_children <= 16
                &&& forall|i: int, j: int|
                    0 <= i < j < num_children ==> keys@[i] != keys@[j]
                &&& forall|i: int| 0 <= i < num_children ==> (#[trigger] children@[i]).0 != u32::MAX
            },
            ArenaNode::Node48 { child_index, num_children, children, .. } => {
                &&& child_index@.len() == 256
                &&& children@.len() == 48
                &&& num_children <= 48
                &&& num_children as nat == used48(child_index@).len()
                &&& forall|b: int|
                    0 <= b < 256 && child_index@[b] != 255 ==> child_index@[b] < num_children
                &&& forall|b1: int, b2: int|
                    0 <= b1 < 256 && 0 <= b2 < 256 && b1 != b2 && child_index@[b1] != 255
                        ==> child_index@[b1] != child_index@[b2]
                &&& forall|b: int|
                    0 <= b < 256 && #[trigger] child_index@[b] != 255 ==> children@[child_index@[b] as int].0
                        != u32::MAX
            },
            ArenaNode::Node256 { num_children, children, .. } => {
                &&& children@.len() == 256
                &&& num_children as nat == used_refs(children@).len()
            },
        }
    }

    /// The count a node keeps is the number of bytes under which it has a child.
    pub proof fn lemma_num_children_count(self)
        requires
            self.shape_ok(),
        ensures
            self.spec_num_children() == Set::new(
                |b: int| 0 <= b < 256 && self.child_of(b as u8) is Some,
            ).len(),
    {
        let cb = Set::new(|b: int| 0 <= b < 256 && self.child_of(b as u8) is Some);
        match self {
            ArenaNode::Leaf { .. } => {
                assert(cb =~= Set::empty());
            },
            ArenaNode::Node4 { keys, num_children, .. } => {
                lemma_distinct_keys_count(keys@, num_children as int);
                assert(cb =~= Set::new(
                    |b: int| 0 <= b < 256 && find_key(keys@, num_children as int, b as u8, 0) is Some,
                ));
            },
            ArenaNode::Node16 { keys, num_children, .. } => {
                lemma_distinct_keys_count(keys@, num_children as int);
                assert(cb =~= Set::new(
                    |b: int| 0 <= b < 256 && find_key(keys@, num_children as int, b as u8, 0) is Some,
                ));
            },
            ArenaNode::Node48 { child_index, .. } => {
                assert(cb =~= used48(child_index@));
            },
            ArenaNode::Node256 { children, .. } => {
                assert(cb =~= used_refs(children@));
            },
        }
    }

    pub open spec fn is_full(self) -> bool {
        match self {
            ArenaNode::Node4 { num_children, .. } => num_children >= 4,
            ArenaNode::Node16 { num_children, .. } => num_children >= 16,
            ArenaNode::Node48 { num_children, .. } => num_children >= 48,
            _ => false,
        }
    }

    pub fn new_leaf(key_ref: DataRef, value: V) -> (r: Self)
        ensures
            r == (ArenaNode::Leaf { key_ref, value }),
    {
        ArenaNode::Leaf { key_ref, value }
    }

    pub fn new_node4() -> (r: Self)
        ensures
            r is Node4,
            r.shape_ok(),
            r.spec_num_children() == 0,
            r.spec_leaf() is None,
            r.spec_prefix_ref().spec_len() == 0,
            forall|b: u8| #[trigger] r.child_of(b) is None,
    {
        ArenaNode::Node4 {
            prefix_ref: DataRef::empty(),
            num_children: 0,
            keys: bytes_of(0, 4),
            children: null_refs(4),
            leaf: None,
        }
    }

    pub fn new_node16() -> (r: Self)
        ensures
            r is Node16,
            r.shape_ok(),
            r.spec_num_children() == 0,
            r.spec_leaf() is None,
            r.spec_prefix_ref().spec_len() == 0,
            forall|b: u8| #[trigger] r.child_of(b) is None,
    {
        ArenaNode::Node16 {
            prefix_ref: DataRef::empty(),
            num_children: 0,
            keys: bytes_of(0, 16),
            children: null_refs(16),
            leaf: None,
        }
    }

    pub fn new_node48() -> (r: Self)
        ensures
            r is Node48,
            r.shape_ok(),
            r.spec_num_children() == 0,
            r.spec_leaf() is None,
            r.spec_prefix_ref().spec_len() == 0,
            forall|b: u8| #[trigger] r.child_of(b) is None,
    {
        let ci = bytes_of(255, 256);
        assert(used48(ci@) =~= Set::empty());
        let r = ArenaNode::Node48 {
            prefix_ref: DataRef::empty(),
            num_children: 0,
            child_index: ci,
            children: null_refs(48),
            leaf: None,
        };
        assert forall|b: u8| #[trigger] r.child_of(b) is None by {
            assert(ci@[b as int] == 255);
        }
        r
    }

    pub fn new_node256() -> (r: Self)
        ensures
            r is Node256,
            r.shape_ok(),
            r.spec_num_children() == 0,
            r.spec_leaf() is None,
            r.spec_prefix_ref().spec_len() == 0,
            forall|b: u8| #[trigger] r.child_of(b) is None,
    {
        let ch = null_refs(256);
        assert(used_refs(ch@) =~= Set::empty());
        let r = ArenaNode::Node256 {
            prefix_ref: DataRef::empty(),
            num_children: 0,
            children: ch,
            leaf: None,
        };
        assert forall|b: u8| #[trigger] r.child_of(b) is None by {
            assert(ch@[b as int].0 == u32::MAX);
        }
        r
    }

    pub fn is_leaf(&self) -> (r: bool)
        ensures
            r == (*self is Leaf),
            r ==> self.spec_prefix_ref() == DataRef::spec_empty(),
            r ==> self.spec_prefix_ref().spec_len() == 0 && self.spec_prefix_ref().spec_offset() == 0,
    {
        matches!(self, ArenaNode::Leaf { .. })
    }

    pub fn prefix_ref(&self) -> (r: DataRef)
        ensures
            r == self.spec_prefix_ref(),
            *self is Leaf ==> r == DataRef::spec_empty(),
            *self is Leaf ==> r.spec_len() == 0 && r.spec_offset() == 0,
    {
        match self {
            ArenaNode::Leaf { .. } => DataRef::empty(),
            ArenaNode::Node4 { prefix_ref, .. } => *prefix_ref,
            ArenaNode::Node16 { prefix_ref, .. } => *prefix_ref,
            ArenaNode::Node48 { prefix_ref, .. } => *prefix_ref,
            ArenaNode::Node256 { prefix_ref, .. } => *prefix_ref,
        }
    }

    pub fn set_prefix_ref(&mut self, new_ref: DataRef)
        ensures
            !(*old(self) is Leaf) ==> final(self).spec_prefix_ref() == new_ref,
            *old(self) is Leaf ==> *final(self) == *old(self) && final(self).spec_prefix_ref()
                == DataRef::spec_empty(),
            final(self).spec_leaf() == old(self).spec_leaf(),
            final(self).shape_ok() == old(self).shape_ok(),
            final(self).spec_num_children() == old(self).spec_num_children(),
            final(self).is_full() == old(self).is_full(),
            forall|b: u8| #[trigger] final(self).child_of(b) == old(self).child_of(b),
    {
        match self {
            ArenaNode::Leaf { .. } => {},
            ArenaNode::Node4 { prefix_ref, .. } => {
                *prefix_ref = new_ref;
            },
            ArenaNode::Node16 { prefix_ref, .. } => {
                *prefix_ref = new_ref;
            },
            ArenaNode::Node48 { prefix_ref, .. } => {
                *prefix_ref = new_ref;
            },
            ArenaNode::Node256 { prefix_ref, .. } => {
                *prefix_ref = new_ref;
            },
        }
    }

    pub fn num_children(&self) -> (r: usize)
        ensures
            r == self.spec_num_children(),
    {
        match self {
            ArenaNode::Leaf { .. } => 0,
            ArenaNode::Node4 { num_children, .. } => *num_children as usize,
            ArenaNode::Node16 { num_children, .. } => *num_children as usize,
            ArenaNode::Node48 { num_children, .. } => *num_children as usize,
            ArenaNode::Node256 { num_children, .. } => *num_children as usize,
        }
    }

    /// The child under byte `key`.
    pub fn find_child(&self, key: u8) -> (r: Option<NodeRef>)
        requires
            self.shape_ok(),
        ensures
            r == self.child_of(key),
    {
        match self {
            ArenaNode::Leaf { .. } => None,
            ArenaNode::Node4 { keys, num_children, children, .. } => {
                let n = *num_children as usize;
                let mut i: usize = 0;
                while i < n
                    invariant
                        i <= n <= 4,
                        keys@.len() == 4,
                        children@.len() == 4,
                        self.child_of(key) == match find_key(keys@, n as int, key, 0) {
                            Some(j) => Some(children@[j]),
                            None => None::<NodeRef>,
                        },
                        find_key(keys@, n as int, key, 0) == find_key(keys@, n as int, key, i as int),
                    decreases n - i,
                {
                    if keys[i] == key {
                        assert(find_key(keys@, n as int, key, i as int) == Some(i as int));
                        return Some(children[i]);
                    }
                    i += 1;
                }
                None
            },
            ArenaNode::Node16 { keys, num_children, children, .. } => {
                let n = *num_children as usize;
                let mut i: usize = 0;
                while i < n
                    invariant
                        i <= n <= 16,
                        keys@.len() == 16,
                        children@.len() == 16,
                        self.child_of(key) == match find_key(keys@, n as int, key, 0) {
                            Some(j) => Some(children@[j]),
                            None => None::<NodeRef>,
                        },
                        find_key(keys@, n as int, key, 0) == find_key(keys@, n as int, key, i as int),
                    decreases n - i,
                {
                    if keys[i] == key {
                        assert(find_key(keys@, n as int, key, i as int) == Some(i as int));
                        return Some(children[i]);
                    }
                    i += 1;
                }
                None
            },
            ArenaNode::Node48 { child_index, children, .. } => {
                let idx = child_index[key as usize];
                if idx != 255 {
                    Some(children[idx as usize])
                } else {
                    None
                }
            },
            ArenaNode::Node256 { children, .. } => {
                let child = children[key as usize];
                if !child.is_null() {
                    Some(child)
                } else {
                    None
                }
            },
        }
    }

    /// Put `child` under byte `key`, replacing a child already there.
    pub fn set_child(&mut self, key: u8, child: NodeRef)
        requires
            !(*old(self) is Leaf),
            old(self).shape_ok(),
            old(self).child_of(key) is None ==> !old(self).is_full(),
            child.0 != u32::MAX,
        ensures
            final(self).shape_ok(),
            final(self).spec_prefix_ref() == old(self).spec_prefix_ref(),
            final(self).spec_leaf() == old(self).spec_leaf(),
            *old(self) is Node4 ==> *final(self) is Node4,
            *old(self) is Node16 ==> *final(self) is Node16,
            *old(self) is Node48 ==> *final(self) is Node48,
            *old(self) is Node256 ==> *final(self) is Node256,
            final(self).child_of(key) == Some(child),
            forall|b: u8| b != key ==> #[trigger] final(self).child_of(b) == old(self).child_of(b),
            final(self).spec_num_children() == old(self).spec_num_children() + (if old(
                self,
            ).child_of(key) is None {
                1int
            } else {
                0int
            }),
    {
        let present = self.find_child(key).is_some();
        match self {
            ArenaNode::Leaf { .. } => {
                assert(false);
            },
            ArenaNode::Node4 { keys, num_children, children, .. } => {
                let ghost k0 = keys@;
                let ghost c0 = children@;
                let n = *num_children as usize;
                proof {
                    lemma_find_key_distinct(k0, n as int, key);
                }
                let found = slot_of(keys, n, key);
                if let Some(i) = found {
                    children.set(i, child);
                    proof {
                        assert forall|b: u8| b != key implies (match #[trigger] find_key(
                            k0,
                            n as int,
                            b,
                            0,
                        ) {
                            Some(j) => j != i && children@[j] == c0[j],
                            None => true,
                        }) by {
                            lemma_find_key_distinct(k0, n as int, b);
                        }
                    }
                    return;
                }
                let idx = n;
                keys.set(idx, key);
                children.set(idx, child);
                *num_children = *num_children + 1;
                proof {
                    lemma_find_key_at(keys@, n + 1, key, 0, n as int);
                    assert forall|b: u8| b != key implies #[trigger] find_key(keys@, n + 1, b, 0)
                        == find_key(k0, n as int, b, 0) && (match find_key(k0, n as int, b, 0) {
                        Some(j) => j < n && children@[j] == c0[j],
                        None => true,
                    }) by {
                        lemma_find_key_extend(k0, keys@, n as int, b, 0);
                        lemma_find_key(k0, n as int, b, 0);
                    }
                }
            },
            ArenaNode::Node16 { keys, num_children, children, .. } => {
                let ghost k0 = keys@;
                let ghost c0 = children@;
                let n = *num_children as usize;
                proof {
                    lemma_find_key_distinct(k0, n as int, key);
                }
                let found = slot_of(keys, n, key);
                if let Some(i) = found {
                    children.set(i, child);
                    proof {
                        assert forall|b: u8| b != key implies (match #[trigger] find_key(
                            k0,
                            n as int,
                            b,
                            0,
                        ) {
                            Some(j) => j != i && children@[j] == c0[j],
                            None => true,
                        }) by {
                            lemma_find_key_distinct(k0, n as int, b);
                        }
                    }
                    return;
                }
                let idx = n;
                keys.set(idx, key);
                children.set(idx, child);
                *num_children = *num_children + 1;
                proof {
                    lemma_find_key_at(keys@, n + 1, key, 0, n as int);
                    assert forall|b: u8| b != key implies #[trigger] find_key(keys@, n + 1, b, 0)
                        == find_key(k0, n as int, b, 0) && (match find_key(k0, n as int, b, 0) {
                        Some(j) => j < n && children@[j] == c0[j],
                        None => true,
                    }) by {
                        lemma_find_key_extend(k0, keys@, n as int, b, 0);
                        lemma_find_key(k0, n as int, b, 0);
                    }
                }
            },
            ArenaNode::Node48 { child_index, num_children, children, .. } => {
                let ghost ci0 = child_index@;
                let existing = child_index[key as usize];
                if existing != 255 {
                    children.set(existing as usize, child);
                    assert forall|b: u8| b != key implies ci0[b as int] == 255 || ci0[b as int]
                        != existing by {}
                } else {
                    proof {
                        lemma_byte_set_finite(used48(ci0));
                    }
                    let slot = *num_children as usize;
                    children.set(slot, child);
                    child_index.set(key as usize, slot as u8);
                    *num_children = *num_children + 1;
                    assert(used48(child_index@) =~= used48(ci0).insert(key as int));
                }
            },
            ArenaNode::Node256 { children, num_children, .. } => {
                let ghost c0 = children@;
                if children[key as usize].is_null() {
                    proof {
                        lemma_byte_set_finite(used_refs(c0));
                        lemma_byte_set_finite(used_refs(c0).insert(key as int));
                    }
                    *num_children = *num_children + 1;
                }
                children.set(key as usize, child);
                proof {
                    if c0[key as int].0 == u32::MAX {
                        assert(used_refs(children@) =~= used_refs(c0).insert(key as int));
                    } else {
                        assert(used_refs(children@) =~= used_refs(c0));
                    }
                }
            },
        }
    }

    pub fn should_grow(&self) -> (r: bool)
        ensures
            r == self.is_full(),
    {
        match self {
            ArenaNode::Leaf { .. } => false,
            ArenaNode::Node4 { num_children, .. } => *num_children >= 4,
            ArenaNode::Node16 { num_children, .. } => *num_children >= 16,
            ArenaNode::Node48 { num_children, .. } => *num_children >= 48,
            ArenaNode::Node256 { .. } => false,
        }
    }

    /// The next larger kind of node with the same children; other nodes are returned as
    /// they are.
    pub fn grow(self) -> (r: Self)
        requires
            self.shape_ok(),
        ensures
            r.shape_ok(),
            r.spec_prefix_ref() == self.spec_prefix_ref(),
            r.spec_leaf() == self.spec_leaf(),
            r.spec_num_children() == self.spec_num_children(),
            forall|b: u8| #[trigger] r.child_of(b) == self.child_of(b),
            self is Node4 ==> r is Node16,
            self is Node16 ==> r is Node48,
            self is Node48 ==> r is Node256,
            self is Leaf || self is Node256 ==> r == self,
    {
        match self {
            ArenaNode::Node4 { prefix_ref, num_children, keys, children, leaf } => {
                let mut new_keys = bytes_of(0, 16);
                let mut new_children = null_refs(16);
                let n = num_children as usize;
                let mut i: usize = 0;
                while i < n
                    invariant
                        i <= n <= 4,
                        keys@.len() == 4,
                        children@.len() == 4,
                        new_keys@.len() == 16,
                        new_children@.len() == 16,
                        forall|j: int| 0 <= j < i ==> new_keys@[j] == keys@[j] && new_children@[j]
                            == children@[j],
                    decreases n - i,
                {
                    new_keys.set(i, keys[i]);
                    new_children.set(i, children[i]);
                    i += 1;
                }
                let r = ArenaNode::Node16 {
                    prefix_ref,
                    num_children,
                    keys: new_keys,
                    children: new_children,
                    leaf,
                };
                assert forall|b: u8| #[trigger] r.child_of(b) == self.child_of(b) by {
                    crate::art::node::lemma_find_key_same(keys@, new_keys@, n as int, b, 0);
                    lemma_find_key(keys@, n as int, b, 0);
                }
                r
            },
            ArenaNode::Node16 { prefix_ref, num_children, keys, children, leaf } => {
                let n = num_children as usize;
                let mut child_index = bytes_of(255, 256);
                let mut new_children = null_refs(48);
                let mut i: usize = 0;
                while i < n
                    invariant
                        i <= n <= 16,
                        keys@.len() == 16,
                        children@.len() == 16,
                        child_index@.len() == 256,
                        new_children@.len() == 48,
                        forall|a: int, c: int| 0 <= a < c < n ==> keys@[a] != keys@[c],
                        forall|j: int| 0 <= j < i ==> new_children@[j] == children@[j],
                        forall|b: int|
                            #![trigger child_index@[b]]
                            0 <= b < 256 ==> (child_index@[b] == 255 && forall|j: int|
                                0 <= j < i ==> keys@[j] != b) || (child_index@[b] < i
                                && keys@[child_index@[b] as int] == b),
                    decreases n - i,
                {
                    child_index.set(keys[i] as usize, i as u8);
                    new_children.set(i, children[i]);
                    i += 1;
                }
                proof {
                    let f = |j: int| keys@[j] as int;
                    let dom = vstd::set_lib::set_int_range(0, n as int);
                    vstd::set_lib::lemma_int_range(0, n as int);
                    assert(dom.map(f) =~= used48(child_index@)) by {
                        assert forall|b: int| used48(child_index@).contains(b) implies dom.map(
                            f,
                        ).contains(b) by {
                            assert(dom.contains(child_index@[b] as int) && f(child_index@[b] as int)
                                == b);
                        }
                        assert forall|b: int| dom.map(f).contains(b) implies used48(
                            child_index@,
                        ).contains(b) by {
                            let j = choose|j: int| dom.contains(j) && f(j) == b;
                            assert(0 <= b < 256);
                            assert(child_index@[b] != 255);
                        }
                    }
                    assert(vstd::relations::injective_on(f, dom));
                    vstd::set_lib::lemma_map_size(dom, used48(child_index@), f);
                }
                let r = ArenaNode::Node48 {
                    prefix_ref,
                    num_children,
                    child_index,
                    children: new_children,
                    leaf,
                };
                assert forall|b: u8| #[trigger] r.child_of(b) == self.child_of(b) by {
                    lemma_find_key_distinct(keys@, n as int, b);
                    assert(child_index@[b as int] == child_index@[b as int]);
                }
                r
            },
            ArenaNode::Node48 { prefix_ref, num_children, child_index, children, leaf } => {
                let mut new_children = null_refs(256);
                let mut byte: usize = 0;
                while byte < 256
                    invariant
                        byte <= 256,
                        child_index@.len() == 256,
                        children@.len() == 48,
                        new_children@.len() == 256,
                        forall|b: int|
                            0 <= b < 256 && child_index@[b] != 255 ==> child_index@[b] < 48,
                        forall|b: int|
                            0 <= b < byte ==> #[trigger] new_children@[b] == if child_index@[b] != 255 {
                                children@[child_index@[b] as int]
                            } else {
                                NodeRef(u32::MAX)
                            },
                        forall|b: int| byte <= b < 256 ==> new_children@[b].0 == u32::MAX,
                    decreases 256 - byte,
                {
                    let idx = child_index[byte];
                    if idx != 255 {
                        new_children.set(byte, children[idx as usize]);
                    }
                    byte += 1;
                }
                let r = ArenaNode::Node256 {
                    prefix_ref,
                    num_children: num_children as u16,
                    children: new_children,
                    leaf,
                };
                assert(used_refs(new_children@) =~= used48(child_index@));
                assert forall|b: u8| #[trigger] r.child_of(b) == self.child_of(b) by {}
                r
            },
            other => other,
        }
    }
}


impl<V: Clone> ArenaNode<V> {
    /// The value of the key that ends at this node, if any.
    pub fn leaf_value(&self) -> (r: Option<&(DataRef, V)>)
        ensures
            r == (match self.spec_leaf() {
                Some(p) => Some(&p),
                None => None,
            }),
    {
        match self {
            ArenaNode::Leaf { .. } => None,
            ArenaNode::Node4 { leaf, .. } => leaf.as_ref(),
            ArenaNode::Node16 { leaf, .. } => leaf.as_ref(),
            ArenaNode::Node48 { leaf, .. } => leaf.as_ref(),
            ArenaNode::Node256 { leaf, .. } => leaf.as_ref(),
        }
    }

    /// Set the value of the key that ends at this node; a leaf is left as it is.
    pub fn set_leaf(&mut self, new_leaf: Option<(DataRef, V)>)
        ensures
            !(*old(self) is Leaf) ==> final(self).spec_leaf() == new_leaf,
            *old(self) is Leaf ==> *final(self) == *old(self),
            final(self).spec_prefix_ref() == old(self).spec_prefix_ref(),
            final(self).shape_ok() == old(self).shape_ok(),
            final(self).spec_num_children() == old(self).spec_num_children(),
            final(self).is_full() == old(self).is_full(),
            forall|b: u8| #[trigger] final(self).child_of(b) == old(self).child_of(b),
    {
        match self {
            ArenaNode::Leaf { .. } => {},
            ArenaNode::Node4 { leaf, .. } => {
                *leaf = new_leaf;
            },
            ArenaNode::Node16 { leaf, .. } => {
                *leaf = new_leaf;
            },
            ArenaNode::Node48 { leaf, .. } => {
                *leaf = new_leaf;
            },
            ArenaNode::Node256 { leaf, .. } => {
                *leaf = new_leaf;
            },
        }
    }

    /// Take the value of the key that ends at this node.
    pub fn take_leaf(&mut self) -> (r: Option<(DataRef, V)>)
        ensures
            r == old(self).spec_leaf(),
            final(self).spec_leaf() is None,
            *old(self) is Leaf ==> *final(self) == *old(self),
            final(self).spec_prefix_ref() == old(self).spec_prefix_ref(),
            final(self).shape_ok() == old(self).shape_ok(),
            final(self).spec_num_children() == old(self).spec_num_children(),
            final(self).is_full() == old(self).is_full(),
            forall|b: u8| #[trigger] final(self).child_of(b) == old(self).child_of(b),
    {
        match self {
            ArenaNode::Leaf { .. } => None,
            ArenaNode::Node4 { leaf, .. } => leaf.take(),
            ArenaNode::Node16 { leaf, .. } => leaf.take(),
            ArenaNode::Node48 { leaf, .. } => leaf.take(),
            ArenaNode::Node256 { leaf, .. } => leaf.take(),
        }
    }

    /// All children as `(byte, child)` pairs: in slot order for the two small kinds, in
    /// byte order for the two large ones.
    pub fn children(&self) -> (r: Vec<(u8, NodeRef)>)
        requires
            self.shape_ok(),
        ensures
            forall|i: int| 0 <= i < r@.len() ==> self.child_of(#[trigger] r@[i].0) == Some(r@[i].1),
            forall|b: u8| self.child_of(b) is Some ==> exists|i: int| 0 <= i < r@.len() && #[trigger] r@[i].0 == b,
            forall|i: int, j: int| 0 <= i < j < r@.len() ==> r@[i].0 != r@[j].0,
            r@.len() == self.spec_num_children(),
    {
        let mut r: Vec<(u8, NodeRef)> = Vec::new();
        match self {
            ArenaNode::Leaf { .. } => {},
            ArenaNode::Node4 { keys, num_children, children, .. } => {
                let n = *num_children as usize;
                let mut i: usize = 0;
                while i < n
                    invariant
                        i <= n <= 4,
                        keys@.len() == 4,
                        children@.len() == 4,
                        forall|a: int, c: int| 0 <= a < c < n ==> keys@[a] != keys@[c],
                        r@.len() == i,
                        forall|j: int| 0 <= j < i ==> #[trigger] r@[j] == (keys@[j], children@[j]),
                    decreases n - i,
                {
                    r.push((keys[i], children[i]));
                    i += 1;
                }
                proof {
                    assert forall|j: int| 0 <= j < r@.len() implies self.child_of(#[trigger] r@[j].0)
                        == Some(r@[j].1) by {
                        lemma_find_key_distinct(keys@, n as int, keys@[j]);
                    }
                    assert forall|b: u8| self.child_of(b) is Some implies exists|j: int|
                        0 <= j < r@.len() && #[trigger] r@[j].0 == b by {
                        lemma_find_key(keys@, n as int, b, 0);
                        let j = find_key(keys@, n as int, b, 0)->0;
                        assert(r@[j].0 == b);
                    }
                }
            },
            ArenaNode::Node16 { keys, num_children, children, .. } => {
                let n = *num_children as usize;
                let mut i: usize = 0;
                while i < n
                    invariant
                        i <= n <= 16,
                        keys@.len() == 16,
                        children@.len() == 16,
                        forall|a: int, c: int| 0 <= a < c < n ==> keys@[a] != keys@[c],
                        r@.len() == i,
                        forall|j: int| 0 <= j < i ==> #[trigger] r@[j] == (keys@[j], children@[j]),
                    decreases n - i,
                {
                    r.push((keys[i], children[i]));
                    i += 1;
                }
                proof {
                    assert forall|j: int| 0 <= j < r@.len() implies self.child_of(#[trigger] r@[j].0)
                        == Some(r@[j].1) by {
                        lemma_find_key_distinct(keys@, n as int, keys@[j]);
                    }
                    assert forall|b: u8| self.child_of(b) is Some implies exists|j: int|
                        0 <= j < r@.len() && #[trigger] r@[j].0 == b by {
                        lemma_find_key(keys@, n as int, b, 0);
                        let j = find_key(keys@, n as int, b, 0)->0;
                        assert(r@[j].0 == b);
                    }
                }
            },
            ArenaNode::Node48 { .. } | ArenaNode::Node256 { .. } => {
                let mut b: usize = 0;
                let ghost mut seen: Set<int> = Set::empty();
                while b < 256
                    invariant
                        b <= 256,
                        self.shape_ok(),
                        !(*self is Leaf) && !(*self is Node4) && !(*self is Node16),
                        forall|i: int| 0 <= i < r@.len() ==> r@[i].0 < b,
                        forall|i: int| 0 <= i < r@.len() ==> self.child_of(#[trigger] r@[i].0)
                            == Some(r@[i].1),
                        forall|c: int| 0 <= c < b && #[trigger] self.child_of(c as u8) is Some ==> exists|i: int|
                            0 <= i < r@.len() && #[trigger] r@[i].0 == c,
                        forall|i: int, j: int| 0 <= i < j < r@.len() ==> r@[i].0 < r@[j].0,
                        seen =~= Set::new(|c: int| 0 <= c < b && self.child_of(c as u8) is Some),
                        r@.len() == seen.len(),
                        seen.finite(),
                    decreases 256 - b,
                {
                    let ghost prev = r@;
                    match self.find_child(b as u8) {
                        Some(c) => {
                            r.push((b as u8, c));
                            proof {
                                assert(!seen.contains(b as int));
                                seen = seen.insert(b as int);
                            }
                        },
                        None => {},
                    }
                    assert(Set::new(|c: int| 0 <= c < b + 1 && self.child_of(c as u8) is Some)
                        =~= seen);
                    assert forall|c: int| 0 <= c < b + 1 && #[trigger] self.child_of(c as u8) is Some implies exists|i: int|
                        0 <= i < r@.len() && #[trigger] r@[i].0 == c by {
                        if c < b {
                            let i = choose|i: int| 0 <= i < prev.len() && #[trigger] prev[i].0 == c;
                            assert(r@[i] == prev[i]);
                        } else {
                            assert(r@[r@.len() - 1].0 == c);
                        }
                    }
                    b += 1;
                }
                proof {
                    assert forall|c: u8| self.child_of(c) is Some implies exists|i: int|
                        0 <= i < r@.len() && #[trigger] r@[i].0 == c by {
                        assert((c as int) as u8 == c);
                    }
                    match self {
                        ArenaNode::Node48 { child_index, .. } => {
                            assert(seen =~= used48(child_index@));
                        },
                        ArenaNode::Node256 { children, .. } => {
                            assert(seen =~= used_refs(children@));
                        },
                        _ => {},
                    }
                }
            },
        }
        r
    }
}

/// Memory statistics.
#[derive(Debug, Clone)]
pub struct ArenaArtStats {
    pub data_arena_bytes: usize,
    pub node_arena_capacity: usize,
    pub node_count: usize,
    pub leaf_count: usize,
    pub node4_count: usize,
    pub node16_count: usize,
    pub node48_count: usize,
    pub node256_count: usize,
}

} // verus!
