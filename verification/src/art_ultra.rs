//! Building blocks of the slab-allocated ART: tagged 32-bit node references, inline leaf
//! values with a validity bit, a slab allocator for fixed-size nodes, and a key arena.
use vstd::prelude::*;
use crate::vec_mem::vec_capacity;
use crate::art::node::find_key;
use crate::art_fast::{insert_pos, inserted_at, lemma_insert_pos};

verus! {

/// Sentinel value for an empty slot.
pub const EMPTY_SLOT: u32 = 0xffff_ffff;

/// Node reference: a 32-bit index with the node type in the two high bits.
#[derive(Clone, Copy, PartialEq, Eq, Debug, Structural)]
pub struct NodeRef(pub u32);

/// Bits 0-29 of a node reference: the index into the slab.
pub const INDEX_MASK: u32 = 0x3fff_ffff;

impl NodeRef {
    /// A reference to slot `index` of the slab for `node_type`.
    pub fn new(node_type: u8, index: u32) -> (r: Self)
        requires
            index <= INDEX_MASK,
        ensures
            r.0 == ((node_type as u32) << 30u32) | index,
    {
        NodeRef(((node_type as u32) << 30) | index)
    }

    /// The empty reference.
    pub fn empty() -> (r: Self)
        ensures
            r.0 == EMPTY_SLOT,
    {
        NodeRef(EMPTY_SLOT)
    }

    /// Whether this is the empty reference.
    pub fn is_empty(self) -> (r: bool)
        ensures
            r == (self.0 == EMPTY_SLOT),
    {
        self.0 == EMPTY_SLOT
    }

    /// The node type in the two high bits.
    pub fn node_type(self) -> (r: u8)
        ensures
            r == self.0 >> 30u32,
    {
        let x = self.0;
        assert(x >> 30u32 < 4) by (bit_vector);
        (x >> 30) as u8
    }

    /// The index in the low 30 bits.
    pub fn index(self) -> (r: u32)
        ensures
            r == self.0 & INDEX_MASK,
    {
        self.0 & INDEX_MASK
    }
}

/// A node type below 4 and an index that fits 30 bits are read back from their reference.
pub proof fn law_node_ref_roundtrip(node_type: u8, index: u32)
    requires
        node_type < 4,
        index <= INDEX_MASK,
    ensures
        (((node_type as u32) << 30u32) | index) >> 30u32 == node_type as u32,
        (((node_type as u32) << 30u32) | index) & INDEX_MASK == index,
{
    assert((((node_type as u32) << 30u32) | index) >> 30u32 == node_type as u32) by (bit_vector)
        requires
            node_type < 4,
            index <= 0x3fff_ffffu32,
    ;
    assert((((node_type as u32) << 30u32) | index) & 0x3fff_ffffu32 == index) by (bit_vector)
        requires
            node_type < 4,
            index <= 0x3fff_ffffu32,
    ;
}

/// The validity bit of a leaf value.
pub const VALID_BIT: u64 = 0x8000_0000_0000_0000;

/// Leaf value: an inline `u64` whose high bit says whether it holds a value.
#[derive(Clone, Copy, Debug)]
pub struct LeafValue(pub u64);

impl LeafValue {
    /// No value.
    pub fn none() -> (r: Self)
        ensures
            r.0 == 0,
    {
        LeafValue(0)
    }

    /// The value `value`, with the validity bit set (which hides its own high bit).
    pub fn some(value: u64) -> (r: Self)
        ensures
            r.0 == value | VALID_BIT,
    {
        LeafValue(value | VALID_BIT)
    }

    /// Whether a value is held.
    pub fn is_some(self) -> (r: bool)
        ensures
            r == (self.0 & VALID_BIT != 0),
    {
        self.0 & VALID_BIT != 0
    }

    /// The value held, without its validity bit.
    pub fn get(self) -> (r: Option<u64>)
        ensures
            r == if self.0 & VALID_BIT != 0 {
                Some(self.0 & !VALID_BIT)
            } else {
                None::<u64>
            },
    {
        if self.is_some() {
            Some(self.0 & !VALID_BIT)
        } else {
            None
        }
    }
}

/// A value below 2^63 is read back from a leaf value.
pub proof fn law_leaf_value_roundtrip(value: u64)
    requires
        value < VALID_BIT,
    ensures
        (value | VALID_BIT) & VALID_BIT != 0,
        (value | VALID_BIT) & !VALID_BIT == value,
        0u64 & VALID_BIT == 0,
{
    assert((value | 0x8000_0000_0000_0000u64) & 0x8000_0000_0000_0000u64 != 0) by (bit_vector);
    assert((value | 0x8000_0000_0000_0000u64) & !0x8000_0000_0000_0000u64 == value) by (bit_vector)
        requires
            value < 0x8000_0000_0000_0000u64,
    ;
    assert(0u64 & 0x8000_0000_0000_0000u64 == 0) by (bit_vector);
}

/// Key reference: offset and length into the key arena.
#[derive(Clone, Copy, Debug)]
pub struct KeyRef {
    offset: u32,
    len: u16,
}

impl KeyRef {
    pub closed spec fn spec_offset(self) -> nat {
        self.offset as nat
    }

    pub closed spec fn spec_len(self) -> nat {
        self.len as nat
    }

    pub fn new(offset: u32, len: u16) -> (r: Self)
        ensures
            r.spec_offset() == offset,
            r.spec_len() == len,
    {
        KeyRef { offset, len }
    }

    pub fn empty() -> (r: Self)
        ensures
            r.spec_offset() == 0,
            r.spec_len() == 0,
    {
        KeyRef { offset: 0, len: 0 }
    }
}

/// Slab allocator for fixed-size nodes: freed slots are reused before the slab grows.
pub struct Slab<T> {
    data: Vec<Option<T>>,
    free_list: Vec<u32>,
    count: u32,
}

impl<T> Slab<T> {
    /// The slots, empty where nothing lives.
    pub closed spec fn slots(&self) -> Seq<Option<T>> {
        self.data@
    }

    /// The freed slots, in the order they were freed.
    pub closed spec fn freed(&self) -> Seq<u32> {
        self.free_list@
    }

    /// The number of live allocations.
    pub closed spec fn spec_count(&self) -> nat {
        self.count as nat
    }

    /// Every freed slot is a slot of the slab.
    pub closed spec fn wf(&self) -> bool {
        forall|i: int| 0 <= i < self.free_list@.len() ==> self.free_list@[i] < self.data@.len()
    }

    pub fn new() -> (r: Self)
        ensures
            r.wf(),
            r.slots().len() == 0,
            r.freed().len() == 0,
            r.spec_count() == 0,
    {
        Slab { data: Vec::new(), free_list: Vec::new(), count: 0 }
    }

    pub fn with_capacity(cap: usize) -> (r: Self)
        ensures
            r.wf(),
            r.slots().len() == 0,
            r.freed().len() == 0,
            r.spec_count() == 0,
    {
        Slab { data: Vec::with_capacity(cap), free_list: Vec::new(), count: 0 }
    }

    /// Place `value` in the most recently freed slot, or in a new one; returns its index.
    pub fn allocate(&mut self, value: T) -> (r: u32)
        requires
            old(self).wf(),
            old(self).spec_count() < u32::MAX,
            old(self).freed().len() > 0 || old(self).slots().len() < u32::MAX,
        ensures
            final(self).wf(),
            final(self).spec_count() == old(self).spec_count() + 1,
            old(self).freed().len() > 0 ==> r == old(self).freed().last() && final(self).freed()
                == old(self).freed().drop_last() && final(self).slots() == old(self).slots().update(
                r as int,
                Some(value),
            ),
            old(self).freed().len() == 0 ==> r == old(self).slots().len() && final(self).freed()
                == old(self).freed() && final(self).slots() == old(self).slots().push(Some(value)),
    {
        self.count = self.count + 1;
        match self.free_list.pop() {
            Some(idx) => {
                self.data.set(idx as usize, Some(value));
                idx
            },
            None => {
                let idx = self.data.len() as u32;
                self.data.push(Some(value));
                idx
            },
        }
    }

    /// Give slot `idx` back for reuse.
    pub fn free(&mut self, idx: u32)
        requires
            old(self).wf(),
            old(self).spec_count() > 0,
            idx < old(self).slots().len(),
        ensures
            final(self).wf(),
            final(self).spec_count() == old(self).spec_count() - 1,
            final(self).freed() == old(self).freed().push(idx),
            final(self).slots() == old(self).slots(),
    {
        self.count = self.count - 1;
        self.free_list.push(idx);
    }

    /// The value in slot `idx`.
    pub fn get(&self, idx: u32) -> (r: &T)
        requires
            idx < self.slots().len(),
            self.slots()[idx as int] is Some,
        ensures
            Some(*r) == self.slots()[idx as int],
    {
        match &self.data[idx as usize] {
            Some(v) => v,
            None => vstd::pervasive::unreached(),
        }
    }

    /// The number of live allocations.
    pub fn count(&self) -> (r: u32)
        ensures
            r == self.spec_count(),
    {
        self.count
    }

    /// Bytes reserved by the slab and its free list.
    pub fn memory_usage(&self) -> (r: usize)
        ensures
            r >= self.slots().len() * core::mem::size_of::<Option<T>>() + self.freed().len() * 4
                || r == usize::MAX,
    {
        let d = vec_capacity(&self.data);
        let f = vec_capacity(&self.free_list);
        let a = match d.checked_mul(core::mem::size_of::<Option<T>>()) {
            Some(x) => x,
            None => usize::MAX,
        };
        let b = match f.checked_mul(4) {
            Some(x) => x,
            None => usize::MAX,
        };
        proof {
            vstd::arithmetic::mul::lemma_mul_inequality(
                self.data@.len() as int,
                d as int,
                core::mem::size_of::<Option<T>>() as int,
            );
        }
        a.saturating_add(b)
    }
}

impl<T> Default for Slab<T> {
    fn default() -> (r: Self)
        ensures
            r.wf(),
            r.slots().len() == 0,
            r.freed().len() == 0,
            r.spec_count() == 0,
    {
        Self::new()
    }
}

/// Key arena: contiguous storage for all keys.
pub struct KeyArena {
    data: Vec<u8>,
}

impl View for KeyArena {
    type V = Seq<u8>;

    closed spec fn view(&self) -> Seq<u8> {
        self.data@
    }
}

impl KeyArena {
    pub fn new() -> (r: Self)
        ensures
            r@ == Seq::<u8>::empty(),
    {
        KeyArena { data: Vec::new() }
    }

    pub fn with_capacity(cap: usize) -> (r: Self)
        ensures
            r@ == Seq::<u8>::empty(),
    {
        KeyArena { data: Vec::with_capacity(cap) }
    }

    /// Append `key` and return its reference.
    pub fn store(&mut self, key: &[u8]) -> (r: KeyRef)
        requires
            old(self)@.len() <= u32::MAX,
            key@.len() <= u16::MAX,
        ensures
            final(self)@ == old(self)@ + key@,
            r.spec_offset() == old(self)@.len(),
            r.spec_len() == key@.len(),
    {
        let offset = self.data.len() as u32;
        let len = key.len() as u16;
        let ghost d0 = self.data@;
        let mut i: usize = 0;
        while i < key.len()
            invariant
                i <= key@.len(),
                self.data@ == d0 + key@.subrange(0, i as int),
            decreases key@.len() - i,
        {
            self.data.push(key[i]);
            assert(self.data@ =~= d0 + key@.subrange(0, i + 1));
            i += 1;
        }
        assert(key@.subrange(0, key@.len() as int) =~= key@);
        KeyRef::new(offset, len)
    }

    /// The key `key_ref` refers to.
    pub fn get(&self, key_ref: KeyRef) -> (r: &[u8])
        requires
            key_ref.spec_offset() + key_ref.spec_len() <= self@.len(),
        ensures
            r@ == self@.subrange(
                key_ref.spec_offset() as int,
                (key_ref.spec_offset() + key_ref.spec_len()) as int,
            ),
    {
        let n = self.data.len();
        let start = key_ref.offset as usize;
        let end = start + key_ref.len as usize;
        &self.data.as_slice()[start..end]
    }

    /// Bytes reserved, at least those used.
    pub fn memory_usage(&self) -> (r: usize)
        ensures
            r >= self@.len(),
    {
        vec_capacity(&self.data)
    }
}

impl Default for KeyArena {
    fn default() -> (r: Self)
        ensures
            r@ == Seq::<u8>::empty(),
    {
        Self::new()
    }
}


/// Up to 4 children, keys sorted; a value when a key ends here.
pub struct Node4 {
    num_children: u8,
    prefix_len: u8,
    _pad: [u8; 2],
    prefix: [u8; 16],
    keys: [u8; 4],
    children: [NodeRef; 4],
    value: LeafValue,
    full_key: KeyRef,
}

impl Node4 {
    fn new() -> (r: Self)
        ensures
            r.num_children == 0,
            r.prefix_len == 0,
            r.value.0 == 0,
    {
        Node4 {
            num_children: 0,
            prefix_len: 0,
            _pad: [0u8; 2],
            prefix: [0u8; 16],
            keys: [0u8; 4],
            children: [NodeRef(EMPTY_SLOT); 4],
            value: LeafValue::none(),
            full_key: KeyRef::empty(),
        }
    }

    fn find_child(&self, byte: u8) -> (r: Option<NodeRef>)
        requires
            self.num_children <= 4,
        ensures
            r == match find_key(self.keys@, self.num_children as int, byte, 0) {
                Some(i) => Some(self.children@[i]),
                None => None::<NodeRef>,
            },
    {
        let n = self.num_children as usize;
        let mut i: usize = 0;
        while i < n
            invariant
                i <= n <= 4,
                n == self.num_children,
                find_key(self.keys@, n as int, byte, 0) == find_key(self.keys@, n as int, byte, i as int),
            decreases n - i,
        {
            if self.keys[i] == byte {
                return Some(self.children[i]);
            }
            i += 1;
        }
        None
    }

    /// Add `child` under `byte` keeping the keys sorted; false, and nothing changed, when full.
    fn add_child(&mut self, byte: u8, child: NodeRef) -> (r: bool)
        ensures
            r == (old(self).num_children < 4),
            !r ==> *final(self) == *old(self),
            r ==> final(self).num_children == old(self).num_children + 1,
            r ==> inserted_at(
                final(self).keys@,
                old(self).keys@,
                old(self).num_children as int,
                insert_pos(old(self).keys@, old(self).num_children as int, byte, 0),
                byte,
            ),
            r ==> inserted_at(
                final(self).children@,
                old(self).children@,
                old(self).num_children as int,
                insert_pos(old(self).keys@, old(self).num_children as int, byte, 0),
                child,
            ),
    {
        if self.num_children >= 4 {
            return false;
        }
        let n = self.num_children as usize;
        let ghost k0 = self.keys@;
        let ghost c0 = self.children@;
        proof {
            lemma_insert_pos(k0, n as int, byte, 0);
        }
        let mut pos: usize = 0;
        while pos < n && !(byte < self.keys[pos])
            invariant
                pos <= n < 4,
                self.keys@ == k0,
                insert_pos(k0, n as int, byte, 0) == insert_pos(k0, n as int, byte, pos as int),
            decreases n - pos,
        {
            pos += 1;
        }
        let mut j = n;
        while j > pos
            invariant
                pos <= j <= n < 4,
                self.keys@.len() == 4,
                self.children@.len() == 4,
                forall|i: int| 0 <= i <= j ==> self.keys@[i] == k0[i] && self.children@[i] == c0[i],
                forall|i: int| j < i <= n ==> self.keys@[i] == k0[i - 1] && self.children@[i]
                    == c0[i - 1],
                forall|i: int| n < i < 4 ==> self.keys@[i] == k0[i] && self.children@[i] == c0[i],
                self.num_children == n,
            decreases j,
        {
            let k = self.keys[j - 1];
            let c = self.children[j - 1];
            self.keys[j] = k;
            self.children[j] = c;
            j -= 1;
        }
        self.keys[pos] = byte;
        self.children[pos] = child;
        self.num_children = self.num_children + 1;
        true
    }
}

/// Up to 16 children, keys sorted; a value when a key ends here.
pub struct Node16 {
    num_children: u8,
    prefix_len: u8,
    _pad: [u8; 2],
    prefix: [u8; 16],
    keys: [u8; 16],
    children: [NodeRef; 16],
    value: LeafValue,
    full_key: KeyRef,
}

impl Node16 {
    fn new() -> (r: Self)
        ensures
            r.num_children == 0,
            r.prefix_len == 0,
            r.value.0 == 0,
    {
        Node16 {
            num_children: 0,
            prefix_len: 0,
            _pad: [0u8; 2],
            prefix: [0u8; 16],
            keys: [0u8; 16],
            children: [NodeRef(EMPTY_SLOT); 16],
            value: LeafValue::none(),
            full_key: KeyRef::empty(),
        }
    }

    fn find_child(&self, byte: u8) -> (r: Option<NodeRef>)
        requires
            self.num_children <= 16,
        ensures
            r == match find_key(self.keys@, self.num_children as int, byte, 0) {
                Some(i) => Some(self.children@[i]),
                None => None::<NodeRef>,
            },
    {
        let n = self.num_children as usize;
        let mut i: usize = 0;
        while i < n
            invariant
                i <= n <= 16,
                n == self.num_children,
                find_key(self.keys@, n as int, byte, 0) == find_key(self.keys@, n as int, byte, i as int),
            decreases n - i,
        {
            if self.keys[i] == byte {
                return Some(self.children[i]);
            }
            i += 1;
        }
        None
    }

    /// Add `child` under `byte` keeping the keys sorted; false, and nothing changed, when full.
    fn add_child(&mut self, byte: u8, child: NodeRef) -> (r: bool)
        ensures
            r == (old(self).num_children < 16),
            !r ==> *final(self) == *old(self),
            r ==> final(self).num_children == old(self).num_children + 1,
            r ==> inserted_at(
                final(self).keys@,
                old(self).keys@,
                old(self).num_children as int,
                insert_pos(old(self).keys@, old(self).num_children as int, byte, 0),
                byte,
            ),
            r ==> inserted_at(
                final(self).children@,
                old(self).children@,
                old(self).num_children as int,
                insert_pos(old(self).keys@, old(self).num_children as int, byte, 0),
                child,
            ),
    {
        if self.num_children >= 16 {
            return false;
        }
        let n = self.num_children as usize;
        let ghost k0 = self.keys@;
        let ghost c0 = self.children@;
        proof {
            lemma_insert_pos(k0, n as int, byte, 0);
        }
        let mut pos: usize = 0;
        while pos < n && !(byte < self.keys[pos])
            invariant
                pos <= n < 16,
                self.keys@ == k0,
                insert_pos(k0, n as int, byte, 0) == insert_pos(k0, n as int, byte, pos as int),
            decreases n - pos,
        {
            pos += 1;
        }
        let mut j = n;
        while j > pos
            invariant
                pos <= j <= n < 16,
                self.keys@.len() == 16,
                self.children@.len() == 16,
                forall|i: int| 0 <= i <= j ==> self.keys@[i] == k0[i] && self.children@[i] == c0[i],
                forall|i: int| j < i <= n ==> self.keys@[i] == k0[i - 1] && self.children@[i]
                    == c0[i - 1],
                forall|i: int| n < i < 16 ==> self.keys@[i] == k0[i] && self.children@[i] == c0[i],
                self.num_children == n,
            decreases j,
        {
            let k = self.keys[j - 1];
            let c = self.children[j - 1];
            self.keys[j] = k;
            self.children[j] = c;
            j -= 1;
        }
        self.keys[pos] = byte;
        self.children[pos] = child;
        self.num_children = self.num_children + 1;
        true
    }
}

/// Up to 48 children: `child_index[b]` is one more than the slot of the child for `b`, or 0.
pub struct Node48 {
    num_children: u8,
    prefix_len: u8,
    _pad: [u8; 2],
    prefix: [u8; 16],
    child_index: [u8; 256],
    children: [NodeRef; 48],
    value: LeafValue,
    full_key: KeyRef,
}

impl Node48 {
    fn new() -> (r: Self)
        ensures
            r.num_children == 0,
            forall|b: int| 0 <= b < 256 ==> r.child_index@[b] == 0,
    {
        Node48 {
            num_children: 0,
            prefix_len: 0,
            _pad: [0u8; 2],
            prefix: [0u8; 16],
            child_index: [0u8; 256],
            children: [NodeRef(EMPTY_SLOT); 48],
            value: LeafValue::none(),
            full_key: KeyRef::empty(),
        }
    }

    fn find_child(&self, byte: u8) -> (r: Option<NodeRef>)
        requires
            self.child_index@[byte as int] <= 48,
        ensures
            r == if self.child_index@[byte as int] == 0 {
                None::<NodeRef>
            } else {
                Some(self.children@[self.child_index@[byte as int] - 1])
            },
    {
        let idx = self.child_index[byte as usize];
        if idx == 0 {
            None
        } else {
            Some(self.children[(idx - 1) as usize])
        }
    }

    /// Add `child` under `byte` in the next slot; false, and nothing changed, when full.
    fn add_child(&mut self, byte: u8, child: NodeRef) -> (r: bool)
        ensures
            r == (old(self).num_children < 48),
            !r ==> *final(self) == *old(self),
            r ==> final(self).num_children == old(self).num_children + 1,
            r ==> final(self).children@ == old(self).children@.update(
                old(self).num_children as int,
                child,
            ),
            r ==> final(self).child_index@ == old(self).child_index@.update(
                byte as int,
                (old(self).num_children + 1) as u8,
            ),
    {
        if self.num_children >= 48 {
            return false;
        }
        let slot = self.num_children as usize;
        self.children[slot] = child;
        self.child_index[byte as usize] = (slot + 1) as u8;
        self.num_children = self.num_children + 1;
        true
    }
}

/// Up to 256 children, indexed by byte.
pub struct Node256 {
    num_children: u16,
    prefix_len: u8,
    _pad: u8,
    prefix: [u8; 16],
    children: [NodeRef; 256],
    value: LeafValue,
    full_key: KeyRef,
}

impl Node256 {
    fn new() -> (r: Self)
        ensures
            r.num_children == 0,
            forall|b: int| 0 <= b < 256 ==> r.children@[b].0 == EMPTY_SLOT,
    {
        Node256 {
            num_children: 0,
            prefix_len: 0,
            _pad: 0,
            prefix: [0u8; 16],
            children: [NodeRef(EMPTY_SLOT); 256],
            value: LeafValue::none(),
            full_key: KeyRef::empty(),
        }
    }

    fn find_child(&self, byte: u8) -> (r: Option<NodeRef>)
        ensures
            r == if self.children@[byte as int].0 == EMPTY_SLOT {
                None::<NodeRef>
            } else {
                Some(self.children@[byte as int])
            },
    {
        let child = self.children[byte as usize];
        if child.is_empty() {
            None
        } else {
            Some(child)
        }
    }

    /// Put `child` under `byte`; the count grows when the slot was empty.
    fn add_child(&mut self, byte: u8, child: NodeRef)
        requires
            old(self).children@[byte as int].0 == EMPTY_SLOT ==> old(self).num_children < u16::MAX,
        ensures
            final(self).num_children == old(self).num_children + if old(
                self,
            ).children@[byte as int].0 == EMPTY_SLOT {
                1int
            } else {
                0int
            },
            final(self).children@ == old(self).children@.update(byte as int, child),
    {
        if self.children[byte as usize].is_empty() {
            self.num_children = self.num_children + 1;
        }
        self.children[byte as usize] = child;
    }
}

} // verus!
