//! HOT: a height-optimized trie of binary discriminator nodes.
//!
//! Each internal node tests one bit of the key (keys compare as if padded with zero
//! bytes) and sends the walk left on 0, right on 1. Keys live once in a byte arena; each
//! leaf holds the offset and length of its key and its value. Nodes take 14 bytes each in a
//! node arena: `[bit:2][left:6][right:6]`, pointers of 48 bits.
use vstd::prelude::*;
use crate::binode::{
    BiTrie, BINODE_SIZE, PTR_MAX_OFFSET, bit_at, bit_of, bytes_equal, first_diff_bit,
    le16, le48, le48_bytes, leaf_ptr, lemma_le16_roundtrip, lemma_le48_roundtrip,
    lemma_reach_extend, lemma_reach_frame, lemma_reach_leaf, lemma_reach_redirect,
    lemma_reach_zero_pad, lemma_ok_after_write, lemma_valid_node, lemma_node_ptr,
    lemma_bit_differs, lemma_distinct_nodes, lemma_le_same, extends, same_but_node, walk_moved,
    redirect, zero_pad_eq, moved_walks, node_walks, lemma_moved_walks_at,
};
use crate::vec_mem::{vec_capacity, vec_shrink_to_fit};

verus! {

pub use crate::binode::Ptr;

/// Bytes a leaf entry takes, packed: key offset (8), key length (2), value (8).
pub const LEAF_BYTES: usize = 18;

/// The longest key the trie takes: bit positions are 16-bit.
pub const MAX_KEY_LEN: usize = 8191;

#[derive(Clone, Copy)]
struct Leaf {
    key_off: u64,
    key_len: u16,
    value: u64,
}

/// Whether inserting `key` into a map holding the keys of `m` is refused: another key equals
/// it once both are padded with zero bytes, so that no bit tells them apart.
pub open spec fn collides(m: Map<Seq<u8>, u64>, key: Seq<u8>) -> bool {
    exists|k: Seq<u8>| #[trigger] m.contains_key(k) && k != key && zero_pad_eq(k, key)
}

pub struct HOT {
    key_data: Vec<u8>,
    leaves: Vec<Leaf>,
    nodes: Vec<u8>,
    root: Ptr,
    model: Ghost<Map<Seq<u8>, u64>>,
    leaf_rank: Ghost<Seq<nat>>,
    node_rank: Ghost<Seq<nat>>,
}

enum InsertResult {
    Updated(u64),
    Replaced(Ptr),
    NoChange,
}

impl View for HOT {
    type V = Map<Seq<u8>, u64>;

    closed spec fn view(&self) -> Map<Seq<u8>, u64> {
        self.model@
    }
}

impl HOT {
    closed spec fn trie(&self) -> BiTrie {
        BiTrie {
            nodes: self.nodes@,
            leaf_live: |i: u64| (i as int) < self.leaves@.len(),
            rank: |p: Ptr|
                if p.spec_leaf() {
                    self.leaf_rank@[p.spec_offset() as int]
                } else {
                    self.node_rank@[p.0 as int / 14]
                },
            bound: self.leaves@.len(),
            narrow: false,
        }
    }

    closed spec fn leaf_key(&self, i: int) -> Seq<u8> {
        let l = self.leaves@[i];
        self.key_data@.subrange(l.key_off as int, l.key_off + l.key_len)
    }

    /// What a walk from `p` finds for `key`.
    closed spec fn find(&self, p: Ptr, key: Seq<u8>) -> Option<u64> {
        let i = self.trie().reach(p, key).spec_offset() as int;
        if self.leaf_key(i) == key {
            Some(self.leaves@[i].value)
        } else {
            None
        }
    }

    closed spec fn lookup(&self, key: Seq<u8>) -> Option<u64> {
        if self.leaves@.len() == 0 {
            None
        } else {
            self.find(self.root, key)
        }
    }

    closed spec fn core_wf(&self) -> bool {
        &&& self.trie().ok()
        &&& self.leaf_rank@.len() == self.leaves@.len()
        &&& self.node_rank@.len() * 14 == self.nodes@.len()
        &&& self.nodes@.len() <= PTR_MAX_OFFSET
        &&& self.leaves@.len() < PTR_MAX_OFFSET
        &&& self.key_data@.len() <= PTR_MAX_OFFSET
        &&& forall|i: int| 0 <= i < self.leaves@.len() ==> #[trigger] self.leaf_ok(i)
    }

    /// The key of leaf `i` lies within the key bytes.
    closed spec fn leaf_ok(&self, i: int) -> bool {
        &&& self.leaves@[i].key_off + self.leaves@[i].key_len <= self.key_data@.len()
        &&& self.leaves@[i].key_len <= MAX_KEY_LEN
    }

    /// The internal well-formedness of the trie: the node arena is a graph whose walks end,
    /// every stored key is found at its own leaf, and the map view is what the walks find.
    pub closed spec fn wf(&self) -> bool {
        &&& self.core_wf()
        &&& (self.leaves@.len() == 0 <==> self.root.spec_null())
        &&& self.leaves@.len() > 0 ==> self.trie().valid(self.root)
        &&& self.model@.dom().finite()
        &&& self.model@.len() == self.leaves@.len()
        &&& forall|k: Seq<u8>| #[trigger]
            self.model@.contains_key(k) == self.lookup(k).is_some()
        &&& forall|k: Seq<u8>| #[trigger]
            self.model@.contains_key(k) ==> self.model@[k] == self.lookup(k).unwrap()
    }

    /// A well-formed map holds finitely many keys.
    pub proof fn lemma_wf_finite(&self)
        requires
            self.wf(),
        ensures
            self@.dom().finite(),
    {
    }

    /// Bytes of keys stored so far.
    pub closed spec fn key_bytes(&self) -> nat {
        self.key_data@.len()
    }

    /// Bytes of nodes allocated so far.
    pub closed spec fn node_bytes(&self) -> nat {
        self.nodes@.len()
    }

    /// The number of leaf records held.
    pub closed spec fn spec_leaf_count(&self) -> nat {
        self.leaves@.len()
    }

    /// An empty trie.
    pub fn new() -> (r: Self)
        ensures
            r.wf(),
            r@ == Map::<Seq<u8>, u64>::empty(),
    {
        let r = HOT {
            key_data: Vec::new(),
            leaves: Vec::new(),
            nodes: Vec::new(),
            root: Ptr::null(),
            model: Ghost(Map::empty()),
            leaf_rank: Ghost(Seq::empty()),
            node_rank: Ghost(Seq::empty()),
        };
        assert(r.trie().ok()) by {
            reveal(BiTrie::ok);
        }
        assert(r.model@.dom() =~= Set::empty());
        r
    }

    /// An empty trie with room reserved for `key_count` keys of `avg_key_len` bytes.
    pub fn with_capacity(key_count: usize, avg_key_len: usize) -> (r: Self)
        requires
            key_count * avg_key_len <= usize::MAX,
            key_count * 14 <= usize::MAX,
        ensures
            r.wf(),
            r@ == Map::<Seq<u8>, u64>::empty(),
    {
        let r = HOT {
            key_data: Vec::with_capacity(key_count * avg_key_len),
            leaves: Vec::with_capacity(key_count),
            nodes: Vec::with_capacity(key_count * BINODE_SIZE),
            root: Ptr::null(),
            model: Ghost(Map::empty()),
            leaf_rank: Ghost(Seq::empty()),
            node_rank: Ghost(Seq::empty()),
        };
        assert(r.trie().ok()) by {
            reveal(BiTrie::ok);
        }
        assert(r.model@.dom() =~= Set::empty());
        r
    }

    /// The number of keys stored.
    pub fn len(&self) -> (r: usize)
        requires
            self.wf(),
        ensures
            r == self@.len(),
    {
        self.leaves.len()
    }

    /// Whether no key is stored.
    pub fn is_empty(&self) -> (r: bool)
        requires
            self.wf(),
        ensures
            r == (self@.len() == 0),
    {
        self.leaves.len() == 0
    }

    fn store_key(&mut self, key: &[u8]) -> (r: (u64, u16))
        requires
            old(self).key_data@.len() + key@.len() <= PTR_MAX_OFFSET,
            key@.len() <= MAX_KEY_LEN,
        ensures
            final(self).key_data@ == old(self).key_data@ + key@,
            r.0 == old(self).key_data@.len(),
            r.1 == key@.len(),
            final(self).leaves == old(self).leaves,
            final(self).nodes == old(self).nodes,
            final(self).root == old(self).root,
            final(self).model == old(self).model,
            final(self).leaf_rank == old(self).leaf_rank,
            final(self).node_rank == old(self).node_rank,
    {
        let off = self.key_data.len();
        let ghost start = self.key_data@;
        let mut i: usize = 0;
        while i < key.len()
            invariant
                i <= key@.len(),
                self.key_data@ == start + key@.subrange(0, i as int),
                self.leaves == old(self).leaves,
                self.nodes == old(self).nodes,
                self.root == old(self).root,
                self.model == old(self).model,
                self.leaf_rank == old(self).leaf_rank,
                self.node_rank == old(self).node_rank,
            decreases key@.len() - i,
        {
            self.key_data.push(key[i]);
            assert(self.key_data@ =~= start + key@.subrange(0, i + 1));
            i += 1;
        }
        assert(key@.subrange(0, key@.len() as int) =~= key@);
        (off as u64, key.len() as u16)
    }

    fn get_key(&self, leaf: &Leaf) -> (r: &[u8])
        requires
            leaf.key_off + leaf.key_len <= self.key_data@.len(),
        ensures
            r@ == self.key_data@.subrange(leaf.key_off as int, leaf.key_off + leaf.key_len),
    {
        let n = self.key_data.len();
        let s = leaf.key_off as usize;
        let e = s + leaf.key_len as usize;
        let data = self.key_data.as_slice();
        &data[s..e]
    }

    fn alloc_binode(&mut self) -> (r: u64)
        requires
            old(self).nodes@.len() + 14 <= PTR_MAX_OFFSET,
        ensures
            r == old(self).nodes@.len(),
            final(self).nodes@.len() == old(self).nodes@.len() + 14,
            final(self).nodes@.subrange(0, r as int) == old(self).nodes@,
            final(self).key_data == old(self).key_data,
            final(self).leaves == old(self).leaves,
            final(self).root == old(self).root,
            final(self).model == old(self).model,
            final(self).leaf_rank == old(self).leaf_rank,
            final(self).node_rank == old(self).node_rank,
    {
        let off = self.nodes.len();
        let mut i: usize = 0;
        while i < BINODE_SIZE
            invariant
                i <= 14,
                self.nodes@.len() == off + i,
                self.nodes@.subrange(0, off as int) == old(self).nodes@,
                self.key_data == old(self).key_data,
                self.leaves == old(self).leaves,
                self.root == old(self).root,
                self.model == old(self).model,
                self.leaf_rank == old(self).leaf_rank,
                self.node_rank == old(self).node_rank,
            decreases 14 - i,
        {
            let ghost prev = self.nodes@;
            self.nodes.push(0);
            assert(self.nodes@.subrange(0, off as int) =~= prev.subrange(0, off as int));
            i += 1;
        }
        off as u64
    }

    fn r16(&self, o: u64) -> (r: u16)
        requires
            o + 2 <= self.nodes@.len(),
        ensures
            r == le16(self.nodes@, o as int),
    {
        let n = self.nodes.len();
        let i = o as usize;
        proof {
            reveal(le16);
        }
        (self.nodes[i] as u16) | ((self.nodes[i + 1] as u16) << 8)
    }

    fn w16(&mut self, o: u64, v: u16)
        requires
            o + 2 <= old(self).nodes@.len(),
        ensures
            final(self).nodes@.len() == old(self).nodes@.len(),
            forall|j: int|
                0 <= j < old(self).nodes@.len() && !(o <= j < o + 2) ==> final(self).nodes@[j]
                    == old(self).nodes@[j],
            le16(final(self).nodes@, o as int) == v,
            final(self).key_data == old(self).key_data,
            final(self).leaves == old(self).leaves,
            final(self).root == old(self).root,
            final(self).model == old(self).model,
            final(self).leaf_rank == old(self).leaf_rank,
            final(self).node_rank == old(self).node_rank,
    {
        let n = self.nodes.len();
        let i = o as usize;
        self.nodes.set(i, v as u8);
        self.nodes.set(i + 1, (v >> 8) as u8);
        proof {
            reveal(le16);
            lemma_le16_roundtrip(v);
        }
    }

    fn r48(&self, o: u64) -> (r: Ptr)
        requires
            o + 6 <= self.nodes@.len(),
        ensures
            r.0 == le48(self.nodes@, o as int),
    {
        let n = self.nodes.len();
        let i = o as usize;
        let bytes = [
            self.nodes[i],
            self.nodes[i + 1],
            self.nodes[i + 2],
            self.nodes[i + 3],
            self.nodes[i + 4],
            self.nodes[i + 5],
        ];
        let r = Ptr::from_bytes(bytes);
        proof {
            reveal(le48);
        }
        r
    }

    fn w48(&mut self, o: u64, ptr: Ptr)
        requires
            o + 6 <= old(self).nodes@.len(),
            ptr.0 < 0x1_0000_0000_0000,
        ensures
            final(self).nodes@.len() == old(self).nodes@.len(),
            forall|j: int|
                0 <= j < old(self).nodes@.len() && !(o <= j < o + 6) ==> final(self).nodes@[j]
                    == old(self).nodes@[j],
            le48(final(self).nodes@, o as int) == ptr.0,
            final(self).key_data == old(self).key_data,
            final(self).leaves == old(self).leaves,
            final(self).root == old(self).root,
            final(self).model == old(self).model,
            final(self).leaf_rank == old(self).leaf_rank,
            final(self).node_rank == old(self).node_rank,
    {
        let n = self.nodes.len();
        let i = o as usize;
        let bytes = ptr.to_bytes();
        self.nodes.set(i, bytes[0]);
        self.nodes.set(i + 1, bytes[1]);
        self.nodes.set(i + 2, bytes[2]);
        self.nodes.set(i + 3, bytes[3]);
        self.nodes.set(i + 4, bytes[4]);
        self.nodes.set(i + 5, bytes[5]);
        proof {
            lemma_le48_roundtrip(ptr.0);
            reveal(le48);
        }
    }

    fn binode_bit(&self, off: u64) -> (r: u16)
        requires
            off + 14 <= self.nodes@.len(),
        ensures
            r == le16(self.nodes@, off as int),
    {
        self.r16(off)
    }

    fn binode_left(&self, off: u64) -> (r: Ptr)
        requires
            off + 14 <= self.nodes@.len(),
        ensures
            r == Ptr(le48(self.nodes@, off + 2)),
    {
        let n = self.nodes.len();
        self.r48(off + 2)
    }

    fn binode_right(&self, off: u64) -> (r: Ptr)
        requires
            off + 14 <= self.nodes@.len(),
        ensures
            r == Ptr(le48(self.nodes@, off + 8)),
    {
        let n = self.nodes.len();
        self.r48(off + 8)
    }

    fn set_binode(&mut self, off: u64, bit: u16, left: Ptr, right: Ptr)
        requires
            off + 14 <= old(self).nodes@.len(),
            left.0 < 0x1_0000_0000_0000,
            right.0 < 0x1_0000_0000_0000,
        ensures
            final(self).nodes@.len() == old(self).nodes@.len(),
            forall|j: int|
                0 <= j < old(self).nodes@.len() && !(off <= j < off + 14) ==> final(self).nodes@[j]
                    == old(self).nodes@[j],
            le16(final(self).nodes@, off as int) == bit,
            le48(final(self).nodes@, off + 2) == left.0,
            le48(final(self).nodes@, off + 8) == right.0,
            final(self).key_data == old(self).key_data,
            final(self).leaves == old(self).leaves,
            final(self).root == old(self).root,
            final(self).model == old(self).model,
            final(self).leaf_rank == old(self).leaf_rank,
            final(self).node_rank == old(self).node_rank,
    {
        let n = self.nodes.len();
        self.w16(off, bit);
        let ghost s1 = self.nodes@;
        self.w48(off + 2, left);
        let ghost s2 = self.nodes@;
        proof {
            reveal(le16);
            assert(le16(s2, off as int) == le16(s1, off as int));
        }
        self.w48(off + 8, right);
        proof {
            reveal(le16);
            reveal(le48);
            assert(le16(self.nodes@, off as int) == le16(s2, off as int));
            assert(le48(self.nodes@, off + 2) == le48(s2, off + 2));
        }
    }

    fn set_binode_left(&mut self, off: u64, left: Ptr)
        requires
            off + 14 <= old(self).nodes@.len(),
            left.0 < 0x1_0000_0000_0000,
        ensures
            final(self).nodes@.len() == old(self).nodes@.len(),
            forall|j: int|
                0 <= j < old(self).nodes@.len() && !(off <= j < off + 14) ==> final(self).nodes@[j]
                    == old(self).nodes@[j],
            le16(final(self).nodes@, off as int) == le16(old(self).nodes@, off as int),
            le48(final(self).nodes@, off + 2) == left.0,
            le48(final(self).nodes@, off + 8) == le48(old(self).nodes@, off + 8),
            final(self).key_data == old(self).key_data,
            final(self).leaves == old(self).leaves,
            final(self).root == old(self).root,
            final(self).model == old(self).model,
            final(self).leaf_rank == old(self).leaf_rank,
            final(self).node_rank == old(self).node_rank,
    {
        let n = self.nodes.len();
        self.w48(off + 2, left);
        proof {
            reveal(le16);
            reveal(le48);
        }
    }

    fn set_binode_right(&mut self, off: u64, right: Ptr)
        requires
            off + 14 <= old(self).nodes@.len(),
            right.0 < 0x1_0000_0000_0000,
        ensures
            final(self).nodes@.len() == old(self).nodes@.len(),
            forall|j: int|
                0 <= j < old(self).nodes@.len() && !(off <= j < off + 14) ==> final(self).nodes@[j]
                    == old(self).nodes@[j],
            le16(final(self).nodes@, off as int) == le16(old(self).nodes@, off as int),
            le48(final(self).nodes@, off + 2) == le48(old(self).nodes@, off + 2),
            le48(final(self).nodes@, off + 8) == right.0,
            final(self).key_data == old(self).key_data,
            final(self).leaves == old(self).leaves,
            final(self).root == old(self).root,
            final(self).model == old(self).model,
            final(self).leaf_rank == old(self).leaf_rank,
            final(self).node_rank == old(self).node_rank,
    {
        let n = self.nodes.len();
        self.w48(off + 8, right);
        proof {
            reveal(le16);
            reveal(le48);
        }
    }

    fn create_leaf(&mut self, key: &[u8], value: u64, Ghost(r): Ghost<nat>) -> (p: Ptr)
        requires
            old(self).core_wf(),
            key@.len() <= MAX_KEY_LEN,
            old(self).key_data@.len() + key@.len() <= PTR_MAX_OFFSET,
            old(self).leaves@.len() + 1 < PTR_MAX_OFFSET,
            r <= old(self).leaves@.len(),
        ensures
            final(self).core_wf(),
            p == leaf_ptr(old(self).leaves@.len() as u64),
            p.spec_leaf(),
            p.spec_offset() == old(self).leaves@.len(),
            p.0 < 0x1_0000_0000_0000,
            final(self).leaves@.len() == old(self).leaves@.len() + 1,
            final(self).leaves@.subrange(0, old(self).leaves@.len() as int) == old(self).leaves@,
            final(self).leaves@[old(self).leaves@.len() as int].value == value,
            final(self).leaf_key(old(self).leaves@.len() as int) == key@,
            forall|i: int|
                0 <= i < old(self).leaves@.len() ==> final(self).leaf_key(i) == old(self).leaf_key(
                    i,
                ),
            final(self).key_data@ == old(self).key_data@ + key@,
            final(self).nodes == old(self).nodes,
            final(self).node_rank == old(self).node_rank,
            final(self).leaf_rank@ == old(self).leaf_rank@.push(r),
            final(self).root == old(self).root,
            final(self).model == old(self).model,
            extends(old(self).trie(), final(self).trie()),
            final(self).trie().valid(p),
            (final(self).trie().rank)(p) == r,
            forall|q: Ptr| #[trigger]
                old(self).trie().valid(q) ==> (final(self).trie().rank)(q) == (old(self).trie().rank)(q),
    {
        let (off, len) = self.store_key(key);
        let idx = self.leaves.len();
        let ghost old_leaves = self.leaves@;
        self.leaves.push(Leaf { key_off: off, key_len: len, value });
        self.leaf_rank = Ghost(self.leaf_rank@.push(r));
        let p = Ptr::leaf(idx as u64);
        proof {
            reveal(BiTrie::ok);
            let t0 = old(self).trie();
            let t1 = self.trie();
            assert(self.leaves@.subrange(0, idx as int) =~= old_leaves);
            assert forall|i: int| 0 <= i < idx implies self.leaf_key(i) == old(self).leaf_key(i) by {
                assert(self.leaves@[i] == old(self).leaves@[i]);
                assert(old(self).leaf_ok(i));
                assert(self.key_data@.subrange(0, old(self).key_data@.len() as int)
                    =~= old(self).key_data@);
                let l = self.leaves@[i];
                assert(self.key_data@.subrange(l.key_off as int, l.key_off + l.key_len)
                    =~= old(self).key_data@.subrange(l.key_off as int, l.key_off + l.key_len));
            }
            assert(self.leaf_key(idx as int) =~= key@);
            assert forall|q: Ptr| #[trigger] t0.valid(q) implies t1.valid(q) && (t1.rank)(q) == (
            t0.rank)(q) by {
                if q.spec_leaf() {
                } else {
                    lemma_valid_node(t0, q);
                }
            }
            assert forall|q: Ptr| #[trigger] t1.valid(q) implies (t1.rank)(q) < t1.bound by {
                if q.spec_leaf() && q.spec_offset() == idx {
                } else {
                    assert(t0.valid(q));
                }
            }
            assert forall|o: int| #[trigger] t1.node_at(o) implies t1.edges_ok(o) by {
                assert(t0.node_at(o));
                assert(t0.edges_ok(o));
                lemma_node_ptr(o as u64);
            }
            assert(t1.nodes.subrange(0, t0.nodes.len() as int) =~= t0.nodes);
            assert forall|i: int| 0 <= i < self.leaves@.len() implies #[trigger] self.leaf_ok(i) by {
                if i < idx {
                    assert(self.leaves@[i] == old(self).leaves@[i]);
                    assert(old(self).leaf_ok(i));
                }
            }
        }
        p
    }

    fn create_binode(&mut self, bit: u16, left: Ptr, right: Ptr, Ghost(r): Ghost<nat>) -> (p: Ptr)
        requires
            old(self).core_wf(),
            old(self).nodes@.len() + 14 <= PTR_MAX_OFFSET,
            old(self).trie().valid(left),
            old(self).trie().valid(right),
            (old(self).trie().rank)(left) > r,
            (old(self).trie().rank)(right) > r,
        ensures
            final(self).core_wf(),
            p == Ptr(old(self).nodes@.len() as u64),
            p.spec_node(),
            p.0 < 0x1_0000_0000_0000,
            final(self).nodes@.len() == old(self).nodes@.len() + 14,
            final(self).nodes@.subrange(0, old(self).nodes@.len() as int) == old(self).nodes@,
            final(self).key_data == old(self).key_data,
            final(self).leaves == old(self).leaves,
            final(self).leaf_rank == old(self).leaf_rank,
            final(self).node_rank@ == old(self).node_rank@.push(r),
            final(self).root == old(self).root,
            final(self).model == old(self).model,
            extends(old(self).trie(), final(self).trie()),
            final(self).trie().valid(p),
            !old(self).trie().valid(p),
            (final(self).trie().rank)(p) == r,
            final(self).trie().bit(p.0 as int) == bit,
            final(self).trie().left(p.0 as int) == left,
            final(self).trie().right(p.0 as int) == right,
            forall|q: Ptr| #[trigger]
                old(self).trie().valid(q) ==> (final(self).trie().rank)(q) == (old(self).trie().rank)(q),
    {
        proof {
            reveal(BiTrie::ok);
            let t0 = self.trie();
            if left.spec_leaf() {
            } else {
                lemma_valid_node(t0, left);
            }
            if right.spec_leaf() {
            } else {
                lemma_valid_node(t0, right);
            }
        }
        let off = self.alloc_binode();
        let ghost mid = self.nodes@;
        self.set_binode(off, bit, left, right);
        self.node_rank = Ghost(self.node_rank@.push(r));
        let p = Ptr::node(off);
        proof {
            lemma_node_ptr(off);
            let t0 = old(self).trie();
            let t1 = self.trie();
            let n0 = old(self).nodes@.len();
            assert forall|j: int| 0 <= j < n0 implies self.nodes@[j] == old(self).nodes@[j] by {
                assert(mid.subrange(0, off as int)[j] == mid[j]);
            }
            assert(t1.nodes.subrange(0, n0 as int) =~= t0.nodes);
            assert forall|q: Ptr| #[trigger] t0.valid(q) implies t1.valid(q) && (t1.rank)(q) == (
            t0.rank)(q) by {
                if q.spec_leaf() {
                } else {
                    lemma_valid_node(t0, q);
                }
            }
            assert forall|q: Ptr| #[trigger] t1.valid(q) implies (t1.rank)(q) < t1.bound by {
                if q.spec_leaf() {
                    assert(t0.valid(q));
                } else if q.0 == off {
                    assert(r < (t0.rank)(left));
                    assert(t0.valid(left));
                } else {
                    assert(t0.valid(q));
                }
            }
            assert forall|o: int| #[trigger] t1.node_at(o) implies t1.edges_ok(o) by {
                lemma_node_ptr(o as u64);
                if o == off {
                    assert(t1.left(o) == left);
                    assert(t1.right(o) == right);
                } else {
                    assert(t0.node_at(o));
                    assert(t0.edges_ok(o));
                    lemma_le_same(t0.nodes, t1.nodes, o);
                }
            }
        }
        proof {
            assert forall|i: int| 0 <= i < self.leaves@.len() implies #[trigger] self.leaf_ok(i) by {
                assert(old(self).leaf_ok(i));
            }
        }
        p
    }

    fn get_from(&self, ptr: Ptr, key: &[u8]) -> (r: Option<u64>)
        requires
            self.core_wf(),
            self.trie().valid(ptr),
        ensures
            r == self.find(ptr, key@),
        decreases self.trie().bound - (self.trie().rank)(ptr),
    {
        proof {
            lemma_reach_leaf(self.trie(), ptr, key@);
        }
        if ptr.is_leaf() {
            let n = self.leaves.len();
            let i = ptr.leaf_idx() as usize;
            let leaf = &self.leaves[i];
            assert(self.trie().reach(ptr, key@) == ptr);
            assert(self.leaf_ok(i as int));
            if bytes_equal(self.get_key(leaf), key) {
                Some(leaf.value)
            } else {
                None
            }
        } else {
            proof {
                lemma_valid_node(self.trie(), ptr);
                crate::binode::lemma_ok_edges(self.trie(), ptr.0 as int);
            }
            let off = ptr.node_off();
            let bit = self.binode_bit(off);
            if bit_at(key, bit) == 0 {
                let l = self.binode_left(off);
                proof {
                    crate::binode::lemma_ok_rank(self.trie(), l);
                }
                assert(self.trie().reach(ptr, key@) == self.trie().reach(l, key@));
                self.get_from(l, key)
            } else {
                let r = self.binode_right(off);
                proof {
                    crate::binode::lemma_ok_rank(self.trie(), r);
                }
                assert(self.trie().reach(ptr, key@) == self.trie().reach(r, key@));
                self.get_from(r, key)
            }
        }
    }

    /// The value stored for `key`.
    pub fn get(&self, key: &[u8]) -> (r: Option<u64>)
        requires
            self.wf(),
        ensures
            r == (if self@.contains_key(key@) {
                Some(self@[key@])
            } else {
                None
            }),
    {
        if self.root.is_null() {
            return None;
        }
        self.get_from(self.root, key)
    }

    /// How the trie `self` relates to `old` after a new leaf for `key` (holding `value`)
    /// split the leaf `l`, which holds `lk`; nodes ranked below `rank_cut` keep their bytes.
    #[verifier::opaque]
    closed spec fn grown(&self, old: &Self, key: Seq<u8>, value: u64, l: Ptr, lk: Seq<u8>, rank_cut: nat) -> bool {
        let n = old.leaves@.len();
        &&& self.core_wf()
        &&& self.leaves@.len() == n + 1
        &&& self.leaves@.subrange(0, n as int) == old.leaves@
        &&& self.leaves@[n as int].value == value
        &&& self.leaf_key(n as int) == key
        &&& forall|i: int| 0 <= i < n ==> #[trigger] self.leaf_key(i) == old.leaf_key(i)
        &&& self.key_data@ == old.key_data@ + key
        &&& self.nodes@.len() == old.nodes@.len() + 14
        &&& self.node_rank@.len() == old.node_rank@.len() + 1
        &&& self.root == old.root
        &&& self.model == old.model
        &&& moved_walks(old.trie(), self.trie(), l, leaf_ptr(n as u64), lk)
        &&& forall|o: int| #[trigger] old.trie().node_at(o) ==> (self.trie().rank)(Ptr(o as u64)) == (
        old.trie().rank)(Ptr(o as u64))
        &&& forall|o: int, j: int|
            #![trigger old.trie().node_at(o), self.nodes@[j]]
            old.trie().node_at(o) && (old.trie().rank)(Ptr(o as u64)) < rank_cut && o <= j < o
                + 14 ==> self.nodes@[j] == old.nodes@[j]
    }

    /// What an insertion of `key` with `value` below `ptr` leaves behind, by its result.
    #[verifier::opaque]
    closed spec fn into_post(&self, old: &Self, ptr: Ptr, key: Seq<u8>, value: u64, r: InsertResult) -> bool {
        let l = old.trie().reach(ptr, key);
        let lk = old.leaf_key(l.spec_offset() as int);
        let n = old.leaves@.len();
        match r {
            InsertResult::Updated(o) => {
                &&& lk == key
                &&& o == old.leaves@[l.spec_offset() as int].value
                &&& self.leaves@ == old.leaves@.update(
                    l.spec_offset() as int,
                    Leaf { value, ..old.leaves@[l.spec_offset() as int] },
                )
                &&& self.nodes == old.nodes
                &&& self.key_data == old.key_data
                &&& self.leaf_rank == old.leaf_rank
                &&& self.node_rank == old.node_rank
                &&& self.root == old.root
                &&& self.model == old.model
            },
            _ => {
                &&& lk != key
                &&& zero_pad_eq(lk, key) ==> (r is NoChange && *self == *old)
                &&& !zero_pad_eq(lk, key) ==> {
                    &&& self.grown(old, key, value, l, lk, (old.trie().rank)(ptr))
                    &&& (r is NoChange ==> self.trie().reach(ptr, key) == leaf_ptr(n as u64))
                    &&& (r matches InsertResult::Replaced(np) ==> {
                        &&& ptr == l
                        &&& np.0 < 0x1_0000_0000_0000
                        &&& self.trie().valid(np)
                        &&& !old.trie().valid(np)
                        &&& (self.trie().rank)(np) == (old.trie().rank)(ptr)
                        &&& self.trie().reach(np, key) == leaf_ptr(n as u64)
                        &&& node_walks(self.trie(), np, l, leaf_ptr(n as u64), lk)
                        &&& extends(old.trie(), self.trie())
                    })
                }
            },
        }
    }

    fn insert_into(&mut self, ptr: Ptr, key: &[u8], value: u64) -> (r: InsertResult)
        requires
            old(self).core_wf(),
            old(self).trie().valid(ptr),
            key@.len() <= MAX_KEY_LEN,
            old(self).leaves@.len() + 1 < PTR_MAX_OFFSET,
            old(self).key_data@.len() + key@.len() <= PTR_MAX_OFFSET,
            old(self).nodes@.len() + 14 <= PTR_MAX_OFFSET,
        ensures
            final(self).core_wf(),
            final(self).into_post(old(self), ptr, key@, value, r),
            old(self).nodes@.len() <= final(self).nodes@.len() <= old(self).nodes@.len() + 14,
            old(self).leaves@.len() <= final(self).leaves@.len() <= old(self).leaves@.len() + 1,
            final(self).root == old(self).root,
            final(self).model == old(self).model,
            r matches InsertResult::Replaced(np) ==> np.0 < 0x1_0000_0000_0000,
        decreases old(self).trie().bound - (old(self).trie().rank)(ptr),
    {
        let ghost t0 = self.trie();
        proof {
            lemma_reach_leaf(t0, ptr, key@);
        }
        if ptr.is_leaf() {
            let nleaves = self.leaves.len();
            let idx = ptr.leaf_idx() as usize;
            let lf = self.leaves[idx];
            proof {
                assert(t0.reach(ptr, key@) == ptr);
                assert(self.leaf_ok(idx as int));
            }
            let existing = vstd::slice::slice_to_vec(self.get_key(&lf));
            assert((ptr.spec_offset() as int) < old(self).leaves@.len());
            assert(idx == ptr.spec_offset());
            assert(existing@ == old(self).leaf_key(ptr.spec_offset() as int));
            if bytes_equal(existing.as_slice(), key) {
                let old_value = lf.value;
                let mut upd = lf;
                upd.value = value;
                self.leaves.set(idx, upd);
                proof {
                    self.lemma_post_updated(old(self), ptr, key@, value, old_value);
                }
                return InsertResult::Updated(old_value);
            }
            match first_diff_bit(existing.as_slice(), key) {
                Some(diff) => {
                    let ghost r = (t0.rank)(ptr);
                    proof {
                        crate::binode::lemma_ok_rank(t0, ptr);
                    }
                    let new_leaf = self.create_leaf(key, value, Ghost(r + 1));
                    let ghost s1 = *self;
                    self.leaf_rank = Ghost(self.leaf_rank@.update(idx as int, r + 1));
                    proof {
                        self.lemma_raised(&s1, old(self), ptr, r + 1);
                    }
                    let ex_bit = bit_at(existing.as_slice(), diff);
                    let (left, right) = if ex_bit == 0 {
                        (ptr, new_leaf)
                    } else {
                        (new_leaf, ptr)
                    };
                    let ghost s1b = *self;
                    let binode = self.create_binode(diff, left, right, Ghost(r));
                    proof {
                        self.lemma_post_split(old(self), &s1b, ptr, key@, value, diff, binode, new_leaf);
                    }
                    InsertResult::Replaced(binode)
                },
                None => {
                    proof {
                        assert(existing@ == old(self).leaf_key(idx as int));
                        reveal(HOT::into_post);
                    }
                    InsertResult::NoChange
                },
            }
        } else {
            proof {
                lemma_valid_node(t0, ptr);
                crate::binode::lemma_ok_edges(t0, ptr.0 as int);
            }
            let off = ptr.node_off();
            let bit = self.binode_bit(off);
            let key_bit = bit_at(key, bit);
            if key_bit == 0 {
                let left = self.binode_left(off);
                proof {
                    crate::binode::lemma_ok_rank(t0, left);
                }
                assert(t0.reach(ptr, key@) == t0.reach(left, key@));
                let res = self.insert_into(left, key, value);
                match res {
                    InsertResult::Updated(old) => {
                        proof {
                            reveal(HOT::into_post);
                        }
                        InsertResult::Updated(old)
                    },
                    InsertResult::Replaced(new_left) => {
                        let ghost mid = *self;
                        self.set_binode_left(off, new_left);
                        proof {
                            reveal(HOT::into_post);
                            self.lemma_after_redirect(old(self), &mid, ptr, left, true, new_left, key@, value);
                        }
                        InsertResult::NoChange
                    },
                    InsertResult::NoChange => {
                        proof {
                            reveal(HOT::into_post);
                            self.lemma_after_descent(old(self), ptr, left, true, key@, value);
                        }
                        InsertResult::NoChange
                    },
                }
            } else {
                let right = self.binode_right(off);
                proof {
                    crate::binode::lemma_ok_rank(t0, right);
                }
                assert(t0.reach(ptr, key@) == t0.reach(right, key@));
                let res = self.insert_into(right, key, value);
                match res {
                    InsertResult::Updated(old) => {
                        proof {
                            reveal(HOT::into_post);
                        }
                        InsertResult::Updated(old)
                    },
                    InsertResult::Replaced(new_right) => {
                        let ghost mid = *self;
                        self.set_binode_right(off, new_right);
                        proof {
                            reveal(HOT::into_post);
                            self.lemma_after_redirect(old(self), &mid, ptr, right, false, new_right, key@, value);
                        }
                        InsertResult::NoChange
                    },
                    InsertResult::NoChange => {
                        proof {
                            reveal(HOT::into_post);
                            self.lemma_after_descent(old(self), ptr, right, false, key@, value);
                        }
                        InsertResult::NoChange
                    },
                }
            }
        }
    }

    proof fn lemma_post_updated(&self, old: &Self, ptr: Ptr, key: Seq<u8>, value: u64, old_value: u64)
        requires
            old.core_wf(),
            old.trie().valid(ptr),
            ptr.spec_leaf(),
            old.leaf_key(ptr.spec_offset() as int) == key,
            old_value == old.leaves@[ptr.spec_offset() as int].value,
            self.leaves@ == old.leaves@.update(
                ptr.spec_offset() as int,
                Leaf { value, ..old.leaves@[ptr.spec_offset() as int] },
            ),
            self.nodes == old.nodes,
            self.key_data == old.key_data,
            self.leaf_rank == old.leaf_rank,
            self.node_rank == old.node_rank,
            self.root == old.root,
            self.model == old.model,
        ensures
            self.core_wf(),
            self.into_post(old, ptr, key, value, InsertResult::Updated(old_value)),
    {
        reveal(HOT::into_post);
        assert(self.trie() == old.trie());
        assert(old.trie().reach(ptr, key) == ptr);
        assert forall|i: int| 0 <= i < self.leaves@.len() implies #[trigger] self.leaf_ok(i) by {
            assert(self.leaves@[i].key_off == old.leaves@[i].key_off);
            assert(self.leaves@[i].key_len == old.leaves@[i].key_len);
            assert(old.leaf_ok(i));
        }
    }

    /// Raising the rank of the leaf `ptr` to `r`, below the bound, keeps the arena ordered.
    proof fn lemma_raised(&self, s1: &Self, old: &Self, ptr: Ptr, r: nat)
        requires
            s1.core_wf(),
            old.core_wf(),
            old.trie().valid(ptr),
            ptr.spec_leaf(),
            r == (old.trie().rank)(ptr) + 1,
            extends(old.trie(), s1.trie()),
            s1.leaves@.len() == old.leaves@.len() + 1,
            forall|q: Ptr| #[trigger] old.trie().valid(q) ==> (s1.trie().rank)(q) == (old.trie().rank)(q),
            self.leaf_rank@ == s1.leaf_rank@.update(ptr.spec_offset() as int, r),
            self.key_data == s1.key_data,
            self.leaves == s1.leaves,
            self.nodes == s1.nodes,
            self.root == s1.root,
            self.model == s1.model,
            self.node_rank == s1.node_rank,
        ensures
            self.core_wf(),
            extends(old.trie(), self.trie()),
            forall|q: Ptr| #[trigger] old.trie().valid(q) && q != ptr ==> (self.trie().rank)(q) == (old.trie().rank)(q),
            (self.trie().rank)(ptr) == r,
            self.trie().nodes == s1.trie().nodes,
            forall|q: Ptr| #[trigger] s1.trie().valid(q) ==> self.trie().valid(q),
            forall|q: Ptr| #[trigger] s1.trie().valid(q) && q != ptr ==> (self.trie().rank)(q) == (s1.trie().rank)(q),
    {
        reveal(BiTrie::ok);        assert forall|i: int| 0 <= i < self.leaves@.len() implies #[trigger] self.leaf_ok(i) by {
            assert(s1.leaf_ok(i));
        }
        let t0 = old.trie();
        let t1 = s1.trie();
        let t1b = self.trie();
        assert(t1.valid(ptr));
        assert forall|q: Ptr| #[trigger] t1b.valid(q) implies (t1b.rank)(q) < t1b.bound by {
            assert(t1.valid(q));
            if q.spec_leaf() {
            } else {
                lemma_valid_node(t1, q);
            }
        }
        assert forall|o: int| #[trigger] t1b.node_at(o) implies t1b.edges_ok(o) by {
            assert(t1.node_at(o));
            assert(t1.edges_ok(o));
            lemma_node_ptr(o as u64);
            if t1.left(o).spec_leaf() {
            } else {
                lemma_valid_node(t1, t1.left(o));
            }
            if t1.right(o).spec_leaf() {
            } else {
                lemma_valid_node(t1, t1.right(o));
            }
        }
        assert forall|q: Ptr| #[trigger] t0.valid(q) && q != ptr implies (t1b.rank)(q) == (t0.rank)(q) by {
            if q.spec_leaf() {
                assert(q.spec_offset() != ptr.spec_offset()) by {
                    if q.spec_offset() == ptr.spec_offset() {
                        crate::binode::lemma_leaf_eq(q, ptr);
                    }
                }
            } else {
                lemma_valid_node(t0, q);
            }
        }
        assert forall|q: Ptr| #[trigger] t1.valid(q) && q != ptr implies (t1b.rank)(q) == (t1.rank)(q) by {
            if q.spec_leaf() {
                if q.spec_offset() == ptr.spec_offset() {
                    crate::binode::lemma_leaf_eq(q, ptr);
                }
            } else {
                lemma_valid_node(t1, q);
            }
        }
    }

    /// The split of the leaf `ptr` by the node `binode`: what `insert_into` promises.
    #[verifier::spinoff_prover]
    #[verifier::rlimit(100)]
    proof fn lemma_post_split(
        &self,
        old: &Self,
        s1b: &Self,
        ptr: Ptr,
        key: Seq<u8>,
        value: u64,
        diff: u16,
        binode: Ptr,
        new_leaf: Ptr,
    )
        requires
            old.core_wf(),
            old.trie().valid(ptr),
            ptr.spec_leaf(),
            ({
                let lk = old.leaf_key(ptr.spec_offset() as int);
                &&& lk != key
                &&& !zero_pad_eq(lk, key)
                &&& bit_of(lk, diff as int) != bit_of(key, diff as int)
            }),
            s1b.core_wf(),
            extends(old.trie(), s1b.trie()),
            forall|q: Ptr| #[trigger] old.trie().valid(q) ==> s1b.trie().valid(q),
            forall|q: Ptr| #[trigger] old.trie().valid(q) && q != ptr ==> (s1b.trie().rank)(q) == (old.trie().rank)(q),
            (s1b.trie().rank)(ptr) == (old.trie().rank)(ptr) + 1,
            new_leaf == leaf_ptr(old.leaves@.len() as u64),
            new_leaf.spec_leaf(),
            s1b.trie().valid(new_leaf),
            (s1b.trie().rank)(new_leaf) == (old.trie().rank)(ptr) + 1,
            s1b.leaves@.len() == old.leaves@.len() + 1,
            s1b.leaves@.subrange(0, old.leaves@.len() as int) == old.leaves@,
            s1b.leaves@[old.leaves@.len() as int].value == value,
            s1b.leaf_key(old.leaves@.len() as int) == key,
            forall|i: int| 0 <= i < old.leaves@.len() ==> s1b.leaf_key(i) == old.leaf_key(i),
            s1b.key_data@ == old.key_data@ + key,
            s1b.nodes == old.nodes,
            s1b.node_rank == old.node_rank,
            s1b.root == old.root,
            s1b.model == old.model,
            self.core_wf(),
            binode == Ptr(s1b.nodes@.len() as u64),
            binode.0 < 0x1_0000_0000_0000,
            self.nodes@.len() == s1b.nodes@.len() + 14,
            self.key_data == s1b.key_data,
            self.leaves == s1b.leaves,
            self.leaf_rank == s1b.leaf_rank,
            self.node_rank@ == s1b.node_rank@.push((old.trie().rank)(ptr)),
            self.root == s1b.root,
            self.model == s1b.model,
            extends(s1b.trie(), self.trie()),
            self.trie().valid(binode),
            !s1b.trie().valid(binode),
            (self.trie().rank)(binode) == (old.trie().rank)(ptr),
            self.trie().bit(binode.0 as int) == diff,
            bit_of(old.leaf_key(ptr.spec_offset() as int), diff as int) == 0 ==> {
                &&& self.trie().left(binode.0 as int) == ptr
                &&& self.trie().right(binode.0 as int) == new_leaf
            },
            bit_of(old.leaf_key(ptr.spec_offset() as int), diff as int) != 0 ==> {
                &&& self.trie().left(binode.0 as int) == new_leaf
                &&& self.trie().right(binode.0 as int) == ptr
            },
            forall|q: Ptr| #[trigger] s1b.trie().valid(q) ==> (self.trie().rank)(q) == (s1b.trie().rank)(q),
        ensures
            self.into_post(old, ptr, key, value, InsertResult::Replaced(binode)),
    {
        reveal(HOT::into_post);
        reveal(HOT::grown);
        let t0 = old.trie();
        let t1 = s1b.trie();
        let t2 = self.trie();
        let lk = old.leaf_key(ptr.spec_offset() as int);
        let n = old.leaves@.len();
        assert(t0.reach(ptr, key) == ptr);
        lemma_node_ptr(binode.0);
        assert(extends(t0, t2)) by {
            assert(t2.nodes.subrange(0, t0.nodes.len() as int) =~= t0.nodes) by {
                assert forall|j: int| 0 <= j < t0.nodes.len() implies t2.nodes[j] == t0.nodes[j] by {
                    assert(t2.nodes.subrange(0, t1.nodes.len() as int)[j] == t2.nodes[j]);
                }
            }
        }
        assert(t1.valid(new_leaf));
        assert(t2.valid(new_leaf)) by {
            crate::binode::lemma_reach_extend(t1, t2, new_leaf, key);
        }
        crate::binode::lemma_split_node(t0, t2, ptr, binode, new_leaf, diff as int, lk, key);
        assert(!t0.valid(binode));
        assert forall|i: int| 0 <= i < n implies #[trigger] self.leaf_key(i) == old.leaf_key(i) by {
            assert(s1b.leaf_key(i) == old.leaf_key(i));
        }
        assert forall|o: int| #[trigger] t0.node_at(o) implies (t2.rank)(Ptr(o as u64)) == (t0.rank)(
        Ptr(o as u64)) by {
            lemma_node_ptr(o as u64);
            assert(t0.valid(Ptr(o as u64)));
            assert(Ptr(o as u64) != ptr);
        }
        assert forall|o: int, j: int|
            #![trigger t0.node_at(o), self.nodes@[j]]
            t0.node_at(o) && (t0.rank)(Ptr(o as u64)) < (t0.rank)(ptr) && o <= j < o + 14 implies self.nodes@[j]
            == old.nodes@[j] by {
            assert(t2.nodes.subrange(0, t0.nodes.len() as int)[j] == t2.nodes[j]);
        }
        let l = t0.reach(ptr, key);
        assert(l == ptr);
        assert(self.core_wf());
        assert(self.leaves@.len() == n + 1);
        assert(self.leaves@.subrange(0, n as int) == old.leaves@);
        assert(self.leaves@[n as int].value == value);
        assert(self.leaf_key(n as int) == key);
        assert(self.key_data@ == old.key_data@ + key);
        assert(self.nodes@.len() == old.nodes@.len() + 14);
        assert(self.node_rank@.len() == old.node_rank@.len() + 1);
        assert(self.root == old.root);
        assert(self.model == old.model);
        assert(new_leaf == leaf_ptr(n as u64));
        assert(binode.0 < 0x1_0000_0000_0000);
        assert(t2.valid(binode));
        assert((t2.rank)(binode) == (t0.rank)(ptr));
        assert(t2.reach(binode, key) == leaf_ptr(n as u64));
        assert(self.grown(old, key, value, l, lk, (t0.rank)(ptr)));
    }

    /// After a descent into `child` that changed nothing at or above `ptr`, what held of
    /// `child` holds of `ptr`.
    proof fn lemma_after_descent(&self, old: &Self, ptr: Ptr, child: Ptr, go_left: bool, key: Seq<u8>, value: u64)
        requires
            old.core_wf(),
            old.trie().valid(ptr),
            !ptr.spec_leaf(),
            child == (if go_left {
                old.trie().left(ptr.0 as int)
            } else {
                old.trie().right(ptr.0 as int)
            }),
            go_left <==> bit_of(key, old.trie().bit(ptr.0 as int) as int) == 0,
            old.trie().reach(ptr, key) == old.trie().reach(child, key),
            ({
                let l = old.trie().reach(child, key);
                let lk = old.leaf_key(l.spec_offset() as int);
                let n = old.leaves@.len();
                &&& lk != key
                &&& zero_pad_eq(lk, key) ==> *self == *old
                &&& !zero_pad_eq(lk, key) ==> {
                    &&& self.grown(old, key, value, l, lk, (old.trie().rank)(child))
                    &&& self.trie().reach(child, key) == leaf_ptr(n as u64)
                }
            }),
        ensures
            ({
                let l = old.trie().reach(ptr, key);
                let lk = old.leaf_key(l.spec_offset() as int);
                let n = old.leaves@.len();
                &&& zero_pad_eq(lk, key) ==> *self == *old
                &&& !zero_pad_eq(lk, key) ==> {
                    &&& self.grown(old, key, value, l, lk, (old.trie().rank)(ptr))
                    &&& self.trie().reach(ptr, key) == leaf_ptr(n as u64)
                }
            }),
    {
        reveal(HOT::grown);
        let t0 = old.trie();
        let o = ptr.0 as int;
        lemma_valid_node(t0, ptr);
        crate::binode::lemma_ok_edges(t0, o);
        let l = t0.reach(child, key);
        let lk = old.leaf_key(l.spec_offset() as int);
        if !zero_pad_eq(lk, key) {
            let t1 = self.trie();
            assert forall|j: int| o <= j < o + 14 implies self.nodes@[j] == old.nodes@[j] by {
                assert(t0.node_at(o));
            }
            lemma_le_same(t0.nodes, t1.nodes, o);
            assert(t1.valid(ptr));
            assert(t1.node_at(o));
            assert(t1.reach(ptr, key) == t1.reach(child, key));
        }
    }

    /// After the leaf under `ptr` on the side of `child` was split into the node `np`, and `ptr`
    /// was pointed at `np`, what the split promised holds of `ptr`.
    #[verifier::spinoff_prover]
    #[verifier::rlimit(100)]
    proof fn lemma_after_redirect(
        &self,
        old: &Self,
        mid: &Self,
        ptr: Ptr,
        child: Ptr,
        go_left: bool,
        np: Ptr,
        key: Seq<u8>,
        value: u64,
    )
        requires
            old.core_wf(),
            old.trie().valid(ptr),
            !ptr.spec_leaf(),
            child == (if go_left {
                old.trie().left(ptr.0 as int)
            } else {
                old.trie().right(ptr.0 as int)
            }),
            go_left <==> bit_of(key, old.trie().bit(ptr.0 as int) as int) == 0,
            old.trie().reach(ptr, key) == old.trie().reach(child, key),
            ({
                let l = old.trie().reach(child, key);
                let lk = old.leaf_key(l.spec_offset() as int);
                let n = old.leaves@.len();
                &&& lk != key
                &&& !zero_pad_eq(lk, key)
                &&& mid.grown(old, key, value, l, lk, (old.trie().rank)(child))
                &&& child == l
                &&& np.0 < 0x1_0000_0000_0000
                &&& mid.trie().valid(np)
                &&& !old.trie().valid(np)
                &&& (mid.trie().rank)(np) == (old.trie().rank)(child)
                &&& mid.trie().reach(np, key) == leaf_ptr(n as u64)
                &&& node_walks(mid.trie(), np, l, leaf_ptr(n as u64), lk)
                &&& extends(old.trie(), mid.trie())
            }),
            self.key_data == mid.key_data,
            self.leaves == mid.leaves,
            self.root == mid.root,
            self.model == mid.model,
            self.leaf_rank == mid.leaf_rank,
            self.node_rank == mid.node_rank,
            self.nodes@.len() == mid.nodes@.len(),
            forall|j: int|
                0 <= j < mid.nodes@.len() && !(ptr.0 <= j < ptr.0 + 14) ==> self.nodes@[j]
                    == mid.nodes@[j],
            le16(self.nodes@, ptr.0 as int) == le16(mid.nodes@, ptr.0 as int),
            go_left ==> {
                &&& le48(self.nodes@, ptr.0 + 2) == np.0
                &&& le48(self.nodes@, ptr.0 + 8) == le48(mid.nodes@, ptr.0 + 8)
            },
            !go_left ==> {
                &&& le48(self.nodes@, ptr.0 + 8) == np.0
                &&& le48(self.nodes@, ptr.0 + 2) == le48(mid.nodes@, ptr.0 + 2)
            },
        ensures
            self.core_wf(),
            ({
                let l = old.trie().reach(ptr, key);
                let lk = old.leaf_key(l.spec_offset() as int);
                let n = old.leaves@.len();
                &&& self.grown(old, key, value, l, lk, (old.trie().rank)(ptr))
                &&& self.trie().reach(ptr, key) == leaf_ptr(n as u64)
            }),
    {
        let t0 = old.trie();
        let t1 = mid.trie();
        let t2 = self.trie();
        let o = ptr.0 as int;
        let n = old.leaves@.len();
        let l = t0.reach(child, key);
        let lk = old.leaf_key(l.spec_offset() as int);
        let nl = leaf_ptr(n as u64);
        HOT::lemma_grown_elim(mid, old, key, value, l, lk, (old.trie().rank)(child));
        lemma_valid_node(t0, ptr);
        crate::binode::lemma_ok_edges(t0, o);
        assert(t1.node_at(o));
        assert forall|j: int| o <= j < o + 14 implies t1.nodes[j] == t0.nodes[j] by {
            assert(t1.nodes.subrange(0, t0.nodes.len() as int)[j] == t1.nodes[j]);
        }
        lemma_le_same(t0.nodes, t1.nodes, o);
        crate::binode::lemma_ok_edges(t1, o);
        assert(same_but_node(t1, t2, o));
        assert((t1.rank)(Ptr(o as u64)) == (t0.rank)(Ptr(o as u64)));
        assert(t2.edges_ok(o));
        lemma_ok_after_write(t1, t2, o);
        assert(t0.ok());
        assert(t1.ok());
        assert(t2.ok());
        assert(extends(t0, t1));
        assert(t0.node_at(o));
        assert(t2.bit(o) == t0.bit(o));
        assert((t2.left(o) == t0.left(o) && t0.right(o) == l && t2.right(o) == np) || (t2.right(o)
            == t0.right(o) && t0.left(o) == l && t2.left(o) == np));
        lemma_reach_leaf(t0, child, key);
        assert(l.spec_leaf());
        assert(!t0.valid(np));
        assert(t1.valid(np));
        assert((t1.rank)(np) > (t1.rank)(Ptr(o as u64)));
        assert(node_walks(t1, np, l, nl, lk));
        assert(redirect(t0, t1, t2, o, np, l, nl, lk));
        crate::binode::lemma_moved_walks_redirect(t0, t1, t2, o, np, l, nl, lk);
        assert forall|o2: int| #[trigger] t0.node_at(o2) implies (t2.rank)(Ptr(o2 as u64)) == (
        t0.rank)(Ptr(o2 as u64)) by {
            assert((t1.rank)(Ptr(o2 as u64)) == (t0.rank)(Ptr(o2 as u64)));
        }
        assert forall|o2: int, j: int|
            #![trigger t0.node_at(o2), self.nodes@[j]]
            t0.node_at(o2) && (t0.rank)(Ptr(o2 as u64)) < (t0.rank)(ptr) && o2 <= j < o2 + 14 implies self.nodes@[j]
            == old.nodes@[j] by {
            lemma_node_ptr(o2 as u64);
            assert(o2 != o);
            lemma_distinct_nodes(o2, o);
            assert(mid.nodes@[j] == old.nodes@[j]);
        }
        lemma_reach_frame(t1, t2, o, np, key);
        assert(t2.valid(ptr));
        assert(t2.reach(ptr, key) == t2.reach(np, key));
        assert forall|i: int| 0 <= i < self.leaves@.len() implies #[trigger] self.leaf_ok(i) by {
            assert(mid.leaf_ok(i));
        }
        assert forall|i: int| 0 <= i < old.leaves@.len() implies #[trigger] self.leaf_key(i) == old.leaf_key(i) by {
            assert(mid.leaf_key(i) == old.leaf_key(i));
        }
        HOT::lemma_grown_intro(self, old, key, value, l, lk, (old.trie().rank)(ptr));
    }

    proof fn lemma_grown_elim(s: &Self, old: &Self, key: Seq<u8>, value: u64, l: Ptr, lk: Seq<u8>, rank_cut: nat)
        requires
            s.grown(old, key, value, l, lk, rank_cut),
        ensures
            s.core_wf(),
            s.leaves@.len() == old.leaves@.len() + 1,
            s.leaves@.subrange(0, old.leaves@.len() as int) == old.leaves@,
            s.leaves@[old.leaves@.len() as int].value == value,
            s.leaf_key(old.leaves@.len() as int) == key,
            forall|i: int| 0 <= i < old.leaves@.len() ==> #[trigger] s.leaf_key(i) == old.leaf_key(i),
            s.key_data@ == old.key_data@ + key,
            s.nodes@.len() == old.nodes@.len() + 14,
            s.node_rank@.len() == old.node_rank@.len() + 1,
            s.root == old.root,
            s.model == old.model,
            moved_walks(old.trie(), s.trie(), l, leaf_ptr(old.leaves@.len() as u64), lk),
            forall|o: int| #[trigger] old.trie().node_at(o) ==> (s.trie().rank)(Ptr(o as u64)) == (
        old.trie().rank)(Ptr(o as u64)),
            forall|o: int, j: int|
            #![trigger old.trie().node_at(o), s.nodes@[j]]
            old.trie().node_at(o) && (old.trie().rank)(Ptr(o as u64)) < rank_cut && o <= j < o
                + 14 ==> s.nodes@[j] == old.nodes@[j],
    {
        reveal(HOT::grown);
    }

    proof fn lemma_grown_intro(s: &Self, old: &Self, key: Seq<u8>, value: u64, l: Ptr, lk: Seq<u8>, rank_cut: nat)
        requires
            s.core_wf(),
            s.leaves@.len() == old.leaves@.len() + 1,
            s.leaves@.subrange(0, old.leaves@.len() as int) == old.leaves@,
            s.leaves@[old.leaves@.len() as int].value == value,
            s.leaf_key(old.leaves@.len() as int) == key,
            forall|i: int| 0 <= i < old.leaves@.len() ==> #[trigger] s.leaf_key(i) == old.leaf_key(i),
            s.key_data@ == old.key_data@ + key,
            s.nodes@.len() == old.nodes@.len() + 14,
            s.node_rank@.len() == old.node_rank@.len() + 1,
            s.root == old.root,
            s.model == old.model,
            moved_walks(old.trie(), s.trie(), l, leaf_ptr(old.leaves@.len() as u64), lk),
            forall|o: int| #[trigger] old.trie().node_at(o) ==> (s.trie().rank)(Ptr(o as u64)) == (
        old.trie().rank)(Ptr(o as u64)),
            forall|o: int, j: int|
            #![trigger old.trie().node_at(o), s.nodes@[j]]
            old.trie().node_at(o) && (old.trie().rank)(Ptr(o as u64)) < rank_cut && o <= j < o
                + 14 ==> s.nodes@[j] == old.nodes@[j],
        ensures
            s.grown(old, key, value, l, lk, rank_cut),
    {
        reveal(HOT::grown);
    }

    /// Inserts `key` with `value`; returns the value it replaced. A key that equals a stored
    /// key once both are padded with zero bytes is not stored (no bit tells them apart).
    pub fn insert(&mut self, key: &[u8], value: u64) -> (r: Option<u64>)
        requires
            old(self).wf(),
            key@.len() <= MAX_KEY_LEN,
            old(self)@.len() + 1 < PTR_MAX_OFFSET,
            old(self).key_bytes() + key@.len() <= PTR_MAX_OFFSET,
            old(self).node_bytes() + 14 <= PTR_MAX_OFFSET,
        ensures
            final(self).wf(),
            r == (if old(self)@.contains_key(key@) {
                Some(old(self)@[key@])
            } else {
                None
            }),
            final(self)@ == (if collides(old(self)@, key@) {
                old(self)@
            } else {
                old(self)@.insert(key@, value)
            }),
            final(self).key_bytes() <= old(self).key_bytes() + key@.len(),
            final(self).node_bytes() <= old(self).node_bytes() + 14,
    {
        if self.root.is_null() {
            proof {
                self.model@.dom().lemma_len0_is_empty();
                assert(self.model@ =~= Map::empty());
                assert(self.trie().ok()) by {
                    reveal(BiTrie::ok);
                }
            }
            let p = self.create_leaf(key, value, Ghost(0));
            let ghost s1 = *self;
            self.root = p;
            self.model = Ghost(Map::empty().insert(key@, value));
            proof {
                assert forall|i: int| 0 <= i < self.leaves@.len() implies #[trigger] self.leaf_ok(i) by {
                    assert(s1.leaf_ok(i));
                }
                assert(self.leaf_key(0) == s1.leaf_key(0));
                assert(self.trie() == s1.trie());
                self.lemma_single(old(self), key@, value);
            }
            return None;
        }
        let root = self.root;
        let res = self.insert_into(root, key, value);
        let ghost mid = *self;
        let out = match res {
            InsertResult::Updated(old) => Some(old),
            InsertResult::Replaced(new_ptr) => {
                self.root = new_ptr;
                None
            },
            InsertResult::NoChange => None,
        };
        self.model = Ghost(
            if collides(old(self)@, key@) {
                old(self)@
            } else {
                old(self)@.insert(key@, value)
            },
        );
        proof {
            self.lemma_insert_model(old(self), &mid, key@, value, res);
            reveal(HOT::into_post);
            if !(res is Updated) {
                let l = old(self).trie().reach(root, key@);
                let lk = old(self).leaf_key(l.spec_offset() as int);
                if !zero_pad_eq(lk, key@) {
                    HOT::lemma_grown_elim(&mid, old(self), key@, value, l, lk, (old(self).trie().rank)(root));
                }
            }
        }
        out
    }

    proof fn lemma_single(&self, old: &Self, key: Seq<u8>, value: u64)
        requires
            old.wf(),
            old.leaves@.len() == 0,
            self.core_wf(),
            self.leaves@.len() == 1,
            self.leaf_key(0) == key,
            self.leaves@[0].value == value,
            self.root == leaf_ptr(0),
            self.root.spec_leaf(),
            self.trie().valid(self.root),
            self.model@ == Map::<Seq<u8>, u64>::empty().insert(key, value),
            old@ == Map::<Seq<u8>, u64>::empty(),
        ensures
            self.wf(),
            self@ == (if collides(old@, key) {
                old@
            } else {
                old@.insert(key, value)
            }),
    {
        assert(!collides(old@, key));
        assert forall|k: Seq<u8>| #[trigger] self.model@.contains_key(k) == self.lookup(k).is_some() by {
            assert(self.trie().reach(self.root, k) == self.root);
        }
        assert forall|k: Seq<u8>| #[trigger] self.model@.contains_key(k) implies self.model@[k]
            == self.lookup(k).unwrap() by {
            assert(self.trie().reach(self.root, k) == self.root);
        }
        assert(self.model@.dom() =~= set![key]);
    }

    /// Distinct stored keys are never equal once padded with zero bytes.
    proof fn lemma_no_collision(&self, k1: Seq<u8>, k2: Seq<u8>)
        requires
            self.wf(),
            self@.contains_key(k1),
            self@.contains_key(k2),
            zero_pad_eq(k1, k2),
        ensures
            k1 == k2,
    {
        lemma_reach_zero_pad(self.trie(), self.root, k1, k2);
    }

    proof fn lemma_insert_model(&self, old: &Self, mid: &Self, key: Seq<u8>, value: u64, res: InsertResult)
        requires
            old.wf(),
            old.leaves@.len() > 0,
            mid.core_wf(),
            mid.into_post(old, old.root, key, value, res),
            old.root == mid.root,
            old.model == mid.model,
            self.key_data == mid.key_data,
            self.leaves == mid.leaves,
            self.nodes == mid.nodes,
            self.leaf_rank == mid.leaf_rank,
            self.node_rank == mid.node_rank,
            self.root == (match res {
                InsertResult::Replaced(np) => np,
                _ => mid.root,
            }),
            self.model@ == (if collides(old@, key) {
                old@
            } else {
                old@.insert(key, value)
            }),
        ensures
            self.wf(),
            match res {
                InsertResult::Updated(o) => old@.contains_key(key) && o == old@[key],
                _ => !old@.contains_key(key),
            },
    {
        reveal(HOT::into_post);
        let t0 = old.trie();
        let t1 = self.trie();
        let root = old.root;
        lemma_reach_leaf(t0, root, key);
        let l = t0.reach(root, key);
        let li = l.spec_offset() as int;
        let lk = old.leaf_key(li);
        let n = old.leaves@.len();
        assert(self.core_wf()) by {
            assert forall|i: int| 0 <= i < self.leaves@.len() implies #[trigger] self.leaf_ok(i) by {
                assert(mid.leaf_ok(i));
            }
        }
        if let InsertResult::Updated(o) = res {
            assert(t1 == t0);
            assert(old.lookup(key) == Some(o));
            assert(!collides(old@, key)) by {
                if collides(old@, key) {
                    let k2 = choose|k2: Seq<u8>| #[trigger] old@.contains_key(k2) && k2 != key && zero_pad_eq(k2, key);
                    old.lemma_no_collision(k2, key);
                }
            }
            assert forall|k: Seq<u8>| #[trigger] self.lookup(k) == (if k == key {
                Some(value)
            } else {
                old.lookup(k)
            }) by {
                lemma_reach_leaf(t0, root, k);
                let j = t0.reach(root, k).spec_offset() as int;
                assert(self.leaf_key(j) == old.leaf_key(j));
            }
            assert(self.model@.dom() =~= old.model@.dom());
        } else if zero_pad_eq(lk, key) {
            assert(*mid == *old);
            lemma_reach_zero_pad(t0, root, lk, key);
            assert(lk != key);
            assert(old.lookup(lk).is_some());
            assert(old.model@.contains_key(lk));
            assert(collides(old@, key));
            assert(self.trie() == old.trie());
            assert forall|k: Seq<u8>| #[trigger] self.lookup(k) == old.lookup(k) by {}
        } else {
            HOT::lemma_grown_elim(mid, old, key, value, l, lk, (t0.rank)(root));
            assert(!old@.contains_key(key));
            assert(!collides(old@, key)) by {
                if collides(old@, key) {
                    let k2 = choose|k2: Seq<u8>| #[trigger] old@.contains_key(k2) && k2 != key && zero_pad_eq(k2, key);
                    lemma_reach_zero_pad(t0, root, k2, key);
                    assert(old.lookup(k2).is_some());
                }
            }
            let nl = leaf_ptr(n as u64);
            assert forall|k: Seq<u8>| #[trigger] self.lookup(k) == (if k == key {
                Some(value)
            } else {
                old.lookup(k)
            }) by {
                lemma_reach_leaf(t0, root, k);
                lemma_moved_walks_at(t0, t1, l, nl, lk, root, k);
                if let InsertResult::Replaced(np) = res {
                    crate::binode::lemma_node_walks_at(t1, np, l, nl, lk, k);
                    assert(t0.reach(root, k) == l);
                }
                let before = t0.reach(root, k);
                let after = t1.reach(self.root, k);
                if after == before {
                    let j = before.spec_offset() as int;
                    assert(t0.valid(before));
                    assert(j < n);
                    assert(self.leaves@.subrange(0, n as int)[j] == self.leaves@[j]);
                    assert(self.leaves@[j] == old.leaves@[j]);
                    assert(mid.leaf_key(j) == old.leaf_key(j));
                    assert(self.leaf_key(j) == old.leaf_key(j));
                    if k == key {
                        assert(t1 == mid.trie());
                        assert(t1.reach(self.root, key) == nl);
                        crate::binode::lemma_leaf_ptr(n as u64);
                        assert(nl.spec_offset() == n);
                        assert(false);
                    }
                } else {
                    reveal(crate::binode::keys_differ);
                    crate::binode::lemma_leaf_ptr(n as u64);
                    assert(after.spec_offset() == n);
                    assert(self.leaf_key(n as int) == mid.leaf_key(n as int));
                    assert(self.leaf_key(n as int) == key);
                    assert(self.leaves@[n as int].value == value);
                    assert(old.leaf_key(li) == lk);
                }
            }
            assert(self.model@.dom().finite());
        }
        assert forall|k: Seq<u8>| #[trigger] self.model@.contains_key(k) == self.lookup(k).is_some() by {}
        assert forall|k: Seq<u8>| #[trigger] self.model@.contains_key(k) implies self.model@[k]
            == self.lookup(k).unwrap() by {}
    }

    /// Bytes reserved by the key arena, the leaves and the node arena.
    pub fn memory_usage(&self) -> (r: usize)
        ensures
            r >= self.key_bytes() + self.node_bytes() || r == usize::MAX,
            r >= self.key_bytes() + 18 * self.spec_leaf_count() + self.node_bytes() || r == usize::MAX,
            self.wf() ==> (r >= self.key_bytes() + 18 * self@.len() + self.node_bytes() || r
                == usize::MAX),
    {
        let kc = vec_capacity(&self.key_data);
        let lc = vec_capacity(&self.leaves);
        let nc = vec_capacity(&self.nodes);
        let lb = match lc.checked_mul(LEAF_BYTES) {
            Some(x) => x,
            None => usize::MAX,
        };
        kc.saturating_add(lb).saturating_add(nc)
    }

    /// Bytes in use by the key arena, the leaves and the node arena.
    pub fn memory_usage_actual(&self) -> (r: usize)
        requires
            self.wf(),
        ensures
            r == if self.key_bytes() + self@.len() * 18 + self.node_bytes() <= usize::MAX {
                self.key_bytes() + self@.len() * 18 + self.node_bytes()
            } else {
                usize::MAX as nat
            },
    {
        let lb = match self.leaves.len().checked_mul(LEAF_BYTES) {
            Some(x) => x,
            None => usize::MAX,
        };
        self.key_data.len().saturating_add(lb).saturating_add(self.nodes.len())
    }

    /// Gives spare capacity back; the contents stay.
    pub fn shrink_to_fit(&mut self)
        ensures
            final(self)@ == old(self)@,
            final(self).wf() == old(self).wf(),
            final(self).key_bytes() == old(self).key_bytes(),
            final(self).node_bytes() == old(self).node_bytes(),
    {
        vec_shrink_to_fit(&mut self.key_data);
        vec_shrink_to_fit(&mut self.leaves);
        vec_shrink_to_fit(&mut self.nodes);
        proof {
            assert(self.key_data@ == old(self).key_data@);
            assert(self.leaves@ == old(self).leaves@);
            assert(self.nodes@ == old(self).nodes@);
            assert(self.trie() == old(self).trie());
            assert(self.wf() == old(self).wf()) by {
                assert forall|i: int| 0 <= i < self.leaves@.len() implies self.leaf_ok(i) == old(self).leaf_ok(i) by {}
                assert forall|k: Seq<u8>| self.lookup(k) == old(self).lookup(k) by {
                    if self.leaves@.len() > 0 {
                        let j = self.trie().reach(self.root, k).spec_offset() as int;
                        assert(self.leaf_key(j) == old(self).leaf_key(j));
                    }
                }
            }
        }
    }
}

} // verus!

verus! {

impl Default for HOT {
    fn default() -> (r: Self)
        ensures
            r.wf(),
            r@ == Map::<Seq<u8>, u64>::empty(),
    {
        Self::new()
    }
}

} // verus!
