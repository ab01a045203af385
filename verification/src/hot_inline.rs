//! HOT with values inline: a height-optimized trie of binary discriminator nodes whose
//! leaves point straight into the key arena.
//!
//! Each internal node tests one bit of the key (keys compare as if padded with zero bytes)
//! and sends the walk left on 0, right on 1. Each entry sits once in the key arena as
//! `[len:2][key][value:8]`, little-endian; a leaf pointer holds the entry's offset, so no
//! table of leaves is kept. Nodes take 14 bytes each in a node arena:
//! `[bit:2][left:6][right:6]`, pointers of 48 bits.
use vstd::prelude::*;
use crate::binode::{
    BiTrie, BINODE_SIZE, PTR_MAX_OFFSET, bit_at, bit_of, bytes_equal, first_diff_bit,
    le16, le48, leaf_ptr, lemma_le16_roundtrip, lemma_le48_roundtrip,
    lemma_reach_leaf, lemma_reach_zero_pad, lemma_ok_after_write, lemma_valid_node,
    lemma_node_ptr, lemma_distinct_nodes, lemma_le_same, extends, same_but_node, redirect,
    zero_pad_eq, moved_walks, node_walks, lemma_moved_walks_at, lemma_reach_frame,
};
use crate::le_bytes::{
    le_u16, le_u64, lemma_read_u16_bytes, lemma_read_u64_bytes, push_u16, push_u64, read_u16,
    read_u64, u16_bytes, u64_bytes, write_u64,
};
use crate::vec_mem::{vec_capacity, vec_shrink_to_fit};

verus! {

pub use crate::binode::Ptr;

/// The longest key the trie takes: bit positions are 16-bit.
pub const MAX_KEY_LEN: usize = 8191;

/// Where an entry is in the key arena, how long its key is, and its value.
#[derive(Clone, Copy)]
struct Leaf {
    off: u64,
    key_len: u16,
    value: u64,
}

/// Whether inserting `key` into a map holding the keys of `m` is refused: another key equals
/// it once both are padded with zero bytes, so that no bit tells them apart.
pub open spec fn collides(m: Map<Seq<u8>, u64>, key: Seq<u8>) -> bool {
    exists|k: Seq<u8>| #[trigger] m.contains_key(k) && k != key && zero_pad_eq(k, key)
}

pub struct InlineHot {
    key_data: Vec<u8>,
    nodes: Vec<u8>,
    root: Ptr,
    count: usize,
    model: Ghost<Map<Seq<u8>, u64>>,
    leaves: Ghost<Seq<Leaf>>,
    slot: Ghost<Map<u64, nat>>,
    leaf_rank: Ghost<Seq<nat>>,
    node_rank: Ghost<Seq<nat>>,
}

enum InsertResult {
    Updated(u64),
    Replaced(Ptr),
    NoChange,
}

impl View for InlineHot {
    type V = Map<Seq<u8>, u64>;

    closed spec fn view(&self) -> Map<Seq<u8>, u64> {
        self.model@
    }
}

/// Where the entry `l` ends in the key arena.
spec fn entry_end(l: Leaf) -> int {
    l.off + 2 + l.key_len + 8
}

/// The entry `l` lies within `d` as its length, its key and its value.
spec fn entry_ok(d: Seq<u8>, l: Leaf) -> bool {
    &&& entry_end(l) <= d.len()
    &&& l.key_len <= MAX_KEY_LEN
    &&& le_u16(d, l.off as int) == l.key_len
    &&& le_u64(d, l.off + 2 + l.key_len) == l.value
}

/// The entries `ls` lie in order and apart in `d`, each found at its offset through `slot`.
spec fn entries_ok(d: Seq<u8>, ls: Seq<Leaf>, slot: Map<u64, nat>, count: usize) -> bool {
    &&& d.len() <= PTR_MAX_OFFSET
    &&& count == ls.len()
    &&& 10 * ls.len() <= d.len()
    &&& forall|i: int| 0 <= i < ls.len() ==> #[trigger] entry_ok(d, ls[i])
    &&& forall|i: int, j: int|
        0 <= i < j < ls.len() ==> entry_end(#[trigger] ls[i]) <= (#[trigger] ls[j]).off
    &&& forall|i: int|
        0 <= i < ls.len() ==> slot.contains_key(#[trigger] ls[i].off) && slot[ls[i].off] == i
    &&& forall|o: u64| #[trigger]
        slot.contains_key(o) ==> slot[o] < ls.len() && ls[slot[o] as int].off == o
}

impl InlineHot {
    closed spec fn trie(&self) -> BiTrie {
        BiTrie {
            nodes: self.nodes@,
            leaf_live: |o: u64| self.slot@.contains_key(o),
            rank: |p: Ptr|
                if p.spec_leaf() {
                    self.leaf_rank@[self.slot@[p.spec_offset()] as int]
                } else {
                    self.node_rank@[p.0 as int / 14]
                },
            bound: self.leaves@.len(),
            narrow: false,
        }
    }

    /// The leaf that the leaf pointer `p` points at.
    closed spec fn li(&self, p: Ptr) -> int {
        self.slot@[p.spec_offset()] as int
    }

    /// The pointer the next leaf gets: the end of the key arena.
    closed spec fn next_leaf(&self) -> Ptr {
        leaf_ptr(self.key_data@.len() as u64)
    }

    closed spec fn leaf_key(&self, i: int) -> Seq<u8> {
        let l = self.leaves@[i];
        self.key_data@.subrange(l.off + 2, l.off + 2 + l.key_len)
    }

    /// What a walk from `p` finds for `key`.
    closed spec fn find(&self, p: Ptr, key: Seq<u8>) -> Option<u64> {
        let i = self.li(self.trie().reach(p, key));
        if self.leaf_key(i) == key {
            Some(self.leaves@[i].value)
        } else {
            None
        }
    }

    closed spec fn lookup(&self, key: Seq<u8>) -> Option<u64> {
        if self.leaves@.len() == 0 {
            None
        } else {
            self.find(self.root, key)
        }
    }

    closed spec fn core_wf(&self) -> bool {
        &&& self.trie().ok()
        &&& self.leaf_rank@.len() == self.leaves@.len()
        &&& self.node_rank@.len() * 14 == self.nodes@.len()
        &&& self.nodes@.len() <= PTR_MAX_OFFSET
        &&& entries_ok(self.key_data@, self.leaves@, self.slot@, self.count)
    }

    /// Where entry `i` ends in the key arena.
    #[verifier::inline]
    closed spec fn entry_end(&self, i: int) -> int {
        entry_end(self.leaves@[i])
    }

    /// Entry `i` lies within the key arena as its length, its key and its value.
    #[verifier::inline]
    closed spec fn leaf_ok(&self, i: int) -> bool {
        entry_ok(self.key_data@, self.leaves@[i])
    }

    /// The internal well-formedness of the trie: the node arena is a graph whose walks end,
    /// every stored key is found at its own entry, and the map view is what the walks find.
    pub closed spec fn wf(&self) -> bool {
        &&& self.core_wf()
        &&& (self.leaves@.len() == 0 <==> self.root.spec_null())
        &&& self.leaves@.len() > 0 ==> self.trie().valid(self.root)
        &&& self.model@.dom().finite()
        &&& self.model@.len() == self.leaves@.len()
        &&& forall|k: Seq<u8>| #[trigger]
            self.model@.contains_key(k) == self.lookup(k).is_some()
        &&& forall|k: Seq<u8>| #[trigger]
            self.model@.contains_key(k) ==> self.model@[k] == self.lookup(k).unwrap()
    }

    /// A well-formed map holds finitely many keys.
    pub proof fn lemma_wf_finite(&self)
        requires
            self.wf(),
        ensures
            self@.dom().finite(),
    {
    }

    /// Bytes of entries stored so far.
    pub closed spec fn key_bytes(&self) -> nat {
        self.key_data@.len()
    }

    /// Bytes of nodes allocated so far.
    pub closed spec fn node_bytes(&self) -> nat {
        self.nodes@.len()
    }

    /// An empty trie.
    pub fn new() -> (r: Self)
        ensures
            r.wf(),
            r@ == Map::<Seq<u8>, u64>::empty(),
    {
        let r = InlineHot {
            key_data: Vec::new(),
            nodes: Vec::new(),
            root: Ptr::null(),
            count: 0,
            model: Ghost(Map::empty()),
            leaves: Ghost(Seq::empty()),
            slot: Ghost(Map::empty()),
            leaf_rank: Ghost(Seq::empty()),
            node_rank: Ghost(Seq::empty()),
        };
        assert(r.trie().ok()) by {
            reveal(BiTrie::ok);
        }
        assert(r.model@.dom() =~= Set::empty());
        r
    }

    /// The number of keys stored.
    pub fn len(&self) -> (r: usize)
        requires
            self.wf(),
        ensures
            r == self@.len(),
    {
        self.count
    }

    /// Whether no key is stored.
    pub fn is_empty(&self) -> (r: bool)
        requires
            self.wf(),
        ensures
            r == (self@.len() == 0),
    {
        self.count == 0
    }

    /// Append the entry `[len][key][value]` to the key arena; returns where it starts.
    fn store_entry(&mut self, key: &[u8], value: u64) -> (r: u64)
        requires
            old(self).key_data@.len() + key@.len() + 10 <= PTR_MAX_OFFSET,
            key@.len() <= MAX_KEY_LEN,
        ensures
            final(self).key_data@ == old(self).key_data@ + u16_bytes(key@.len() as u16) + key@
                + u64_bytes(value),
            r == old(self).key_data@.len(),
            final(self).nodes == old(self).nodes,
            final(self).root == old(self).root,
            final(self).count == old(self).count,
            final(self).model == old(self).model,
            final(self).leaves == old(self).leaves,
            final(self).slot == old(self).slot,
            final(self).leaf_rank == old(self).leaf_rank,
            final(self).node_rank == old(self).node_rank,
    {
        let off = self.key_data.len();
        let ghost start = self.key_data@;
        push_u16(&mut self.key_data, key.len() as u16);
        let ghost mid = self.key_data@;
        let mut i: usize = 0;
        while i < key.len()
            invariant
                i <= key@.len(),
                self.key_data@ == mid + key@.subrange(0, i as int),
                self.nodes == old(self).nodes,
                self.root == old(self).root,
                self.count == old(self).count,
                self.model == old(self).model,
                self.leaves == old(self).leaves,
                self.slot == old(self).slot,
                self.leaf_rank == old(self).leaf_rank,
                self.node_rank == old(self).node_rank,
            decreases key@.len() - i,
        {
            self.key_data.push(key[i]);
            assert(self.key_data@ =~= mid + key@.subrange(0, i + 1));
            i += 1;
        }
        assert(key@.subrange(0, key@.len() as int) =~= key@);
        push_u64(&mut self.key_data, value);
        off as u64
    }

    /// The key of the entry at `off`.
    fn get_key(&self, off: u64) -> (r: &[u8])
        requires
            self.core_wf(),
            self.slot@.contains_key(off),
        ensures
            r@ == self.leaf_key(self.slot@[off] as int),
    {
        let ghost i = self.slot@[off] as int;
        assert(self.leaf_ok(i));
        let n = self.key_data.len();
        let data = self.key_data.as_slice();
        let o = off as usize;
        let len = read_u16(data, o) as usize;
        vstd::slice::slice_subrange(data, o + 2, o + 2 + len)
    }

    /// The value of the entry at `off`.
    fn get_value(&self, off: u64) -> (r: u64)
        requires
            self.core_wf(),
            self.slot@.contains_key(off),
        ensures
            r == self.leaves@[self.slot@[off] as int].value,
    {
        let ghost i = self.slot@[off] as int;
        assert(self.leaf_ok(i));
        let n = self.key_data.len();
        let data = self.key_data.as_slice();
        let o = off as usize;
        let len = read_u16(data, o) as usize;
        read_u64(data, o + 2 + len)
    }

    /// Overwrite the value of the entry at `off`.
    fn set_value(&mut self, off: u64, value: u64)
        requires
            old(self).core_wf(),
            old(self).slot@.contains_key(off),
        ensures
            final(self).core_wf(),
            final(self).leaves@ == old(self).leaves@.update(
                old(self).slot@[off] as int,
                Leaf { value, ..old(self).leaves@[old(self).slot@[off] as int] },
            ),
            final(self).key_data@.len() == old(self).key_data@.len(),
            forall|j: int|
                0 <= j < old(self).leaves@.len() ==> #[trigger] final(self).leaf_key(j)
                    == old(self).leaf_key(j),
            final(self).nodes == old(self).nodes,
            final(self).root == old(self).root,
            final(self).count == old(self).count,
            final(self).model == old(self).model,
            final(self).slot == old(self).slot,
            final(self).leaf_rank == old(self).leaf_rank,
            final(self).node_rank == old(self).node_rank,
    {
        let ghost i = self.slot@[off] as int;
        let ghost l = self.leaves@[i];
        assert(self.leaf_ok(i));
        let n = self.key_data.len();
        let o = off as usize;
        let len = read_u16(self.key_data.as_slice(), o) as usize;
        let vo = o + 2 + len;
        write_u64(&mut self.key_data, vo, value);
        self.leaves = Ghost(self.leaves@.update(i, Leaf { value, ..l }));
        proof {
            let d0 = old(self).key_data@;
            let d = self.key_data@;
            assert forall|j: int| 0 <= j < d0.len() && !(vo <= j < vo + 8) implies #[trigger] d[j]
                == d0[j] by {
                if j < vo {
                    assert(d.subrange(0, vo as int)[j] == d0.subrange(0, vo as int)[j]);
                } else {
                    assert(d[j] == d0.subrange(vo + 8, d0.len() as int)[j - vo - 8]);
                }
            }
            assert(d.subrange(vo as int, vo + 8) =~= u64_bytes(value));
            lemma_read_u64_bytes(d, vo as int, value);
            assert forall|j: int| 0 <= j < self.leaves@.len() implies #[trigger] self.leaf_ok(j) by {
                assert(old(self).leaf_ok(j));
                let lj = old(self).leaves@[j];
                if j != i {
                    if j < i {
                        assert(old(self).entry_end(j) <= l.off);
                    } else {
                        assert(old(self).entry_end(i) <= lj.off);
                    }
                    let w = lj.off + 2 + lj.key_len;
                    assert(d[lj.off as int] == d0[lj.off as int]);
                    assert(d[lj.off + 1] == d0[lj.off + 1]);
                    assert(d[w] == d0[w]);
                    assert(d[w + 1] == d0[w + 1]);
                    assert(d[w + 2] == d0[w + 2]);
                    assert(d[w + 3] == d0[w + 3]);
                    assert(d[w + 4] == d0[w + 4]);
                    assert(d[w + 5] == d0[w + 5]);
                    assert(d[w + 6] == d0[w + 6]);
                    assert(d[w + 7] == d0[w + 7]);
                } else {
                    assert(d[l.off as int] == d0[l.off as int]);
                    assert(d[l.off + 1] == d0[l.off + 1]);
                }
            }
            assert forall|j: int| 0 <= j < self.leaves@.len() implies #[trigger] self.leaf_key(j)
                == old(self).leaf_key(j) by {
                assert(old(self).leaf_ok(j));
                let lj = old(self).leaves@[j];
                if j != i {
                    if j < i {
                        assert(old(self).entry_end(j) <= l.off);
                    } else {
                        assert(old(self).entry_end(i) <= lj.off);
                    }
                    let w = lj.off + 2 + lj.key_len;
                    assert(d[lj.off as int] == d0[lj.off as int]);
                    assert(d[lj.off + 1] == d0[lj.off + 1]);
                    assert(d[w] == d0[w]);
                    assert(d[w + 1] == d0[w + 1]);
                    assert(d[w + 2] == d0[w + 2]);
                    assert(d[w + 3] == d0[w + 3]);
                    assert(d[w + 4] == d0[w + 4]);
                    assert(d[w + 5] == d0[w + 5]);
                    assert(d[w + 6] == d0[w + 6]);
                    assert(d[w + 7] == d0[w + 7]);
                } else {
                    assert(d[l.off as int] == d0[l.off as int]);
                    assert(d[l.off + 1] == d0[l.off + 1]);
                }
                assert(self.leaf_key(j) =~= old(self).leaf_key(j));
            }
            assert forall|a: int, b: int|
                0 <= a < b < self.leaves@.len() implies entry_end(#[trigger] self.leaves@[a])
                    <= (#[trigger] self.leaves@[b]).off by {
                assert(old(self).entry_end(a) <= old(self).leaves@[b].off);
            }
            assert forall|a: int|
                0 <= a < self.leaves@.len() implies self.slot@.contains_key(#[trigger] self.leaves@[a].off)
                    && self.slot@[self.leaves@[a].off] == a by {
                assert(old(self).leaves@[a].off == self.leaves@[a].off);
            }
            assert(self.trie() == old(self).trie());
        }
    }

    fn alloc_binode(&mut self) -> (r: u64)
        requires
            old(self).nodes@.len() + 14 <= PTR_MAX_OFFSET,
        ensures
            r == old(self).nodes@.len(),
            final(self).nodes@.len() == old(self).nodes@.len() + 14,
            final(self).nodes@.subrange(0, r as int) == old(self).nodes@,
            final(self).key_data == old(self).key_data,
            final(self).leaves == old(self).leaves,
            final(self).slot == old(self).slot,
            final(self).count == old(self).count,
            final(self).root == old(self).root,
            final(self).model == old(self).model,
            final(self).leaf_rank == old(self).leaf_rank,
            final(self).node_rank == old(self).node_rank,
    {
        let off = self.nodes.len();
        let mut i: usize = 0;
        while i < BINODE_SIZE
            invariant
                i <= 14,
                self.nodes@.len() == off + i,
                self.nodes@.subrange(0, off as int) == old(self).nodes@,
                self.key_data == old(self).key_data,
                self.leaves == old(self).leaves,
                self.slot == old(self).slot,
                self.count == old(self).count,
                self.root == old(self).root,
                self.model == old(self).model,
                self.leaf_rank == old(self).leaf_rank,
                self.node_rank == old(self).node_rank,
            decreases 14 - i,
        {
            let ghost prev = self.nodes@;
            self.nodes.push(0);
            assert(self.nodes@.subrange(0, off as int) =~= prev.subrange(0, off as int));
            i += 1;
        }
        off as u64
    }

    fn r16(&self, o: u64) -> (r: u16)
        requires
            o + 2 <= self.nodes@.len(),
        ensures
            r == le16(self.nodes@, o as int),
    {
        let n = self.nodes.len();
        let i = o as usize;
        proof {
            reveal(le16);
        }
        (self.nodes[i] as u16) | ((self.nodes[i + 1] as u16) << 8)
    }

    fn w16(&mut self, o: u64, v: u16)
        requires
            o + 2 <= old(self).nodes@.len(),
        ensures
            final(self).nodes@.len() == old(self).nodes@.len(),
            forall|j: int|
                0 <= j < old(self).nodes@.len() && !(o <= j < o + 2) ==> final(self).nodes@[j]
                    == old(self).nodes@[j],
            le16(final(self).nodes@, o as int) == v,
            final(self).key_data == old(self).key_data,
            final(self).leaves == old(self).leaves,
            final(self).slot == old(self).slot,
            final(self).count == old(self).count,
            final(self).root == old(self).root,
            final(self).model == old(self).model,
            final(self).leaf_rank == old(self).leaf_rank,
            final(self).node_rank == old(self).node_rank,
    {
        let n = self.nodes.len();
        let i = o as usize;
        self.nodes.set(i, v as u8);
        self.nodes.set(i + 1, (v >> 8) as u8);
        proof {
            reveal(le16);
            lemma_le16_roundtrip(v);
        }
    }

    fn r48(&self, o: u64) -> (r: Ptr)
        requires
            o + 6 <= self.nodes@.len(),
        ensures
            r.0 == le48(self.nodes@, o as int),
    {
        let n = self.nodes.len();
        let i = o as usize;
        let bytes = [
            self.nodes[i],
            self.nodes[i + 1],
            self.nodes[i + 2],
            self.nodes[i + 3],
            self.nodes[i + 4],
            self.nodes[i + 5],
        ];
        let r = Ptr::from_bytes(bytes);
        proof {
            reveal(le48);
        }
        r
    }

    fn w48(&mut self, o: u64, ptr: Ptr)
        requires
            o + 6 <= old(self).nodes@.len(),
            ptr.0 < 0x1_0000_0000_0000,
        ensures
            final(self).nodes@.len() == old(self).nodes@.len(),
            forall|j: int|
                0 <= j < old(self).nodes@.len() && !(o <= j < o + 6) ==> final(self).nodes@[j]
                    == old(self).nodes@[j],
            le48(final(self).nodes@, o as int) == ptr.0,
            final(self).key_data == old(self).key_data,
            final(self).leaves == old(self).leaves,
            final(self).slot == old(self).slot,
            final(self).count == old(self).count,
            final(self).root == old(self).root,
            final(self).model == old(self).model,
            final(self).leaf_rank == old(self).leaf_rank,
            final(self).node_rank == old(self).node_rank,
    {
        let n = self.nodes.len();
        let i = o as usize;
        let bytes = ptr.to_bytes();
        self.nodes.set(i, bytes[0]);
        self.nodes.set(i + 1, bytes[1]);
        self.nodes.set(i + 2, bytes[2]);
        self.nodes.set(i + 3, bytes[3]);
        self.nodes.set(i + 4, bytes[4]);
        self.nodes.set(i + 5, bytes[5]);
        proof {
            lemma_le48_roundtrip(ptr.0);
            reveal(le48);
        }
    }

    fn binode_bit(&self, off: u64) -> (r: u16)
        requires
            off + 14 <= self.nodes@.len(),
        ensures
            r == le16(self.nodes@, off as int),
    {
        self.r16(off)
    }

    fn binode_left(&self, off: u64) -> (r: Ptr)
        requires
            off + 14 <= self.nodes@.len(),
        ensures
            r == Ptr(le48(self.nodes@, off + 2)),
    {
        let n = self.nodes.len();
        self.r48(off + 2)
    }

    fn binode_right(&self, off: u64) -> (r: Ptr)
        requires
            off + 14 <= self.nodes@.len(),
        ensures
            r == Ptr(le48(self.nodes@, off + 8)),
    {
        let n = self.nodes.len();
        self.r48(off + 8)
    }

    fn set_binode(&mut self, off: u64, bit: u16, left: Ptr, right: Ptr)
        requires
            off + 14 <= old(self).nodes@.len(),
            left.0 < 0x1_0000_0000_0000,
            right.0 < 0x1_0000_0000_0000,
        ensures
            final(self).nodes@.len() == old(self).nodes@.len(),
            forall|j: int|
                0 <= j < old(self).nodes@.len() && !(off <= j < off + 14) ==> final(self).nodes@[j]
                    == old(self).nodes@[j],
            le16(final(self).nodes@, off as int) == bit,
            le48(final(self).nodes@, off + 2) == left.0,
            le48(final(self).nodes@, off + 8) == right.0,
            final(self).key_data == old(self).key_data,
            final(self).leaves == old(self).leaves,
            final(self).slot == old(self).slot,
            final(self).count == old(self).count,
            final(self).root == old(self).root,
            final(self).model == old(self).model,
            final(self).leaf_rank == old(self).leaf_rank,
            final(self).node_rank == old(self).node_rank,
    {
        let n = self.nodes.len();
        self.w16(off, bit);
        let ghost s1 = self.nodes@;
        self.w48(off + 2, left);
        let ghost s2 = self.nodes@;
        proof {
            reveal(le16);
            assert(le16(s2, off as int) == le16(s1, off as int));
        }
        self.w48(off + 8, right);
        proof {
            reveal(le16);
            reveal(le48);
            assert(le16(self.nodes@, off as int) == le16(s2, off as int));
            assert(le48(self.nodes@, off + 2) == le48(s2, off + 2));
        }
    }

    fn set_binode_left(&mut self, off: u64, left: Ptr)
        requires
            off + 14 <= old(self).nodes@.len(),
            left.0 < 0x1_0000_0000_0000,
        ensures
            final(self).nodes@.len() == old(self).nodes@.len(),
            forall|j: int|
                0 <= j < old(self).nodes@.len() && !(off <= j < off + 14) ==> final(self).nodes@[j]
                    == old(self).nodes@[j],
            le16(final(self).nodes@, off as int) == le16(old(self).nodes@, off as int),
            le48(final(self).nodes@, off + 2) == left.0,
            le48(final(self).nodes@, off + 8) == le48(old(self).nodes@, off + 8),
            final(self).key_data == old(self).key_data,
            final(self).leaves == old(self).leaves,
            final(self).slot == old(self).slot,
            final(self).count == old(self).count,
            final(self).root == old(self).root,
            final(self).model == old(self).model,
            final(self).leaf_rank == old(self).leaf_rank,
            final(self).node_rank == old(self).node_rank,
    {
        let n = self.nodes.len();
        self.w48(off + 2, left);
        proof {
            reveal(le16);
            reveal(le48);
        }
    }

    fn set_binode_right(&mut self, off: u64, right: Ptr)
        requires
            off + 14 <= old(self).nodes@.len(),
            right.0 < 0x1_0000_0000_0000,
        ensures
            final(self).nodes@.len() == old(self).nodes@.len(),
            forall|j: int|
                0 <= j < old(self).nodes@.len() && !(off <= j < off + 14) ==> final(self).nodes@[j]
                    == old(self).nodes@[j],
            le16(final(self).nodes@, off as int) == le16(old(self).nodes@, off as int),
            le48(final(self).nodes@, off + 2) == le48(old(self).nodes@, off + 2),
            le48(final(self).nodes@, off + 8) == right.0,
            final(self).key_data == old(self).key_data,
            final(self).leaves == old(self).leaves,
            final(self).slot == old(self).slot,
            final(self).count == old(self).count,
            final(self).root == old(self).root,
            final(self).model == old(self).model,
            final(self).leaf_rank == old(self).leaf_rank,
            final(self).node_rank == old(self).node_rank,
    {
        let n = self.nodes.len();
        self.w48(off + 8, right);
        proof {
            reveal(le16);
            reveal(le48);
        }
    }

    /// A live leaf points at an entry that lies before the end of the key arena.
    proof fn lemma_leaf_below(&self, q: Ptr)
        requires
            self.core_wf(),
            self.trie().valid(q),
            q.spec_leaf(),
        ensures
            0 <= self.li(q) < self.leaves@.len(),
            self.leaves@[self.li(q)].off == q.spec_offset(),
            q.spec_offset() < self.key_data@.len(),
    {
        assert(self.slot@.contains_key(q.spec_offset()));
        assert(self.leaf_ok(self.li(q)));
    }

    /// Whatever lies in the key arena before `n` stays: the entries there keep their keys,
    /// lengths and values.
    proof fn lemma_entries_kept(&self, old: &Self, n: int)
        requires
            old.core_wf(),
            n == old.leaves@.len(),
            self.leaves@.len() >= n,
            forall|i: int| 0 <= i < n ==> #[trigger] self.leaves@[i] == old.leaves@[i],
            self.key_data@.len() >= old.key_data@.len(),
            forall|j: int| 0 <= j < old.key_data@.len() ==> #[trigger] self.key_data@[j] == old.key_data@[j],
        ensures
            forall|i: int| 0 <= i < n ==> #[trigger] self.leaf_ok(i),
            forall|i: int| 0 <= i < n ==> #[trigger] self.leaf_key(i) == old.leaf_key(i),
    {
        assert forall|i: int| 0 <= i < n implies #[trigger] self.leaf_ok(i) by {
            assert(old.leaf_ok(i));
            let l = old.leaves@[i];
            assert(self.leaves@[i] == l);
            assert(self.key_data@[l.off as int] == old.key_data@[l.off as int]);
            assert(self.key_data@[l.off + 1] == old.key_data@[l.off + 1]);
            let vo = l.off + 2 + l.key_len;
            assert(self.key_data@[vo] == old.key_data@[vo]);
            assert(self.key_data@[vo + 1] == old.key_data@[vo + 1]);
            assert(self.key_data@[vo + 2] == old.key_data@[vo + 2]);
            assert(self.key_data@[vo + 3] == old.key_data@[vo + 3]);
            assert(self.key_data@[vo + 4] == old.key_data@[vo + 4]);
            assert(self.key_data@[vo + 5] == old.key_data@[vo + 5]);
            assert(self.key_data@[vo + 6] == old.key_data@[vo + 6]);
            assert(self.key_data@[vo + 7] == old.key_data@[vo + 7]);
        }
        assert forall|i: int| 0 <= i < n implies #[trigger] self.leaf_key(i) == old.leaf_key(i) by {
            assert(old.leaf_ok(i));
            let l = old.leaves@[i];
            assert(self.leaves@[i] == l);
            assert(self.key_data@[l.off as int] == old.key_data@[l.off as int]);
            assert(self.key_data@[l.off + 1] == old.key_data@[l.off + 1]);
            let vo = l.off + 2 + l.key_len;
            assert(self.key_data@[vo] == old.key_data@[vo]);
            assert(self.key_data@[vo + 1] == old.key_data@[vo + 1]);
            assert(self.key_data@[vo + 2] == old.key_data@[vo + 2]);
            assert(self.key_data@[vo + 3] == old.key_data@[vo + 3]);
            assert(self.key_data@[vo + 4] == old.key_data@[vo + 4]);
            assert(self.key_data@[vo + 5] == old.key_data@[vo + 5]);
            assert(self.key_data@[vo + 6] == old.key_data@[vo + 6]);
            assert(self.key_data@[vo + 7] == old.key_data@[vo + 7]);
            assert(self.leaf_key(i) =~= old.leaf_key(i));
        }
    }

    fn create_leaf(&mut self, key: &[u8], value: u64, Ghost(r): Ghost<nat>) -> (p: Ptr)
        requires
            old(self).core_wf(),
            key@.len() <= MAX_KEY_LEN,
            old(self).key_data@.len() + key@.len() + 10 <= PTR_MAX_OFFSET,
            r <= old(self).leaves@.len(),
        ensures
            final(self).core_wf(),
            p == old(self).next_leaf(),
            p.spec_leaf(),
            p.spec_offset() == old(self).key_data@.len(),
            p.0 < 0x1_0000_0000_0000,
            final(self).li(p) == old(self).leaves@.len(),
            final(self).leaves@.len() == old(self).leaves@.len() + 1,
            final(self).leaves@.subrange(0, old(self).leaves@.len() as int) == old(self).leaves@,
            final(self).leaves@[old(self).leaves@.len() as int].value == value,
            final(self).leaf_key(old(self).leaves@.len() as int) == key@,
            forall|i: int|
                0 <= i < old(self).leaves@.len() ==> final(self).leaf_key(i) == old(self).leaf_key(
                    i,
                ),
            final(self).key_data@.len() == old(self).key_data@.len() + key@.len() + 10,
            final(self).slot@ == old(self).slot@.insert(
                old(self).key_data@.len() as u64,
                old(self).leaves@.len() as nat,
            ),
            final(self).nodes == old(self).nodes,
            final(self).node_rank == old(self).node_rank,
            final(self).leaf_rank@ == old(self).leaf_rank@.push(r),
            final(self).root == old(self).root,
            final(self).model == old(self).model,
            forall|q: Ptr| #[trigger]
                old(self).trie().valid(q) && q.spec_leaf() ==> final(self).li(q) == old(self).li(q),
            extends(old(self).trie(), final(self).trie()),
            final(self).trie().valid(p),
            (final(self).trie().rank)(p) == r,
            forall|q: Ptr| #[trigger]
                old(self).trie().valid(q) ==> (final(self).trie().rank)(q) == (old(self).trie().rank)(q),
    {
        let off = self.store_entry(key, value);
        let kl = self.key_data.len();
        let ghost n = self.leaves@.len() as int;
        let ghost old_leaves = self.leaves@;
        let ghost lf = Leaf { off, key_len: key@.len() as u16, value };
        self.leaves = Ghost(self.leaves@.push(lf));
        self.slot = Ghost(self.slot@.insert(off, n as nat));
        self.leaf_rank = Ghost(self.leaf_rank@.push(r));
        self.count = self.count + 1;
        let p = Ptr::leaf(off);
        proof {
            reveal(BiTrie::ok);
            let t0 = old(self).trie();
            let t1 = self.trie();
            let d0 = old(self).key_data@;
            let d = self.key_data@;
            assert(self.leaves@.subrange(0, n) =~= old_leaves);
            assert forall|j: int| 0 <= j < d0.len() implies #[trigger] d[j] == d0[j] by {}
            self.lemma_entries_kept(old(self), n);
            assert(d.subrange(off as int, off + 2) =~= u16_bytes(key@.len() as u16));
            lemma_read_u16_bytes(d, off as int, key@.len() as u16);
            assert(d.subrange(off + 2 + key@.len(), off + 2 + key@.len() + 8) =~= u64_bytes(value));
            lemma_read_u64_bytes(d, off + 2 + key@.len(), value);
            assert(self.leaf_ok(n));
            assert(self.leaf_key(n) =~= key@);
            assert forall|i: int| 0 <= i < self.leaves@.len() implies #[trigger] self.leaf_ok(i) by {
                if i < n {
                    assert(self.leaf_ok(i));
                }
            }
            assert forall|i: int, j: int|
                0 <= i < j < self.leaves@.len() implies entry_end(#[trigger] self.leaves@[i])
                    <= (#[trigger] self.leaves@[j]).off by {
                if j < n {
                    assert(old(self).entry_end(i) <= old(self).leaves@[j].off);
                } else {
                    assert(old(self).leaf_ok(i));
                }
            }
            assert forall|i: int|
                0 <= i < self.leaves@.len() implies self.slot@.contains_key(#[trigger] self.leaves@[i].off)
                    && self.slot@[self.leaves@[i].off] == i by {
                if i < n {
                    assert(old(self).leaf_ok(i));
                    assert(old(self).slot@.contains_key(old_leaves[i].off));
                }
            }
            assert forall|o: u64| #[trigger] self.slot@.contains_key(o) implies self.slot@[o]
                < self.leaves@.len() && self.leaves@[self.slot@[o] as int].off == o by {
                if o != off {
                    assert(old(self).slot@.contains_key(o));
                }
            }
            // Every leaf of the old arena lies below the new entry.
            assert forall|q: Ptr| #[trigger] t0.valid(q) && q.spec_leaf() implies q.spec_offset() < off by {
                let i = old(self).slot@[q.spec_offset()] as int;
                assert(old(self).leaf_ok(i));
            }
            assert forall|q: Ptr| #[trigger] t0.valid(q) implies t1.valid(q) && (t1.rank)(q) == (
            t0.rank)(q) && (q.spec_leaf() ==> self.li(q) == old(self).li(q)) by {
                if q.spec_leaf() {
                    assert(q.spec_offset() < off);
                } else {
                    lemma_valid_node(t0, q);
                }
            }
            assert forall|q: Ptr| #[trigger] t1.valid(q) implies (t1.rank)(q) < t1.bound by {
                if q.spec_leaf() && q.spec_offset() == off {
                } else if q.spec_leaf() {
                    assert(t0.valid(q));
                } else {
                    assert(t0.valid(q));
                }
            }
            assert forall|o: int| #[trigger] t1.node_at(o) implies t1.edges_ok(o) by {
                assert(t0.node_at(o));
                assert(t0.edges_ok(o));
                lemma_node_ptr(o as u64);
            }
            assert(t1.nodes.subrange(0, t0.nodes.len() as int) =~= t0.nodes);
            crate::binode::lemma_leaf_ptr(off);
        }
        p
    }

    fn create_binode(&mut self, bit: u16, left: Ptr, right: Ptr, Ghost(r): Ghost<nat>) -> (p: Ptr)
        requires
            old(self).core_wf(),
            old(self).nodes@.len() + 14 <= PTR_MAX_OFFSET,
            old(self).trie().valid(left),
            old(self).trie().valid(right),
            (old(self).trie().rank)(left) > r,
            (old(self).trie().rank)(right) > r,
        ensures
            final(self).core_wf(),
            p == Ptr(old(self).nodes@.len() as u64),
            p.spec_node(),
            p.0 < 0x1_0000_0000_0000,
            final(self).nodes@.len() == old(self).nodes@.len() + 14,
            final(self).nodes@.subrange(0, old(self).nodes@.len() as int) == old(self).nodes@,
            final(self).key_data == old(self).key_data,
            final(self).leaves == old(self).leaves,
            final(self).slot == old(self).slot,
            final(self).count == old(self).count,
            final(self).leaf_rank == old(self).leaf_rank,
            final(self).node_rank@ == old(self).node_rank@.push(r),
            final(self).root == old(self).root,
            final(self).model == old(self).model,
            extends(old(self).trie(), final(self).trie()),
            final(self).trie().valid(p),
            !old(self).trie().valid(p),
            (final(self).trie().rank)(p) == r,
            final(self).trie().bit(p.0 as int) == bit,
            final(self).trie().left(p.0 as int) == left,
            final(self).trie().right(p.0 as int) == right,
            forall|q: Ptr| #[trigger]
                old(self).trie().valid(q) ==> (final(self).trie().rank)(q) == (old(self).trie().rank)(q),
    {
        proof {
            reveal(BiTrie::ok);
            let t0 = self.trie();
            if left.spec_leaf() {
            } else {
                lemma_valid_node(t0, left);
            }
            if right.spec_leaf() {
            } else {
                lemma_valid_node(t0, right);
            }
        }
        let off = self.alloc_binode();
        let ghost mid = self.nodes@;
        self.set_binode(off, bit, left, right);
        self.node_rank = Ghost(self.node_rank@.push(r));
        let p = Ptr::node(off);
        proof {
            lemma_node_ptr(off);
            let t0 = old(self).trie();
            let t1 = self.trie();
            let n0 = old(self).nodes@.len();
            assert forall|j: int| 0 <= j < n0 implies self.nodes@[j] == old(self).nodes@[j] by {
                assert(mid.subrange(0, off as int)[j] == mid[j]);
            }
            assert(t1.nodes.subrange(0, n0 as int) =~= t0.nodes);
            assert forall|q: Ptr| #[trigger] t0.valid(q) implies t1.valid(q) && (t1.rank)(q) == (
            t0.rank)(q) by {
                if q.spec_leaf() {
                } else {
                    lemma_valid_node(t0, q);
                }
            }
            assert forall|q: Ptr| #[trigger] t1.valid(q) implies (t1.rank)(q) < t1.bound by {
                if q.spec_leaf() {
                    assert(t0.valid(q));
                } else if q.0 == off {
                    assert(r < (t0.rank)(left));
                    assert(t0.valid(left));
                } else {
                    assert(t0.valid(q));
                }
            }
            assert forall|o: int| #[trigger] t1.node_at(o) implies t1.edges_ok(o) by {
                lemma_node_ptr(o as u64);
                if o == off {
                    assert(t1.left(o) == left);
                    assert(t1.right(o) == right);
                } else {
                    assert(t0.node_at(o));
                    assert(t0.edges_ok(o));
                    lemma_le_same(t0.nodes, t1.nodes, o);
                }
            }
        }
        proof {
            assert forall|i: int| 0 <= i < self.leaves@.len() implies #[trigger] self.leaf_ok(i) by {
                assert(old(self).leaf_ok(i));
            }
        }
        p
    }

    fn get_from(&self, ptr: Ptr, key: &[u8]) -> (r: Option<u64>)
        requires
            self.core_wf(),
            self.trie().valid(ptr),
        ensures
            r == self.find(ptr, key@),
        decreases self.trie().bound - (self.trie().rank)(ptr),
    {
        proof {
            lemma_reach_leaf(self.trie(), ptr, key@);
        }
        if ptr.is_leaf() {
            let off = ptr.leaf_off();
            assert(self.trie().reach(ptr, key@) == ptr);
            if bytes_equal(self.get_key(off), key) {
                Some(self.get_value(off))
            } else {
                None
            }
        } else {
            proof {
                lemma_valid_node(self.trie(), ptr);
                crate::binode::lemma_ok_edges(self.trie(), ptr.0 as int);
            }
            let off = ptr.node_off();
            let bit = self.binode_bit(off);
            if bit_at(key, bit) == 0 {
                let l = self.binode_left(off);
                proof {
                    crate::binode::lemma_ok_rank(self.trie(), l);
                }
                assert(self.trie().reach(ptr, key@) == self.trie().reach(l, key@));
                self.get_from(l, key)
            } else {
                let r = self.binode_right(off);
                proof {
                    crate::binode::lemma_ok_rank(self.trie(), r);
                }
                assert(self.trie().reach(ptr, key@) == self.trie().reach(r, key@));
                self.get_from(r, key)
            }
        }
    }

    /// The value stored for `key`.
    pub fn get(&self, key: &[u8]) -> (r: Option<u64>)
        requires
            self.wf(),
        ensures
            r == (if self@.contains_key(key@) {
                Some(self@[key@])
            } else {
                None
            }),
    {
        if self.root.is_null() {
            return None;
        }
        self.get_from(self.root, key)
    }

    /// How the trie `self` relates to `old` after a new leaf for `key` (holding `value`)
    /// split the leaf `l`, which holds `lk`; nodes ranked below `rank_cut` keep their bytes.
    #[verifier::opaque]
    closed spec fn grown(&self, old: &Self, key: Seq<u8>, value: u64, l: Ptr, lk: Seq<u8>, rank_cut: nat) -> bool {
        let n = old.leaves@.len();
        &&& self.core_wf()
        &&& self.leaves@.len() == n + 1
        &&& self.leaves@.subrange(0, n as int) == old.leaves@
        &&& self.leaves@[n as int].value == value
        &&& self.leaf_key(n as int) == key
        &&& forall|i: int| 0 <= i < n ==> #[trigger] self.leaf_key(i) == old.leaf_key(i)
        &&& self.key_data@.len() == old.key_data@.len() + key.len() + 10
        &&& self.slot@ == old.slot@.insert(old.key_data@.len() as u64, n as nat)
        &&& self.nodes@.len() == old.nodes@.len() + 14
        &&& self.node_rank@.len() == old.node_rank@.len() + 1
        &&& self.root == old.root
        &&& self.model == old.model
        &&& moved_walks(old.trie(), self.trie(), l, old.next_leaf(), lk)
        &&& forall|o: int| #[trigger] old.trie().node_at(o) ==> (self.trie().rank)(Ptr(o as u64)) == (
        old.trie().rank)(Ptr(o as u64))
        &&& forall|o: int, j: int|
            #![trigger old.trie().node_at(o), self.nodes@[j]]
            old.trie().node_at(o) && (old.trie().rank)(Ptr(o as u64)) < rank_cut && o <= j < o
                + 14 ==> self.nodes@[j] == old.nodes@[j]
    }

    /// What an insertion of `key` with `value` below `ptr` leaves behind, by its result.
    #[verifier::opaque]
    closed spec fn into_post(&self, old: &Self, ptr: Ptr, key: Seq<u8>, value: u64, r: InsertResult) -> bool {
        let l = old.trie().reach(ptr, key);
        let lk = old.leaf_key(old.li(l));
        let n = old.leaves@.len();
        match r {
            InsertResult::Updated(o) => {
                &&& lk == key
                &&& o == old.leaves@[old.li(l)].value
                &&& self.leaves@ == old.leaves@.update(
                    old.li(l),
                    Leaf { value, ..old.leaves@[old.li(l)] },
                )
                &&& self.nodes == old.nodes
                &&& self.key_data@.len() == old.key_data@.len()
                &&& forall|i: int| 0 <= i < n ==> #[trigger] self.leaf_key(i) == old.leaf_key(i)
                &&& self.slot == old.slot
                &&& self.count == old.count
                &&& self.leaf_rank == old.leaf_rank
                &&& self.node_rank == old.node_rank
                &&& self.root == old.root
                &&& self.model == old.model
            },
            _ => {
                &&& lk != key
                &&& zero_pad_eq(lk, key) ==> (r is NoChange && *self == *old)
                &&& !zero_pad_eq(lk, key) ==> {
                    &&& self.grown(old, key, value, l, lk, (old.trie().rank)(ptr))
                    &&& (r is NoChange ==> self.trie().reach(ptr, key) == old.next_leaf())
                    &&& (r matches InsertResult::Replaced(np) ==> {
                        &&& ptr == l
                        &&& np.0 < 0x1_0000_0000_0000
                        &&& self.trie().valid(np)
                        &&& !old.trie().valid(np)
                        &&& (self.trie().rank)(np) == (old.trie().rank)(ptr)
                        &&& self.trie().reach(np, key) == old.next_leaf()
                        &&& node_walks(self.trie(), np, l, old.next_leaf(), lk)
                        &&& extends(old.trie(), self.trie())
                    })
                }
            },
        }
    }

    fn insert_into(&mut self, ptr: Ptr, key: &[u8], value: u64) -> (r: InsertResult)
        requires
            old(self).core_wf(),
            old(self).trie().valid(ptr),
            key@.len() <= MAX_KEY_LEN,
            old(self).key_data@.len() + key@.len() + 10 <= PTR_MAX_OFFSET,
            old(self).nodes@.len() + 14 <= PTR_MAX_OFFSET,
        ensures
            final(self).core_wf(),
            final(self).into_post(old(self), ptr, key@, value, r),
            old(self).nodes@.len() <= final(self).nodes@.len() <= old(self).nodes@.len() + 14,
            old(self).leaves@.len() <= final(self).leaves@.len() <= old(self).leaves@.len() + 1,
            final(self).root == old(self).root,
            final(self).model == old(self).model,
            r matches InsertResult::Replaced(np) ==> np.0 < 0x1_0000_0000_0000,
        decreases old(self).trie().bound - (old(self).trie().rank)(ptr),
    {
        let ghost t0 = self.trie();
        proof {
            lemma_reach_leaf(t0, ptr, key@);
        }
        if ptr.is_leaf() {
            let off = ptr.leaf_off();
            let ghost idx = self.li(ptr);
            proof {
                assert(t0.reach(ptr, key@) == ptr);
                old(self).lemma_leaf_below(ptr);
                assert(old(self).leaf_ok(idx));
            }
            let existing = vstd::slice::slice_to_vec(self.get_key(off));
            assert(existing@ == old(self).leaf_key(old(self).li(ptr)));
            if bytes_equal(existing.as_slice(), key) {
                let old_value = self.get_value(off);
                self.set_value(off, value);
                proof {
                    self.lemma_post_updated(old(self), ptr, key@, value, old_value);
                }
                return InsertResult::Updated(old_value);
            }
            match first_diff_bit(existing.as_slice(), key) {
                Some(diff) => {
                    let ghost r = (t0.rank)(ptr);
                    proof {
                        crate::binode::lemma_ok_rank(t0, ptr);
                    }
                    let new_leaf = self.create_leaf(key, value, Ghost(r + 1));
                    let ghost s1 = *self;
                    self.leaf_rank = Ghost(self.leaf_rank@.update(idx, r + 1));
                    proof {
                        self.lemma_raised(&s1, old(self), ptr, r + 1);
                    }
                    let ex_bit = bit_at(existing.as_slice(), diff);
                    let (left, right) = if ex_bit == 0 {
                        (ptr, new_leaf)
                    } else {
                        (new_leaf, ptr)
                    };
                    let ghost s1b = *self;
                    let binode = self.create_binode(diff, left, right, Ghost(r));
                    proof {
                        self.lemma_post_split(old(self), &s1b, ptr, key@, value, diff, binode, new_leaf);
                    }
                    InsertResult::Replaced(binode)
                },
                None => {
                    proof {
                        assert(existing@ == old(self).leaf_key(idx));
                        reveal(InlineHot::into_post);
                    }
                    InsertResult::NoChange
                },
            }
        } else {
            proof {
                lemma_valid_node(t0, ptr);
                crate::binode::lemma_ok_edges(t0, ptr.0 as int);
            }
            let off = ptr.node_off();
            let bit = self.binode_bit(off);
            let key_bit = bit_at(key, bit);
            if key_bit == 0 {
                let left = self.binode_left(off);
                proof {
                    crate::binode::lemma_ok_rank(t0, left);
                }
                assert(t0.reach(ptr, key@) == t0.reach(left, key@));
                let res = self.insert_into(left, key, value);
                match res {
                    InsertResult::Updated(old) => {
                        proof {
                            reveal(InlineHot::into_post);
                        }
                        InsertResult::Updated(old)
                    },
                    InsertResult::Replaced(new_left) => {
                        let ghost mid = *self;
                        self.set_binode_left(off, new_left);
                        proof {
                            reveal(InlineHot::into_post);
                            self.lemma_after_redirect(old(self), &mid, ptr, left, true, new_left, key@, value);
                        }
                        InsertResult::NoChange
                    },
                    InsertResult::NoChange => {
                        proof {
                            reveal(InlineHot::into_post);
                            self.lemma_after_descent(old(self), ptr, left, true, key@, value);
                        }
                        InsertResult::NoChange
                    },
                }
            } else {
                let right = self.binode_right(off);
                proof {
                    crate::binode::lemma_ok_rank(t0, right);
                }
                assert(t0.reach(ptr, key@) == t0.reach(right, key@));
                let res = self.insert_into(right, key, value);
                match res {
                    InsertResult::Updated(old) => {
                        proof {
                            reveal(InlineHot::into_post);
                        }
                        InsertResult::Updated(old)
                    },
                    InsertResult::Replaced(new_right) => {
                        let ghost mid = *self;
                        self.set_binode_right(off, new_right);
                        proof {
                            reveal(InlineHot::into_post);
                            self.lemma_after_redirect(old(self), &mid, ptr, right, false, new_right, key@, value);
                        }
                        InsertResult::NoChange
                    },
                    InsertResult::NoChange => {
                        proof {
                            reveal(InlineHot::into_post);
                            self.lemma_after_descent(old(self), ptr, right, false, key@, value);
                        }
                        InsertResult::NoChange
                    },
                }
            }
        }
    }

    proof fn lemma_post_updated(&self, old: &Self, ptr: Ptr, key: Seq<u8>, value: u64, old_value: u64)
        requires
            old.core_wf(),
            self.core_wf(),
            old.trie().valid(ptr),
            ptr.spec_leaf(),
            old.leaf_key(old.li(ptr)) == key,
            old_value == old.leaves@[old.li(ptr)].value,
            self.leaves@ == old.leaves@.update(
                old.li(ptr),
                Leaf { value, ..old.leaves@[old.li(ptr)] },
            ),
            self.key_data@.len() == old.key_data@.len(),
            forall|j: int| 0 <= j < old.leaves@.len() ==> #[trigger] self.leaf_key(j) == old.leaf_key(j),
            self.nodes == old.nodes,
            self.slot == old.slot,
            self.count == old.count,
            self.leaf_rank == old.leaf_rank,
            self.node_rank == old.node_rank,
            self.root == old.root,
            self.model == old.model,
        ensures
            self.into_post(old, ptr, key, value, InsertResult::Updated(old_value)),
    {
        reveal(InlineHot::into_post);
        assert(self.trie() == old.trie());
        assert(old.trie().reach(ptr, key) == ptr);
    }

    /// Raising the rank of the leaf `ptr` to `r`, below the bound, keeps the arena ordered.
    proof fn lemma_raised(&self, s1: &Self, old: &Self, ptr: Ptr, r: nat)
        requires
            s1.core_wf(),
            old.core_wf(),
            old.trie().valid(ptr),
            ptr.spec_leaf(),
            r == (old.trie().rank)(ptr) + 1,
            extends(old.trie(), s1.trie()),
            s1.leaves@.len() == old.leaves@.len() + 1,
            forall|q: Ptr| #[trigger] old.trie().valid(q) ==> (s1.trie().rank)(q) == (old.trie().rank)(q),
            s1.li(ptr) == old.li(ptr),
            self.leaf_rank@ == s1.leaf_rank@.update(s1.li(ptr), r),
            self.key_data == s1.key_data,
            self.leaves == s1.leaves,
            self.slot == s1.slot,
            self.count == s1.count,
            self.nodes == s1.nodes,
            self.root == s1.root,
            self.model == s1.model,
            self.node_rank == s1.node_rank,
        ensures
            self.core_wf(),
            extends(old.trie(), self.trie()),
            forall|q: Ptr| #[trigger] old.trie().valid(q) && q != ptr ==> (self.trie().rank)(q) == (old.trie().rank)(q),
            (self.trie().rank)(ptr) == r,
            self.trie().nodes == s1.trie().nodes,
            forall|q: Ptr| #[trigger] s1.trie().valid(q) ==> self.trie().valid(q),
            forall|q: Ptr| #[trigger] s1.trie().valid(q) && q != ptr ==> (self.trie().rank)(q) == (s1.trie().rank)(q),
    {
        reveal(BiTrie::ok);        assert forall|i: int| 0 <= i < self.leaves@.len() implies #[trigger] self.leaf_ok(i) by {
            assert(s1.leaf_ok(i));
        }
        let t0 = old.trie();
        let t1 = s1.trie();
        let t1b = self.trie();
        assert(t1.valid(ptr));
        assert forall|q: Ptr| #[trigger] t1b.valid(q) implies (t1b.rank)(q) < t1b.bound by {
            assert(t1.valid(q));
            if q.spec_leaf() {
            } else {
                lemma_valid_node(t1, q);
            }
        }
        assert forall|o: int| #[trigger] t1b.node_at(o) implies t1b.edges_ok(o) by {
            assert(t1.node_at(o));
            assert(t1.edges_ok(o));
            lemma_node_ptr(o as u64);
            if t1.left(o).spec_leaf() {
            } else {
                lemma_valid_node(t1, t1.left(o));
            }
            if t1.right(o).spec_leaf() {
            } else {
                lemma_valid_node(t1, t1.right(o));
            }
        }
        assert forall|q: Ptr| #[trigger] t1.valid(q) && q != ptr implies (t1b.rank)(q) == (t1.rank)(q) by {
            if q.spec_leaf() {
                if s1.li(q) == s1.li(ptr) {
                    assert(s1.leaves@[s1.li(q)].off == q.spec_offset());
                    assert(s1.leaves@[s1.li(ptr)].off == ptr.spec_offset());
                    crate::binode::lemma_leaf_eq(q, ptr);
                }
            } else {
                lemma_valid_node(t1, q);
            }
        }
        assert forall|q: Ptr| #[trigger] t0.valid(q) && q != ptr implies (t1b.rank)(q) == (t0.rank)(q) by {
            assert(t1.valid(q));
        }
    }

    /// The split of the leaf `ptr` by the node `binode`: what `insert_into` promises.
    #[verifier::spinoff_prover]
    #[verifier::rlimit(100)]
    proof fn lemma_post_split(
        &self,
        old: &Self,
        s1b: &Self,
        ptr: Ptr,
        key: Seq<u8>,
        value: u64,
        diff: u16,
        binode: Ptr,
        new_leaf: Ptr,
    )
        requires
            old.core_wf(),
            old.trie().valid(ptr),
            ptr.spec_leaf(),
            ({
                let lk = old.leaf_key(old.li(ptr));
                &&& lk != key
                &&& !zero_pad_eq(lk, key)
                &&& bit_of(lk, diff as int) != bit_of(key, diff as int)
            }),
            s1b.core_wf(),
            extends(old.trie(), s1b.trie()),
            forall|q: Ptr| #[trigger] old.trie().valid(q) ==> s1b.trie().valid(q),
            forall|q: Ptr| #[trigger] old.trie().valid(q) && q != ptr ==> (s1b.trie().rank)(q) == (old.trie().rank)(q),
            (s1b.trie().rank)(ptr) == (old.trie().rank)(ptr) + 1,
            new_leaf == old.next_leaf(),
            new_leaf.spec_leaf(),
            s1b.trie().valid(new_leaf),
            (s1b.trie().rank)(new_leaf) == (old.trie().rank)(ptr) + 1,
            s1b.leaves@.len() == old.leaves@.len() + 1,
            s1b.leaves@.subrange(0, old.leaves@.len() as int) == old.leaves@,
            s1b.leaves@[old.leaves@.len() as int].value == value,
            s1b.leaf_key(old.leaves@.len() as int) == key,
            forall|i: int| 0 <= i < old.leaves@.len() ==> s1b.leaf_key(i) == old.leaf_key(i),
            s1b.key_data@.len() == old.key_data@.len() + key.len() + 10,
            s1b.slot@ == old.slot@.insert(old.key_data@.len() as u64, old.leaves@.len() as nat),
            s1b.nodes == old.nodes,
            s1b.node_rank == old.node_rank,
            s1b.root == old.root,
            s1b.model == old.model,
            self.core_wf(),
            binode == Ptr(s1b.nodes@.len() as u64),
            binode.0 < 0x1_0000_0000_0000,
            self.nodes@.len() == s1b.nodes@.len() + 14,
            self.key_data == s1b.key_data,
            self.leaves == s1b.leaves,
            self.slot == s1b.slot,
            self.count == s1b.count,
            self.leaf_rank == s1b.leaf_rank,
            self.node_rank@ == s1b.node_rank@.push((old.trie().rank)(ptr)),
            self.root == s1b.root,
            self.model == s1b.model,
            extends(s1b.trie(), self.trie()),
            self.trie().valid(binode),
            !s1b.trie().valid(binode),
            (self.trie().rank)(binode) == (old.trie().rank)(ptr),
            self.trie().bit(binode.0 as int) == diff,
            bit_of(old.leaf_key(old.li(ptr)), diff as int) == 0 ==> {
                &&& self.trie().left(binode.0 as int) == ptr
                &&& self.trie().right(binode.0 as int) == new_leaf
            },
            bit_of(old.leaf_key(old.li(ptr)), diff as int) != 0 ==> {
                &&& self.trie().left(binode.0 as int) == new_leaf
                &&& self.trie().right(binode.0 as int) == ptr
            },
            forall|q: Ptr| #[trigger] s1b.trie().valid(q) ==> (self.trie().rank)(q) == (s1b.trie().rank)(q),
        ensures
            self.into_post(old, ptr, key, value, InsertResult::Replaced(binode)),
    {
        reveal(InlineHot::into_post);
        reveal(InlineHot::grown);
        let t0 = old.trie();
        let t1 = s1b.trie();
        let t2 = self.trie();
        let lk = old.leaf_key(old.li(ptr));
        let n = old.leaves@.len();
        assert(t0.reach(ptr, key) == ptr);
        lemma_node_ptr(binode.0);
        assert(extends(t0, t2)) by {
            assert(t2.nodes.subrange(0, t0.nodes.len() as int) =~= t0.nodes) by {
                assert forall|j: int| 0 <= j < t0.nodes.len() implies t2.nodes[j] == t0.nodes[j] by {
                    assert(t2.nodes.subrange(0, t1.nodes.len() as int)[j] == t2.nodes[j]);
                }
            }
        }
        assert(t1.valid(new_leaf));
        assert(t2.valid(new_leaf)) by {
            crate::binode::lemma_reach_extend(t1, t2, new_leaf, key);
        }
        crate::binode::lemma_split_node(t0, t2, ptr, binode, new_leaf, diff as int, lk, key);
        assert(!t0.valid(binode));
        assert forall|i: int| 0 <= i < n implies #[trigger] self.leaf_key(i) == old.leaf_key(i) by {
            assert(s1b.leaf_key(i) == old.leaf_key(i));
        }
        assert forall|o: int| #[trigger] t0.node_at(o) implies (t2.rank)(Ptr(o as u64)) == (t0.rank)(
        Ptr(o as u64)) by {
            lemma_node_ptr(o as u64);
            assert(t0.valid(Ptr(o as u64)));
            assert(Ptr(o as u64) != ptr);
        }
        assert forall|o: int, j: int|
            #![trigger t0.node_at(o), self.nodes@[j]]
            t0.node_at(o) && (t0.rank)(Ptr(o as u64)) < (t0.rank)(ptr) && o <= j < o + 14 implies self.nodes@[j]
            == old.nodes@[j] by {
            assert(t2.nodes.subrange(0, t0.nodes.len() as int)[j] == t2.nodes[j]);
        }
        let l = t0.reach(ptr, key);
        assert(l == ptr);
        assert(self.core_wf());
        assert(self.leaves@.len() == n + 1);
        assert(self.leaves@.subrange(0, n as int) == old.leaves@);
        assert(self.leaves@[n as int].value == value);
        assert(self.leaf_key(n as int) == key);
        assert(self.key_data@.len() == old.key_data@.len() + key.len() + 10);
        assert(self.nodes@.len() == old.nodes@.len() + 14);
        assert(self.node_rank@.len() == old.node_rank@.len() + 1);
        assert(self.root == old.root);
        assert(self.model == old.model);
        assert(new_leaf == old.next_leaf());
        assert(binode.0 < 0x1_0000_0000_0000);
        assert(t2.valid(binode));
        assert((t2.rank)(binode) == (t0.rank)(ptr));
        assert(t2.reach(binode, key) == old.next_leaf());
        assert(self.grown(old, key, value, l, lk, (t0.rank)(ptr)));
    }

    /// After a descent into `child` that changed nothing at or above `ptr`, what held of
    /// `child` holds of `ptr`.
    proof fn lemma_after_descent(&self, old: &Self, ptr: Ptr, child: Ptr, go_left: bool, key: Seq<u8>, value: u64)
        requires
            old.core_wf(),
            old.trie().valid(ptr),
            !ptr.spec_leaf(),
            child == (if go_left {
                old.trie().left(ptr.0 as int)
            } else {
                old.trie().right(ptr.0 as int)
            }),
            go_left <==> bit_of(key, old.trie().bit(ptr.0 as int) as int) == 0,
            old.trie().reach(ptr, key) == old.trie().reach(child, key),
            ({
                let l = old.trie().reach(child, key);
                let lk = old.leaf_key(old.li(l));
                let n = old.leaves@.len();
                &&& lk != key
                &&& zero_pad_eq(lk, key) ==> *self == *old
                &&& !zero_pad_eq(lk, key) ==> {
                    &&& self.grown(old, key, value, l, lk, (old.trie().rank)(child))
                    &&& self.trie().reach(child, key) == old.next_leaf()
                }
            }),
        ensures
            ({
                let l = old.trie().reach(ptr, key);
                let lk = old.leaf_key(old.li(l));
                let n = old.leaves@.len();
                &&& zero_pad_eq(lk, key) ==> *self == *old
                &&& !zero_pad_eq(lk, key) ==> {
                    &&& self.grown(old, key, value, l, lk, (old.trie().rank)(ptr))
                    &&& self.trie().reach(ptr, key) == old.next_leaf()
                }
            }),
    {
        reveal(InlineHot::grown);
        let t0 = old.trie();
        let o = ptr.0 as int;
        lemma_valid_node(t0, ptr);
        crate::binode::lemma_ok_edges(t0, o);
        let l = t0.reach(child, key);
        let lk = old.leaf_key(old.li(l));
        if !zero_pad_eq(lk, key) {
            let t1 = self.trie();
            assert forall|j: int| o <= j < o + 14 implies self.nodes@[j] == old.nodes@[j] by {
                assert(t0.node_at(o));
            }
            lemma_le_same(t0.nodes, t1.nodes, o);
            assert(t1.valid(ptr));
            assert(t1.node_at(o));
            assert(t1.reach(ptr, key) == t1.reach(child, key));
        }
    }

    /// After the leaf under `ptr` on the side of `child` was split into the node `np`, and `ptr`
    /// was pointed at `np`, what the split promised holds of `ptr`.
    #[verifier::spinoff_prover]
    #[verifier::rlimit(100)]
    proof fn lemma_after_redirect(
        &self,
        old: &Self,
        mid: &Self,
        ptr: Ptr,
        child: Ptr,
        go_left: bool,
        np: Ptr,
        key: Seq<u8>,
        value: u64,
    )
        requires
            old.core_wf(),
            old.trie().valid(ptr),
            !ptr.spec_leaf(),
            child == (if go_left {
                old.trie().left(ptr.0 as int)
            } else {
                old.trie().right(ptr.0 as int)
            }),
            go_left <==> bit_of(key, old.trie().bit(ptr.0 as int) as int) == 0,
            old.trie().reach(ptr, key) == old.trie().reach(child, key),
            ({
                let l = old.trie().reach(child, key);
                let lk = old.leaf_key(old.li(l));
                let n = old.leaves@.len();
                &&& lk != key
                &&& !zero_pad_eq(lk, key)
                &&& mid.grown(old, key, value, l, lk, (old.trie().rank)(child))
                &&& child == l
                &&& np.0 < 0x1_0000_0000_0000
                &&& mid.trie().valid(np)
                &&& !old.trie().valid(np)
                &&& (mid.trie().rank)(np) == (old.trie().rank)(child)
                &&& mid.trie().reach(np, key) == old.next_leaf()
                &&& node_walks(mid.trie(), np, l, old.next_leaf(), lk)
                &&& extends(old.trie(), mid.trie())
            }),
            self.key_data == mid.key_data,
            self.leaves == mid.leaves,
            self.slot == mid.slot,
            self.count == mid.count,
            self.root == mid.root,
            self.model == mid.model,
            self.leaf_rank == mid.leaf_rank,
            self.node_rank == mid.node_rank,
            self.nodes@.len() == mid.nodes@.len(),
            forall|j: int|
                0 <= j < mid.nodes@.len() && !(ptr.0 <= j < ptr.0 + 14) ==> self.nodes@[j]
                    == mid.nodes@[j],
            le16(self.nodes@, ptr.0 as int) == le16(mid.nodes@, ptr.0 as int),
            go_left ==> {
                &&& le48(self.nodes@, ptr.0 + 2) == np.0
                &&& le48(self.nodes@, ptr.0 + 8) == le48(mid.nodes@, ptr.0 + 8)
            },
            !go_left ==> {
                &&& le48(self.nodes@, ptr.0 + 8) == np.0
                &&& le48(self.nodes@, ptr.0 + 2) == le48(mid.nodes@, ptr.0 + 2)
            },
        ensures
            self.core_wf(),
            ({
                let l = old.trie().reach(ptr, key);
                let lk = old.leaf_key(old.li(l));
                let n = old.leaves@.len();
                &&& self.grown(old, key, value, l, lk, (old.trie().rank)(ptr))
                &&& self.trie().reach(ptr, key) == old.next_leaf()
            }),
    {
        let t0 = old.trie();
        let t1 = mid.trie();
        let t2 = self.trie();
        let o = ptr.0 as int;
        let n = old.leaves@.len();
        let l = t0.reach(child, key);
        let lk = old.leaf_key(old.li(l));
        let nl = old.next_leaf();
        InlineHot::lemma_grown_elim(mid, old, key, value, l, lk, (old.trie().rank)(child));
        lemma_valid_node(t0, ptr);
        crate::binode::lemma_ok_edges(t0, o);
        assert(t1.node_at(o));
        assert forall|j: int| o <= j < o + 14 implies t1.nodes[j] == t0.nodes[j] by {
            assert(t1.nodes.subrange(0, t0.nodes.len() as int)[j] == t1.nodes[j]);
        }
        lemma_le_same(t0.nodes, t1.nodes, o);
        crate::binode::lemma_ok_edges(t1, o);
        assert(same_but_node(t1, t2, o));
        assert((t1.rank)(Ptr(o as u64)) == (t0.rank)(Ptr(o as u64)));
        assert(t2.edges_ok(o));
        lemma_ok_after_write(t1, t2, o);
        assert(t0.ok());
        assert(t1.ok());
        assert(t2.ok());
        assert(extends(t0, t1));
        assert(t0.node_at(o));
        assert(t2.bit(o) == t0.bit(o));
        assert((t2.left(o) == t0.left(o) && t0.right(o) == l && t2.right(o) == np) || (t2.right(o)
            == t0.right(o) && t0.left(o) == l && t2.left(o) == np));
        lemma_reach_leaf(t0, child, key);
        assert(l.spec_leaf());
        assert(!t0.valid(np));
        assert(t1.valid(np));
        assert((t1.rank)(np) > (t1.rank)(Ptr(o as u64)));
        assert(node_walks(t1, np, l, nl, lk));
        assert(redirect(t0, t1, t2, o, np, l, nl, lk));
        crate::binode::lemma_moved_walks_redirect(t0, t1, t2, o, np, l, nl, lk);
        assert forall|o2: int| #[trigger] t0.node_at(o2) implies (t2.rank)(Ptr(o2 as u64)) == (
        t0.rank)(Ptr(o2 as u64)) by {
            assert((t1.rank)(Ptr(o2 as u64)) == (t0.rank)(Ptr(o2 as u64)));
        }
        assert forall|o2: int, j: int|
            #![trigger t0.node_at(o2), self.nodes@[j]]
            t0.node_at(o2) && (t0.rank)(Ptr(o2 as u64)) < (t0.rank)(ptr) && o2 <= j < o2 + 14 implies self.nodes@[j]
            == old.nodes@[j] by {
            lemma_node_ptr(o2 as u64);
            assert(o2 != o);
            lemma_distinct_nodes(o2, o);
            assert(mid.nodes@[j] == old.nodes@[j]);
        }
        lemma_reach_frame(t1, t2, o, np, key);
        assert(t2.valid(ptr));
        assert(t2.reach(ptr, key) == t2.reach(np, key));
        assert forall|i: int| 0 <= i < self.leaves@.len() implies #[trigger] self.leaf_ok(i) by {
            assert(mid.leaf_ok(i));
        }
        assert forall|i: int| 0 <= i < old.leaves@.len() implies #[trigger] self.leaf_key(i) == old.leaf_key(i) by {
            assert(mid.leaf_key(i) == old.leaf_key(i));
        }
        InlineHot::lemma_grown_intro(self, old, key, value, l, lk, (old.trie().rank)(ptr));
    }

    proof fn lemma_grown_elim(s: &Self, old: &Self, key: Seq<u8>, value: u64, l: Ptr, lk: Seq<u8>, rank_cut: nat)
        requires
            s.grown(old, key, value, l, lk, rank_cut),
        ensures
            s.core_wf(),
            s.leaves@.len() == old.leaves@.len() + 1,
            s.leaves@.subrange(0, old.leaves@.len() as int) == old.leaves@,
            s.leaves@[old.leaves@.len() as int].value == value,
            s.leaf_key(old.leaves@.len() as int) == key,
            forall|i: int| 0 <= i < old.leaves@.len() ==> #[trigger] s.leaf_key(i) == old.leaf_key(i),
            s.key_data@.len() == old.key_data@.len() + key.len() + 10,
            s.slot@ == old.slot@.insert(old.key_data@.len() as u64, old.leaves@.len() as nat),
            s.nodes@.len() == old.nodes@.len() + 14,
            s.node_rank@.len() == old.node_rank@.len() + 1,
            s.root == old.root,
            s.model == old.model,
            moved_walks(old.trie(), s.trie(), l, old.next_leaf(), lk),
            forall|o: int| #[trigger] old.trie().node_at(o) ==> (s.trie().rank)(Ptr(o as u64)) == (
        old.trie().rank)(Ptr(o as u64)),
            forall|o: int, j: int|
            #![trigger old.trie().node_at(o), s.nodes@[j]]
            old.trie().node_at(o) && (old.trie().rank)(Ptr(o as u64)) < rank_cut && o <= j < o
                + 14 ==> s.nodes@[j] == old.nodes@[j],
    {
        reveal(InlineHot::grown);
    }

    proof fn lemma_grown_intro(s: &Self, old: &Self, key: Seq<u8>, value: u64, l: Ptr, lk: Seq<u8>, rank_cut: nat)
        requires
            s.core_wf(),
            s.leaves@.len() == old.leaves@.len() + 1,
            s.leaves@.subrange(0, old.leaves@.len() as int) == old.leaves@,
            s.leaves@[old.leaves@.len() as int].value == value,
            s.leaf_key(old.leaves@.len() as int) == key,
            forall|i: int| 0 <= i < old.leaves@.len() ==> #[trigger] s.leaf_key(i) == old.leaf_key(i),
            s.key_data@.len() == old.key_data@.len() + key.len() + 10,
            s.slot@ == old.slot@.insert(old.key_data@.len() as u64, old.leaves@.len() as nat),
            s.nodes@.len() == old.nodes@.len() + 14,
            s.node_rank@.len() == old.node_rank@.len() + 1,
            s.root == old.root,
            s.model == old.model,
            moved_walks(old.trie(), s.trie(), l, old.next_leaf(), lk),
            forall|o: int| #[trigger] old.trie().node_at(o) ==> (s.trie().rank)(Ptr(o as u64)) == (
        old.trie().rank)(Ptr(o as u64)),
            forall|o: int, j: int|
            #![trigger old.trie().node_at(o), s.nodes@[j]]
            old.trie().node_at(o) && (old.trie().rank)(Ptr(o as u64)) < rank_cut && o <= j < o
                + 14 ==> s.nodes@[j] == old.nodes@[j],
        ensures
            s.grown(old, key, value, l, lk, rank_cut),
    {
        reveal(InlineHot::grown);
    }

    /// Inserts `key` with `value`; returns the value it replaced. A key that equals a stored
    /// key once both are padded with zero bytes is not stored (no bit tells them apart).
    pub fn insert(&mut self, key: &[u8], value: u64) -> (r: Option<u64>)
        requires
            old(self).wf(),
            key@.len() <= MAX_KEY_LEN,
            old(self).key_bytes() + key@.len() + 10 <= PTR_MAX_OFFSET,
            old(self).node_bytes() + 14 <= PTR_MAX_OFFSET,
        ensures
            final(self).wf(),
            r == (if old(self)@.contains_key(key@) {
                Some(old(self)@[key@])
            } else {
                None
            }),
            final(self)@ == (if collides(old(self)@, key@) {
                old(self)@
            } else {
                old(self)@.insert(key@, value)
            }),
            final(self).key_bytes() <= old(self).key_bytes() + key@.len() + 10,
            final(self).node_bytes() <= old(self).node_bytes() + 14,
    {
        if self.root.is_null() {
            proof {
                self.model@.dom().lemma_len0_is_empty();
                assert(self.model@ =~= Map::empty());
                assert(self.trie().ok()) by {
                    reveal(BiTrie::ok);
                }
            }
            let p = self.create_leaf(key, value, Ghost(0));
            let ghost s1 = *self;
            self.root = p;
            self.model = Ghost(Map::empty().insert(key@, value));
            proof {
                assert forall|i: int| 0 <= i < self.leaves@.len() implies #[trigger] self.leaf_ok(i) by {
                    assert(s1.leaf_ok(i));
                }
                assert(self.leaf_key(0) == s1.leaf_key(0));
                assert(self.trie() == s1.trie());
                self.lemma_single(old(self), key@, value);
            }
            return None;
        }
        let root = self.root;
        let res = self.insert_into(root, key, value);
        let ghost mid = *self;
        let out = match res {
            InsertResult::Updated(old) => Some(old),
            InsertResult::Replaced(new_ptr) => {
                self.root = new_ptr;
                None
            },
            InsertResult::NoChange => None,
        };
        self.model = Ghost(
            if collides(old(self)@, key@) {
                old(self)@
            } else {
                old(self)@.insert(key@, value)
            },
        );
        proof {
            self.lemma_insert_model(old(self), &mid, key@, value, res);
            reveal(InlineHot::into_post);
            if !(res is Updated) {
                let l = old(self).trie().reach(root, key@);
                let lk = old(self).leaf_key(old(self).li(l));
                if !zero_pad_eq(lk, key@) {
                    InlineHot::lemma_grown_elim(&mid, old(self), key@, value, l, lk, (old(self).trie().rank)(root));
                }
            }
        }
        out
    }

    proof fn lemma_single(&self, old: &Self, key: Seq<u8>, value: u64)
        requires
            old.wf(),
            old.leaves@.len() == 0,
            self.core_wf(),
            self.leaves@.len() == 1,
            self.leaf_key(0) == key,
            self.leaves@[0].value == value,
            self.li(self.root) == 0,
            self.root.spec_leaf(),
            self.trie().valid(self.root),
            self.model@ == Map::<Seq<u8>, u64>::empty().insert(key, value),
            old@ == Map::<Seq<u8>, u64>::empty(),
        ensures
            self.wf(),
            self@ == (if collides(old@, key) {
                old@
            } else {
                old@.insert(key, value)
            }),
    {
        assert(!collides(old@, key));
        assert forall|k: Seq<u8>| #[trigger] self.model@.contains_key(k) == self.lookup(k).is_some() by {
            assert(self.trie().reach(self.root, k) == self.root);
        }
        assert forall|k: Seq<u8>| #[trigger] self.model@.contains_key(k) implies self.model@[k]
            == self.lookup(k).unwrap() by {
            assert(self.trie().reach(self.root, k) == self.root);
        }
        assert(self.model@.dom() =~= set![key]);
    }

    /// Distinct stored keys are never equal once padded with zero bytes.
    proof fn lemma_no_collision(&self, k1: Seq<u8>, k2: Seq<u8>)
        requires
            self.wf(),
            self@.contains_key(k1),
            self@.contains_key(k2),
            zero_pad_eq(k1, k2),
        ensures
            k1 == k2,
    {
        lemma_reach_zero_pad(self.trie(), self.root, k1, k2);
    }

    proof fn lemma_insert_model(&self, old: &Self, mid: &Self, key: Seq<u8>, value: u64, res: InsertResult)
        requires
            old.wf(),
            old.leaves@.len() > 0,
            mid.core_wf(),
            mid.into_post(old, old.root, key, value, res),
            old.root == mid.root,
            old.model == mid.model,
            self.key_data == mid.key_data,
            self.leaves == mid.leaves,
            self.slot == mid.slot,
            self.count == mid.count,
            self.nodes == mid.nodes,
            self.leaf_rank == mid.leaf_rank,
            self.node_rank == mid.node_rank,
            self.root == (match res {
                InsertResult::Replaced(np) => np,
                _ => mid.root,
            }),
            self.model@ == (if collides(old@, key) {
                old@
            } else {
                old@.insert(key, value)
            }),
        ensures
            self.wf(),
            match res {
                InsertResult::Updated(o) => old@.contains_key(key) && o == old@[key],
                _ => !old@.contains_key(key),
            },
    {
        reveal(InlineHot::into_post);
        let t0 = old.trie();
        let t1 = self.trie();
        let root = old.root;
        lemma_reach_leaf(t0, root, key);
        let l = t0.reach(root, key);
        let li = old.li(l);
        let lk = old.leaf_key(li);
        let n = old.leaves@.len();
        assert(self.core_wf()) by {
            assert forall|i: int| 0 <= i < self.leaves@.len() implies #[trigger] self.leaf_ok(i) by {
                assert(mid.leaf_ok(i));
            }
        }
        if let InsertResult::Updated(o) = res {
            assert(t1 == t0);
            assert(old.lookup(key) == Some(o));
            assert(!collides(old@, key)) by {
                if collides(old@, key) {
                    let k2 = choose|k2: Seq<u8>| #[trigger] old@.contains_key(k2) && k2 != key && zero_pad_eq(k2, key);
                    old.lemma_no_collision(k2, key);
                }
            }
            assert forall|k: Seq<u8>| #[trigger] self.lookup(k) == (if k == key {
                Some(value)
            } else {
                old.lookup(k)
            }) by {
                lemma_reach_leaf(t0, root, k);
                old.lemma_leaf_below(t0.reach(root, k));
                let j = old.li(t0.reach(root, k));
                assert(mid.leaf_key(j) == old.leaf_key(j));
                assert(self.leaf_key(j) == old.leaf_key(j));
            }
            assert(self.model@.dom() =~= old.model@.dom());
        } else if zero_pad_eq(lk, key) {
            assert(*mid == *old);
            lemma_reach_zero_pad(t0, root, lk, key);
            assert(lk != key);
            assert(old.lookup(lk).is_some());
            assert(old.model@.contains_key(lk));
            assert(collides(old@, key));
            assert(self.trie() == old.trie());
            assert forall|k: Seq<u8>| #[trigger] self.lookup(k) == old.lookup(k) by {}
        } else {
            InlineHot::lemma_grown_elim(mid, old, key, value, l, lk, (t0.rank)(root));
            assert(!old@.contains_key(key));
            assert(!collides(old@, key)) by {
                if collides(old@, key) {
                    let k2 = choose|k2: Seq<u8>| #[trigger] old@.contains_key(k2) && k2 != key && zero_pad_eq(k2, key);
                    lemma_reach_zero_pad(t0, root, k2, key);
                    assert(old.lookup(k2).is_some());
                }
            }
            let nl = old.next_leaf();
            assert forall|k: Seq<u8>| #[trigger] self.lookup(k) == (if k == key {
                Some(value)
            } else {
                old.lookup(k)
            }) by {
                lemma_reach_leaf(t0, root, k);
                lemma_moved_walks_at(t0, t1, l, nl, lk, root, k);
                if let InsertResult::Replaced(np) = res {
                    crate::binode::lemma_node_walks_at(t1, np, l, nl, lk, k);
                    assert(t0.reach(root, k) == l);
                }
                let before = t0.reach(root, k);
                let after = t1.reach(self.root, k);
                old.lemma_leaf_below(before);
                if after == before {
                    let j = old.li(before);
                    assert(t0.valid(before));
                    assert(j < n);
                    assert(self.li(before) == j);
                    assert(self.leaves@.subrange(0, n as int)[j] == self.leaves@[j]);
                    assert(self.leaves@[j] == old.leaves@[j]);
                    assert(mid.leaf_key(j) == old.leaf_key(j));
                    assert(self.leaf_key(j) == old.leaf_key(j));
                    if k == key {
                        assert(t1 == mid.trie());
                        assert(t1.reach(self.root, key) == nl);
                        crate::binode::lemma_leaf_ptr(old.key_data@.len() as u64);
                        assert(false);
                    }
                } else {
                    reveal(crate::binode::keys_differ);
                    crate::binode::lemma_leaf_ptr(old.key_data@.len() as u64);
                    assert(self.li(after) == n);
                    assert(self.leaf_key(n as int) == mid.leaf_key(n as int));
                    assert(self.leaf_key(n as int) == key);
                    assert(self.leaves@[n as int].value == value);
                    assert(old.leaf_key(li) == lk);
                }
            }
            assert(self.model@.dom().finite());
        }
        assert forall|k: Seq<u8>| #[trigger] self.model@.contains_key(k) == self.lookup(k).is_some() by {}
        assert forall|k: Seq<u8>| #[trigger] self.model@.contains_key(k) implies self.model@[k]
            == self.lookup(k).unwrap() by {}
    }

    /// Bytes reserved by the key arena and the node arena.
    pub fn memory_usage(&self) -> (r: usize)
        ensures
            r >= self.key_bytes() + self.node_bytes() || r == usize::MAX,
    {
        let kc = vec_capacity(&self.key_data);
        let nc = vec_capacity(&self.nodes);
        kc.saturating_add(nc)
    }

    /// Bytes in use by the key arena and the node arena.
    pub fn memory_usage_actual(&self) -> (r: usize)
        ensures
            r == if self.key_bytes() + self.node_bytes() <= usize::MAX {
                self.key_bytes() + self.node_bytes()
            } else {
                usize::MAX as nat
            },
    {
        self.key_data.len().saturating_add(self.nodes.len())
    }

    /// Gives spare capacity back; the contents stay.
    pub fn shrink_to_fit(&mut self)
        ensures
            final(self)@ == old(self)@,
            final(self).wf() == old(self).wf(),
            final(self).key_bytes() == old(self).key_bytes(),
            final(self).node_bytes() == old(self).node_bytes(),
    {
        vec_shrink_to_fit(&mut self.key_data);
        vec_shrink_to_fit(&mut self.nodes);
        proof {
            assert(self.key_data@ == old(self).key_data@);
            assert(self.leaves@ == old(self).leaves@);
            assert(self.nodes@ == old(self).nodes@);
            assert(self.trie() == old(self).trie());
            assert(self.wf() == old(self).wf()) by {
                assert forall|i: int| 0 <= i < self.leaves@.len() implies self.leaf_ok(i) == old(self).leaf_ok(i) by {}
                assert forall|k: Seq<u8>| self.lookup(k) == old(self).lookup(k) by {
                    if self.leaves@.len() > 0 {
                        let j = self.trie().reach(self.root, k).spec_offset() as int;
                        assert(self.leaf_key(j) == old(self).leaf_key(j));
                    }
                }
            }
        }
    }
}

} // verus!

verus! {

impl Default for InlineHot {
    fn default() -> (r: Self)
        ensures
            r.wf(),
            r@ == Map::<Seq<u8>, u64>::empty(),
    {
        Self::new()
    }
}

} // verus!
