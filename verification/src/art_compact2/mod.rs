//! Ultra-compact ART: keys and prefixes both live in one shared arena, referred to by
//! 6-byte offset and length pairs.
use vstd::prelude::*;
use crate::le_bytes::{pack_u16, pack_u32, u16_of, u32_of, unpack_u16, unpack_u32};

pub mod node;

verus! {

pub use node::UltraNode;
use node::{ref_ok, lemma_ref_extend};
use crate::art::map_get;
use crate::art::node::{copy_bytes, count_inc, starts_with};
use crate::binode::bytes_equal;
use crate::art::{
    came_from, collect_leaf, fills, has_key, in_range, keys_sorted, lemma_fills_none,
    lemma_fills_same, lemma_fills_trans, KeyBound,
};
use crate::art::node::{lemma_find_key, lemma_find_key_at};
use crate::frozen::{has_prefix, lemma_prefix_end_none, lemma_prefix_end_some, prefix_end};

/// Memory statistics.
#[derive(Debug, Clone)]
pub struct UltraCompactStats {
    /// Bytes in data arena
    pub arena_bytes: usize,
    /// Bytes for node structures (estimated)
    pub node_bytes: usize,
    /// Node counts
    pub node4_count: usize,
    pub node16_count: usize,
    pub node48_count: usize,
    pub node256_count: usize,
    pub leaf_count: usize,
}

impl Default for UltraCompactStats {
    fn default() -> (r: Self)
        ensures
            r.arena_bytes == 0 && r.node_bytes == 0 && r.node4_count == 0 && r.node16_count == 0
                && r.node48_count == 0 && r.node256_count == 0 && r.leaf_count == 0,
    {
        UltraCompactStats {
            arena_bytes: 0,
            node_bytes: 0,
            node4_count: 0,
            node16_count: 0,
            node48_count: 0,
            node256_count: 0,
            leaf_count: 0,
        }
    }
}

/// A reference to bytes in the arena: a 32-bit offset and a 16-bit length, kept as six
/// little-endian bytes so that the reference takes six bytes.
#[derive(Clone, Copy, Debug, PartialEq, Eq)]
pub struct DataRef {
    offset: [u8; 4],
    len: [u8; 2],
}

impl DataRef {
    /// Where the bytes start.
    pub closed spec fn spec_offset(self) -> nat {
        u32_of(self.offset@[0], self.offset@[1], self.offset@[2], self.offset@[3]) as nat
    }

    /// How many bytes there are.
    pub closed spec fn spec_len(self) -> nat {
        u16_of(self.len@[0], self.len@[1]) as nat
    }

    /// The empty reference.
    pub fn empty() -> (r: Self)
        ensures
            r.spec_offset() == 0,
            r.spec_len() == 0,
    {
        DataRef { offset: pack_u32(0), len: pack_u16(0) }
    }

    /// A reference to `len` bytes at `offset`; both must fit their fields.
    pub fn new(offset: usize, len: usize) -> (r: Self)
        requires
            offset < u32::MAX,
            len < u16::MAX,
        ensures
            r.spec_offset() == offset,
            r.spec_len() == len,
    {
        DataRef { offset: pack_u32(offset as u32), len: pack_u16(len as u16) }
    }

    /// Where the bytes start.
    pub fn offset(&self) -> (r: usize)
        ensures
            r == self.spec_offset(),
    {
        unpack_u32(self.offset) as usize
    }

    /// How many bytes there are.
    pub fn len(&self) -> (r: usize)
        ensures
            r == self.spec_len(),
    {
        unpack_u16(self.len) as usize
    }

    /// Whether the reference covers no bytes.
    pub fn is_empty(&self) -> (r: bool)
        ensures
            r == (self.spec_len() == 0),
    {
        unpack_u16(self.len) == 0
    }
}

/// Arena storing byte strings contiguously.
pub struct DataArena {
    data: Vec<u8>,
}

impl View for DataArena {
    type V = Seq<u8>;

    closed spec fn view(&self) -> Seq<u8> {
        self.data@
    }
}

impl DataArena {
    /// The bytes `r` refers to in `data`.
    pub open spec fn resolve(data: Seq<u8>, r: DataRef) -> Seq<u8> {
        if r.spec_len() == 0 {
            Seq::empty()
        } else {
            data.subrange(r.spec_offset() as int, (r.spec_offset() + r.spec_len()) as int)
        }
    }

    /// `r` refers to bytes within `data`.
    pub open spec fn holds(data: Seq<u8>, r: DataRef) -> bool {
        r.spec_len() == 0 || r.spec_offset() + r.spec_len() <= data.len()
    }

    pub fn new() -> (r: Self)
        ensures
            r@ == Seq::<u8>::empty(),
    {
        Self::with_capacity(64 * 1024)
    }

    pub fn with_capacity(cap: usize) -> (r: Self)
        ensures
            r@ == Seq::<u8>::empty(),
    {
        DataArena { data: Vec::with_capacity(cap) }
    }

    /// Store `bytes` and return their reference; empty bytes take no room.
    pub fn store(&mut self, bytes: &[u8]) -> (r: DataRef)
        requires
            bytes@.len() == 0 || (old(self)@.len() < u32::MAX && bytes@.len() < u16::MAX),
        ensures
            bytes@.len() == 0 ==> final(self)@ == old(self)@ && r.spec_len() == 0,
            bytes@.len() > 0 ==> final(self)@ == old(self)@ + bytes@ && r.spec_offset() == old(
                self,
            )@.len(),
            Self::holds(final(self)@, r),
            Self::resolve(final(self)@, r) == bytes@,
    {
        if bytes.len() == 0 {
            return DataRef::empty();
        }
        let offset = self.data.len();
        let ghost d0 = self.data@;
        let mut i: usize = 0;
        while i < bytes.len()
            invariant
                i <= bytes@.len(),
                self.data@ == d0 + bytes@.subrange(0, i as int),
            decreases bytes@.len() - i,
        {
            self.data.push(bytes[i]);
            assert(self.data@ =~= d0 + bytes@.subrange(0, i + 1));
            i += 1;
        }
        assert(bytes@.subrange(0, bytes@.len() as int) =~= bytes@);
        let r = DataRef::new(offset, bytes.len());
        assert(self.data@.subrange(offset as int, offset + bytes@.len()) =~= bytes@);
        r
    }

    /// The bytes `r` refers to.
    pub fn get(&self, r: DataRef) -> (s: &[u8])
        requires
            Self::holds(self@, r),
        ensures
            s@ == Self::resolve(self@, r),
    {
        if r.len() == 0 {
            return &[];
        }
        let n = self.data.len();
        let start = r.offset();
        let end = start + r.len();
        &self.data.as_slice()[start..end]
    }

    /// Total bytes used.
    pub fn len(&self) -> (r: usize)
        ensures
            r == self@.len(),
    {
        self.data.len()
    }

    /// Whether no byte is stored.
    pub fn is_empty(&self) -> (r: bool)
        ensures
            r == (self@.len() == 0),
    {
        self.data.len() == 0
    }
}

impl Default for DataArena {
    fn default() -> (r: Self)
        ensures
            r@ == Seq::<u8>::empty(),
    {
        Self::new()
    }
}

/// `a2` is `a` with at most `extra` bytes added at the end.
pub open spec fn grows_by(a: Seq<u8>, a2: Seq<u8>, extra: nat) -> bool {
    &&& a.len() <= a2.len() <= a.len() + extra
    &&& a2.subrange(0, a.len() as int) == a
}

/// Room the arena is to have left beyond a key for the prefixes one insertion may store.
pub open spec fn prefix_room() -> nat {
    131072
}

/// An ART whose keys and prefixes live in one shared arena.
pub struct UltraCompactArt<V> {
    root: Option<Box<UltraNode<V>>>,
    arena: DataArena,
    size: usize,
    stats: UltraCompactStats,
    model: Ghost<Map<Seq<u8>, V>>,
}

impl<V> View for UltraCompactArt<V> {
    type V = Map<Seq<u8>, V>;

    closed spec fn view(&self) -> Map<Seq<u8>, V> {
        self.model@
    }
}

impl<V> UltraCompactArt<V> {
    /// The tree is well formed, its references lie in the arena, and it holds exactly the
    /// map it stands for.
    pub closed spec fn wf(&self) -> bool {
        &&& self.model@.dom().finite()
        &&& self.size == self.model@.len()
        &&& match self.root {
            None => self.model@ == Map::<Seq<u8>, V>::empty(),
            Some(r) => r.inv(Seq::empty()) && r.valid(self.arena@) && forall|k: Seq<u8>| #[trigger]
                r.lookup(k, 0) == map_get(self.model@, k),
        }
    }

    /// A well-formed map holds finitely many keys.
    pub proof fn lemma_wf_finite(&self)
        requires
            self.wf(),
        ensures
            self@.dom().finite(),
    {
    }

    /// The bytes in the arena.
    pub closed spec fn spec_arena_len(&self) -> nat {
        self.arena@.len()
    }

    /// An empty tree.
    pub fn new() -> (r: Self)
        ensures
            r.wf(),
            r@ == Map::<Seq<u8>, V>::empty(),
            r.spec_arena_len() == 0,
    {
        UltraCompactArt {
            root: None,
            arena: DataArena::new(),
            size: 0,
            stats: UltraCompactStats::default(),
            model: Ghost(Map::empty()),
        }
    }

    /// A leaf for `key`, whose bytes lie at `key_ref`.
    fn key_leaf(key: &[u8], key_ref: DataRef, value: V) -> (r: Box<UltraNode<V>>)
        ensures
            *r == (UltraNode::Leaf { key_ref, key: Ghost(key@), value }),
    {
        Box::new(UltraNode::new_leaf(key_ref, value, Ghost(key@)))
    }

    /// Insert a key-value pair, returning the value it replaces. The key is stored in the
    /// arena first, and the prefixes of any node split after it.
    pub fn insert(&mut self, key: &[u8], value: V) -> (r: Option<V>)
        requires
            old(self).wf(),
            key@.len() < u16::MAX,
            old(self).spec_arena_len() + key@.len() + prefix_room() < u32::MAX,
            old(self)@.contains_key(key@) || old(self)@.len() < usize::MAX,
        ensures
            final(self).wf(),
            final(self)@ == old(self)@.insert(key@, value),
            r == map_get(old(self)@, key@),
            final(self).spec_arena_len() <= old(self).spec_arena_len() + key@.len() + prefix_room(),
    {
        let ghost m0 = self.model@;
        let ghost a0 = self.arena@;
        let key_ref = self.arena.store(key);
        let ghost a1 = self.arena@;
        assert(a1.subrange(0, a0.len() as int) =~= a0);
        match self.root.take() {
            None => {
                self.root = Some(Self::key_leaf(key, key_ref, value));
                self.size = 1;
                self.stats.leaf_count = 1;
                self.model = Ghost(m0.insert(key@, value));
                assert(self.model@.dom() =~= set![key@]);
                assert(starts_with(key@, Seq::empty())) by {
                    assert(key@.subrange(0, 0) =~= Seq::<u8>::empty());
                }
                None
            },
            Some(root) => {
                assert(key@.subrange(0, 0) =~= Seq::<u8>::empty());
                proof {
                    root.lemma_valid_extend(a0, a1);
                }
                let (new_root, old_value) = Self::insert_recursive(
                    &mut self.arena,
                    &mut self.stats,
                    root,
                    key,
                    key_ref,
                    0,
                    value,
                );
                self.root = Some(new_root);
                if old_value.is_none() {
                    self.size = self.size + 1;
                }
                self.model = Ghost(m0.insert(key@, value));
                assert forall|k: Seq<u8>| #[trigger]
                    new_root.lookup(k, 0) == map_get(self.model@, k) by {}
                assert(self.model@.dom() =~= m0.dom().insert(key@));
                old_value
            },
        }
    }

    /// Insert below the leaf `lk_ref -> lv`, whose key is `lk` and which a search for `key`
    /// reaches after `depth` bytes.
    fn insert_at_leaf(
        arena: &mut DataArena,
        stats: &mut UltraCompactStats,
        lk_ref: DataRef,
        Ghost(lk): Ghost<Seq<u8>>,
        lv: V,
        key: &[u8],
        key_ref: DataRef,
        depth: usize,
        value: V,
    ) -> (r: (Box<UltraNode<V>>, Option<V>))
        requires
            depth <= key@.len() < u16::MAX,
            starts_with(lk, key@.subrange(0, depth as int)),
            ref_ok(old(arena)@, lk_ref, lk),
            ref_ok(old(arena)@, key_ref, key@),
            old(arena)@.len() + prefix_room() < u32::MAX,
        ensures
            grows_by(old(arena)@, final(arena)@, prefix_room()),
            r.0.inv(key@.subrange(0, depth as int)),
            r.0.valid(final(arena)@),
            r.1 == (UltraNode::Leaf { key_ref: lk_ref, key: Ghost(lk), value: lv }).lookup(
                key@,
                depth as int,
            ),
            forall|k: Seq<u8>| #[trigger]
                r.0.lookup(k, depth as int) == if k == key@ {
                    Some(value)
                } else {
                    (UltraNode::Leaf { key_ref: lk_ref, key: Ghost(lk), value: lv }).lookup(
                        k,
                        depth as int,
                    )
                },
    {
        let ghost path = key@.subrange(0, depth as int);
        let ghost a0 = arena@;
        let ghost lf = UltraNode::Leaf { key_ref: lk_ref, key: Ghost(lk), value: lv };
        let (same, split, lk_len, eb, nb) = {
            let leaf_key = arena.get(lk_ref);
            if bytes_equal(leaf_key, key) {
                (true, 0, 0, 0, 0)
            } else {
                let mut split = depth;
                while split < leaf_key.len() && split < key.len() && leaf_key[split] == key[split]
                    invariant
                        depth <= split <= key@.len(),
                        split <= leaf_key@.len(),
                        leaf_key@ == lk,
                        forall|i: int| depth <= i < split ==> lk[i] == key@[i],
                    decreases key@.len() - split,
                {
                    split += 1;
                }
                let e = if split < leaf_key.len() {
                    leaf_key[split]
                } else {
                    0
                };
                let n = if split < key.len() {
                    key[split]
                } else {
                    0
                };
                (false, split, leaf_key.len(), e, n)
            }
        };
        if same {
            assert(lk == key@);
            assert(arena@.subrange(0, a0.len() as int) =~= a0);
            return (Box::new(UltraNode::Leaf { key_ref: lk_ref, key: Ghost(lk), value }), Some(lv));
        }
        let ghost q = key@.subrange(0, split as int);
        assert(lk.subrange(0, split as int) =~= q) by {
            assert(lk.subrange(0, depth as int) == path);
            assert forall|i: int| 0 <= i < split implies lk[i] == key@[i] by {
                if i < depth {
                    assert(lk.subrange(0, depth as int)[i] == path[i]);
                }
            }
        }
        assert(split < lk_len || split < key.len()) by {
            if split >= lk_len && split >= key.len() {
                assert(lk =~= lk.subrange(0, split as int));
                assert(key@ =~= key@.subrange(0, split as int));
            }
        }
        assert(split < lk_len ==> eb == lk[split as int]);
        assert(split < key@.len() ==> nb == key@[split as int]);
        assert(split < lk_len && split < key@.len() ==> eb != nb);
        let mut inner = UltraNode::new_node4();
        let ghost s0 = inner;
        assert(s0.spec_prefix() =~= Seq::<u8>::empty());
        if split > depth {
            let pr = arena.store(vstd::slice::slice_subrange(key, depth, split));
            inner.set_prefix_ref(pr, Ghost(key@.subrange(depth as int, split as int)));
        }
        let ghost a1 = arena@;
        proof {
            assert(a1.subrange(0, a0.len() as int) =~= a0);
            lemma_ref_extend(a0, a1, lk_ref);
            lemma_ref_extend(a0, a1, key_ref);
            inner.lemma_same_body(s0);
        }
        let ghost s1 = inner;
        assert(ref_ok(a1, inner.spec_prefix_ref(), inner.spec_prefix()));
        if split < lk_len && split < key.len() {
            inner.add_child(eb, Box::new(UltraNode::Leaf { key_ref: lk_ref, key: Ghost(lk), value: lv }));
            inner.add_child(nb, Self::key_leaf(key, key_ref, value));
            assert(forall|b: u8| b != eb && b != nb ==> #[trigger] inner.child_at(b) == s1.child_at(b));
        } else if split < lk_len {
            inner.add_child(eb, Box::new(UltraNode::Leaf { key_ref: lk_ref, key: Ghost(lk), value: lv }));
            let ghost s2 = inner;
            inner.set_leaf_value(Some((key_ref, value)), Ghost(key@));
            proof {
                inner.lemma_same_body(s2);
                assert(key@.subrange(0, key@.len() as int) =~= key@);
            }
            assert(forall|b: u8| b != eb ==> #[trigger] inner.child_at(b) == s1.child_at(b));
        } else {
            inner.add_child(nb, Self::key_leaf(key, key_ref, value));
            let ghost s2 = inner;
            inner.set_leaf_value(Some((lk_ref, lv)), Ghost(lk));
            proof {
                inner.lemma_same_body(s2);
                assert(lk.subrange(0, lk.len() as int) =~= lk);
            }
            assert(forall|b: u8| b != nb ==> #[trigger] inner.child_at(b) == s1.child_at(b));
        }
        stats.leaf_count = count_inc(stats.leaf_count);
        stats.node4_count = count_inc(stats.node4_count);
        proof {
            assert(inner.spec_prefix() =~= key@.subrange(depth as int, split as int));
            assert(path + inner.spec_prefix() =~= q);
            assert forall|b: u8| #[trigger]
                inner.child_at(b) matches Some(c) ==> c.inv(path + inner.spec_prefix() + seq![b]) by {
                if split < lk_len && b == eb {
                    assert(lk.subrange(0, split + 1) =~= q + seq![b]);
                } else if split < key@.len() && b == nb {
                    assert(key@.subrange(0, split + 1) =~= q + seq![b]);
                }
            }
            if split == key@.len() {
                assert(q =~= key@);
            }
            if split == lk_len {
                assert(q =~= lk);
            }
            inner.lemma_inv_intro(path);
            assert forall|b: u8| #[trigger] inner.child_at(b) matches Some(c) ==> c.valid(a1) by {}
            inner.lemma_valid_intro(a1);
            assert forall|k: Seq<u8>| #[trigger]
                inner.lookup(k, depth as int) == if k == key@ {
                    Some(value)
                } else {
                    lf.lookup(k, depth as int)
                } by {
                inner.lemma_lookup_step(k, depth as int);
                if k == lk {
                    assert(k.subrange(depth as int, split as int) =~= inner.spec_prefix());
                }
                if k == key@ {
                    assert(k.subrange(depth as int, split as int) =~= inner.spec_prefix());
                }
            }
        }
        (Box::new(inner), None)
    }

    /// Split `node`, whose prefix `prefix` a search for `key` leaves after `pm` bytes, into a
    /// Node4 over the common part with `node` and the new key below it.
    #[verifier::spinoff_prover]
    #[verifier::rlimit(50)]
    fn split_prefix(
        arena: &mut DataArena,
        stats: &mut UltraCompactStats,
        node: UltraNode<V>,
        prefix: Vec<u8>,
        pm: usize,
        key: &[u8],
        key_ref: DataRef,
        depth: usize,
        value: V,
    ) -> (r: Box<UltraNode<V>>)
        requires
            node.is_inner(),
            node.inv(key@.subrange(0, depth as int)),
            node.valid(old(arena)@),
            ref_ok(old(arena)@, key_ref, key@),
            old(arena)@.len() + prefix_room() < u32::MAX,
            prefix@ == node.spec_prefix(),
            prefix@.len() <= u16::MAX,
            pm < prefix@.len(),
            depth + pm <= key@.len(),
            forall|i: int| 0 <= i < pm ==> prefix@[i] == key@[depth + i],
            depth + pm == key@.len() || key@[depth + pm] != prefix@[pm as int],
        ensures
            grows_by(old(arena)@, final(arena)@, prefix_room()),
            r.inv(key@.subrange(0, depth as int)),
            r.valid(final(arena)@),
            node.lookup(key@, depth as int) is None,
            forall|k: Seq<u8>| #[trigger]
                r.lookup(k, depth as int) == if k == key@ {
                    Some(value)
                } else {
                    node.lookup(k, depth as int)
                },
    {
        let ghost path = key@.subrange(0, depth as int);
        let ghost d = depth as int;
        let ghost a0 = arena@;
        let plen = prefix.len();
        let mut inner = UltraNode::new_node4();
        let ghost s0 = inner;
        assert(s0.spec_prefix() =~= Seq::<u8>::empty());
        let ghost head = prefix@.subrange(0, pm as int);
        if pm > 0 {
            let hr = arena.store(vstd::slice::slice_subrange(prefix.as_slice(), 0, pm));
            inner.set_prefix_ref(hr, Ghost(head));
        }
        let ghost am = arena@;
        proof {
            inner.lemma_same_body(s0);
            assert(ref_ok(am, inner.spec_prefix_ref(), inner.spec_prefix()));
        }
        let ob = prefix[pm];
        let ghost rest = prefix@.subrange(pm + 1, plen as int);
        let rr = arena.store(vstd::slice::slice_subrange(prefix.as_slice(), pm + 1, plen));
        let ghost a1 = arena@;
        let ghost before = node;
        proof {
            assert(a1.subrange(0, a0.len() as int) =~= a0);
            lemma_ref_extend(a0, a1, key_ref);
            before.lemma_valid_extend(a0, a1);
            assert(a1.subrange(0, am.len() as int) =~= am);
            lemma_ref_extend(am, a1, inner.spec_prefix_ref());
        }
        let mut node = node;
        node.set_prefix_ref(rr, Ghost(rest));
        let ghost moved = node;
        let ghost p1 = path + head;
        let ghost pb = p1.push(ob);
        proof {
            moved.lemma_same_body(before);
            assert(p1 =~= key@.subrange(0, depth + pm)) by {
                assert forall|i: int| 0 <= i < depth + pm implies p1[i] == key@[i] by {
                    if i >= depth {
                        assert(head[i - depth] == prefix@[i - depth]);
                    }
                }
            }
            assert(path + before.spec_prefix() =~= pb + moved.spec_prefix());
            before.lemma_reprefix(moved, path, pb);
            assert forall|b: u8| #[trigger] moved.child_at(b) matches Some(c) ==> c.valid(a1) by {
                before.lemma_valid_child(a1, b);
            }
            moved.lemma_valid_intro(a1);
        }
        inner.add_child(ob, Box::new(node));
        let ghost s1 = inner;
        let nkd = depth + pm;
        if nkd < key.len() {
            let nb = key[nkd];
            inner.add_child(nb, Self::key_leaf(key, key_ref, value));
        } else {
            inner.set_leaf_value(Some((key_ref, value)), Ghost(key@));
            proof {
                inner.lemma_same_body(s1);
                assert(key@.subrange(0, key@.len() as int) =~= key@);
            }
        }
        stats.leaf_count = count_inc(stats.leaf_count);
        stats.node4_count = count_inc(stats.node4_count);
        proof {
            let ghost nb = if nkd < key@.len() { key@[nkd as int] } else { 0u8 };
            assert(inner.spec_prefix() =~= head);
            assert(path + inner.spec_prefix() == p1);
            assert(inner.child_at(ob) == Some(moved));
            assert forall|b: u8| #[trigger]
                inner.child_at(b) matches Some(c) ==> c.inv(path + inner.spec_prefix() + seq![b]) by {
                if b == ob {
                    assert(p1 + seq![b] =~= pb);
                } else if nkd < key@.len() && b == nb {
                    assert(key@.subrange(0, nkd + 1) =~= p1 + seq![b]);
                }
            }
            if nkd >= key@.len() {
                assert(p1 =~= key@);
            }
            inner.lemma_inv_intro(path);
            assert forall|b: u8| #[trigger] inner.child_at(b) matches Some(c) ==> c.valid(a1) by {}
            inner.lemma_valid_intro(a1);
            assert forall|k: Seq<u8>| #[trigger] before.lookup(k, d) is Some implies k.len() >= d + plen
                && k.subrange(d, d + pm) == head && k[d + pm] == ob by {
                before.lemma_lookup_step(k, d);
                assert(k.subrange(d, d + plen)[pm as int] == k[d + pm]);
                assert(k.subrange(d, d + pm) =~= head) by {
                    assert forall|i: int| 0 <= i < pm implies k.subrange(d, d + pm)[i] == head[i] by {
                        assert(k.subrange(d, d + plen)[i] == k[d + i]);
                    }
                }
            }
            assert forall|k: Seq<u8>| #[trigger]
                inner.lookup(k, d) == if k == key@ {
                    Some(value)
                } else {
                    before.lookup(k, d)
                } by {
                inner.lemma_lookup_step(k, d);
                if k == key@ {
                    assert(k.subrange(d, d + pm) =~= head);
                } else if k.len() > d + pm && k.subrange(d, d + pm) == head && k[d + pm] == ob {
                    assert(k.subrange(d, pb.len() as int) =~= pb.subrange(d, pb.len() as int)) by {
                        assert forall|i: int| d <= i < pb.len() implies k[i] == pb[i] by {
                            if i < d + pm {
                                assert(k.subrange(d, d + pm)[i - d] == head[i - d]);
                            }
                        }
                    }
                }
            }
            assert(before.lookup(key@, d) is None) by {
                if before.lookup(key@, d) is Some {
                    assert(key@[d + pm] == ob);
                }
            }
        }
        Box::new(inner)
    }

    /// Insert below `node`, which a search for `key` reaches after `depth` bytes; returns the
    /// new subtree and the value replaced.
    fn insert_recursive(
        arena: &mut DataArena,
        stats: &mut UltraCompactStats,
        node: Box<UltraNode<V>>,
        key: &[u8],
        key_ref: DataRef,
        depth: usize,
        value: V,
    ) -> (r: (Box<UltraNode<V>>, Option<V>))
        requires
            depth <= key@.len() < u16::MAX,
            node.inv(key@.subrange(0, depth as int)),
            node.valid(old(arena)@),
            ref_ok(old(arena)@, key_ref, key@),
            old(arena)@.len() + prefix_room() < u32::MAX,
        ensures
            grows_by(old(arena)@, final(arena)@, prefix_room()),
            r.0.inv(key@.subrange(0, depth as int)),
            r.0.valid(final(arena)@),
            r.1 == node.lookup(key@, depth as int),
            forall|k: Seq<u8>| #[trigger]
                r.0.lookup(k, depth as int) == if k == key@ {
                    Some(value)
                } else {
                    node.lookup(k, depth as int)
                },
        decreases key@.len() - depth,
    {
        let ghost path = key@.subrange(0, depth as int);
        let ghost old_node = *node;
        let ghost a0 = arena@;
        let mut node = *node;
        match node {
            UltraNode::Leaf { key_ref: lk_ref, key: lk, value: lv } => {
                return Self::insert_at_leaf(arena, stats, lk_ref, lk, lv, key, key_ref, depth, value);
            },
            _ => {},
        }
        let ghost q0 = path + node.spec_prefix();
        let pr = node.prefix_ref();
        let prefix = copy_bytes(arena.get(pr), 0, pr.len());
        assert(prefix@ =~= node.spec_prefix());
        let plen = prefix.len();
        let mut pm: usize = 0;
        while pm < plen && pm < key.len() - depth && prefix[pm] == key[depth + pm]
            invariant
                pm <= plen == prefix@.len(),
                depth <= key@.len(),
                depth + pm <= key@.len(),
                forall|i: int| 0 <= i < pm ==> prefix@[i] == key@[depth + i],
            decreases plen - pm,
        {
            pm += 1;
        }
        proof {
            node.lemma_inv_leaf_value(path);
        }
        if pm < plen {
            let r = Self::split_prefix(arena, stats, node, prefix, pm, key, key_ref, depth, value);
            return (r, None);
        }
        assert(pm == plen);
        let nd = depth + plen;
        proof {
            assert(prefix@ =~= key@.subrange(depth as int, nd as int));
            assert(q0 =~= key@.subrange(0, nd as int));
        }
        if nd >= key.len() {
            // The key ends at this node.
            let ghost before = node;
            let taken = node.take_leaf_value();
            node.set_leaf_value(Some((key_ref, value)), Ghost(key@));
            let old_value = match taken {
                Some((_, v)) => Some(v),
                None => None,
            };
            if old_value.is_none() {
                stats.leaf_count = count_inc(stats.leaf_count);
            }
            proof {
                node.lemma_same_body(before);
                assert(key@ =~= q0);
                assert forall|b: u8| #[trigger]
                    node.child_at(b) matches Some(c) ==> c.inv(path + node.spec_prefix() + seq![b]) by {
                    before.lemma_inv_child(path, b);
                }
                node.lemma_inv_intro(path);
                assert forall|b: u8| #[trigger] node.child_at(b) matches Some(c) ==> c.valid(a0) by {
                    before.lemma_valid_child(a0, b);
                }
                node.lemma_valid_intro(a0);
                assert forall|k: Seq<u8>| #[trigger]
                    node.lookup(k, depth as int) == if k == key@ {
                        Some(value)
                    } else {
                        old_node.lookup(k, depth as int)
                    } by {
                    node.lemma_lookup_step(k, depth as int);
                    before.lemma_lookup_step(k, depth as int);
                }
                before.lemma_lookup_step(key@, depth as int);
                assert(arena@.subrange(0, a0.len() as int) =~= a0);
            }
            return (Box::new(node), old_value);
        }
        let next_byte = key[nd];
        proof {
            node.lemma_inv_child(path, next_byte);
            node.lemma_valid_child(a0, next_byte);
            assert(q0 + seq![next_byte] =~= key@.subrange(0, nd + 1));
        }
        match node.find_child(next_byte) {
            Some(idx) => {
                let ghost before = node;
                let child = node.remove_child(idx);
                let ghost mid = node;
                assert(mid.child_at(next_byte) is None);
                assert(before.child_at(next_byte) == Some(*child));
                let (new_child, old_value) = Self::insert_recursive(
                    arena,
                    stats,
                    child,
                    key,
                    key_ref,
                    nd + 1,
                    value,
                );
                let ghost a1 = arena@;
                proof {
                    assert forall|b: u8| b != next_byte implies before.child_pos(b) != Some(idx as int) by {
                        before.lemma_child_pos_injective(next_byte, b);
                    }
                }
                node.add_child(next_byte, new_child);
                proof {
                    assert forall|b: u8| #[trigger]
                        node.child_at(b) matches Some(c) ==> c.inv(path + node.spec_prefix() + seq![b]) by {
                        before.lemma_inv_child(path, b);
                    }
                    node.lemma_inv_intro(path);
                    lemma_ref_extend(a0, a1, node.spec_prefix_ref());
                    if let Some((lr, _, _)) = node.spec_leaf_value() {
                        lemma_ref_extend(a0, a1, lr);
                    }
                    assert forall|b: u8| #[trigger] node.child_at(b) matches Some(c) ==> c.valid(a1) by {
                        if b != next_byte {
                            before.lemma_valid_child(a0, b);
                            if let Some(c) = before.child_at(b) {
                                c.lemma_valid_extend(a0, a1);
                            }
                        }
                    }
                    node.lemma_valid_intro(a1);
                    assert forall|k: Seq<u8>| #[trigger]
                        node.lookup(k, depth as int) == if k == key@ {
                            Some(value)
                        } else {
                            old_node.lookup(k, depth as int)
                        } by {
                        node.lemma_lookup_step(k, depth as int);
                        before.lemma_lookup_step(k, depth as int);
                    }
                    before.lemma_lookup_step(key@, depth as int);
                }
                (Box::new(node), old_value)
            },
            None => {
                let ghost before = node;
                node.add_child_grow(next_byte, Self::key_leaf(key, key_ref, value), stats);
                stats.leaf_count = count_inc(stats.leaf_count);
                proof {
                    assert forall|b: u8| #[trigger]
                        node.child_at(b) matches Some(c) ==> c.inv(path + node.spec_prefix() + seq![b]) by {
                        before.lemma_inv_child(path, b);
                        if b == next_byte {
                            assert(key@.subrange(0, nd + 1) == q0 + seq![b]);
                        }
                    }
                    node.lemma_inv_intro(path);
                    assert forall|b: u8| #[trigger] node.child_at(b) matches Some(c) ==> c.valid(a0) by {
                        before.lemma_valid_child(a0, b);
                    }
                    node.lemma_valid_intro(a0);
                    assert forall|k: Seq<u8>| #[trigger]
                        node.lookup(k, depth as int) == if k == key@ {
                            Some(value)
                        } else {
                            old_node.lookup(k, depth as int)
                        } by {
                        node.lemma_lookup_step(k, depth as int);
                        before.lemma_lookup_step(k, depth as int);
                    }
                    before.lemma_lookup_step(key@, depth as int);
                    assert(arena@.subrange(0, a0.len() as int) =~= a0);
                }
                (Box::new(node), None)
            },
        }
    }
}

impl<V> UltraNode<V> {
    /// The child for byte `b`.
    fn child(&self, b: u8) -> (r: Option<&UltraNode<V>>)
        requires
            self.shape_ok(),
        ensures
            match r {
                Some(c) => self.child_at(b) == Some(*c),
                None => self.child_at(b) is None,
            },
    {
        match self {
            UltraNode::Leaf { .. } => None,
            UltraNode::Node4 { children, keys, num_children, .. } => match self.find_child(b) {
                Some(i) => {
                    proof {
                        crate::art::node::lemma_find_key(keys@, *num_children as int, b, 0);
                    }
                    Some(&children[i])
                },
                None => None,
            },
            UltraNode::Node16 { children, keys, num_children, .. } => match self.find_child(b) {
                Some(i) => {
                    proof {
                        crate::art::node::lemma_find_key(keys@, *num_children as int, b, 0);
                    }
                    Some(&children[i])
                },
                None => None,
            },
            UltraNode::Node48 { children, .. } => match self.find_child(b) {
                Some(i) => Some(&children[i]),
                None => None,
            },
            UltraNode::Node256 { children, .. } => match &children[b as usize] {
                Some(c) => Some(&**c),
                None => None,
            },
        }
    }
}

impl<V> UltraCompactArt<V> {
    /// Get a reference to the value for a key.
    pub fn get(&self, key: &[u8]) -> (r: Option<&V>)
        requires
            self.wf(),
        ensures
            match r {
                Some(v) => self@.contains_key(key@) && *v == self@[key@],
                None => !self@.contains_key(key@),
            },
    {
        let mut node: &UltraNode<V> = match &self.root {
            Some(n) => &**n,
            None => return None,
        };
        let klen = key.len();
        let mut depth: usize = 0;
        assert(key@.subrange(0, 0) =~= Seq::<u8>::empty());
        loop
            invariant
                depth <= klen == key@.len(),
                node.inv(key@.subrange(0, depth as int)),
                node.valid(self.arena@),
                node.lookup(key@, depth as int) == map_get(self@, key@),
            decreases klen - depth,
        {
            if let UltraNode::Leaf { key_ref, value, .. } = node {
                if bytes_equal(self.arena.get(*key_ref), key) {
                    return Some(value);
                } else {
                    return None;
                }
            }
            let ghost path = key@.subrange(0, depth as int);
            proof {
                node.lemma_lookup_step(key@, depth as int);
            }
            let prefix = self.arena.get(node.prefix_ref());
            let plen = prefix.len();
            if klen - depth < plen {
                return None;
            }
            if !bytes_equal(&key[depth..depth + plen], prefix) {
                return None;
            }
            depth = depth + plen;
            if depth >= klen {
                if let Some(lv) = node.leaf_value() {
                    if bytes_equal(self.arena.get(lv.0), key) {
                        return Some(&lv.1);
                    }
                }
                return None;
            }
            let b = key[depth];
            proof {
                node.lemma_inv_child(path, b);
                node.lemma_valid_child(self.arena@, b);
                assert(key@.subrange(0, depth + 1) =~= path + node.spec_prefix() + seq![b]);
            }
            match node.child(b) {
                Some(c) => {
                    node = c;
                    depth = depth + 1;
                },
                None => {
                    return None;
                },
            }
        }
    }

    /// Whether the tree holds `key`.
    pub fn contains(&self, key: &[u8]) -> (r: bool)
        requires
            self.wf(),
        ensures
            r == self@.contains_key(key@),
    {
        self.get(key).is_some()
    }

    /// The number of keys.
    pub fn len(&self) -> (r: usize)
        requires
            self.wf(),
        ensures
            r == self@.len(),
    {
        self.size
    }

    /// Whether the tree holds no key.
    pub fn is_empty(&self) -> (r: bool)
        requires
            self.wf(),
        ensures
            r == (self@.len() == 0),
    {
        self.size == 0
    }
}

impl<V> Default for UltraCompactArt<V> {
    fn default() -> (r: Self)
        ensures
            r.wf(),
            r@ == Map::<Seq<u8>, V>::empty(),
            r.spec_arena_len() == 0,
    {
        Self::new()
    }
}

/// The pairs of the subtree `n`, entered after `path`, whose key lies in the range.
pub open spec fn range_of<V>(n: UltraNode<V>, path: Seq<u8>, start: KeyBound, end: KeyBound) -> spec_fn(
    Seq<u8>,
) -> Option<V> {
    |k: Seq<u8>|
        if in_range(k, start, end) {
            n.lookup(k, path.len() as int)
        } else {
            None
        }
}

/// The part of `range_of` that ends at the inner node `n` or goes on under a byte of `vis`.
pub open spec fn range_part<V>(
    n: UltraNode<V>,
    path: Seq<u8>,
    vis: spec_fn(u8) -> bool,
    start: KeyBound,
    end: KeyBound,
) -> spec_fn(Seq<u8>) -> Option<V> {
    |k: Seq<u8>|
        {
            let q = path + n.spec_prefix();
            if in_range(k, start, end) && (k.len() <= q.len() || vis(k[q.len() as int])) {
                n.lookup(k, path.len() as int)
            } else {
                None
            }
        }
}


/// Below an inner node, a key whose next byte is `b` is found where the child for `b`
/// finds it, and a key that child finds has that next byte.
proof fn lemma_child_lookup<V>(n: UltraNode<V>, path: Seq<u8>, b: u8, k: Seq<u8>)
    requires
        n.is_inner(),
        n.inv(path),
    ensures
        ({
            let q = path + n.spec_prefix();
            &&& n.child_at(b) matches Some(c) ==> (c.lookup(k, q.len() + 1int) is Some ==> k.len()
                > q.len() && k[q.len() as int] == b)
            &&& (k.len() > q.len() && k[q.len() as int] == b) ==> n.lookup(k, path.len() as int)
                == match n.child_at(b) {
                Some(c) => c.lookup(k, q.len() + 1int),
                None => None,
            }
        }),
{
    let q = path + n.spec_prefix();
    let d = path.len() as int;
    n.lemma_lookup_step(k, d);
    n.lemma_inv_child(path, b);
    if let Some(c) = n.child_at(b) {
        if c.lookup(k, q.len() + 1int) is Some {
            assert((q + seq![b]).len() == q.len() + 1int);
            c.lemma_lookup_path(q + seq![b], k);
            assert(k.subrange(0, q.len() + 1int)[q.len() as int] == (q + seq![b])[q.len() as int]);
            assert(k.subrange(d, d + n.spec_prefix().len()) =~= k.subrange(0, q.len() + 1int).subrange(
                d,
                d + n.spec_prefix().len(),
            ));
            assert((q + seq![b]).subrange(d, d + n.spec_prefix().len()) =~= n.spec_prefix());
        }
    }
}

/// Below an inner node, a key no longer than the path to it is found in its own value.
proof fn lemma_leaf_part<V>(n: UltraNode<V>, path: Seq<u8>, k: Seq<u8>)
    requires
        n.is_inner(),
        n.inv(path),
        k.len() <= (path + n.spec_prefix()).len(),
    ensures
        n.lookup(k, path.len() as int) == if k == path + n.spec_prefix() {
            n.leaf_value_lookup(k)
        } else {
            None
        },
{
    let q = path + n.spec_prefix();
    let d = path.len() as int;
    n.lemma_lookup_step(k, d);
    if n.lookup(k, d) is Some {
        n.lemma_lookup_path(path, k);
        assert(k =~= q);
    }
    if k == q {
        assert(q.subrange(d, d + n.spec_prefix().len()) =~= n.spec_prefix());
    }
}

/// Visiting the child under `b` adds the pairs whose next byte is `b`.
proof fn lemma_visit_byte<V: Clone>(
    n: UltraNode<V>,
    path: Seq<u8>,
    b: u8,
    r0: Seq<(Vec<u8>, V)>,
    r1: Seq<(Vec<u8>, V)>,
    o: Seq<(Vec<u8>, V)>,
    vis0: spec_fn(u8) -> bool,
    vis1: spec_fn(u8) -> bool,
    start: KeyBound,
    end: KeyBound,
)
    requires
        n.is_inner(),
        n.inv(path),
        fills(r0, o, range_part(n, path, vis0, start, end)),
        forall|x: u8| #[trigger] vis1(x) == (vis0(x) || x == b),
        n.child_at(b) matches Some(c) ==> fills(
            r1,
            r0,
            range_of(c, path + n.spec_prefix() + seq![b], start, end),
        ),
        n.child_at(b) is None ==> r1 == r0,
    ensures
        fills(r1, o, range_part(n, path, vis1, start, end)),
{
    let q = path + n.spec_prefix();
    let p0 = range_part(n, path, vis0, start, end);
    let p1 = range_part(n, path, vis1, start, end);
    match n.child_at(b) {
        Some(c) => {
            let rc = range_of(c, q + seq![b], start, end);
            let g = |k: Seq<u8>|
                if rc(k) is Some {
                    rc(k)
                } else {
                    p0(k)
                };
            lemma_fills_trans(r0, r1, o, p0, rc, g);
            assert forall|k: Seq<u8>| #[trigger] g(k) == p1(k) by {
                lemma_child_lookup(n, path, b, k);
                assert((q + seq![b]).len() == q.len() + 1int);
            }
            lemma_fills_same(r1, o, g, p1);
        },
        None => {
            assert forall|k: Seq<u8>| #[trigger] p0(k) == p1(k) by {
                lemma_child_lookup(n, path, b, k);
            }
            lemma_fills_same(r1, o, p0, p1);
        },
    }
}

/// Once every byte with a child is visited, the part is the whole.
proof fn lemma_part_full<V>(
    n: UltraNode<V>,
    path: Seq<u8>,
    vis: spec_fn(u8) -> bool,
    start: KeyBound,
    end: KeyBound,
)
    requires
        n.is_inner(),
        n.inv(path),
        forall|x: u8| #[trigger] n.child_at(x) is Some ==> vis(x),
    ensures
        forall|k: Seq<u8>| #[trigger] range_part(n, path, vis, start, end)(k) == range_of(n, path, start, end)(k),
{
    let q = path + n.spec_prefix();
    assert forall|k: Seq<u8>| #[trigger] range_part(n, path, vis, start, end)(k) == range_of(n, path, start, end)(k) by {
        if k.len() > q.len() {
            let x = k[q.len() as int];
            lemma_child_lookup(n, path, x, k);
            if !vis(x) {
                assert(n.child_at(x) is None);
            }
        }
    }
}

/// Add the value an inner node holds itself, when its key lies in the range.
fn collect_node_value<V: Clone>(
    arena: &DataArena,
    node: &UltraNode<V>,
    Ghost(path): Ghost<Seq<u8>>,
    start: &KeyBound,
    end: &KeyBound,
    results: &mut Vec<(Vec<u8>, V)>,
)
    requires
        node.is_inner(),
        node.inv(path),
        node.valid(arena@),
        keys_sorted(old(results)@),
    ensures
        fills(final(results)@, old(results)@, range_part(*node, path, |x: u8| false, *start, *end)),
{
    let ghost q = path + node.spec_prefix();
    let ghost part = range_part(*node, path, |x: u8| false, *start, *end);
    proof {
        node.lemma_inv_leaf_value(path);
    }
    if let Some(lv) = node.leaf_value() {
        let lk = arena.get(lv.0);
        let ghost g = |k: Seq<u8>|
            if in_range(k, *start, *end) && k == lk@ {
                Some(lv.1)
            } else {
                None
            };
        collect_leaf(lk, &lv.1, start, end, results);
        proof {
            assert forall|k: Seq<u8>| #[trigger] g(k) == part(k) by {
                if k.len() <= q.len() {
                    lemma_leaf_part(*node, path, k);
                }
            }
            lemma_fills_same(results@, old(results)@, g, part);
        }
        return;
    }
    proof {
        assert forall|k: Seq<u8>| #[trigger] part(k) is None by {
            if k.len() <= q.len() {
                lemma_leaf_part(*node, path, k);
            }
        }
        lemma_fills_none(results@, part);
    }
}

/// Add the pairs of the subtree `node`, entered after `path`, whose key lies in the range.
fn collect_range<V: Clone>(
    arena: &DataArena,
    node: &UltraNode<V>,
    Ghost(path): Ghost<Seq<u8>>,
    start: &KeyBound,
    end: &KeyBound,
    results: &mut Vec<(Vec<u8>, V)>,
)
    requires
        node.inv(path),
        node.valid(arena@),
        keys_sorted(old(results)@),
    ensures
        fills(final(results)@, old(results)@, range_of(*node, path, *start, *end)),
    decreases node,
{
    let ghost o = results@;
    if let UltraNode::Leaf { key_ref, key, value } = node {
        let kb = arena.get(*key_ref);
        let ghost g = |k: Seq<u8>|
            if in_range(k, *start, *end) && k == kb@ {
                Some(*value)
            } else {
                None
            };
        collect_leaf(kb, value, start, end, results);
        proof {
            lemma_fills_same(results@, o, g, range_of(*node, path, *start, *end));
        }
        return;
    }
    let ghost q = path + node.spec_prefix();
    collect_node_value(arena, node, Ghost(path), start, end, results);
    match node {
        UltraNode::Node4 { keys, num_children, children, .. } => {
            let n = *num_children as usize;
            let mut i: usize = 0;
            while i < n
                invariant
                    node.is_inner(),
                    node.inv(path),
                    node.valid(arena@),
                    q == path + node.spec_prefix(),
                    *node matches UltraNode::Node4 { keys: k2, num_children: n2, children: c2, .. }
                        && k2 == *keys && n2 == *num_children && c2 == *children,
                    n == *num_children,
                    i <= n,
                    fills(
                        results@,
                        o,
                        range_part(*node, path, |x: u8| node.child_pos(x) matches Some(j) && j < i, *start, *end),
                    ),
                decreases n - i,
            {
                let ghost r0 = results@;
                let ghost b = keys@[i as int];
                let ghost vis0 = |x: u8| node.child_pos(x) matches Some(j) && j < i;
                let ghost vis1 = |x: u8| node.child_pos(x) matches Some(j) && j < i + 1;
                proof {
                    lemma_find_key_at(keys@, n as int, b, 0, i as int);
                    node.lemma_inv_child(path, b);
                    node.lemma_valid_child(arena@, b);
                }
                collect_range(arena, &children[i], Ghost(q + seq![b]), start, end, results);
                proof {
                    assert forall|x: u8| #[trigger] vis1(x) == (vis0(x) || x == b) by {
                        lemma_find_key(keys@, n as int, x, 0);
                    }
                    lemma_visit_byte(*node, path, b, r0, results@, o, vis0, vis1, *start, *end);
                }
                i += 1;
            }
            proof {
                let vis = |x: u8| node.child_pos(x) matches Some(j) && j < n;
                assert forall|x: u8| #[trigger] node.child_at(x) is Some implies vis(x) by {
                    lemma_find_key(keys@, n as int, x, 0);
                }
                lemma_part_full(*node, path, vis, *start, *end);
                lemma_fills_same(results@, o, range_part(*node, path, vis, *start, *end), range_of(*node, path, *start, *end));
            }
        },
        UltraNode::Node16 { keys, num_children, children, .. } => {
            let n = *num_children as usize;
            let mut i: usize = 0;
            while i < n
                invariant
                    node.is_inner(),
                    node.inv(path),
                    node.valid(arena@),
                    q == path + node.spec_prefix(),
                    *node matches UltraNode::Node16 { keys: k2, num_children: n2, children: c2, .. }
                        && k2 == *keys && n2 == *num_children && c2 == *children,
                    n == *num_children,
                    i <= n,
                    fills(
                        results@,
                        o,
                        range_part(*node, path, |x: u8| node.child_pos(x) matches Some(j) && j < i, *start, *end),
                    ),
                decreases n - i,
            {
                let ghost r0 = results@;
                let ghost b = keys@[i as int];
                let ghost vis0 = |x: u8| node.child_pos(x) matches Some(j) && j < i;
                let ghost vis1 = |x: u8| node.child_pos(x) matches Some(j) && j < i + 1;
                proof {
                    lemma_find_key_at(keys@, n as int, b, 0, i as int);
                    node.lemma_inv_child(path, b);
                    node.lemma_valid_child(arena@, b);
                }
                collect_range(arena, &children[i], Ghost(q + seq![b]), start, end, results);
                proof {
                    assert forall|x: u8| #[trigger] vis1(x) == (vis0(x) || x == b) by {
                        lemma_find_key(keys@, n as int, x, 0);
                    }
                    lemma_visit_byte(*node, path, b, r0, results@, o, vis0, vis1, *start, *end);
                }
                i += 1;
            }
            proof {
                let vis = |x: u8| node.child_pos(x) matches Some(j) && j < n;
                assert forall|x: u8| #[trigger] node.child_at(x) is Some implies vis(x) by {
                    lemma_find_key(keys@, n as int, x, 0);
                }
                lemma_part_full(*node, path, vis, *start, *end);
                lemma_fills_same(results@, o, range_part(*node, path, vis, *start, *end), range_of(*node, path, *start, *end));
            }
        },
        UltraNode::Node48 { child_index, children, .. } => {
            let mut b: usize = 0;
            while b < 256
                invariant
                    node.is_inner(),
                    node.inv(path),
                    node.valid(arena@),
                    q == path + node.spec_prefix(),
                    *node matches UltraNode::Node48 { child_index: ci2, children: c2, .. }
                        && ci2 == *child_index && c2 == *children,
                    b <= 256,
                    fills(results@, o, range_part(*node, path, |x: u8| (x as int) < b, *start, *end)),
                decreases 256 - b,
            {
                let ghost r0 = results@;
                let bb = b as u8;
                let ghost vis0 = |x: u8| (x as int) < b;
                let ghost vis1 = |x: u8| (x as int) < b + 1;
                proof {
                    node.lemma_inv_child(path, bb);
                    node.lemma_valid_child(arena@, bb);
                }
                let idx = child_index[b];
                if idx != 255 {
                    collect_range(arena, &children[idx as usize], Ghost(q + seq![bb]), start, end, results);
                }
                proof {
                    assert forall|x: u8| #[trigger] vis1(x) == (vis0(x) || x == bb) by {}
                    lemma_visit_byte(*node, path, bb, r0, results@, o, vis0, vis1, *start, *end);
                }
                b += 1;
            }
            proof {
                let vis = |x: u8| (x as int) < 256;
                lemma_part_full(*node, path, vis, *start, *end);
                lemma_fills_same(results@, o, range_part(*node, path, vis, *start, *end), range_of(*node, path, *start, *end));
            }
        },
        UltraNode::Node256 { children, .. } => {
            let mut b: usize = 0;
            while b < 256
                invariant
                    node.is_inner(),
                    node.inv(path),
                    node.valid(arena@),
                    q == path + node.spec_prefix(),
                    *node matches UltraNode::Node256 { children: c2, .. } && c2 == *children,
                    b <= 256,
                    fills(results@, o, range_part(*node, path, |x: u8| (x as int) < b, *start, *end)),
                decreases 256 - b,
            {
                let ghost r0 = results@;
                let bb = b as u8;
                let ghost vis0 = |x: u8| (x as int) < b;
                let ghost vis1 = |x: u8| (x as int) < b + 1;
                proof {
                    node.lemma_inv_child(path, bb);
                    node.lemma_valid_child(arena@, bb);
                }
                if let Some(c) = &children[b] {
                    collect_range(arena, c, Ghost(q + seq![bb]), start, end, results);
                }
                proof {
                    assert forall|x: u8| #[trigger] vis1(x) == (vis0(x) || x == bb) by {}
                    lemma_visit_byte(*node, path, bb, r0, results@, o, vis0, vis1, *start, *end);
                }
                b += 1;
            }
            proof {
                let vis = |x: u8| (x as int) < 256;
                lemma_part_full(*node, path, vis, *start, *end);
                lemma_fills_same(results@, o, range_part(*node, path, vis, *start, *end), range_of(*node, path, *start, *end));
            }
        },
        UltraNode::Leaf { .. } => {},
    }
}



impl<V: Clone> UltraCompactArt<V> {
    /// The pairs whose key lies between `start` and `end`, in increasing key order, each
    /// value a clone of the stored one.
    pub fn range(&self, start: KeyBound, end: KeyBound) -> (r: Vec<(Vec<u8>, V)>)
        requires
            self.wf(),
        ensures
            keys_sorted(r@),
            forall|k: Seq<u8>| #[trigger] has_key(r@, k) == (self@.contains_key(k) && in_range(
                k,
                start,
                end,
            )),
            forall|i: int|
                0 <= i < r@.len() ==> self@.contains_key((#[trigger] r@[i]).0@) && cloned(
                    self@[r@[i].0@],
                    r@[i].1,
                ),
    {
        let mut results: Vec<(Vec<u8>, V)> = Vec::new();
        let ghost o = results@;
        match &self.root {
            Some(root) => {
                collect_range(&self.arena, root, Ghost(Seq::empty()), &start, &end, &mut results);
                proof {
                    let g = range_of(**root, Seq::<u8>::empty(), start, end);
                    assert forall|k: Seq<u8>| #[trigger] g(k) == if in_range(k, start, end) {
                        map_get(self@, k)
                    } else {
                        None
                    } by {
                        assert(root.lookup(k, 0) == map_get(self@, k));
                    }
                    assert forall|i: int| 0 <= i < results@.len() implies self@.contains_key(
                        (#[trigger] results@[i]).0@,
                    ) && cloned(self@[results@[i].0@], results@[i].1) by {
                        if g(results@[i].0@) is None {
                            assert(came_from(results@, o, i));
                        }
                    }
                }
            },
            None => {
                proof {
                    assert forall|k: Seq<u8>| #[trigger] has_key(results@, k) == (self@.contains_key(k)
                        && in_range(k, start, end)) by {}
                }
            },
        }
        results
    }

    /// The pairs whose key starts with `prefix`, in increasing key order, each value a clone
    /// of the stored one.
    pub fn prefix_scan(&self, prefix: &[u8]) -> (r: Vec<(Vec<u8>, V)>)
        requires
            self.wf(),
        ensures
            keys_sorted(r@),
            forall|k: Seq<u8>| #[trigger] has_key(r@, k) == (self@.contains_key(k) && has_prefix(
                k,
                prefix@,
            )),
            forall|i: int|
                0 <= i < r@.len() ==> self@.contains_key((#[trigger] r@[i]).0@) && cloned(
                    self@[r@[i].0@],
                    r@[i].1,
                ),
    {
        let start = KeyBound::Included(copy_bytes(prefix, 0, prefix.len()));
        let end = match prefix_end(prefix) {
            Some(e) => KeyBound::Excluded(e),
            None => KeyBound::Unbounded,
        };
        proof {
            assert(prefix@.subrange(0, prefix@.len() as int) =~= prefix@);
            assert forall|k: Seq<u8>| #[trigger] in_range(k, start, end) == has_prefix(k, prefix@) by {
                match end {
                    KeyBound::Excluded(e) => lemma_prefix_end_some(prefix@, e@, k),
                    _ => lemma_prefix_end_none(prefix@, k),
                }
            }
        }
        self.range(start, end)
    }
}


/// `x`, or `usize::MAX` when it does not fit.
pub open spec fn sat(x: int) -> int {
    if x <= usize::MAX {
        x
    } else {
        usize::MAX as int
    }
}

/// The estimated bytes of `n` and every node below it, as the memory report counts them: a
/// reference and a value for a leaf, a fixed size for each kind of inner node.
pub open spec fn node_bytes_of<V>(n: UltraNode<V>) -> nat
    decreases n,
{
    match n {
        UltraNode::Leaf { .. } => 6 + vstd::layout::size_of::<V>(),
        UltraNode::Node4 { children, .. } => 51 + children_bytes(children@),
        UltraNode::Node16 { children, .. } => 63 + children_bytes(children@),
        UltraNode::Node48 { children, .. } => 303 + children_bytes(children@),
        UltraNode::Node256 { children, .. } => 2072 + slot_bytes(children@),
    }
}

/// The estimated bytes of the subtrees in `cs`.
pub open spec fn children_bytes<V>(cs: Seq<Box<UltraNode<V>>>) -> nat
    decreases cs,
{
    if cs.len() == 0 {
        0
    } else {
        children_bytes(cs.drop_last()) + node_bytes_of(*cs.last())
    }
}

/// The estimated bytes of the subtrees in the occupied slots of `cs`.
pub open spec fn slot_bytes<V>(cs: Seq<Option<Box<UltraNode<V>>>>) -> nat
    decreases cs,
{
    if cs.len() == 0 {
        0
    } else {
        slot_bytes(cs.drop_last()) + match cs.last() {
            Some(c) => node_bytes_of(*c),
            None => 0,
        }
    }
}

/// `x + n`, held at `usize::MAX`.
fn add_sat(x: usize, n: usize) -> (r: usize)
    ensures
        r == sat(x + n),
{
    x.saturating_add(n)
}

impl<V> UltraCompactArt<V> {
    /// The counters the tree keeps as it changes.
    pub closed spec fn spec_stats(&self) -> UltraCompactStats {
        self.stats
    }

    /// The estimated bytes of all nodes of the tree.
    pub closed spec fn spec_node_bytes(&self) -> nat {
        match self.root {
            Some(n) => node_bytes_of(*n),
            None => 0,
        }
    }

    /// Add the estimated bytes of `node` and the nodes below it to `bytes`.
    fn compute_node_bytes(node: &UltraNode<V>, bytes: &mut usize)
        ensures
            *final(bytes) == sat(*old(bytes) + node_bytes_of(*node)),
        decreases node,
    {
        let vs = core::mem::size_of::<V>();
        match node {
            UltraNode::Leaf { .. } => {
                *bytes = add_sat(add_sat(*bytes, 6), vs);
            },
            UltraNode::Node4 { children, .. } => {
                *bytes = add_sat(*bytes, 51);
                let ghost b0 = *bytes;
                let mut i: usize = 0;
                assert(decreases_to!(*node => *children));
                while i < children.len()
                    invariant
                        decreases_to!(*node => *children),
                        i <= children@.len(),
                        *bytes == sat(b0 + children_bytes(children@.subrange(0, i as int))),
                    decreases children@.len() - i,
                {
                    proof {
                        assert(children@.subrange(0, i + 1).drop_last() =~= children@.subrange(0, i as int));
                    }
                    Self::compute_node_bytes(&children[i], bytes);
                    i += 1;
                }
                assert(children@.subrange(0, children@.len() as int) =~= children@);
            },
            UltraNode::Node16 { children, .. } => {
                *bytes = add_sat(*bytes, 63);
                let ghost b0 = *bytes;
                let mut i: usize = 0;
                assert(decreases_to!(*node => *children));
                while i < children.len()
                    invariant
                        decreases_to!(*node => *children),
                        i <= children@.len(),
                        *bytes == sat(b0 + children_bytes(children@.subrange(0, i as int))),
                    decreases children@.len() - i,
                {
                    proof {
                        assert(children@.subrange(0, i + 1).drop_last() =~= children@.subrange(0, i as int));
                    }
                    Self::compute_node_bytes(&children[i], bytes);
                    i += 1;
                }
                assert(children@.subrange(0, children@.len() as int) =~= children@);
            },
            UltraNode::Node48 { children, .. } => {
                *bytes = add_sat(*bytes, 303);
                let ghost b0 = *bytes;
                let mut i: usize = 0;
                assert(decreases_to!(*node => *children));
                while i < children.len()
                    invariant
                        decreases_to!(*node => *children),
                        i <= children@.len(),
                        *bytes == sat(b0 + children_bytes(children@.subrange(0, i as int))),
                    decreases children@.len() - i,
                {
                    proof {
                        assert(children@.subrange(0, i + 1).drop_last() =~= children@.subrange(0, i as int));
                    }
                    Self::compute_node_bytes(&children[i], bytes);
                    i += 1;
                }
                assert(children@.subrange(0, children@.len() as int) =~= children@);
            },
            UltraNode::Node256 { children, .. } => {
                *bytes = add_sat(*bytes, 2072);
                let ghost b0 = *bytes;
                let mut i: usize = 0;
                assert(decreases_to!(*node => *children));
                while i < children.len()
                    invariant
                        decreases_to!(*node => *children),
                        i <= children@.len(),
                        *bytes == sat(b0 + slot_bytes(children@.subrange(0, i as int))),
                    decreases children@.len() - i,
                {
                    proof {
                        assert(children@.subrange(0, i + 1).drop_last() =~= children@.subrange(0, i as int));
                    }
                    if let Some(c) = &children[i] {
                        Self::compute_node_bytes(c, bytes);
                    }
                    i += 1;
                }
                assert(children@.subrange(0, children@.len() as int) =~= children@);
            },
        }
    }

    /// The counters the tree keeps, with the arena's size and the estimated bytes of all
    /// nodes.
    pub fn memory_stats(&self) -> (r: UltraCompactStats)
        ensures
            r.arena_bytes == self.spec_arena_len(),
            r.node_bytes == sat(self.spec_node_bytes() as int),
            r.node4_count == self.spec_stats().node4_count,
            r.node16_count == self.spec_stats().node16_count,
            r.node48_count == self.spec_stats().node48_count,
            r.node256_count == self.spec_stats().node256_count,
            r.leaf_count == self.spec_stats().leaf_count,
    {
        let mut node_bytes: usize = 0;
        if let Some(root) = &self.root {
            Self::compute_node_bytes(root, &mut node_bytes);
        }
        UltraCompactStats {
            arena_bytes: self.arena.len(),
            node_bytes,
            node4_count: self.stats.node4_count,
            node16_count: self.stats.node16_count,
            node48_count: self.stats.node48_count,
            node256_count: self.stats.node256_count,
            leaf_count: self.stats.leaf_count,
        }
    }
}

} // verus!
