//! Adaptive Radix Tree (ART).
//!
//! Based on "The Adaptive Radix Tree: ARTful Indexing for Main-Memory Databases"
//! by Leis et al., 2013: adaptive node sizes (4, 16, 48, 256 children) and path
//! compression for common prefixes.
use vstd::prelude::*;

pub mod node;

verus! {

pub use node::{Node, NodeType};
use node::{copy_bytes, count_inc, starts_with, lemma_find_key, lemma_find_key_at};
use crate::binode::bytes_equal;
use crate::frozen::{has_prefix, lemma_prefix_end_none, lemma_prefix_end_some, prefix_end};
use crate::sorted::{compare_keys, key_lt, lemma_key_lt_total, lemma_key_lt_trans, KeyOrder};

/// Memory statistics for the ART.
#[derive(Debug, Clone)]
pub struct ArtMemoryStats {
    /// Bytes used for key storage
    pub key_bytes: usize,
    /// Bytes used for node structures
    pub node_bytes: usize,
    /// Bytes used for value storage
    pub value_bytes: usize,
    /// Number of Node4 instances
    pub node4_count: usize,
    /// Number of Node16 instances
    pub node16_count: usize,
    /// Number of Node48 instances
    pub node48_count: usize,
    /// Number of Node256 instances
    pub node256_count: usize,
    /// Number of leaf nodes
    pub leaf_count: usize,
}

impl Default for ArtMemoryStats {
    fn default() -> (r: Self)
        ensures
            r.key_bytes == 0 && r.node_bytes == 0 && r.value_bytes == 0 && r.node4_count == 0
                && r.node16_count == 0 && r.node48_count == 0 && r.node256_count == 0
                && r.leaf_count == 0,
    {
        ArtMemoryStats {
            key_bytes: 0,
            node_bytes: 0,
            value_bytes: 0,
            node4_count: 0,
            node16_count: 0,
            node48_count: 0,
            node256_count: 0,
            leaf_count: 0,
        }
    }
}


/// `key + n`, held at `usize::MAX`.
fn add_sat(x: usize, n: usize) -> (r: usize)
    ensures
        r == if x + n <= usize::MAX { x + n } else { usize::MAX as int },
{
    if x <= usize::MAX - n {
        x + n
    } else {
        usize::MAX
    }
}

/// `x - n`, held at 0.
fn sub_sat(x: usize, n: usize) -> (r: usize)
    ensures
        r == if x >= n { x - n } else { 0 },
{
    if x >= n {
        x - n
    } else {
        0
    }
}

/// The value stored under `k` in `m`, if any.
pub open spec fn map_get<V>(m: Map<Seq<u8>, V>, k: Seq<u8>) -> Option<V> {
    if m.contains_key(k) {
        Some(m[k])
    } else {
        None
    }
}

/// An Adaptive Radix Tree for efficient key-value storage.
pub struct AdaptiveRadixTree<V> {
    root: Option<Box<Node<V>>>,
    size: usize,
    stats: ArtMemoryStats,
    model: Ghost<Map<Seq<u8>, V>>,
}

impl<V> View for AdaptiveRadixTree<V> {
    type V = Map<Seq<u8>, V>;

    closed spec fn view(&self) -> Map<Seq<u8>, V> {
        self.model@
    }
}

impl<V> AdaptiveRadixTree<V> {
    /// The tree is well formed and holds exactly the map it stands for.
    pub closed spec fn wf(&self) -> bool {
        &&& self.model@.dom().finite()
        &&& self.size == self.model@.len()
        &&& match self.root {
            None => self.model@ == Map::<Seq<u8>, V>::empty(),
            Some(r) => r.inv(Seq::empty()) && forall|k: Seq<u8>| #[trigger]
                r.lookup(k, 0) == map_get(self.model@, k),
        }
    }

    /// A well-formed map holds finitely many keys.
    pub proof fn lemma_wf_finite(&self)
        requires
            self.wf(),
        ensures
            self@.dom().finite(),
    {
    }

    /// Create a new empty ART.
    pub fn new() -> (r: Self)
        ensures
            r.wf(),
            r@ == Map::<Seq<u8>, V>::empty(),
    {
        AdaptiveRadixTree {
            root: None,
            size: 0,
            stats: ArtMemoryStats::default(),
            model: Ghost(Map::empty()),
        }
    }

    /// Insert a key-value pair, returning the value it replaces.
    pub fn insert(&mut self, key: &[u8], value: V) -> (r: Option<V>)
        requires
            old(self).wf(),
            old(self)@.contains_key(key@) || old(self)@.len() < usize::MAX,
        ensures
            final(self).wf(),
            final(self)@ == old(self)@.insert(key@, value),
            r == map_get(old(self)@, key@),
    {
        let ghost m0 = self.model@;
        match self.root.take() {
            None => {
                self.root = Some(Self::key_leaf(key, value));
                self.size = 1;
                self.stats.leaf_count = 1;
                self.stats.key_bytes = add_sat(self.stats.key_bytes, key.len());
                self.model = Ghost(m0.insert(key@, value));
                assert(self.model@.dom() =~= set![key@]);
                assert(starts_with(key@, Seq::empty())) by {
                    assert(key@.subrange(0, 0) =~= Seq::<u8>::empty());
                }
                None
            },
            Some(root) => {
                assert(key@.subrange(0, 0) =~= Seq::<u8>::empty());
                let (new_root, old_value) = Self::insert_recursive(
                    root,
                    key,
                    0,
                    value,
                    &mut self.stats,
                );
                self.root = Some(new_root);
                if old_value.is_none() {
                    self.size = self.size + 1;
                }
                self.model = Ghost(m0.insert(key@, value));
                assert forall|k: Seq<u8>| #[trigger]
                    new_root.lookup(k, 0) == map_get(self.model@, k) by {}
                assert(self.model@.dom() =~= m0.dom().insert(key@));
                old_value
            },
        }
    }

    /// A leaf holding a copy of `key` and `value`.
    fn key_leaf(key: &[u8], value: V) -> (r: Box<Node<V>>)
        ensures
            *r matches Node::Leaf { key: k, value: v } && k@ == key@ && v == value,
    {
        let k = copy_bytes(key, 0, key.len());
        assert(k@ =~= key@);
        Box::new(Node::new_leaf(k, value))
    }

    /// Insert below the leaf `lk -> lv`, which a search for `key` reaches after `depth` bytes.
    fn insert_at_leaf(
        lk: Vec<u8>,
        lv: V,
        key: &[u8],
        depth: usize,
        value: V,
        stats: &mut ArtMemoryStats,
    ) -> (r: (Box<Node<V>>, Option<V>))
        requires
            depth <= key@.len(),
            starts_with(lk@, key@.subrange(0, depth as int)),
        ensures
            r.0.inv(key@.subrange(0, depth as int)),
            r.1 == (Node::Leaf { key: lk, value: lv }).lookup(key@, depth as int),
            forall|k: Seq<u8>| #[trigger]
                r.0.lookup(k, depth as int) == if k == key@ {
                    Some(value)
                } else {
                    (Node::Leaf { key: lk, value: lv }).lookup(k, depth as int)
                },
    {
        let ghost path = key@.subrange(0, depth as int);
        let ghost lkv = lk@;
        if bytes_equal(lk.as_slice(), key) {
            return (Box::new(Node::Leaf { key: lk, value }), Some(lv));
        }
        let mut split = depth;
        while split < lk.len() && split < key.len() && lk[split] == key[split]
            invariant
                depth <= split <= key@.len(),
                split <= lk@.len(),
                forall|i: int| depth <= i < split ==> lk@[i] == key@[i],
            decreases key@.len() - split,
        {
            split += 1;
        }
        let ghost q = key@.subrange(0, split as int);
        assert(lkv.subrange(0, split as int) =~= q) by {
            assert(lkv.subrange(0, depth as int) == path);
            assert forall|i: int| 0 <= i < split implies lkv[i] == key@[i] by {
                if i < depth {
                    assert(lkv.subrange(0, depth as int)[i] == path[i]);
                }
            }
        }
        let lk_len = lk.len();
        assert(split < lk_len || split < key.len()) by {
            if split >= lk_len && split >= key.len() {
                assert(lkv =~= lkv.subrange(0, split as int));
                assert(key@ =~= key@.subrange(0, split as int));
            }
        }
        let ghost eb = if split < lk_len { lkv[split as int] } else { 0u8 };
        let ghost nb = if split < key@.len() { key@[split as int] } else { 0u8 };
        assert(split < lk_len && split < key@.len() ==> eb != nb);
        let ghost lf = Node::Leaf { key: lk, value: lv };
        let mut inner = Node::new_node4();
        let ghost s0 = inner;
        if split < lk_len && split < key.len() {
            let e = lk[split];
            let n = key[split];
            inner.add_child(e, Box::new(Node::Leaf { key: lk, value: lv }));
            let ghost s1 = inner;
            inner.add_child(n, Self::key_leaf(key, value));
            assert(forall|b: u8| b != eb && b != nb ==> #[trigger] inner.child_at(b) == s0.child_at(b));
        } else if split < lk_len {
            let e = lk[split];
            inner.add_child(e, Box::new(Node::Leaf { key: lk, value: lv }));
            let ghost s1 = inner;
            inner.set_leaf_value(Some((copy_bytes(key, 0, key.len()), Self::key_leaf(key, value))));
            proof {
                inner.lemma_same_body(s1);
                assert(key@.subrange(0, key@.len() as int) =~= key@);
            }
            assert(forall|b: u8| b != eb ==> #[trigger] inner.child_at(b) == s0.child_at(b));
        } else {
            let n = key[split];
            inner.add_child(n, Self::key_leaf(key, value));
            let ghost s1 = inner;
            let lk_copy = copy_bytes(lk.as_slice(), 0, lk.len());
            inner.set_leaf_value(Some((lk_copy, Box::new(Node::Leaf { key: lk, value: lv }))));
            proof {
                inner.lemma_same_body(s1);
                assert(lkv.subrange(0, lkv.len() as int) =~= lkv);
            }
            assert(forall|b: u8| b != nb ==> #[trigger] inner.child_at(b) == s0.child_at(b));
        }
        stats.leaf_count = count_inc(stats.leaf_count);
        stats.key_bytes = add_sat(stats.key_bytes, key.len());
        let ghost before_prefix = inner;
        if split > depth {
            inner.set_prefix(&key[depth..split]);
        }
        stats.node4_count = count_inc(stats.node4_count);
        proof {
            inner.lemma_same_body(before_prefix);
            assert(inner.spec_prefix() =~= key@.subrange(depth as int, split as int));
            assert(path + inner.spec_prefix() =~= q);
            assert forall|b: u8| #[trigger]
                inner.child_at(b) matches Some(c) ==> c.inv(path + inner.spec_prefix() + seq![b]) by {
                if split < lk_len && b == eb {
                    assert(lkv.subrange(0, split + 1) =~= q + seq![b]);
                } else if split < key@.len() && b == nb {
                    assert(key@.subrange(0, split + 1) =~= q + seq![b]);
                }
            }
            if split == key@.len() {
                assert(q =~= key@);
            }
            if split == lk_len {
                assert(q =~= lkv);
            }
            inner.lemma_inv_intro(path);
            assert forall|k: Seq<u8>| #[trigger]
                inner.lookup(k, depth as int) == if k == key@ {
                    Some(value)
                } else {
                    lf.lookup(k, depth as int)
                } by {
                inner.lemma_lookup_step(k, depth as int);
                if k == lkv {
                    assert(k.subrange(depth as int, split as int) =~= inner.spec_prefix());
                }
                if k == key@ {
                    assert(k.subrange(depth as int, split as int) =~= inner.spec_prefix());
                }
            }
        }
        (Box::new(inner), None)
    }

    /// Split `node`, whose prefix a search for `key` leaves after `pm` bytes, into a Node4
    /// over the common part with `node` and a new leaf for `key` below it.
    fn split_prefix(
        node: Node<V>,
        prefix: Vec<u8>,
        pm: usize,
        key: &[u8],
        depth: usize,
        value: V,
        stats: &mut ArtMemoryStats,
    ) -> (r: Box<Node<V>>)
        requires
            node.is_inner(),
            node.inv(key@.subrange(0, depth as int)),
            prefix@ == node.spec_prefix(),
            pm < prefix@.len(),
            depth + pm <= key@.len(),
            forall|i: int| 0 <= i < pm ==> prefix@[i] == key@[depth + i],
            depth + pm == key@.len() || key@[depth + pm] != prefix@[pm as int],
        ensures
            r.inv(key@.subrange(0, depth as int)),
            node.lookup(key@, depth as int) is None,
            forall|k: Seq<u8>| #[trigger]
                r.lookup(k, depth as int) == if k == key@ {
                    Some(value)
                } else {
                    node.lookup(k, depth as int)
                },
    {
        let ghost path = key@.subrange(0, depth as int);
        let ghost d = depth as int;
        let klen = key.len();
        let plen = prefix.len();
        let mut inner = Node::new_node4();
        let ghost s0 = inner;
        let head = copy_bytes(prefix.as_slice(), 0, pm);
        inner.set_prefix(head.as_slice());
        proof {
            inner.lemma_same_body(s0);
        }
        let ob = prefix[pm];
        let rest = copy_bytes(prefix.as_slice(), pm + 1, plen);
        let ghost before = node;
        let mut node = node;
        node.set_prefix(rest.as_slice());
        let ghost moved = node;
        let ghost p1 = path + head@;
        let ghost pb = p1.push(ob);
        proof {
            moved.lemma_same_body(before);
            assert(p1 =~= key@.subrange(0, depth + pm)) by {
                assert forall|i: int| 0 <= i < depth + pm implies p1[i] == key@[i] by {
                    if i >= depth {
                        assert(head@[i - depth] == prefix@[i - depth]);
                    }
                }
            }
            assert(path + before.spec_prefix() =~= pb + moved.spec_prefix());
            before.lemma_reprefix(moved, path, pb);
        }
        inner.add_child(ob, Box::new(node));
        let ghost s1 = inner;
        let nkd = depth + pm;
        if nkd < key.len() {
            let nb = key[nkd];
            inner.add_child(nb, Self::key_leaf(key, value));
        } else {
            inner.set_leaf_value(Some((copy_bytes(key, 0, key.len()), Self::key_leaf(key, value))));
            proof {
                inner.lemma_same_body(s1);
                assert(key@.subrange(0, key@.len() as int) =~= key@);
            }
        }
        stats.leaf_count = count_inc(stats.leaf_count);
        stats.key_bytes = add_sat(stats.key_bytes, key.len());
        stats.node4_count = count_inc(stats.node4_count);
        proof {
            let ghost nb = if nkd < key@.len() { key@[nkd as int] } else { 0u8 };
            assert(path + inner.spec_prefix() == p1);
            assert(inner.child_at(ob) == Some(moved));
            assert forall|b: u8| #[trigger]
                inner.child_at(b) matches Some(c) ==> c.inv(path + inner.spec_prefix() + seq![b]) by {
                if b == ob {
                    assert(p1 + seq![b] =~= pb);
                } else if nkd < key@.len() && b == nb {
                    assert(key@.subrange(0, nkd + 1) =~= p1 + seq![b]);
                }
            }
            if nkd >= key@.len() {
                assert(p1 =~= key@);
            }
            inner.lemma_inv_intro(path);
            // Whatever the old node finds passes its whole prefix.
            assert forall|k: Seq<u8>| #[trigger] before.lookup(k, d) is Some implies k.len() >= d + plen
                && k.subrange(d, d + pm) == head@ && k[d + pm] == ob by {
                before.lemma_lookup_step(k, d);
                assert(k.subrange(d, d + plen)[pm as int] == k[d + pm]);
                assert(k.subrange(d, d + pm) =~= head@) by {
                    assert forall|i: int| 0 <= i < pm implies k.subrange(d, d + pm)[i] == head@[i] by {
                        assert(k.subrange(d, d + plen)[i] == k[d + i]);
                    }
                }
            }
            assert forall|k: Seq<u8>| #[trigger]
                inner.lookup(k, d) == if k == key@ {
                    Some(value)
                } else {
                    before.lookup(k, d)
                } by {
                inner.lemma_lookup_step(k, d);
                if k == key@ {
                    assert(k.subrange(d, d + pm) =~= head@);
                } else if k.len() > d + pm && k.subrange(d, d + pm) == head@ && k[d + pm] == ob {
                    assert(k.subrange(d, pb.len() as int) =~= pb.subrange(d, pb.len() as int)) by {
                        assert forall|i: int| d <= i < pb.len() implies k[i] == pb[i] by {
                            if i < d + pm {
                                assert(k.subrange(d, d + pm)[i - d] == head@[i - d]);
                            }
                        }
                    }
                }
            }
            assert(before.lookup(key@, d) is None) by {
                if before.lookup(key@, d) is Some {
                    assert(key@[d + pm] == ob);
                }
            }
        }
        Box::new(inner)
    }

    /// Insert below `node`, which a search for `key` reaches after `depth` bytes; returns the
    /// new subtree and the value replaced.
    pub(crate) fn insert_recursive(
        node: Box<Node<V>>,
        key: &[u8],
        depth: usize,
        value: V,
        stats: &mut ArtMemoryStats,
    ) -> (r: (Box<Node<V>>, Option<V>))
        requires
            depth <= key@.len(),
            node.inv(key@.subrange(0, depth as int)),
        ensures
            r.0.inv(key@.subrange(0, depth as int)),
            r.1 == node.lookup(key@, depth as int),
            forall|k: Seq<u8>| #[trigger]
                r.0.lookup(k, depth as int) == if k == key@ {
                    Some(value)
                } else {
                    node.lookup(k, depth as int)
                },
        decreases key@.len() - depth,
    {
        let ghost path = key@.subrange(0, depth as int);
        let ghost old_node = *node;
        let klen = key.len();
        let mut node = *node;
        match node {
            Node::Leaf { key: lk, value: lv } => {
                return Self::insert_at_leaf(lk, lv, key, depth, value, stats);
            },
            _ => {},
        }
        // An inner node.
        let ghost q0 = path + node.spec_prefix();
        let prefix = copy_bytes(node.prefix(), 0, node.prefix().len());
        assert(prefix@ =~= node.spec_prefix());
        let plen = prefix.len();
        let mut pm: usize = 0;
        while pm < plen && pm < key.len() - depth && prefix[pm] == key[depth + pm]
            invariant
                pm <= plen == prefix@.len(),
                depth <= key@.len(),
                depth + pm <= key@.len(),
                forall|i: int| 0 <= i < pm ==> prefix@[i] == key@[depth + i],
            decreases plen - pm,
        {
            pm += 1;
        }
        proof {
            node.lemma_inv_leaf_value(path);
        }
        if pm < plen {
            let r = Self::split_prefix(node, prefix, pm, key, depth, value, stats);
            return (r, None);
        }
        assert(pm == plen);
        let nd = depth + plen;
        proof {
            assert(prefix@ =~= key@.subrange(depth as int, nd as int));
            assert(q0 =~= key@.subrange(0, nd as int));
        }
        if nd >= key.len() {
            // The key ends at this node.
            let ghost before = node;
            let taken = node.take_leaf_value();
            let leaf = Box::new(Node::new_leaf(copy_bytes(key, 0, key.len()), value));
            node.set_leaf_value(Some((copy_bytes(key, 0, key.len()), leaf)));
            let old_value = match taken {
                Some((_, old_leaf)) => match *old_leaf {
                    Node::Leaf { value: v, .. } => Some(v),
                    _ => None,
                },
                None => None,
            };
            if old_value.is_none() {
                stats.leaf_count = count_inc(stats.leaf_count);
                stats.key_bytes = add_sat(stats.key_bytes, key.len());
            }
            proof {
                node.lemma_same_body(before);
                assert(key@ =~= q0);
                assert forall|b: u8| #[trigger]
                    node.child_at(b) matches Some(c) ==> c.inv(path + node.spec_prefix() + seq![b]) by {
                    before.lemma_inv_child(path, b);
                }
                node.lemma_inv_intro(path);
                assert forall|k: Seq<u8>| #[trigger]
                    node.lookup(k, depth as int) == if k == key@ {
                        Some(value)
                    } else {
                        old_node.lookup(k, depth as int)
                    } by {
                    node.lemma_lookup_step(k, depth as int);
                    before.lemma_lookup_step(k, depth as int);
                }
                before.lemma_lookup_step(key@, depth as int);
            }
            return (Box::new(node), old_value);
        }
        let next_byte = key[nd];
        proof {
            node.lemma_inv_child(path, next_byte);
            assert(q0 + seq![next_byte] =~= key@.subrange(0, nd + 1));
        }
        match node.find_child(next_byte) {
            Some(idx) => {
                let ghost before = node;
                let child = node.remove_child(idx);
                let ghost mid = node;
                assert(mid.child_at(next_byte) is None);
                assert(before.child_at(next_byte) == Some(*child));
                let (new_child, old_value) = Self::insert_recursive(child, key, nd + 1, value, stats);
                proof {
                    assert forall|b: u8| b != next_byte implies before.child_pos(b) != Some(idx as int) by {
                        before.lemma_child_pos_injective(next_byte, b);
                    }
                }
                node.add_child(next_byte, new_child);
                proof {
                    assert forall|b: u8| #[trigger]
                        node.child_at(b) matches Some(c) ==> c.inv(path + node.spec_prefix() + seq![b]) by {
                        before.lemma_inv_child(path, b);
                    }
                    node.lemma_inv_intro(path);
                    assert forall|k: Seq<u8>| #[trigger]
                        node.lookup(k, depth as int) == if k == key@ {
                            Some(value)
                        } else {
                            old_node.lookup(k, depth as int)
                        } by {
                        node.lemma_lookup_step(k, depth as int);
                        before.lemma_lookup_step(k, depth as int);
                    }
                    before.lemma_lookup_step(key@, depth as int);
                }
                (Box::new(node), old_value)
            },
            None => {
                let ghost before = node;
                node.add_child_grow(next_byte, Self::key_leaf(key, value), stats);
                stats.leaf_count = count_inc(stats.leaf_count);
                stats.key_bytes = add_sat(stats.key_bytes, key.len());
                proof {
                    assert forall|b: u8| #[trigger]
                        node.child_at(b) matches Some(c) ==> c.inv(path + node.spec_prefix() + seq![b]) by {
                        before.lemma_inv_child(path, b);
                        if b == next_byte {
                            assert(key@.subrange(0, nd + 1) == q0 + seq![b]);
                        }
                    }
                    node.lemma_inv_intro(path);
                    assert forall|k: Seq<u8>| #[trigger]
                        node.lookup(k, depth as int) == if k == key@ {
                            Some(value)
                        } else {
                            old_node.lookup(k, depth as int)
                        } by {
                        node.lemma_lookup_step(k, depth as int);
                        before.lemma_lookup_step(k, depth as int);
                    }
                    before.lemma_lookup_step(key@, depth as int);
                }
                (Box::new(node), None)
            },
        }
    }
}


/// What a search below an optional subtree finds.
pub open spec fn lookup_opt<V>(n: Option<Box<Node<V>>>, key: Seq<u8>, depth: int) -> Option<V> {
    match n {
        Some(n) => n.lookup(key, depth),
        None => None,
    }
}

impl<V> Node<V> {
    /// The child for byte `b`.
    pub(crate) fn child(&self, b: u8) -> (r: Option<&Node<V>>)
        requires
            self.shape_ok(),
        ensures
            match r {
                Some(c) => self.child_at(b) == Some(*c),
                None => self.child_at(b) is None,
            },
    {
        match self {
            Node::Leaf { .. } => None,
            Node::Node4 { children, keys, num_children, .. } => match self.find_child(b) {
                Some(i) => {
                    proof {
                        node::lemma_find_key(keys@, *num_children as int, b, 0);
                    }
                    Some(&children[i])
                },
                None => None,
            },
            Node::Node16 { children, keys, num_children, .. } => match self.find_child(b) {
                Some(i) => {
                    proof {
                        node::lemma_find_key(keys@, *num_children as int, b, 0);
                    }
                    Some(&children[i])
                },
                None => None,
            },
            Node::Node48 { children, .. } => match self.find_child(b) {
                Some(i) => Some(&children[i]),
                None => None,
            },
            Node::Node256 { children, .. } => match &children[b as usize] {
                Some(c) => Some(&**c),
                None => None,
            },
        }
    }
}

impl<V> AdaptiveRadixTree<V> {
    /// The position of the child for `byte`; for a Node256 the byte itself, whether or not a
    /// child is there.
    fn find_child_in_node(node: &Node<V>, byte: u8) -> (r: Option<usize>)
        requires
            node.shape_ok(),
        ensures
            node is Node256 ==> r == Some(byte as usize),
            !(node is Node256) ==> match r {
                Some(i) => node.child_pos(byte) == Some(i as int),
                None => node.child_pos(byte) is None,
            },
    {
        match node {
            Node::Node256 { .. } => Some(byte as usize),
            _ => node.find_child(byte),
        }
    }

    /// Get a reference to the value for a key.
    pub fn get(&self, key: &[u8]) -> (r: Option<&V>)
        requires
            self.wf(),
        ensures
            match r {
                Some(v) => self@.contains_key(key@) && *v == self@[key@],
                None => !self@.contains_key(key@),
            },
    {
        let mut node: &Node<V> = match &self.root {
            Some(n) => &**n,
            None => return None,
        };
        let klen = key.len();
        let mut depth: usize = 0;
        assert(key@.subrange(0, 0) =~= Seq::<u8>::empty());
        loop
            invariant
                depth <= klen == key@.len(),
                node.inv(key@.subrange(0, depth as int)),
                node.lookup(key@, depth as int) == map_get(self@, key@),
            decreases klen - depth,
        {
            if let Node::Leaf { key: lk, value } = node {
                if bytes_equal(lk.as_slice(), key) {
                    return Some(value);
                } else {
                    return None;
                }
            }
            let ghost path = key@.subrange(0, depth as int);
            proof {
                node.lemma_lookup_step(key@, depth as int);
            }
            let prefix = node.prefix();
            let plen = prefix.len();
            if klen - depth < plen {
                return None;
            }
            if !bytes_equal(&key[depth..depth + plen], prefix) {
                return None;
            }
            let ghost d0 = depth;
            depth = depth + plen;
            if depth >= klen {
                if let Some(lv) = node.get_leaf_value() {
                    if let Node::Leaf { key: lk, value } = &*lv.1 {
                        if bytes_equal(lk.as_slice(), key) {
                            return Some(value);
                        }
                    }
                }
                return None;
            }
            let b = key[depth];
            proof {
                node.lemma_inv_child(path, b);
                assert(key@.subrange(0, depth + 1) =~= path + node.spec_prefix() + seq![b]);
            }
            match node.child(b) {
                Some(c) => {
                    node = c;
                    depth = depth + 1;
                },
                None => {
                    return None;
                },
            }
        }
    }

    /// Remove a key from the tree, returning its value.
    pub fn remove(&mut self, key: &[u8]) -> (r: Option<V>)
        requires
            old(self).wf(),
        ensures
            final(self).wf(),
            final(self)@ == old(self)@.remove(key@),
            r == map_get(old(self)@, key@),
    {
        let ghost m0 = self.model@;
        match self.root.take() {
            None => {
                assert(m0.remove(key@) =~= m0);
                None
            },
            Some(root) => {
                assert(key@.subrange(0, 0) =~= Seq::<u8>::empty());
                let (new_root, old_value) = Self::remove_recursive(root, key, 0, &mut self.stats);
                let ghost nr = new_root;
                self.root = new_root;
                if old_value.is_some() {
                    self.size = self.size - 1;
                }
                self.model = Ghost(m0.remove(key@));
                assert(self.model@.dom() =~= m0.dom().remove(key@));
                proof {
                    match nr {
                        Some(r) => {
                            assert forall|k: Seq<u8>| #[trigger]
                                r.lookup(k, 0) == map_get(self.model@, k) by {
                                assert(lookup_opt(nr, k, 0) == r.lookup(k, 0));
                            }
                        },
                        None => {
                            assert forall|k: Seq<u8>| !self.model@.contains_key(k) by {
                                assert(lookup_opt(nr, k, 0) is None);
                            }
                            assert(self.model@ =~= Map::<Seq<u8>, V>::empty());
                        },
                    }
                }
                old_value
            },
        }
    }

    /// Remove `key` below `node`, which a search for it reaches after `depth` bytes; returns
    /// what is left of the subtree and the value removed.
    fn remove_recursive(
        node: Box<Node<V>>,
        key: &[u8],
        depth: usize,
        stats: &mut ArtMemoryStats,
    ) -> (r: (Option<Box<Node<V>>>, Option<V>))
        requires
            depth <= key@.len(),
            node.inv(key@.subrange(0, depth as int)),
        ensures
            r.0 matches Some(n) ==> n.inv(key@.subrange(0, depth as int)),
            r.1 == node.lookup(key@, depth as int),
            forall|k: Seq<u8>| #[trigger]
                lookup_opt(r.0, k, depth as int) == if k == key@ {
                    None
                } else {
                    node.lookup(k, depth as int)
                },
        decreases key@.len() - depth,
    {
        let ghost path = key@.subrange(0, depth as int);
        let ghost old_node = *node;
        let klen = key.len();
        let mut node = *node;
        match node {
            Node::Leaf { key: lk, value } => {
                if bytes_equal(lk.as_slice(), key) {
                    stats.leaf_count = node::count_dec(stats.leaf_count);
                    stats.key_bytes = sub_sat(stats.key_bytes, lk.len());
                    return (None, Some(value));
                } else {
                    return (Some(Box::new(Node::Leaf { key: lk, value })), None);
                }
            },
            _ => {},
        }
        proof {
            node.lemma_inv_leaf_value(path);
        }
        let plen = node.prefix().len();
        if klen - depth < plen {
            proof {
                assert forall|k: Seq<u8>| #[trigger] old_node.lookup(k, depth as int) is Some implies k != key@ by {
                    node.lemma_lookup_step(k, depth as int);
                }
            }
            return (Some(Box::new(node)), None);
        }
        if !bytes_equal(&key[depth..depth + plen], node.prefix()) {
            proof {
                assert forall|k: Seq<u8>| #[trigger] old_node.lookup(k, depth as int) is Some implies k != key@ by {
                    node.lemma_lookup_step(k, depth as int);
                }
            }
            return (Some(Box::new(node)), None);
        }
        let nd = depth + plen;
        let ghost q0 = path + node.spec_prefix();
        proof {
            assert(q0 =~= key@.subrange(0, nd as int));
        }
        if nd >= klen {
            proof {
                assert(key@ =~= q0);
            }
            let should_remove = match node.get_leaf_value() {
                Some(lv) => bytes_equal(lv.0.as_slice(), key),
                None => false,
            };
            if should_remove {
                let ghost before = node;
                if let Some((k, old_leaf)) = node.take_leaf_value() {
                    if let Node::Leaf { key: leaf_k, value } = *old_leaf {
                        stats.leaf_count = node::count_dec(stats.leaf_count);
                        stats.key_bytes = sub_sat(stats.key_bytes, leaf_k.len());
                        proof {
                            node.lemma_same_body(before);
                            assert forall|b: u8| #[trigger]
                                node.child_at(b) matches Some(c) ==> c.inv(path + node.spec_prefix() + seq![b]) by {
                                before.lemma_inv_child(path, b);
                            }
                            node.lemma_inv_intro(path);
                            assert forall|kk: Seq<u8>| #[trigger]
                                lookup_opt(Some(Box::new(node)), kk, depth as int) == if kk == key@ {
                                    None
                                } else {
                                    old_node.lookup(kk, depth as int)
                                } by {
                                node.lemma_lookup_step(kk, depth as int);
                                before.lemma_lookup_step(kk, depth as int);
                            }
                            before.lemma_lookup_step(key@, depth as int);
                        }
                        return (Some(Box::new(node)), Some(value));
                    }
                }
            }
            proof {
                node.lemma_lookup_step(key@, depth as int);
            }
            return (Some(Box::new(node)), None);
        }
        let next_byte = key[nd];
        proof {
            node.lemma_inv_child(path, next_byte);
            assert(q0 + seq![next_byte] =~= key@.subrange(0, nd + 1));
        }
        match node.find_child(next_byte) {
            Some(idx) => {
                let ghost before = node;
                let child = node.remove_child(idx);
                let ghost mid = node;
                assert(mid.child_at(next_byte) is None);
                assert(before.child_at(next_byte) == Some(*child));
                let (new_child, old_value) = Self::remove_recursive(child, key, nd + 1, stats);
                proof {
                    assert forall|b: u8| b != next_byte implies before.child_pos(b) != Some(idx as int) by {
                        before.lemma_child_pos_injective(next_byte, b);
                    }
                }
                if let Some(c) = new_child {
                    node.add_child(next_byte, c);
                }
                proof {
                    assert forall|b: u8| #[trigger]
                        node.child_at(b) matches Some(c) ==> c.inv(path + node.spec_prefix() + seq![b]) by {
                        before.lemma_inv_child(path, b);
                    }
                    node.lemma_inv_intro(path);
                    assert forall|k: Seq<u8>| #[trigger]
                        node.lookup(k, depth as int) == if k == key@ {
                            None
                        } else {
                            old_node.lookup(k, depth as int)
                        } by {
                        node.lemma_lookup_step(k, depth as int);
                        before.lemma_lookup_step(k, depth as int);
                        if k.len() > nd && k[nd as int] == next_byte {
                            assert(lookup_opt(new_child, k, nd + 1) == if k == key@ {
                                None
                            } else {
                                child.lookup(k, nd + 1)
                            });
                        }
                    }
                    before.lemma_lookup_step(key@, depth as int);
                }
                if node.num_children() == 0 && node.get_leaf_value().is_none() {
                    match node.node_type() {
                        NodeType::Node4 => stats.node4_count = node::count_dec(stats.node4_count),
                        NodeType::Node16 => stats.node16_count = node::count_dec(stats.node16_count),
                        NodeType::Node48 => stats.node48_count = node::count_dec(stats.node48_count),
                        NodeType::Node256 => stats.node256_count = node::count_dec(stats.node256_count),
                        _ => {},
                    }
                    proof {
                        node.lemma_no_children();
                        assert forall|k: Seq<u8>| #[trigger] node.lookup(k, depth as int) is None by {
                            node.lemma_lookup_step(k, depth as int);
                        }
                    }
                    return (None, old_value);
                }
                (Some(Box::new(node)), old_value)
            },
            None => {
                proof {
                    node.lemma_lookup_step(key@, depth as int);
                }
                (Some(Box::new(node)), None)
            },
        }
    }

    /// Get the number of keys in the tree.
    pub fn len(&self) -> (r: usize)
        requires
            self.wf(),
        ensures
            r == self@.len(),
    {
        self.size
    }

    /// Check if the tree is empty.
    pub fn is_empty(&self) -> (r: bool)
        requires
            self.wf(),
        ensures
            r == (self@.len() == 0),
    {
        self.size == 0
    }
}


/// One end of a key range.
pub enum KeyBound {
    /// The range holds this key.
    Included(Vec<u8>),
    /// The range stops just short of this key.
    Excluded(Vec<u8>),
    /// The range is open at this end.
    Unbounded,
}

/// `k` is not before the start `start`.
pub open spec fn after_start(k: Seq<u8>, start: KeyBound) -> bool {
    match start {
        KeyBound::Included(s) => !key_lt(k, s@),
        KeyBound::Excluded(s) => key_lt(s@, k),
        KeyBound::Unbounded => true,
    }
}

/// `k` is not past the end `end`.
pub open spec fn before_end(k: Seq<u8>, end: KeyBound) -> bool {
    match end {
        KeyBound::Included(e) => !key_lt(e@, k),
        KeyBound::Excluded(e) => key_lt(k, e@),
        KeyBound::Unbounded => true,
    }
}

/// `k` lies between the two ends.
pub open spec fn in_range(k: Seq<u8>, start: KeyBound, end: KeyBound) -> bool {
    after_start(k, start) && before_end(k, end)
}

/// Whether `key` lies between the two ends.
pub(crate) fn key_in_range(key: &[u8], start: &KeyBound, end: &KeyBound) -> (r: bool)
    ensures
        r == in_range(key@, *start, *end),
{
    let after = match start {
        KeyBound::Included(s) => !matches!(compare_keys(key, s.as_slice()), KeyOrder::Less),
        KeyBound::Excluded(s) => matches!(compare_keys(s.as_slice(), key), KeyOrder::Less),
        KeyBound::Unbounded => true,
    };
    let before = match end {
        KeyBound::Included(e) => !matches!(compare_keys(e.as_slice(), key), KeyOrder::Less),
        KeyBound::Excluded(e) => matches!(compare_keys(key, e.as_slice()), KeyOrder::Less),
        KeyBound::Unbounded => true,
    };
    after && before
}

/// Keys in strictly increasing order.
pub open spec fn keys_sorted<V>(s: Seq<(Vec<u8>, V)>) -> bool {
    forall|i: int, j: int| 0 <= i < j < s.len() ==> key_lt(#[trigger] s[i].0@, #[trigger] s[j].0@)
}

/// A list of pairs in strictly increasing key order whose keys are exactly those of a finite
/// map has one pair per key: so a scan with the empty prefix lists as many pairs as the tree
/// holds keys.
pub proof fn lemma_scan_len<V, W>(r: Seq<(Vec<u8>, V)>, m: Map<Seq<u8>, W>)
    requires
        m.dom().finite(),
        keys_sorted(r),
        forall|k: Seq<u8>| #[trigger] has_key(r, k) == m.contains_key(k),
    ensures
        r.len() == m.len(),
{
    let ks = r.map_values(|p: (Vec<u8>, V)| p.0@);
    assert(ks.no_duplicates()) by {
        assert forall|i: int, j: int| 0 <= i < ks.len() && 0 <= j < ks.len() && i != j implies ks[i]
            != ks[j] by {
            if i < j {
                lemma_key_lt_total(r[i].0@, r[j].0@);
            } else {
                lemma_key_lt_total(r[j].0@, r[i].0@);
            }
        }
    }
    ks.unique_seq_to_set();
    assert(ks.to_set() =~= m.dom()) by {
        assert forall|k: Seq<u8>| ks.to_set().contains(k) == m.dom().contains(k) by {
            if m.dom().contains(k) {
                assert(has_key(r, k));
                let i = choose|i: int| #![trigger r[i]] 0 <= i < r.len() && r[i].0@ == k;
                assert(ks[i] == k);
            }
            if ks.to_set().contains(k) {
                let i = choose|i: int| 0 <= i < ks.len() && ks[i] == k;
                assert(r[i].0@ == k);
                assert(has_key(r, k));
            }
        }
    }
}

/// Some pair of `s` has the key `k`.
pub open spec fn has_key<V>(s: Seq<(Vec<u8>, V)>, k: Seq<u8>) -> bool {
    exists|i: int| #![trigger s[i]] 0 <= i < s.len() && s[i].0@ == k
}

/// The pair at `i` of `r` is a pair of `o`.
pub open spec fn came_from<V>(r: Seq<(Vec<u8>, V)>, o: Seq<(Vec<u8>, V)>, i: int) -> bool {
    exists|j: int| #![trigger o[j]] 0 <= j < o.len() && o[j] == r[i]
}

/// `r` is `o` with the pairs `g` gives added, in key order: a key `g` gives a value for
/// holds a clone of that value, any other key keeps its pair from `o`.
pub open spec fn fills<V: Clone>(
    r: Seq<(Vec<u8>, V)>,
    o: Seq<(Vec<u8>, V)>,
    g: spec_fn(Seq<u8>) -> Option<V>,
) -> bool {
    &&& keys_sorted(r)
    &&& forall|k: Seq<u8>| #[trigger] has_key(r, k) == (has_key(o, k) || g(k) is Some)
    &&& forall|i: int|
        0 <= i < r.len() ==> match g((#[trigger] r[i]).0@) {
            Some(v) => cloned(v, r[i].1),
            None => came_from(r, o, i),
        }
}

/// The pairs of the subtree `n`, entered after `path`, whose key lies in the range.
pub open spec fn range_of<V>(n: Node<V>, path: Seq<u8>, start: KeyBound, end: KeyBound) -> spec_fn(
    Seq<u8>,
) -> Option<V> {
    |k: Seq<u8>|
        if in_range(k, start, end) {
            n.lookup(k, path.len() as int)
        } else {
            None
        }
}

/// The part of `range_of` that ends at the inner node `n` or goes on under a byte of `vis`.
pub open spec fn range_part<V>(
    n: Node<V>,
    path: Seq<u8>,
    vis: spec_fn(u8) -> bool,
    start: KeyBound,
    end: KeyBound,
) -> spec_fn(Seq<u8>) -> Option<V> {
    |k: Seq<u8>|
        {
            let q = path + n.spec_prefix();
            if in_range(k, start, end) && (k.len() <= q.len() || vis(k[q.len() as int])) {
                n.lookup(k, path.len() as int)
            } else {
                None
            }
        }
}

/// In sorted pairs a key occurs once.
pub(crate) proof fn lemma_sorted_unique<V>(s: Seq<(Vec<u8>, V)>, i: int, j: int)
    requires
        keys_sorted(s),
        0 <= i < s.len(),
        0 <= j < s.len(),
        s[i].0@ == s[j].0@,
    ensures
        i == j,
{
    if i < j {
        lemma_key_lt_total(s[i].0@, s[j].0@);
    } else if j < i {
        lemma_key_lt_total(s[j].0@, s[i].0@);
    }
}

/// Adding pairs in two rounds adds the pairs of both, the second round's where both give one.
pub(crate) proof fn lemma_fills_trans<V: Clone>(
    r1: Seq<(Vec<u8>, V)>,
    r2: Seq<(Vec<u8>, V)>,
    o: Seq<(Vec<u8>, V)>,
    g1: spec_fn(Seq<u8>) -> Option<V>,
    g2: spec_fn(Seq<u8>) -> Option<V>,
    g: spec_fn(Seq<u8>) -> Option<V>,
)
    requires
        fills(r1, o, g1),
        fills(r2, r1, g2),
        forall|k: Seq<u8>| #[trigger] g(k) == if g2(k) is Some {
            g2(k)
        } else {
            g1(k)
        },
    ensures
        fills(r2, o, g),
{
    assert forall|k: Seq<u8>| #[trigger] has_key(r2, k) == (has_key(o, k) || g(k) is Some) by {
        assert(has_key(r2, k) == (has_key(r1, k) || g2(k) is Some));
        assert(has_key(r1, k) == (has_key(o, k) || g1(k) is Some));
    }
    assert forall|i: int| 0 <= i < r2.len() implies match g((#[trigger] r2[i]).0@) {
        Some(v) => cloned(v, r2[i].1),
        None => came_from(r2, o, i),
    } by {
        let k = r2[i].0@;
        if g2(k) is None {
            assert(came_from(r2, r1, i));
            let j = choose|j: int| #![trigger r1[j]] 0 <= j < r1.len() && r1[j] == r2[i];
            assert(r1[j].0@ == k);
            if g1(k) is None {
                assert(came_from(r1, o, j));
                let l = choose|l: int| #![trigger o[l]] 0 <= l < o.len() && o[l] == r1[j];
                assert(o[l] == r2[i]);
            }
        }
    }
}

/// `fills` depends on the pairs `g` gives, not on how `g` is written.
pub(crate) proof fn lemma_fills_same<V: Clone>(
    r: Seq<(Vec<u8>, V)>,
    o: Seq<(Vec<u8>, V)>,
    g: spec_fn(Seq<u8>) -> Option<V>,
    h: spec_fn(Seq<u8>) -> Option<V>,
)
    requires
        fills(r, o, g),
        forall|k: Seq<u8>| #[trigger] g(k) == h(k),
    ensures
        fills(r, o, h),
{
    assert(g =~= h);
}

/// Nothing added leaves the pairs as they were.
pub(crate) proof fn lemma_fills_none<V: Clone>(o: Seq<(Vec<u8>, V)>, g: spec_fn(Seq<u8>) -> Option<V>)
    requires
        keys_sorted(o),
        forall|k: Seq<u8>| #[trigger] g(k) is None,
    ensures
        fills(o, o, g),
{
    assert forall|i: int| 0 <= i < o.len() implies match g((#[trigger] o[i]).0@) {
        Some(v) => cloned(v, o[i].1),
        None => came_from(o, o, i),
    } by {
        assert(g(o[i].0@) is None);
        assert(o[i] == o[i]);
    }
}

/// Put `key` with `value` in its place among the sorted pairs, in place of a pair with the
/// same key.
pub(crate) fn insert_sorted<V>(results: &mut Vec<(Vec<u8>, V)>, key: Vec<u8>, value: V)
    requires
        keys_sorted(old(results)@),
    ensures
        keys_sorted(final(results)@),
        forall|k: Seq<u8>| #[trigger] has_key(final(results)@, k) == (has_key(old(results)@, k) || k
            == key@),
        forall|i: int|
            0 <= i < final(results)@.len() ==> if (#[trigger] final(results)@[i]).0@ == key@ {
                final(results)@[i].1 == value
            } else {
                came_from(final(results)@, old(results)@, i)
            },
{
    let ghost o = results@;
    let mut lo: usize = 0;
    let mut hi: usize = results.len();
    while lo < hi
        invariant
            results@ == o,
            o == old(results)@,
            keys_sorted(o),
            lo <= hi <= o.len(),
            forall|i: int| 0 <= i < lo ==> key_lt(#[trigger] o[i].0@, key@),
            forall|i: int| hi <= i < o.len() ==> key_lt(key@, #[trigger] o[i].0@),
        decreases hi - lo,
    {
        let mid = lo + (hi - lo) / 2;
        match compare_keys(results[mid].0.as_slice(), key.as_slice()) {
            KeyOrder::Less => {
                proof {
                    assert forall|i: int| 0 <= i < mid + 1 implies key_lt(#[trigger] o[i].0@, key@) by {
                        if i < mid {
                            lemma_key_lt_trans(o[i].0@, o[mid as int].0@, key@);
                        }
                    }
                }
                lo = mid + 1;
            },
            KeyOrder::Equal => {
                let ghost kk = key@;
                results.set(mid, (key, value));
                proof {
                    let r = results@;
                    assert forall|i: int, j: int| 0 <= i < j < r.len() implies key_lt(
                        #[trigger] r[i].0@,
                        #[trigger] r[j].0@,
                    ) by {
                        assert(r[i].0@ == o[i].0@ && r[j].0@ == o[j].0@);
                    }
                    assert forall|k: Seq<u8>| #[trigger] has_key(r, k) == (has_key(o, k) || k == kk) by {
                        if has_key(o, k) {
                            let i = choose|i: int| #![trigger o[i]] 0 <= i < o.len() && o[i].0@ == k;
                            assert(r[i].0@ == k);
                        }
                        if has_key(r, k) {
                            let i = choose|i: int| #![trigger r[i]] 0 <= i < r.len() && r[i].0@ == k;
                            assert(o[i].0@ == k);
                        }
                        if k == kk {
                            assert(r[mid as int].0@ == k);
                        }
                    }
                    assert forall|i: int| 0 <= i < r.len() implies if (#[trigger] r[i]).0@ == kk {
                        r[i].1 == value
                    } else {
                        came_from(r, o, i)
                    } by {
                        if i != mid {
                            assert(o[i] == r[i]);
                            if r[i].0@ == kk {
                                lemma_sorted_unique(o, i, mid as int);
                            }
                        }
                    }
                }
                return;
            },
            KeyOrder::Greater => {
                proof {
                    assert forall|i: int| mid <= i < o.len() implies key_lt(key@, #[trigger] o[i].0@) by {
                        if i > mid {
                            lemma_key_lt_trans(key@, o[mid as int].0@, o[i].0@);
                        }
                    }
                }
                hi = mid;
            },
        }
    }
    let ghost kk = key@;
    results.insert(lo, (key, value));
    proof {
        let r = results@;
        assert(r == o.insert(lo as int, r[lo as int]));
        assert forall|i: int, j: int| 0 <= i < j < r.len() implies key_lt(
            #[trigger] r[i].0@,
            #[trigger] r[j].0@,
        ) by {
            if j < lo {
                assert(r[i] == o[i] && r[j] == o[j]);
            } else if j == lo {
                assert(r[i] == o[i]);
            } else if i < lo {
                assert(r[i] == o[i] && r[j] == o[j - 1]);
                lemma_key_lt_trans(r[i].0@, kk, r[j].0@);
            } else if i == lo {
                assert(r[j] == o[j - 1]);
            } else {
                assert(r[i] == o[i - 1] && r[j] == o[j - 1]);
            }
        }
        assert forall|k: Seq<u8>| #[trigger] has_key(r, k) == (has_key(o, k) || k == kk) by {
            if has_key(o, k) {
                let i = choose|i: int| #![trigger o[i]] 0 <= i < o.len() && o[i].0@ == k;
                if i < lo {
                    assert(r[i] == o[i]);
                } else {
                    assert(r[i + 1] == o[i]);
                }
            }
            if has_key(r, k) {
                let i = choose|i: int| #![trigger r[i]] 0 <= i < r.len() && r[i].0@ == k;
                if i < lo {
                    assert(r[i] == o[i]);
                } else if i > lo {
                    assert(r[i] == o[i - 1]);
                }
            }
            if k == kk {
                assert(r[lo as int].0@ == k);
            }
        }
        assert forall|i: int| 0 <= i < r.len() implies if (#[trigger] r[i]).0@ == kk {
            r[i].1 == value
        } else {
            came_from(r, o, i)
        } by {
            if i < lo {
                assert(r[i] == o[i]);
                assert(key_lt(o[i].0@, kk));
                lemma_key_lt_total(kk, kk);
            } else if i > lo {
                assert(r[i] == o[i - 1]);
                assert(key_lt(kk, o[i - 1].0@));
                lemma_key_lt_total(kk, kk);
            }
        }
    }
}

/// Add the pair of a leaf when its key lies in the range.
pub(crate) fn collect_leaf<V: Clone>(
    key: &[u8],
    value: &V,
    start: &KeyBound,
    end: &KeyBound,
    results: &mut Vec<(Vec<u8>, V)>,
)
    requires
        keys_sorted(old(results)@),
    ensures
        fills(
            final(results)@,
            old(results)@,
            |k: Seq<u8>|
                if in_range(k, *start, *end) && k == key@ {
                    Some(*value)
                } else {
                    None
                },
        ),
{
    let ghost g = |k: Seq<u8>|
        if in_range(k, *start, *end) && k == key@ {
            Some(*value)
        } else {
            None
        };
    if key_in_range(key, start, end) {
        let k = copy_bytes(key, 0, key.len());
        assert(k@ =~= key@);
        let v = value.clone();
        insert_sorted(results, k, v);
    } else {
        proof {
            lemma_fills_none(results@, g);
        }
    }
}


/// Below an inner node, a key whose next byte is `b` is found where the child for `b`
/// finds it, and a key that child finds has that next byte.
proof fn lemma_child_lookup<V>(n: Node<V>, path: Seq<u8>, b: u8, k: Seq<u8>)
    requires
        n.is_inner(),
        n.inv(path),
    ensures
        ({
            let q = path + n.spec_prefix();
            &&& n.child_at(b) matches Some(c) ==> (c.lookup(k, q.len() + 1int) is Some ==> k.len()
                > q.len() && k[q.len() as int] == b)
            &&& (k.len() > q.len() && k[q.len() as int] == b) ==> n.lookup(k, path.len() as int)
                == match n.child_at(b) {
                Some(c) => c.lookup(k, q.len() + 1int),
                None => None,
            }
        }),
{
    let q = path + n.spec_prefix();
    let d = path.len() as int;
    n.lemma_lookup_step(k, d);
    n.lemma_inv_child(path, b);
    if let Some(c) = n.child_at(b) {
        if c.lookup(k, q.len() + 1int) is Some {
            assert((q + seq![b]).len() == q.len() + 1int);
            c.lemma_lookup_path(q + seq![b], k);
            assert(k.subrange(0, q.len() + 1int)[q.len() as int] == (q + seq![b])[q.len() as int]);
            assert(k.subrange(d, d + n.spec_prefix().len()) =~= k.subrange(0, q.len() + 1int).subrange(
                d,
                d + n.spec_prefix().len(),
            ));
            assert((q + seq![b]).subrange(d, d + n.spec_prefix().len()) =~= n.spec_prefix());
        }
    }
}

/// Below an inner node, a key no longer than the path to it is found in its own value.
proof fn lemma_leaf_part<V>(n: Node<V>, path: Seq<u8>, k: Seq<u8>)
    requires
        n.is_inner(),
        n.inv(path),
        k.len() <= (path + n.spec_prefix()).len(),
    ensures
        n.lookup(k, path.len() as int) == if k == path + n.spec_prefix() {
            n.leaf_value_lookup(k)
        } else {
            None
        },
{
    let q = path + n.spec_prefix();
    let d = path.len() as int;
    n.lemma_lookup_step(k, d);
    if n.lookup(k, d) is Some {
        n.lemma_lookup_path(path, k);
        assert(k =~= q);
    }
    if k == q {
        assert(q.subrange(d, d + n.spec_prefix().len()) =~= n.spec_prefix());
    }
}

/// Visiting the child under `b` adds the pairs whose next byte is `b`.
proof fn lemma_visit_byte<V: Clone>(
    n: Node<V>,
    path: Seq<u8>,
    b: u8,
    r0: Seq<(Vec<u8>, V)>,
    r1: Seq<(Vec<u8>, V)>,
    o: Seq<(Vec<u8>, V)>,
    vis0: spec_fn(u8) -> bool,
    vis1: spec_fn(u8) -> bool,
    start: KeyBound,
    end: KeyBound,
)
    requires
        n.is_inner(),
        n.inv(path),
        fills(r0, o, range_part(n, path, vis0, start, end)),
        forall|x: u8| #[trigger] vis1(x) == (vis0(x) || x == b),
        n.child_at(b) matches Some(c) ==> fills(
            r1,
            r0,
            range_of(c, path + n.spec_prefix() + seq![b], start, end),
        ),
        n.child_at(b) is None ==> r1 == r0,
    ensures
        fills(r1, o, range_part(n, path, vis1, start, end)),
{
    let q = path + n.spec_prefix();
    let p0 = range_part(n, path, vis0, start, end);
    let p1 = range_part(n, path, vis1, start, end);
    match n.child_at(b) {
        Some(c) => {
            let rc = range_of(c, q + seq![b], start, end);
            let g = |k: Seq<u8>|
                if rc(k) is Some {
                    rc(k)
                } else {
                    p0(k)
                };
            lemma_fills_trans(r0, r1, o, p0, rc, g);
            assert forall|k: Seq<u8>| #[trigger] g(k) == p1(k) by {
                lemma_child_lookup(n, path, b, k);
                assert((q + seq![b]).len() == q.len() + 1int);
            }
            lemma_fills_same(r1, o, g, p1);
        },
        None => {
            assert forall|k: Seq<u8>| #[trigger] p0(k) == p1(k) by {
                lemma_child_lookup(n, path, b, k);
            }
            lemma_fills_same(r1, o, p0, p1);
        },
    }
}

/// Once every byte with a child is visited, the part is the whole.
proof fn lemma_part_full<V>(
    n: Node<V>,
    path: Seq<u8>,
    vis: spec_fn(u8) -> bool,
    start: KeyBound,
    end: KeyBound,
)
    requires
        n.is_inner(),
        n.inv(path),
        forall|x: u8| #[trigger] n.child_at(x) is Some ==> vis(x),
    ensures
        forall|k: Seq<u8>| #[trigger] range_part(n, path, vis, start, end)(k) == range_of(n, path, start, end)(k),
{
    let q = path + n.spec_prefix();
    assert forall|k: Seq<u8>| #[trigger] range_part(n, path, vis, start, end)(k) == range_of(n, path, start, end)(k) by {
        if k.len() > q.len() {
            let x = k[q.len() as int];
            lemma_child_lookup(n, path, x, k);
            if !vis(x) {
                assert(n.child_at(x) is None);
            }
        }
    }
}

/// Add the value an inner node holds itself, when its key lies in the range.
fn collect_node_value<V: Clone>(
    node: &Node<V>,
    Ghost(path): Ghost<Seq<u8>>,
    start: &KeyBound,
    end: &KeyBound,
    results: &mut Vec<(Vec<u8>, V)>,
)
    requires
        node.is_inner(),
        node.inv(path),
        keys_sorted(old(results)@),
    ensures
        fills(final(results)@, old(results)@, range_part(*node, path, |x: u8| false, *start, *end)),
{
    let ghost q = path + node.spec_prefix();
    let ghost part = range_part(*node, path, |x: u8| false, *start, *end);
    proof {
        node.lemma_inv_leaf_value(path);
    }
    let lv = match node {
        Node::Node4 { leaf_value, .. } => leaf_value,
        Node::Node16 { leaf_value, .. } => leaf_value,
        Node::Node48 { leaf_value, .. } => leaf_value,
        Node::Node256 { leaf_value, .. } => leaf_value,
        Node::Leaf { .. } => {
            proof {
                assert(false);
            }
            return;
        },
    };
    assert(*lv == node.spec_leaf_value());
    if let Some((_, leaf)) = lv {
        if let Node::Leaf { key: lk, value } = &**leaf {
            let ghost g = |k: Seq<u8>|
                if in_range(k, *start, *end) && k == lk@ {
                    Some(*value)
                } else {
                    None
                };
            collect_leaf(lk.as_slice(), value, start, end, results);
            proof {
                assert forall|k: Seq<u8>| #[trigger] g(k) == part(k) by {
                    if k.len() <= q.len() {
                        lemma_leaf_part(*node, path, k);
                    }
                }
                lemma_fills_same(results@, old(results)@, g, part);
            }
            return;
        }
    }
    proof {
        assert forall|k: Seq<u8>| #[trigger] part(k) is None by {
            if k.len() <= q.len() {
                lemma_leaf_part(*node, path, k);
            }
        }
        lemma_fills_none(results@, part);
    }
}

/// Add the pairs of the subtree `node`, entered after `path`, whose key lies in the range.
fn collect_range<V: Clone>(
    node: &Node<V>,
    Ghost(path): Ghost<Seq<u8>>,
    start: &KeyBound,
    end: &KeyBound,
    results: &mut Vec<(Vec<u8>, V)>,
)
    requires
        node.inv(path),
        keys_sorted(old(results)@),
    ensures
        fills(final(results)@, old(results)@, range_of(*node, path, *start, *end)),
    decreases node,
{
    let ghost o = results@;
    if let Node::Leaf { key, value } = node {
        let ghost g = |k: Seq<u8>|
            if in_range(k, *start, *end) && k == key@ {
                Some(*value)
            } else {
                None
            };
        collect_leaf(key.as_slice(), value, start, end, results);
        proof {
            lemma_fills_same(results@, o, g, range_of(*node, path, *start, *end));
        }
        return;
    }
    let ghost q = path + node.spec_prefix();
    collect_node_value(node, Ghost(path), start, end, results);
    match node {
        Node::Node4 { keys, num_children, children, .. } => {
            let n = *num_children as usize;
            let mut i: usize = 0;
            while i < n
                invariant
                    node.is_inner(),
                    node.inv(path),
                    q == path + node.spec_prefix(),
                    *node matches Node::Node4 { keys: k2, num_children: n2, children: c2, .. }
                        && k2 == *keys && n2 == *num_children && c2 == *children,
                    n == *num_children,
                    i <= n,
                    fills(
                        results@,
                        o,
                        range_part(*node, path, |x: u8| node.child_pos(x) matches Some(j) && j < i, *start, *end),
                    ),
                decreases n - i,
            {
                let ghost r0 = results@;
                let ghost b = keys@[i as int];
                let ghost vis0 = |x: u8| node.child_pos(x) matches Some(j) && j < i;
                let ghost vis1 = |x: u8| node.child_pos(x) matches Some(j) && j < i + 1;
                proof {
                    lemma_find_key_at(keys@, n as int, b, 0, i as int);
                    node.lemma_inv_child(path, b);
                }
                collect_range(&children[i], Ghost(q + seq![b]), start, end, results);
                proof {
                    assert forall|x: u8| #[trigger] vis1(x) == (vis0(x) || x == b) by {
                        lemma_find_key(keys@, n as int, x, 0);
                    }
                    lemma_visit_byte(*node, path, b, r0, results@, o, vis0, vis1, *start, *end);
                }
                i += 1;
            }
            proof {
                let vis = |x: u8| node.child_pos(x) matches Some(j) && j < n;
                assert forall|x: u8| #[trigger] node.child_at(x) is Some implies vis(x) by {
                    lemma_find_key(keys@, n as int, x, 0);
                }
                lemma_part_full(*node, path, vis, *start, *end);
                lemma_fills_same(results@, o, range_part(*node, path, vis, *start, *end), range_of(*node, path, *start, *end));
            }
        },
        Node::Node16 { keys, num_children, children, .. } => {
            let n = *num_children as usize;
            let mut i: usize = 0;
            while i < n
                invariant
                    node.is_inner(),
                    node.inv(path),
                    q == path + node.spec_prefix(),
                    *node matches Node::Node16 { keys: k2, num_children: n2, children: c2, .. }
                        && k2 == *keys && n2 == *num_children && c2 == *children,
                    n == *num_children,
                    i <= n,
                    fills(
                        results@,
                        o,
                        range_part(*node, path, |x: u8| node.child_pos(x) matches Some(j) && j < i, *start, *end),
                    ),
                decreases n - i,
            {
                let ghost r0 = results@;
                let ghost b = keys@[i as int];
                let ghost vis0 = |x: u8| node.child_pos(x) matches Some(j) && j < i;
                let ghost vis1 = |x: u8| node.child_pos(x) matches Some(j) && j < i + 1;
                proof {
                    lemma_find_key_at(keys@, n as int, b, 0, i as int);
                    node.lemma_inv_child(path, b);
                }
                collect_range(&children[i], Ghost(q + seq![b]), start, end, results);
                proof {
                    assert forall|x: u8| #[trigger] vis1(x) == (vis0(x) || x == b) by {
                        lemma_find_key(keys@, n as int, x, 0);
                    }
                    lemma_visit_byte(*node, path, b, r0, results@, o, vis0, vis1, *start, *end);
                }
                i += 1;
            }
            proof {
                let vis = |x: u8| node.child_pos(x) matches Some(j) && j < n;
                assert forall|x: u8| #[trigger] node.child_at(x) is Some implies vis(x) by {
                    lemma_find_key(keys@, n as int, x, 0);
                }
                lemma_part_full(*node, path, vis, *start, *end);
                lemma_fills_same(results@, o, range_part(*node, path, vis, *start, *end), range_of(*node, path, *start, *end));
            }
        },
        Node::Node48 { child_index, children, .. } => {
            let mut b: usize = 0;
            while b < 256
                invariant
                    node.is_inner(),
                    node.inv(path),
                    q == path + node.spec_prefix(),
                    *node matches Node::Node48 { child_index: ci2, children: c2, .. }
                        && ci2 == *child_index && c2 == *children,
                    b <= 256,
                    fills(results@, o, range_part(*node, path, |x: u8| (x as int) < b, *start, *end)),
                decreases 256 - b,
            {
                let ghost r0 = results@;
                let bb = b as u8;
                let ghost vis0 = |x: u8| (x as int) < b;
                let ghost vis1 = |x: u8| (x as int) < b + 1;
                proof {
                    node.lemma_inv_child(path, bb);
                }
                let idx = child_index[b];
                if idx != 255 {
                    collect_range(&children[idx as usize], Ghost(q + seq![bb]), start, end, results);
                }
                proof {
                    assert forall|x: u8| #[trigger] vis1(x) == (vis0(x) || x == bb) by {}
                    lemma_visit_byte(*node, path, bb, r0, results@, o, vis0, vis1, *start, *end);
                }
                b += 1;
            }
            proof {
                let vis = |x: u8| (x as int) < 256;
                lemma_part_full(*node, path, vis, *start, *end);
                lemma_fills_same(results@, o, range_part(*node, path, vis, *start, *end), range_of(*node, path, *start, *end));
            }
        },
        Node::Node256 { children, .. } => {
            let mut b: usize = 0;
            while b < 256
                invariant
                    node.is_inner(),
                    node.inv(path),
                    q == path + node.spec_prefix(),
                    *node matches Node::Node256 { children: c2, .. } && c2 == *children,
                    b <= 256,
                    fills(results@, o, range_part(*node, path, |x: u8| (x as int) < b, *start, *end)),
                decreases 256 - b,
            {
                let ghost r0 = results@;
                let bb = b as u8;
                let ghost vis0 = |x: u8| (x as int) < b;
                let ghost vis1 = |x: u8| (x as int) < b + 1;
                proof {
                    node.lemma_inv_child(path, bb);
                }
                if let Some(c) = &children[b] {
                    collect_range(c, Ghost(q + seq![bb]), start, end, results);
                }
                proof {
                    assert forall|x: u8| #[trigger] vis1(x) == (vis0(x) || x == bb) by {}
                    lemma_visit_byte(*node, path, bb, r0, results@, o, vis0, vis1, *start, *end);
                }
                b += 1;
            }
            proof {
                let vis = |x: u8| (x as int) < 256;
                lemma_part_full(*node, path, vis, *start, *end);
                lemma_fills_same(results@, o, range_part(*node, path, vis, *start, *end), range_of(*node, path, *start, *end));
            }
        },
        Node::Leaf { .. } => {},
    }
}


impl<V: Clone> AdaptiveRadixTree<V> {
    /// The pairs whose key lies between `start` and `end`, in increasing key order, each
    /// value a clone of the stored one.
    pub fn range(&self, start: KeyBound, end: KeyBound) -> (r: Vec<(Vec<u8>, V)>)
        requires
            self.wf(),
        ensures
            keys_sorted(r@),
            forall|k: Seq<u8>| #[trigger] has_key(r@, k) == (self@.contains_key(k) && in_range(
                k,
                start,
                end,
            )),
            forall|i: int|
                0 <= i < r@.len() ==> self@.contains_key((#[trigger] r@[i]).0@) && cloned(
                    self@[r@[i].0@],
                    r@[i].1,
                ),
    {
        let mut results: Vec<(Vec<u8>, V)> = Vec::new();
        let ghost o = results@;
        match &self.root {
            Some(root) => {
                collect_range(root, Ghost(Seq::empty()), &start, &end, &mut results);
                proof {
                    let g = range_of(**root, Seq::<u8>::empty(), start, end);
                    assert forall|k: Seq<u8>| #[trigger] g(k) == if in_range(k, start, end) {
                        map_get(self@, k)
                    } else {
                        None
                    } by {
                        assert(root.lookup(k, 0) == map_get(self@, k));
                    }
                    assert forall|i: int| 0 <= i < results@.len() implies self@.contains_key(
                        (#[trigger] results@[i]).0@,
                    ) && cloned(self@[results@[i].0@], results@[i].1) by {
                        if g(results@[i].0@) is None {
                            assert(came_from(results@, o, i));
                        }
                    }
                }
            },
            None => {
                proof {
                    assert forall|k: Seq<u8>| #[trigger] has_key(results@, k) == (self@.contains_key(k)
                        && in_range(k, start, end)) by {}
                }
            },
        }
        results
    }

    /// The pairs whose key starts with `prefix`, in increasing key order, each value a clone
    /// of the stored one.
    pub fn prefix_scan(&self, prefix: &[u8]) -> (r: Vec<(Vec<u8>, V)>)
        requires
            self.wf(),
        ensures
            keys_sorted(r@),
            forall|k: Seq<u8>| #[trigger] has_key(r@, k) == (self@.contains_key(k) && has_prefix(
                k,
                prefix@,
            )),
            forall|i: int|
                0 <= i < r@.len() ==> self@.contains_key((#[trigger] r@[i]).0@) && cloned(
                    self@[r@[i].0@],
                    r@[i].1,
                ),
    {
        let start = KeyBound::Included(copy_bytes(prefix, 0, prefix.len()));
        let end = match prefix_end(prefix) {
            Some(e) => KeyBound::Excluded(e),
            None => KeyBound::Unbounded,
        };
        proof {
            assert(prefix@.subrange(0, prefix@.len() as int) =~= prefix@);
            assert forall|k: Seq<u8>| #[trigger] in_range(k, start, end) == has_prefix(k, prefix@) by {
                match end {
                    KeyBound::Excluded(e) => lemma_prefix_end_some(prefix@, e@, k),
                    _ => lemma_prefix_end_none(prefix@, k),
                }
            }
        }
        self.range(start, end)
    }
}


/// What the memory report counts for a subtree: leaves, Node4s, Node16s, Node48s, Node256s,
/// key bytes, value bytes, and the least node bytes (with every vector as full as it is long).
pub type Tally = (nat, nat, nat, nat, nat, nat, nat, nat);

/// The sum of two tallies.
pub open spec fn tsum(a: Tally, b: Tally) -> Tally {
    (a.0 + b.0, a.1 + b.1, a.2 + b.2, a.3 + b.3, a.4 + b.4, a.5 + b.5, a.6 + b.6, a.7 + b.7)
}

/// The empty tally.
pub open spec fn tzero() -> Tally {
    (0, 0, 0, 0, 0, 0, 0, 0)
}

/// What the report counts for `n` and every node below it.
pub open spec fn tally<V>(n: Node<V>) -> Tally
    decreases n,
{
    let sv = vstd::layout::size_of::<V>();
    match n {
        Node::Leaf { key, .. } => (1, 0, 0, 0, 0, key@.len(), sv, 24 + key@.len() + sv),
        Node::Node4 { prefix, num_children, children, leaf_value, .. } => tsum(
            tsum((0, 1, 0, 0, 0, 0, 0, 77 + prefix@.len() + 8 * (num_children as nat)), value_tally(leaf_value)),
            children_tally(children@),
        ),
        Node::Node16 { prefix, num_children, children, leaf_value, .. } => tsum(
            tsum((0, 0, 1, 0, 0, 0, 0, 89 + prefix@.len() + 8 * (num_children as nat)), value_tally(leaf_value)),
            children_tally(children@),
        ),
        Node::Node48 { prefix, num_children, children, leaf_value, .. } => tsum(
            tsum((0, 0, 0, 1, 0, 0, 0, 329 + prefix@.len() + 8 * (num_children as nat)), value_tally(leaf_value)),
            children_tally(children@),
        ),
        Node::Node256 { prefix, children, leaf_value, .. } => tsum(
            tsum((0, 0, 0, 0, 1, 0, 0, 2098 + prefix@.len()), value_tally(leaf_value)),
            slot_tally(children@),
        ),
    }
}

/// What the report counts for the value an inner node holds: its key and its leaf.
pub open spec fn value_tally<V>(lv: Option<(Vec<u8>, Box<Node<V>>)>) -> Tally
    decreases lv,
{
    match lv {
        Some((k, leaf)) => tsum((0, 0, 0, 0, 0, k@.len(), 0, 0), tally(*leaf)),
        None => tzero(),
    }
}

/// What the report counts for the subtrees in `cs`.
pub open spec fn children_tally<V>(cs: Seq<Box<Node<V>>>) -> Tally
    decreases cs,
{
    if cs.len() == 0 {
        tzero()
    } else {
        tsum(children_tally(cs.drop_last()), tally(*cs.last()))
    }
}

/// What the report counts for the subtrees in the occupied slots of `cs`.
pub open spec fn slot_tally<V>(cs: Seq<Option<Box<Node<V>>>>) -> Tally
    decreases cs,
{
    if cs.len() == 0 {
        tzero()
    } else {
        tsum(slot_tally(cs.drop_last()), match cs.last() {
            Some(c) => tally(*c),
            None => tzero(),
        })
    }
}

/// `x`, held at `usize::MAX`.
pub open spec fn sat(x: int) -> int {
    if x <= usize::MAX {
        x
    } else {
        usize::MAX as int
    }
}

/// The number of nodes of kind `k` in `n` and below it: `n` itself, the leaf that holds a key
/// ending at an inner node, and every child that a node holds.
pub open spec fn kind_count<V>(n: Node<V>, k: NodeType) -> nat
    decreases n,
{
    let own: nat = if n.spec_node_type() == k {
        1
    } else {
        0
    };
    match n {
        Node::Leaf { .. } => own,
        Node::Node4 { children, leaf_value, .. } => own + value_kind_count(leaf_value, k)
            + children_kind_count(children@, k),
        Node::Node16 { children, leaf_value, .. } => own + value_kind_count(leaf_value, k)
            + children_kind_count(children@, k),
        Node::Node48 { children, leaf_value, .. } => own + value_kind_count(leaf_value, k)
            + children_kind_count(children@, k),
        Node::Node256 { children, leaf_value, .. } => own + value_kind_count(leaf_value, k)
            + slot_kind_count(children@, k),
    }
}

/// The nodes of kind `k` in the leaf an inner node keeps for a key ending there.
pub open spec fn value_kind_count<V>(lv: Option<(Vec<u8>, Box<Node<V>>)>, k: NodeType) -> nat
    decreases lv,
{
    match lv {
        Some((_, leaf)) => kind_count(*leaf, k),
        None => 0,
    }
}

/// The nodes of kind `k` in the subtrees `cs`.
pub open spec fn children_kind_count<V>(cs: Seq<Box<Node<V>>>, k: NodeType) -> nat
    decreases cs,
{
    if cs.len() == 0 {
        0
    } else {
        children_kind_count(cs.drop_last(), k) + kind_count(*cs.last(), k)
    }
}

/// The nodes of kind `k` in the subtrees in the occupied slots of `cs`.
pub open spec fn slot_kind_count<V>(cs: Seq<Option<Box<Node<V>>>>, k: NodeType) -> nat
    decreases cs,
{
    if cs.len() == 0 {
        0
    } else {
        slot_kind_count(cs.drop_last(), k) + match cs.last() {
            Some(c) => kind_count(*c, k),
            None => 0,
        }
    }
}

/// The report's counts of a subtree are its numbers of leaves and of inner nodes of each kind.
pub proof fn lemma_tally_kinds<V>(n: Node<V>)
    ensures
        tally(n).0 == kind_count(n, NodeType::Leaf),
        tally(n).1 == kind_count(n, NodeType::Node4),
        tally(n).2 == kind_count(n, NodeType::Node16),
        tally(n).3 == kind_count(n, NodeType::Node48),
        tally(n).4 == kind_count(n, NodeType::Node256),
    decreases n,
{
    match n {
        Node::Leaf { .. } => {},
        Node::Node4 { children, leaf_value, .. } => {
            lemma_value_tally_kinds(leaf_value);
            lemma_children_tally_kinds(children@);
        },
        Node::Node16 { children, leaf_value, .. } => {
            lemma_value_tally_kinds(leaf_value);
            lemma_children_tally_kinds(children@);
        },
        Node::Node48 { children, leaf_value, .. } => {
            lemma_value_tally_kinds(leaf_value);
            lemma_children_tally_kinds(children@);
        },
        Node::Node256 { children, leaf_value, .. } => {
            lemma_value_tally_kinds(leaf_value);
            lemma_slot_tally_kinds(children@);
        },
    }
}

proof fn lemma_value_tally_kinds<V>(lv: Option<(Vec<u8>, Box<Node<V>>)>)
    ensures
        value_tally(lv).0 == value_kind_count(lv, NodeType::Leaf),
        value_tally(lv).1 == value_kind_count(lv, NodeType::Node4),
        value_tally(lv).2 == value_kind_count(lv, NodeType::Node16),
        value_tally(lv).3 == value_kind_count(lv, NodeType::Node48),
        value_tally(lv).4 == value_kind_count(lv, NodeType::Node256),
    decreases lv,
{
    match lv {
        Some((_, leaf)) => {
            lemma_tally_kinds(*leaf);
        },
        None => {},
    }
}

proof fn lemma_children_tally_kinds<V>(cs: Seq<Box<Node<V>>>)
    ensures
        children_tally(cs).0 == children_kind_count(cs, NodeType::Leaf),
        children_tally(cs).1 == children_kind_count(cs, NodeType::Node4),
        children_tally(cs).2 == children_kind_count(cs, NodeType::Node16),
        children_tally(cs).3 == children_kind_count(cs, NodeType::Node48),
        children_tally(cs).4 == children_kind_count(cs, NodeType::Node256),
    decreases cs,
{
    if cs.len() > 0 {
        lemma_children_tally_kinds(cs.drop_last());
        lemma_tally_kinds(*cs.last());
    }
}

proof fn lemma_slot_tally_kinds<V>(cs: Seq<Option<Box<Node<V>>>>)
    ensures
        slot_tally(cs).0 == slot_kind_count(cs, NodeType::Leaf),
        slot_tally(cs).1 == slot_kind_count(cs, NodeType::Node4),
        slot_tally(cs).2 == slot_kind_count(cs, NodeType::Node16),
        slot_tally(cs).3 == slot_kind_count(cs, NodeType::Node48),
        slot_tally(cs).4 == slot_kind_count(cs, NodeType::Node256),
    decreases cs,
{
    if cs.len() > 0 {
        lemma_slot_tally_kinds(cs.drop_last());
        match cs.last() {
            Some(c) => lemma_tally_kinds(*c),
            None => {},
        }
    }
}

/// `s2` is `s1` with the tally `t` added, each counter held at `usize::MAX`; the node bytes
/// grow by at least the least node bytes.
pub open spec fn added(s1: ArtMemoryStats, s2: ArtMemoryStats, t: Tally) -> bool {
    &&& s2.leaf_count == sat(s1.leaf_count + t.0)
    &&& s2.node4_count == sat(s1.node4_count + t.1)
    &&& s2.node16_count == sat(s1.node16_count + t.2)
    &&& s2.node48_count == sat(s1.node48_count + t.3)
    &&& s2.node256_count == sat(s1.node256_count + t.4)
    &&& s2.key_bytes == sat(s1.key_bytes + t.5)
    &&& s2.value_bytes == sat(s1.value_bytes + t.6)
    &&& s2.node_bytes >= sat(s1.node_bytes + t.7)
}

/// Adding two tallies in turn adds their sum.
proof fn lemma_added_trans(s0: ArtMemoryStats, s1: ArtMemoryStats, s2: ArtMemoryStats, t1: Tally, t2: Tally)
    requires
        added(s0, s1, t1),
        added(s1, s2, t2),
    ensures
        added(s0, s2, tsum(t1, t2)),
{
}

/// Adding nothing.
proof fn lemma_added_zero(s: ArtMemoryStats)
    ensures
        added(s, s, tzero()),
{
}

impl<V> AdaptiveRadixTree<V> {
    /// Count `node` and every node below it into `stats`.
    fn compute_stats(node: &Node<V>, stats: &mut ArtMemoryStats)
        ensures
            added(*old(stats), *final(stats), tally(*node)),
        decreases node,
    {
        let sv = core::mem::size_of::<V>();
        let ghost s0 = *stats;
        match node {
            Node::Leaf { key, .. } => {
                stats.leaf_count = add_sat(stats.leaf_count, 1);
                stats.key_bytes = add_sat(stats.key_bytes, key.len());
                stats.value_bytes = add_sat(stats.value_bytes, sv);
                let cap = crate::vec_mem::vec_capacity(key);
                stats.node_bytes = add_sat(add_sat(add_sat(stats.node_bytes, 24), cap), sv);
            },
            Node::Node4 { prefix, num_children, children, leaf_value, .. } => {
                stats.node4_count = add_sat(stats.node4_count, 1);
                let cap = crate::vec_mem::vec_capacity(prefix);
                stats.node_bytes = add_sat(add_sat(add_sat(stats.node_bytes, 77), cap), 8 * (*num_children as usize));
                let ghost s1 = *stats;
                Self::compute_value_stats(node, leaf_value, stats);
                let ghost s2 = *stats;
                Self::compute_children_stats(node, children, stats);
                proof {
                    lemma_added_trans(s0, s1, s2, (0, 1, 0, 0, 0, 0, 0, 77 + prefix@.len() + 8 * (*num_children as nat)), value_tally(*leaf_value));
                    lemma_added_trans(s0, s2, *stats, tsum((0, 1, 0, 0, 0, 0, 0, 77 + prefix@.len() + 8 * (*num_children as nat)), value_tally(*leaf_value)), children_tally(children@));
                }
            },
            Node::Node16 { prefix, num_children, children, leaf_value, .. } => {
                stats.node16_count = add_sat(stats.node16_count, 1);
                let cap = crate::vec_mem::vec_capacity(prefix);
                stats.node_bytes = add_sat(add_sat(add_sat(stats.node_bytes, 89), cap), 8 * (*num_children as usize));
                let ghost s1 = *stats;
                Self::compute_value_stats(node, leaf_value, stats);
                let ghost s2 = *stats;
                Self::compute_children_stats(node, children, stats);
                proof {
                    lemma_added_trans(s0, s1, s2, (0, 0, 1, 0, 0, 0, 0, 89 + prefix@.len() + 8 * (*num_children as nat)), value_tally(*leaf_value));
                    lemma_added_trans(s0, s2, *stats, tsum((0, 0, 1, 0, 0, 0, 0, 89 + prefix@.len() + 8 * (*num_children as nat)), value_tally(*leaf_value)), children_tally(children@));
                }
            },
            Node::Node48 { prefix, num_children, children, leaf_value, .. } => {
                stats.node48_count = add_sat(stats.node48_count, 1);
                let cap = crate::vec_mem::vec_capacity(prefix);
                stats.node_bytes = add_sat(add_sat(add_sat(stats.node_bytes, 329), cap), 8 * (*num_children as usize));
                let ghost s1 = *stats;
                Self::compute_value_stats(node, leaf_value, stats);
                let ghost s2 = *stats;
                Self::compute_children_stats(node, children, stats);
                proof {
                    lemma_added_trans(s0, s1, s2, (0, 0, 0, 1, 0, 0, 0, 329 + prefix@.len() + 8 * (*num_children as nat)), value_tally(*leaf_value));
                    lemma_added_trans(s0, s2, *stats, tsum((0, 0, 0, 1, 0, 0, 0, 329 + prefix@.len() + 8 * (*num_children as nat)), value_tally(*leaf_value)), children_tally(children@));
                }
            },
            Node::Node256 { prefix, children, leaf_value, .. } => {
                stats.node256_count = add_sat(stats.node256_count, 1);
                let cap = crate::vec_mem::vec_capacity(prefix);
                stats.node_bytes = add_sat(add_sat(stats.node_bytes, 2098), cap);
                let ghost s1 = *stats;
                Self::compute_value_stats(node, leaf_value, stats);
                let ghost s2 = *stats;
                let mut i: usize = 0;
                assert(decreases_to!(*node => *children));
                proof {
                    lemma_added_zero(s2);
                    assert(children@.subrange(0, 0) =~= Seq::<Option<Box<Node<V>>>>::empty());
                }
                while i < children.len()
                    invariant
                        decreases_to!(*node => *children),
                        i <= children@.len(),
                        added(s2, *stats, slot_tally(children@.subrange(0, i as int))),
                    decreases children@.len() - i,
                {
                    let ghost si = *stats;
                    proof {
                        assert(children@.subrange(0, i + 1).drop_last() =~= children@.subrange(0, i as int));
                    }
                    if let Some(c) = &children[i] {
                        Self::compute_stats(c, stats);
                        proof {
                            lemma_added_trans(s2, si, *stats, slot_tally(children@.subrange(0, i as int)), tally(**c));
                        }
                    } else {
                        proof {
                            lemma_added_zero(si);
                            lemma_added_trans(s2, si, *stats, slot_tally(children@.subrange(0, i as int)), tzero());
                        }
                    }
                    i += 1;
                }
                proof {
                    assert(children@.subrange(0, children@.len() as int) =~= children@);
                    lemma_added_trans(s0, s1, s2, (0, 0, 0, 0, 1, 0, 0, 2098 + prefix@.len()), value_tally(*leaf_value));
                    lemma_added_trans(s0, s2, *stats, tsum((0, 0, 0, 0, 1, 0, 0, 2098 + prefix@.len()), value_tally(*leaf_value)), slot_tally(children@));
                }
            },
        }
    }

    /// Count the value `lv` that the inner node `node` holds: its key and its leaf.
    fn compute_value_stats(node: &Node<V>, lv: &Option<(Vec<u8>, Box<Node<V>>)>, stats: &mut ArtMemoryStats)
        requires
            node.is_inner(),
            node.spec_leaf_value() == *lv,
        ensures
            added(*old(stats), *final(stats), value_tally(*lv)),
        decreases node, 0nat,
    {
        match lv {
            Some((k, leaf)) => {
                let ghost s0 = *stats;
                stats.key_bytes = add_sat(stats.key_bytes, k.len());
                let ghost s1 = *stats;
                assert(decreases_to!(*node => **leaf));
                Self::compute_stats(leaf, stats);
                proof {
                    lemma_added_trans(s0, s1, *stats, (0, 0, 0, 0, 0, k@.len(), 0, 0), tally(**leaf));
                }
            },
            None => {
                proof {
                    lemma_added_zero(*stats);
                }
            },
        }
    }

    /// Count the subtrees in `children`, the children of the inner node `node`.
    fn compute_children_stats(node: &Node<V>, children: &Vec<Box<Node<V>>>, stats: &mut ArtMemoryStats)
        requires
            decreases_to!(*node => *children),
        ensures
            added(*old(stats), *final(stats), children_tally(children@)),
        decreases node, 0nat,
    {
        let ghost s0 = *stats;
        let mut i: usize = 0;
        proof {
            lemma_added_zero(s0);
            assert(children@.subrange(0, 0) =~= Seq::<Box<Node<V>>>::empty());
        }
        while i < children.len()
            invariant
                decreases_to!(*node => *children),
                i <= children@.len(),
                added(s0, *stats, children_tally(children@.subrange(0, i as int))),
            decreases children@.len() - i,
        {
            let ghost si = *stats;
            proof {
                assert(children@.subrange(0, i + 1).drop_last() =~= children@.subrange(0, i as int));
            }
            Self::compute_stats(&children[i], stats);
            proof {
                lemma_added_trans(s0, si, *stats, children_tally(children@.subrange(0, i as int)), tally(*children@[i as int]));
            }
            i += 1;
        }
        assert(children@.subrange(0, children@.len() as int) =~= children@);
    }

    /// The number of nodes of kind `k` in the tree.
    pub closed spec fn spec_kind_count(&self, k: NodeType) -> nat {
        match self.root {
            Some(r) => kind_count(*r, k),
            None => 0,
        }
    }

    /// The tally of the whole tree.
    pub closed spec fn spec_tally(&self) -> Tally {
        match self.root {
            Some(r) => tally(*r),
            None => tzero(),
        }
    }

    /// Memory statistics, counted by walking the tree: leaves and inner nodes of each kind,
    /// key and value bytes, and node bytes from each vector's capacity; each counter is held
    /// at `usize::MAX`.
    pub fn memory_stats(&self) -> (r: ArtMemoryStats)
        ensures
            added(
                ArtMemoryStats {
                    key_bytes: 0,
                    node_bytes: 0,
                    value_bytes: 0,
                    node4_count: 0,
                    node16_count: 0,
                    node48_count: 0,
                    node256_count: 0,
                    leaf_count: 0,
                },
                r,
                self.spec_tally(),
            ),
            r.leaf_count == sat(self.spec_kind_count(NodeType::Leaf) as int),
            r.node4_count == sat(self.spec_kind_count(NodeType::Node4) as int),
            r.node16_count == sat(self.spec_kind_count(NodeType::Node16) as int),
            r.node48_count == sat(self.spec_kind_count(NodeType::Node48) as int),
            r.node256_count == sat(self.spec_kind_count(NodeType::Node256) as int),
    {
        proof {
            if self.root is Some {
                lemma_tally_kinds(*self.root->0);
            }
        }
        let mut stats = ArtMemoryStats::default();
        match &self.root {
            Some(root) => Self::compute_stats(root, &mut stats),
            None => {
                proof {
                    lemma_added_zero(stats);
                }
            },
        }
        stats
    }
}

impl<V> Default for AdaptiveRadixTree<V> {
    fn default() -> (r: Self)
        ensures
            r.wf(),
            r@ == Map::<Seq<u8>, V>::empty(),
    {
        Self::new()
    }
}

} // verus!
