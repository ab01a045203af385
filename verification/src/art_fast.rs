//! The node layouts of the pointer-tagged ART: fixed-size node structs with a common
//! header, children as tagged words whose low bit marks a leaf, and sorted keys in the
//! small nodes.
use vstd::prelude::*;
use crate::art::node::{copy_bytes, find_key, lemma_find_key, starts_with, Node};
use crate::art::{map_get, AdaptiveRadixTree, ArtMemoryStats};
use crate::binode::bytes_equal;

verus! {

/// A child word: 0 is null, an odd word is a leaf, an even one an inner node.
#[derive(Clone, Copy, PartialEq, Eq, Debug, Structural)]
pub struct TaggedPtr(usize);

impl TaggedPtr {
    /// The word itself.
    pub closed spec fn bits(self) -> usize {
        self.0
    }

    /// The null word.
    pub fn null() -> (r: Self)
        ensures
            r.bits() == 0,
    {
        TaggedPtr(0)
    }

    /// Whether this is the null word.
    pub fn is_null(self) -> (r: bool)
        ensures
            r == (self.bits() == 0),
    {
        self.0 == 0
    }

    /// Whether the low bit marks a leaf.
    pub fn is_leaf(self) -> (r: bool)
        ensures
            r == (self.bits() & 1 != 0),
    {
        (self.0 & 1) != 0
    }
}

/// The kind of an inner node.
#[derive(Clone, Copy, PartialEq, Eq, Debug, Structural)]
pub enum NodeType {
    Node4,
    Node16,
    Node48,
    Node256,
}

/// The header every inner node starts with.
#[derive(Clone, Copy)]
pub struct NodeHeader {
    pub partial_len: u32,
    pub node_type: NodeType,
    pub num_children: u8,
    pub partial: [u8; 10],
}

/// Up to 4 children, keys sorted.
pub struct Node4 {
    pub header: NodeHeader,
    pub keys: [u8; 4],
    pub children: [TaggedPtr; 4],
}

/// Up to 16 children, keys sorted.
pub struct Node16 {
    pub header: NodeHeader,
    pub keys: [u8; 16],
    pub children: [TaggedPtr; 16],
}

/// Up to 48 children: `keys[b]` is one more than the slot of the child for byte `b`, or 0.
pub struct Node48 {
    pub header: NodeHeader,
    pub keys: [u8; 256],
    pub children: [TaggedPtr; 48],
}

/// Up to 256 children, indexed by byte.
pub struct Node256 {
    pub header: NodeHeader,
    pub children: [TaggedPtr; 256],
}

/// A leaf: its value and key length; the key bytes follow it in memory.
pub struct Leaf {
    pub value: u64,
    pub key_len: u32,
}

/// The first position below `n`, from `i` on, whose key is greater than `b`, or `n`.
pub open spec fn insert_pos(keys: Seq<u8>, n: int, b: u8, i: int) -> int
    decreases n - i,
{
    if i >= n {
        n
    } else if b < keys[i] {
        i
    } else {
        insert_pos(keys, n, b, i + 1)
    }
}

pub proof fn lemma_insert_pos(keys: Seq<u8>, n: int, b: u8, i: int)
    requires
        0 <= i <= n,
    ensures
        i <= insert_pos(keys, n, b, i) <= n,
        forall|j: int| i <= j < insert_pos(keys, n, b, i) ==> !(b < keys[j]),
        insert_pos(keys, n, b, i) < n ==> b < keys[insert_pos(keys, n, b, i)],
    decreases n - i,
{
    if i < n && !(b < keys[i]) {
        lemma_insert_pos(keys, n, b, i + 1);
    }
}

/// `s` with its first `n` entries holding those of `old` with `x` put in at `pos`.
pub open spec fn inserted_at<T>(s: Seq<T>, old: Seq<T>, n: int, pos: int, x: T) -> bool {
    &&& s.len() == old.len()
    &&& forall|i: int| 0 <= i < pos ==> s[i] == old[i]
    &&& s[pos] == x
    &&& forall|i: int| pos < i <= n ==> s[i] == old[i - 1]
    &&& forall|i: int| n < i < s.len() ==> s[i] == old[i]
}

impl Node4 {
    /// The child for `byte`.
    pub fn find_child(&self, byte: u8) -> (r: Option<TaggedPtr>)
        requires
            self.header.num_children <= 4,
        ensures
            r == match find_key(self.keys@, self.header.num_children as int, byte, 0) {
                Some(i) => Some(self.children@[i]),
                None => None::<TaggedPtr>,
            },
    {
        let n = self.header.num_children as usize;
        let mut i: usize = 0;
        while i < n
            invariant
                i <= n <= 4,
                n == self.header.num_children,
                find_key(self.keys@, n as int, byte, 0) == find_key(self.keys@, n as int, byte, i as int),
            decreases n - i,
        {
            if self.keys[i] == byte {
                return Some(self.children[i]);
            }
            i += 1;
        }
        None
    }

    /// The position of the child for `byte`.
    pub fn find_child_idx(&self, byte: u8) -> (r: Option<usize>)
        requires
            self.header.num_children <= 4,
        ensures
            r == match find_key(self.keys@, self.header.num_children as int, byte, 0) {
                Some(i) => Some(i as usize),
                None => None::<usize>,
            },
    {
        let n = self.header.num_children as usize;
        let mut i: usize = 0;
        while i < n
            invariant
                i <= n <= 4,
                n == self.header.num_children,
                find_key(self.keys@, n as int, byte, 0) == find_key(self.keys@, n as int, byte, i as int),
            decreases n - i,
        {
            if self.keys[i] == byte {
                return Some(i);
            }
            i += 1;
        }
        None
    }

    /// Add `child` under `byte`, keeping the keys sorted.
    pub fn add_child(&mut self, byte: u8, child: TaggedPtr)
        requires
            old(self).header.num_children < 4,
        ensures
            final(self).header.num_children == old(self).header.num_children + 1,
            final(self).header.partial_len == old(self).header.partial_len,
            final(self).header.partial == old(self).header.partial,
            final(self).header.node_type == old(self).header.node_type,
            inserted_at(
                final(self).keys@,
                old(self).keys@,
                old(self).header.num_children as int,
                insert_pos(old(self).keys@, old(self).header.num_children as int, byte, 0),
                byte,
            ),
            inserted_at(
                final(self).children@,
                old(self).children@,
                old(self).header.num_children as int,
                insert_pos(old(self).keys@, old(self).header.num_children as int, byte, 0),
                child,
            ),
    {
        let n = self.header.num_children as usize;
        let ghost k0 = self.keys@;
        let ghost c0 = self.children@;
        proof {
            lemma_insert_pos(k0, n as int, byte, 0);
        }
        let mut pos: usize = 0;
        while pos < n && !(byte < self.keys[pos])
            invariant
                pos <= n < 4,
                self.keys@ == k0,
                insert_pos(k0, n as int, byte, 0) == insert_pos(k0, n as int, byte, pos as int),
            decreases n - pos,
        {
            pos += 1;
        }
        let mut j = n;
        while j > pos
            invariant
                pos <= j <= n < 4,
                self.keys@.len() == 4,
                self.children@.len() == 4,
                forall|i: int| 0 <= i <= j ==> self.keys@[i] == k0[i] && self.children@[i] == c0[i],
                forall|i: int| j < i <= n ==> self.keys@[i] == k0[i - 1] && self.children@[i]
                    == c0[i - 1],
                forall|i: int| n < i < 4 ==> self.keys@[i] == k0[i] && self.children@[i] == c0[i],
                self.header == old(self).header,
            decreases j,
        {
            let k = self.keys[j - 1];
            let c = self.children[j - 1];
            self.keys[j] = k;
            self.children[j] = c;
            j -= 1;
        }
        self.keys[pos] = byte;
        self.children[pos] = child;
        self.header.num_children = self.header.num_children + 1;
    }
}

impl Node16 {
    /// The child for `byte`.
    pub fn find_child(&self, byte: u8) -> (r: Option<TaggedPtr>)
        requires
            self.header.num_children <= 16,
        ensures
            r == match find_key(self.keys@, self.header.num_children as int, byte, 0) {
                Some(i) => Some(self.children@[i]),
                None => None::<TaggedPtr>,
            },
    {
        let n = self.header.num_children as usize;
        let mut i: usize = 0;
        while i < n
            invariant
                i <= n <= 16,
                n == self.header.num_children,
                find_key(self.keys@, n as int, byte, 0) == find_key(self.keys@, n as int, byte, i as int),
            decreases n - i,
        {
            if self.keys[i] == byte {
                return Some(self.children[i]);
            }
            i += 1;
        }
        None
    }

    /// The position of the child for `byte`.
    pub fn find_child_idx(&self, byte: u8) -> (r: Option<usize>)
        requires
            self.header.num_children <= 16,
        ensures
            r == match find_key(self.keys@, self.header.num_children as int, byte, 0) {
                Some(i) => Some(i as usize),
                None => None::<usize>,
            },
    {
        let n = self.header.num_children as usize;
        let mut i: usize = 0;
        while i < n
            invariant
                i <= n <= 16,
                n == self.header.num_children,
                find_key(self.keys@, n as int, byte, 0) == find_key(self.keys@, n as int, byte, i as int),
            decreases n - i,
        {
            if self.keys[i] == byte {
                return Some(i);
            }
            i += 1;
        }
        None
    }

    /// Add `child` under `byte`, keeping the keys sorted.
    pub fn add_child(&mut self, byte: u8, child: TaggedPtr)
        requires
            old(self).header.num_children < 16,
        ensures
            final(self).header.num_children == old(self).header.num_children + 1,
            final(self).header.partial_len == old(self).header.partial_len,
            final(self).header.partial == old(self).header.partial,
            final(self).header.node_type == old(self).header.node_type,
            inserted_at(
                final(self).keys@,
                old(self).keys@,
                old(self).header.num_children as int,
                insert_pos(old(self).keys@, old(self).header.num_children as int, byte, 0),
                byte,
            ),
            inserted_at(
                final(self).children@,
                old(self).children@,
                old(self).header.num_children as int,
                insert_pos(old(self).keys@, old(self).header.num_children as int, byte, 0),
                child,
            ),
    {
        let n = self.header.num_children as usize;
        let ghost k0 = self.keys@;
        let ghost c0 = self.children@;
        proof {
            lemma_insert_pos(k0, n as int, byte, 0);
        }
        let mut pos: usize = 0;
        while pos < n && !(byte < self.keys[pos])
            invariant
                pos <= n < 16,
                self.keys@ == k0,
                insert_pos(k0, n as int, byte, 0) == insert_pos(k0, n as int, byte, pos as int),
            decreases n - pos,
        {
            pos += 1;
        }
        let mut j = n;
        while j > pos
            invariant
                pos <= j <= n < 16,
                self.keys@.len() == 16,
                self.children@.len() == 16,
                forall|i: int| 0 <= i <= j ==> self.keys@[i] == k0[i] && self.children@[i] == c0[i],
                forall|i: int| j < i <= n ==> self.keys@[i] == k0[i - 1] && self.children@[i]
                    == c0[i - 1],
                forall|i: int| n < i < 16 ==> self.keys@[i] == k0[i] && self.children@[i] == c0[i],
                self.header == old(self).header,
            decreases j,
        {
            let k = self.keys[j - 1];
            let c = self.children[j - 1];
            self.keys[j] = k;
            self.children[j] = c;
            j -= 1;
        }
        self.keys[pos] = byte;
        self.children[pos] = child;
        self.header.num_children = self.header.num_children + 1;
    }
}

impl Node48 {
    /// The child for `byte`.
    pub fn find_child(&self, byte: u8) -> (r: Option<TaggedPtr>)
        requires
            self.keys@[byte as int] <= 48,
        ensures
            r == if self.keys@[byte as int] == 0 {
                None::<TaggedPtr>
            } else {
                Some(self.children@[self.keys@[byte as int] - 1])
            },
    {
        let idx = self.keys[byte as usize];
        if idx == 0 {
            None
        } else {
            Some(self.children[(idx - 1) as usize])
        }
    }

    /// Add `child` under `byte` in the next free slot.
    pub fn add_child(&mut self, byte: u8, child: TaggedPtr)
        requires
            old(self).header.num_children < 48,
        ensures
            final(self).header.num_children == old(self).header.num_children + 1,
            final(self).header.partial_len == old(self).header.partial_len,
            final(self).header.partial == old(self).header.partial,
            final(self).header.node_type == old(self).header.node_type,
            final(self).children@ == old(self).children@.update(
                old(self).header.num_children as int,
                child,
            ),
            final(self).keys@ == old(self).keys@.update(
                byte as int,
                (old(self).header.num_children + 1) as u8,
            ),
    {
        let slot = self.header.num_children as usize;
        self.children[slot] = child;
        self.keys[byte as usize] = (slot + 1) as u8;
        self.header.num_children = self.header.num_children + 1;
    }
}

impl Node256 {
    /// The child for `byte`.
    pub fn find_child(&self, byte: u8) -> (r: Option<TaggedPtr>)
        ensures
            r == if self.children@[byte as int].bits() == 0 {
                None::<TaggedPtr>
            } else {
                Some(self.children@[byte as int])
            },
    {
        let child = self.children[byte as usize];
        if child.is_null() {
            None
        } else {
            Some(child)
        }
    }

    /// Put `child` under `byte`; the count grows when the slot was empty.
    pub fn add_child(&mut self, byte: u8, child: TaggedPtr)
        requires
            old(self).children@[byte as int].bits() == 0 ==> old(self).header.num_children < 255,
        ensures
            final(self).header.num_children == old(self).header.num_children + if old(
                self,
            ).children@[byte as int].bits() == 0 {
                1int
            } else {
                0int
            },
            final(self).header.partial_len == old(self).header.partial_len,
            final(self).header.partial == old(self).header.partial,
            final(self).header.node_type == old(self).header.node_type,
            final(self).children@ == old(self).children@.update(byte as int, child),
    {
        if self.children[byte as usize].is_null() {
            self.header.num_children = self.header.num_children + 1;
        }
        self.children[byte as usize] = child;
    }
}

/// What a tree of terminated keys answers for the key `t`: the value of `t` without its last
/// byte when that byte is the terminating zero, else nothing.
pub open spec fn term_get(m: Map<Seq<u8>, u64>, t: Seq<u8>) -> Option<u64> {
    if t.len() > 0 && t.last() == 0 {
        map_get(m, t.drop_last())
    } else {
        None
    }
}

/// `t` is `k` with the terminating zero exactly when it ends in zero and drops to `k`.
proof fn lemma_terminated(k: Seq<u8>, t: Seq<u8>)
    ensures
        (t == k.push(0u8)) == (t.len() > 0 && t.last() == 0 && t.drop_last() == k),
{
    if t.len() > 0 && t.last() == 0 && t.drop_last() == k {
        assert(t =~= k.push(0u8));
    }
    if t == k.push(0u8) {
        assert(t.drop_last() =~= k);
    }
}

/// `key` followed by the terminating zero byte, the form in which keys are stored.
fn terminated(key: &[u8]) -> (r: Vec<u8>)
    ensures
        r@ == key@.push(0u8),
{
    let mut r = copy_bytes(key, 0, key.len());
    assert(key@.subrange(0, key@.len() as int) =~= key@);
    r.push(0u8);
    r
}

/// The ART tuned after libart: every key is stored with a terminating zero byte appended, in
/// a leaf that holds the whole terminated key; inner nodes hold the bytes shared below them.
/// The nodes are owned boxes, each child held by its parent.
pub struct FastArt {
    root: Option<Box<Node<u64>>>,
    size: usize,
    model: Ghost<Map<Seq<u8>, u64>>,
}

impl View for FastArt {
    type V = Map<Seq<u8>, u64>;

    closed spec fn view(&self) -> Map<Seq<u8>, u64> {
        self.model@
    }
}

impl FastArt {
    /// The number of keys.
    pub closed spec fn spec_len(&self) -> nat {
        self.size as nat
    }

    /// The count is that of the keys, and the tree finds each terminated key's value.
    pub closed spec fn wf(&self) -> bool {
        &&& self.model@.dom().finite()
        &&& self.size == self.model@.len()
        &&& match self.root {
            None => self.model@ == Map::<Seq<u8>, u64>::empty(),
            Some(r) => r.inv(Seq::empty()) && forall|t: Seq<u8>| #[trigger]
                r.lookup(t, 0) == term_get(self.model@, t),
        }
    }

    /// A well-formed tree holds finitely many keys, as many as its count.
    pub proof fn lemma_wf_finite(&self)
        requires
            self.wf(),
        ensures
            self@.dom().finite(),
            self.spec_len() == self@.len(),
    {
    }

    pub fn new() -> (r: Self)
        ensures
            r.wf(),
            r@ == Map::<Seq<u8>, u64>::empty(),
            r.spec_len() == 0,
    {
        let r = FastArt { root: None, size: 0, model: Ghost(Map::empty()) };
        assert(r.model@.dom() =~= Set::empty());
        r
    }

    pub fn len(&self) -> (r: usize)
        ensures
            r == self.spec_len(),
    {
        self.size
    }

    pub fn is_empty(&self) -> (r: bool)
        ensures
            r == (self.spec_len() == 0),
    {
        self.size == 0
    }

    /// The value stored for `key`.
    pub fn get(&self, key: &[u8]) -> (r: Option<u64>)
        requires
            self.wf(),
        ensures
            r == map_get(self@, key@),
    {
        let kt = terminated(key);
        let r = self.search(kt.as_slice());
        proof {
            lemma_terminated(key@, kt@);
        }
        r
    }

    /// Descend along the terminated key `key`: through each inner node whose bytes it
    /// matches, to the child under its next byte, until a leaf, which answers when it holds
    /// exactly `key`.
    fn search(&self, key: &[u8]) -> (r: Option<u64>)
        requires
            self.wf(),
        ensures
            r == term_get(self@, key@),
    {
        let mut node: &Node<u64> = match &self.root {
            Some(n) => &**n,
            None => return None,
        };
        let klen = key.len();
        let mut depth: usize = 0;
        assert(key@.subrange(0, 0) =~= Seq::<u8>::empty());
        loop
            invariant
                depth <= klen == key@.len(),
                node.inv(key@.subrange(0, depth as int)),
                node.lookup(key@, depth as int) == term_get(self@, key@),
            decreases klen - depth,
        {
            if let Node::Leaf { key: lk, value } = node {
                if bytes_equal(lk.as_slice(), key) {
                    return Some(*value);
                } else {
                    return None;
                }
            }
            let ghost path = key@.subrange(0, depth as int);
            proof {
                node.lemma_lookup_step(key@, depth as int);
            }
            let prefix = node.prefix();
            let plen = prefix.len();
            if klen - depth < plen {
                return None;
            }
            if !bytes_equal(&key[depth..depth + plen], prefix) {
                return None;
            }
            depth = depth + plen;
            if depth >= klen {
                // Only a key that holds the zero byte itself can end inside the tree.
                if let Some(lv) = node.get_leaf_value() {
                    if let Node::Leaf { key: lk, value } = &*lv.1 {
                        if bytes_equal(lk.as_slice(), key) {
                            return Some(*value);
                        }
                    }
                }
                return None;
            }
            let b = key[depth];
            proof {
                node.lemma_inv_child(path, b);
                assert(key@.subrange(0, depth + 1) =~= path + node.spec_prefix() + seq![b]);
            }
            match node.child(b) {
                Some(c) => {
                    node = c;
                    depth = depth + 1;
                },
                None => {
                    return None;
                },
            }
        }
    }

    /// Store `value` under `key`, returning the value it replaces.
    pub fn insert(&mut self, key: &[u8], value: u64) -> (r: Option<u64>)
        requires
            old(self).wf(),
            old(self)@.contains_key(key@) || old(self)@.len() < usize::MAX,
        ensures
            final(self).wf(),
            final(self)@ == old(self)@.insert(key@, value),
            r == map_get(old(self)@, key@),
    {
        let ghost m0 = self.model@;
        let kt = terminated(key);
        proof {
            lemma_terminated(key@, kt@);
            assert forall|t: Seq<u8>| #[trigger] term_get(m0.insert(key@, value), t) == if t
                == kt@ {
                Some(value)
            } else {
                term_get(m0, t)
            } by {
                lemma_terminated(key@, t);
            }
        }
        match self.root.take() {
            None => {
                let leaf = Box::new(Node::new_leaf(kt, value));
                self.root = Some(leaf);
                self.size = 1;
                self.model = Ghost(m0.insert(key@, value));
                assert(self.model@.dom() =~= set![key@]);
                proof {
                    assert(starts_with(kt@, Seq::empty())) by {
                        assert(kt@.subrange(0, 0) =~= Seq::<u8>::empty());
                    }
                }
                None
            },
            Some(root) => {
                let mut stats = ArtMemoryStats::default();
                assert(kt@.subrange(0, 0) =~= Seq::<u8>::empty());
                let (new_root, old_value) = AdaptiveRadixTree::<u64>::insert_recursive(
                    root,
                    kt.as_slice(),
                    0,
                    value,
                    &mut stats,
                );
                self.root = Some(new_root);
                if old_value.is_none() {
                    self.size = self.size + 1;
                }
                self.model = Ghost(m0.insert(key@, value));
                assert(self.model@.dom() =~= m0.dom().insert(key@));
                old_value
            },
        }
    }
}

impl Default for FastArt {
    fn default() -> (r: Self)
        ensures
            r.wf(),
            r@ == Map::<Seq<u8>, u64>::empty(),
    {
        Self::new()
    }
}

} // verus!
