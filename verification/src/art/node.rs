//! ART node types with adaptive sizing.
//!
//! - Node4: up to 4 children (most common, smallest)
//! - Node16: 5-16 children
//! - Node48: 17-48 children (256-entry index into up to 48 child slots)
//! - Node256: 49-256 children (direct indexing by byte)
use vstd::prelude::*;
use super::ArtMemoryStats;

verus! {

/// The type of a node.
#[derive(Debug, Clone, Copy, PartialEq, Eq, Structural)]
pub enum NodeType {
    /// A leaf node containing a key and value.
    Leaf,
    /// A node with up to 4 children.
    Node4,
    /// A node with 5-16 children.
    Node16,
    /// A node with 17-48 children.
    Node48,
    /// A node with 49-256 children.
    Node256,
}

/// A node in the Adaptive Radix Tree.
pub enum Node<V> {
    /// A leaf node storing a key-value pair.
    Leaf {
        /// The full key (for verification on lookup).
        key: Vec<u8>,
        /// The value.
        value: V,
    },
    /// A node with up to 4 children.
    Node4 {
        /// Compressed path prefix.
        prefix: Vec<u8>,
        /// Number of valid children.
        num_children: u8,
        /// Child keys, 4 slots, kept in increasing order by `add_child`.
        keys: Vec<u8>,
        /// Child nodes; slots past `num_children` are spare.
        children: Vec<Box<Node<V>>>,
        /// Optional value if a key ends at this node.
        leaf_value: Option<(Vec<u8>, Box<Node<V>>)>,
    },
    /// A node with 5-16 children.
    Node16 {
        prefix: Vec<u8>,
        num_children: u8,
        /// Child keys, 16 slots.
        keys: Vec<u8>,
        children: Vec<Box<Node<V>>>,
        leaf_value: Option<(Vec<u8>, Box<Node<V>>)>,
    },
    /// A node with 17-48 children.
    Node48 {
        prefix: Vec<u8>,
        num_children: u8,
        /// Index mapping bytes to child slots (255 = empty), 256 entries.
        child_index: Vec<u8>,
        children: Vec<Box<Node<V>>>,
        leaf_value: Option<(Vec<u8>, Box<Node<V>>)>,
    },
    /// A node with 49-256 children.
    Node256 {
        prefix: Vec<u8>,
        num_children: u16,
        /// Child nodes, indexed by byte, 256 entries.
        children: Vec<Option<Box<Node<V>>>>,
        leaf_value: Option<(Vec<u8>, Box<Node<V>>)>,
    },
}

/// The bytes under which `n` has a child.
pub open spec fn child_bytes<V>(n: Node<V>) -> Set<int> {
    Set::new(|b: int| 0 <= b < 256 && n.child_pos(b as u8) is Some)
}

/// The first `n` keys, distinct, are exactly the bytes that `find_key` finds, and there are
/// `n` of them.
pub proof fn lemma_distinct_keys_count(keys: Seq<u8>, n: int)
    requires
        0 <= n <= keys.len(),
        forall|i: int, j: int| 0 <= i < j < n ==> keys[i] != keys[j],
    ensures
        Set::new(|b: int| 0 <= b < 256 && find_key(keys, n, b as u8, 0) is Some).len() == n,
{
    let s = keys.subrange(0, n).map_values(|k: u8| k as int);
    assert(s.no_duplicates()) by {
        assert forall|i: int, j: int| 0 <= i < s.len() && 0 <= j < s.len() && i != j implies s[i]
            != s[j] by {
            if i < j {
                assert(keys[i] != keys[j]);
            } else {
                assert(keys[j] != keys[i]);
            }
        }
    }
    s.unique_seq_to_set();
    let t = Set::new(|b: int| 0 <= b < 256 && find_key(keys, n, b as u8, 0) is Some);
    assert(s.to_set() =~= t) by {
        assert forall|b: int| s.to_set().contains(b) == t.contains(b) by {
            lemma_find_key(keys, n, b as u8, 0);
            if s.to_set().contains(b) {
                let i = choose|i: int| 0 <= i < s.len() && s[i] == b;
                assert(keys[i] as int == b);
                assert((b as u8) == keys[i]);
            }
            if t.contains(b) {
                let j = find_key(keys, n, b as u8, 0)->0;
                assert(s[j] == keys[j] as int);
                assert(keys[j] as int == b);
            }
        }
    }
}

/// The first position below `n`, from `i` on, whose key is `b`.
pub open spec fn find_key(keys: Seq<u8>, n: int, b: u8, i: int) -> Option<int>
    decreases n - i,
{
    if i >= n {
        None
    } else if keys[i] == b {
        Some(i)
    } else {
        find_key(keys, n, b, i + 1)
    }
}

pub proof fn lemma_find_key(keys: Seq<u8>, n: int, b: u8, i: int)
    requires
        0 <= i,
        n <= keys.len(),
    ensures
        find_key(keys, n, b, i) matches Some(j) ==> i <= j < n && keys[j] == b,
        find_key(keys, n, b, i) is None ==> forall|j: int| i <= j < n ==> keys[j] != b,
        find_key(keys, n, b, i) matches Some(j) ==> forall|m: int| i <= m < j ==> keys[m] != b,
    decreases n - i,
{
    if i < n && keys[i] != b {
        lemma_find_key(keys, n, b, i + 1);
    }
}

/// A position below `n` whose key is `b`, where no earlier one is, is what `find_key` finds.
pub proof fn lemma_find_key_at(keys: Seq<u8>, n: int, b: u8, i: int, j: int)
    requires
        0 <= i <= j < n <= keys.len(),
        keys[j] == b,
        forall|m: int| i <= m < j ==> keys[m] != b,
    ensures
        find_key(keys, n, b, i) == Some(j),
    decreases j - i,
{
    if i < j {
        lemma_find_key_at(keys, n, b, i + 1, j);
    }
}

/// The bytes with a child in a Node48 index.
pub open spec fn used48(ci: Seq<u8>) -> Set<int> {
    Set::new(|b: int| 0 <= b < 256 && ci[b] != 255)
}

/// The bytes with a child in a Node256.
pub open spec fn used256<V>(ch: Seq<Option<Box<Node<V>>>>) -> Set<int> {
    Set::new(|b: int| 0 <= b < 256 && ch[b] is Some)
}

pub proof fn lemma_byte_set_finite(s: Set<int>)
    requires
        forall|b: int| #[trigger] s.contains(b) ==> 0 <= b < 256,
    ensures
        s.finite(),
        s.len() <= 256,
{
    vstd::set_lib::lemma_int_range(0, 256);
    vstd::set_lib::lemma_len_subset(s, vstd::set_lib::set_int_range(0, 256));
}

impl<V> Node<V> {
    pub open spec fn is_inner(self) -> bool {
        !(self is Leaf)
    }

    pub open spec fn spec_prefix(self) -> Seq<u8> {
        match self {
            Node::Leaf { .. } => Seq::empty(),
            Node::Node4 { prefix, .. } => prefix@,
            Node::Node16 { prefix, .. } => prefix@,
            Node::Node48 { prefix, .. } => prefix@,
            Node::Node256 { prefix, .. } => prefix@,
        }
    }

    pub open spec fn spec_leaf_value(self) -> Option<(Vec<u8>, Box<Node<V>>)> {
        match self {
            Node::Leaf { .. } => None,
            Node::Node4 { leaf_value, .. } => leaf_value,
            Node::Node16 { leaf_value, .. } => leaf_value,
            Node::Node48 { leaf_value, .. } => leaf_value,
            Node::Node256 { leaf_value, .. } => leaf_value,
        }
    }

    pub open spec fn spec_num_children(self) -> nat {
        match self {
            Node::Leaf { .. } => 0,
            Node::Node4 { num_children, .. } => num_children as nat,
            Node::Node16 { num_children, .. } => num_children as nat,
            Node::Node48 { num_children, .. } => num_children as nat,
            Node::Node256 { num_children, .. } => num_children as nat,
        }
    }

    /// The position of the child for byte `b`, as `find_child` reports it.
    pub open spec fn child_pos(self, b: u8) -> Option<int> {
        match self {
            Node::Leaf { .. } => None,
            Node::Node4 { keys, num_children, .. } => find_key(keys@, num_children as int, b, 0),
            Node::Node16 { keys, num_children, .. } => find_key(keys@, num_children as int, b, 0),
            Node::Node48 { child_index, .. } => if child_index@[b as int] != 255 {
                Some(child_index@[b as int] as int)
            } else {
                None
            },
            Node::Node256 { children, .. } => if children@[b as int] is Some {
                Some(b as int)
            } else {
                None
            },
        }
    }

    /// The child for byte `b`.
    pub open spec fn child_at(self, b: u8) -> Option<Node<V>> {
        match self {
            Node::Leaf { .. } => None,
            Node::Node4 { children, .. } => match self.child_pos(b) {
                Some(i) => Some(*children@[i]),
                None => None,
            },
            Node::Node16 { children, .. } => match self.child_pos(b) {
                Some(i) => Some(*children@[i]),
                None => None,
            },
            Node::Node48 { children, .. } => match self.child_pos(b) {
                Some(i) => Some(*children@[i]),
                None => None,
            },
            Node::Node256 { children, .. } => match children@[b as int] {
                Some(c) => Some(*c),
                None => None,
            },
        }
    }

    /// The keys of a Node4 or Node16 are in increasing order (other kinds: always).
    pub open spec fn keys_ascending(self) -> bool {
        match self {
            Node::Node4 { keys, num_children, .. } => forall|i: int, j: int|
                0 <= i < j < num_children ==> keys@[i] < keys@[j],
            Node::Node16 { keys, num_children, .. } => forall|i: int, j: int|
                0 <= i < j < num_children ==> keys@[i] < keys@[j],
            _ => true,
        }
    }

    /// The counts and index tables a search reads are within their arrays (implied by
    /// `shape_ok`; no order or distinctness of keys is needed).
    pub open spec fn index_ok(self) -> bool {
        match self {
            Node::Leaf { .. } => true,
            Node::Node4 { keys, num_children, .. } => num_children <= keys@.len(),
            Node::Node16 { keys, num_children, .. } => num_children <= keys@.len(),
            Node::Node48 { child_index, .. } => child_index@.len() == 256,
            Node::Node256 { children, .. } => children@.len() == 256,
        }
    }

    /// The layout constraints of each kind of node.
    pub open spec fn shape_ok(self) -> bool {
        match self {
            Node::Leaf { .. } => true,
            Node::Node4 { keys, num_children, children, .. } => {
                &&& keys@.len() == 4
                &&& num_children <= 4
                &&& num_children <= children@.len() <= 4
                &&& forall|i: int, j: int|
                    0 <= i < j < num_children ==> keys@[i] != keys@[j]
            },
            Node::Node16 { keys, num_children, children, .. } => {
                &&& keys@.len() == 16
                &&& num_children <= 16
                &&& num_children <= children@.len() <= 16
                &&& forall|i: int, j: int|
                    0 <= i < j < num_children ==> keys@[i] != keys@[j]
            },
            Node::Node48 { child_index, num_children, children, .. } => {
                &&& child_index@.len() == 256
                &&& children@.len() <= 48
                &&& num_children <= 48
                &&& num_children as nat == used48(child_index@).len()
                &&& forall|b: int|
                    0 <= b < 256 && child_index@[b] != 255 ==> child_index@[b] < children@.len()
                &&& forall|b1: int, b2: int|
                    0 <= b1 < 256 && 0 <= b2 < 256 && b1 != b2 && child_index@[b1] != 255
                        ==> child_index@[b1] != child_index@[b2]
            },
            Node::Node256 { num_children, children, .. } => {
                &&& children@.len() == 256
                &&& num_children as nat == used256(children@).len()
            },
        }
    }

    /// The count a node keeps is the number of bytes under which it has a child.
    pub proof fn lemma_num_children_count(self)
        requires
            self.shape_ok(),
        ensures
            self.spec_num_children() == child_bytes(self).len(),
    {
        match self {
            Node::Leaf { .. } => {
                assert(child_bytes(self) =~= Set::empty());
            },
            Node::Node4 { keys, num_children, .. } => {
                lemma_distinct_keys_count(keys@, num_children as int);
                assert(child_bytes(self) =~= Set::new(
                    |b: int| 0 <= b < 256 && find_key(keys@, num_children as int, b as u8, 0) is Some,
                ));
            },
            Node::Node16 { keys, num_children, .. } => {
                lemma_distinct_keys_count(keys@, num_children as int);
                assert(child_bytes(self) =~= Set::new(
                    |b: int| 0 <= b < 256 && find_key(keys@, num_children as int, b as u8, 0) is Some,
                ));
            },
            Node::Node48 { child_index, .. } => {
                assert(child_bytes(self) =~= used48(child_index@));
            },
            Node::Node256 { children, .. } => {
                assert(child_bytes(self) =~= used256(children@));
            },
        }
    }

    /// The value that a key ending at this node finds in its leaf value.
    pub open spec fn leaf_value_lookup(self, key: Seq<u8>) -> Option<V> {
        match self.spec_leaf_value() {
            Some((_, leaf)) => match *leaf {
                Node::Leaf { key: lk, value } => if lk@ == key {
                    Some(value)
                } else {
                    None
                },
                _ => None,
            },
            None => None,
        }
    }

    /// What a search for `key` finds from this node, entered after `depth` bytes of the key.
    pub open spec fn lookup(self, key: Seq<u8>, depth: int) -> Option<V>
        decreases self,
    {
        match self {
            Node::Leaf { key: lk, value } => if lk@ == key {
                Some(value)
            } else {
                None
            },
            _ => {
                let p = self.spec_prefix();
                if depth < 0 || key.len() < depth + p.len() || key.subrange(depth, depth + p.len())
                    != p {
                    None
                } else if depth + p.len() >= key.len() {
                    self.leaf_value_lookup(key)
                } else {
                    let b = key[depth + p.len()];
                    match self {
                        Node::Node4 { children, .. } => match self.child_pos(b) {
                            Some(i) => if 0 <= i < children@.len() {
                                children@[i].lookup(key, depth + p.len() + 1)
                            } else {
                                None
                            },
                            None => None,
                        },
                        Node::Node16 { children, .. } => match self.child_pos(b) {
                            Some(i) => if 0 <= i < children@.len() {
                                children@[i].lookup(key, depth + p.len() + 1)
                            } else {
                                None
                            },
                            None => None,
                        },
                        Node::Node48 { children, .. } => match self.child_pos(b) {
                            Some(i) => if 0 <= i < children@.len() {
                                children@[i].lookup(key, depth + p.len() + 1)
                            } else {
                                None
                            },
                            None => None,
                        },
                        Node::Node256 { children, .. } => if (b as int) < children@.len() {
                            match children@[b as int] {
                                Some(c) => c.lookup(key, depth + p.len() + 1),
                                None => None,
                            }
                        } else {
                            None
                        },
                        _ => None,
                    }
                }
            },
        }
    }
}


/// The slots of a Node48 that some byte points to.
pub open spec fn used_slots48(ci: Seq<u8>) -> Set<int> {
    used48(ci).map(|b: int| ci[b] as int)
}

/// A Node48 whose every slot below `n` is in use has at least `n` children.
pub proof fn lemma_slots_bound(ci: Seq<u8>, n: int)
    requires
        ci.len() == 256,
        0 <= n,
        forall|j: int| 0 <= j < n ==> #[trigger] used_slots48(ci).contains(j),
    ensures
        n <= used48(ci).len(),
{
    lemma_byte_set_finite(used48(ci));
    vstd::set_lib::lemma_map_size_bound(used48(ci), used_slots48(ci), |b: int| ci[b] as int);
    vstd::set_lib::lemma_int_range(0, n);
    assert(vstd::set_lib::set_int_range(0, n).subset_of(used_slots48(ci)));
    vstd::set_lib::lemma_len_subset(vstd::set_lib::set_int_range(0, n), used_slots48(ci));
}

/// Keys that agree below `n` find the same position there; one more key that is not `b` changes nothing.
pub proof fn lemma_find_key_extend(k1: Seq<u8>, k2: Seq<u8>, n: int, b: u8, i: int)
    requires
        0 <= i,
        n < k2.len(),
        n <= k1.len(),
        forall|j: int| 0 <= j < n ==> k1[j] == k2[j],
        k2[n] != b,
    ensures
        find_key(k2, n + 1, b, i) == find_key(k1, n, b, i),
    decreases n + 1 - i,
{
    if i < n + 1 && k2[i] != b {
        lemma_find_key_extend(k1, k2, n, b, i + 1);
    }
}

/// Keys that agree below `n` find the same position there.
pub proof fn lemma_find_key_same(k1: Seq<u8>, k2: Seq<u8>, n: int, b: u8, i: int)
    requires
        0 <= i,
        n <= k2.len(),
        n <= k1.len(),
        forall|j: int| 0 <= j < n ==> k1[j] == k2[j],
    ensures
        find_key(k2, n, b, i) == find_key(k1, n, b, i),
    decreases n - i,
{
    if i < n && k2[i] != b {
        lemma_find_key_same(k1, k2, n, b, i + 1);
    }
}

/// A copy of `src[lo..hi]`.
pub fn copy_bytes(src: &[u8], lo: usize, hi: usize) -> (r: Vec<u8>)
    requires
        lo <= hi <= src@.len(),
    ensures
        r@ == src@.subrange(lo as int, hi as int),
{
    let mut r: Vec<u8> = Vec::with_capacity(hi - lo);
    let mut i = lo;
    while i < hi
        invariant
            lo <= i <= hi <= src@.len(),
            r@ == src@.subrange(lo as int, i as int),
        decreases hi - i,
    {
        r.push(src[i]);
        i += 1;
    }
    r
}

/// A vector of `n` copies of `b`.
pub(crate) fn filled(b: u8, n: usize) -> (r: Vec<u8>)
    ensures
        r@.len() == n,
        forall|i: int| 0 <= i < n ==> r@[i] == b,
{
    let mut r: Vec<u8> = Vec::with_capacity(n);
    let mut i: usize = 0;
    while i < n
        invariant
            i <= n,
            r@.len() == i,
            forall|j: int| 0 <= j < i ==> r@[j] == b,
        decreases n - i,
    {
        r.push(b);
        i += 1;
    }
    r
}

impl<V> Node<V> {
    /// A freshly made inner node: no prefix, no value, no children.
    pub open spec fn empty_inner(self) -> bool {
        &&& self.is_inner()
        &&& self.spec_prefix().len() == 0
        &&& self.spec_leaf_value() is None
        &&& self.shape_ok()
        &&& self.spec_num_children() == 0
        &&& forall|b: u8| #[trigger] self.child_at(b) is None
    }

    /// `self` and `other` are the same kind of node with the same children; their prefixes
    /// and values may differ.
    pub open spec fn same_body(self, other: Node<V>) -> bool {
        match (self, other) {
            (Node::Leaf { .. }, _) => self == other,
            (
                Node::Node4 { num_children: n1, keys: k1, children: c1, .. },
                Node::Node4 { num_children: n2, keys: k2, children: c2, .. },
            ) => n1 == n2 && k1 == k2 && c1 == c2,
            (
                Node::Node16 { num_children: n1, keys: k1, children: c1, .. },
                Node::Node16 { num_children: n2, keys: k2, children: c2, .. },
            ) => n1 == n2 && k1 == k2 && c1 == c2,
            (
                Node::Node48 { num_children: n1, child_index: i1, children: c1, .. },
                Node::Node48 { num_children: n2, child_index: i2, children: c2, .. },
            ) => n1 == n2 && i1 == i2 && c1 == c2,
            (
                Node::Node256 { num_children: n1, children: c1, .. },
                Node::Node256 { num_children: n2, children: c2, .. },
            ) => n1 == n2 && c1 == c2,
            _ => false,
        }
    }

    /// The node's kind.
    pub open spec fn spec_node_type(self) -> NodeType {
        match self {
            Node::Leaf { .. } => NodeType::Leaf,
            Node::Node4 { .. } => NodeType::Node4,
            Node::Node16 { .. } => NodeType::Node16,
            Node::Node48 { .. } => NodeType::Node48,
            Node::Node256 { .. } => NodeType::Node256,
        }
    }

    /// Create a new leaf node.
    pub fn new_leaf(key: Vec<u8>, value: V) -> (r: Self)
        ensures
            r == (Node::Leaf { key, value }),
    {
        Node::Leaf { key, value }
    }

    /// Create a new Node4.
    pub fn new_node4() -> (r: Self)
        ensures
            r is Node4,
            r.empty_inner(),
    {
        let r = Node::Node4 {
            prefix: Vec::new(),
            num_children: 0,
            keys: filled(0, 4),
            children: Vec::with_capacity(4),
            leaf_value: None,
        };
        assert forall|b: u8| #[trigger] r.child_at(b) is None by {
            assert(r.child_pos(b) is None);
        }
        r
    }

    /// Create a new Node16.
    pub fn new_node16() -> (r: Self)
        ensures
            r is Node16,
            r.empty_inner(),
    {
        let r = Node::Node16 {
            prefix: Vec::new(),
            num_children: 0,
            keys: filled(0, 16),
            children: Vec::with_capacity(16),
            leaf_value: None,
        };
        assert forall|b: u8| #[trigger] r.child_at(b) is None by {
            assert(r.child_pos(b) is None);
        }
        r
    }

    /// Create a new Node48.
    pub fn new_node48() -> (r: Self)
        ensures
            r is Node48,
            r.empty_inner(),
    {
        let ci = filled(255, 256);
        assert(used48(ci@) =~= Set::empty());
        let r = Node::Node48 {
            prefix: Vec::new(),
            num_children: 0,
            child_index: ci,
            children: Vec::with_capacity(48),
            leaf_value: None,
        };
        assert forall|b: u8| #[trigger] r.child_at(b) is None by {
            assert(ci@[b as int] == 255);
        }
        r
    }

    /// Create a new Node256.
    pub fn new_node256() -> (r: Self)
        ensures
            r is Node256,
            r.empty_inner(),
    {
        let mut children: Vec<Option<Box<Node<V>>>> = Vec::with_capacity(256);
        let mut i: usize = 0;
        while i < 256
            invariant
                i <= 256,
                children@.len() == i,
                forall|j: int| 0 <= j < i ==> children@[j] is None,
            decreases 256 - i,
        {
            children.push(None);
            i += 1;
        }
        assert(used256(children@) =~= Set::empty());
        let r = Node::Node256 { prefix: Vec::new(), num_children: 0, children, leaf_value: None };
        assert forall|b: u8| #[trigger] r.child_at(b) is None by {
            assert(children@[b as int] is None);
        }
        r
    }

    /// Get the node type.
    pub fn node_type(&self) -> (r: NodeType)
        ensures
            r == self.spec_node_type(),
    {
        match self {
            Node::Leaf { .. } => NodeType::Leaf,
            Node::Node4 { .. } => NodeType::Node4,
            Node::Node16 { .. } => NodeType::Node16,
            Node::Node48 { .. } => NodeType::Node48,
            Node::Node256 { .. } => NodeType::Node256,
        }
    }

    /// Get the number of children.
    pub fn num_children(&self) -> (r: usize)
        ensures
            r == self.spec_num_children(),
    {
        match self {
            Node::Leaf { .. } => 0,
            Node::Node4 { num_children, .. } => *num_children as usize,
            Node::Node16 { num_children, .. } => *num_children as usize,
            Node::Node48 { num_children, .. } => *num_children as usize,
            Node::Node256 { num_children, .. } => *num_children as usize,
        }
    }

    /// Set the prefix; a leaf is left as it is.
    pub fn set_prefix(&mut self, new_prefix: &[u8])
        ensures
            final(self).same_body(*old(self)),
            final(self).spec_leaf_value() == old(self).spec_leaf_value(),
            old(self).is_inner() ==> final(self).spec_prefix() == new_prefix@,
    {
        match self {
            Node::Leaf { .. } => {},
            Node::Node4 { prefix, .. } => {
                *prefix = copy_bytes(new_prefix, 0, new_prefix.len());
            },
            Node::Node16 { prefix, .. } => {
                *prefix = copy_bytes(new_prefix, 0, new_prefix.len());
            },
            Node::Node48 { prefix, .. } => {
                *prefix = copy_bytes(new_prefix, 0, new_prefix.len());
            },
            Node::Node256 { prefix, .. } => {
                *prefix = copy_bytes(new_prefix, 0, new_prefix.len());
            },
        }
    }

    /// Get the prefix; a leaf has none.
    pub fn prefix(&self) -> (r: &[u8])
        ensures
            r@ == self.spec_prefix(),
    {
        match self {
            Node::Leaf { .. } => &[],
            Node::Node4 { prefix, .. } => prefix.as_slice(),
            Node::Node16 { prefix, .. } => prefix.as_slice(),
            Node::Node48 { prefix, .. } => prefix.as_slice(),
            Node::Node256 { prefix, .. } => prefix.as_slice(),
        }
    }

    /// Set the leaf value; a leaf is left as it is.
    pub fn set_leaf_value(&mut self, value: Option<(Vec<u8>, Box<Node<V>>)>)
        ensures
            final(self).same_body(*old(self)),
            final(self).spec_prefix() == old(self).spec_prefix(),
            old(self).is_inner() ==> final(self).spec_leaf_value() == value,
    {
        match self {
            Node::Leaf { .. } => {},
            Node::Node4 { leaf_value, .. } => {
                *leaf_value = value;
            },
            Node::Node16 { leaf_value, .. } => {
                *leaf_value = value;
            },
            Node::Node48 { leaf_value, .. } => {
                *leaf_value = value;
            },
            Node::Node256 { leaf_value, .. } => {
                *leaf_value = value;
            },
        }
    }

    /// Get the leaf value.
    pub fn get_leaf_value(&self) -> (r: Option<&(Vec<u8>, Box<Node<V>>)>)
        ensures
            r == (match self.spec_leaf_value() {
                Some(p) => Some(&p),
                None => None,
            }),
    {
        match self {
            Node::Leaf { .. } => None,
            Node::Node4 { leaf_value, .. } => leaf_value.as_ref(),
            Node::Node16 { leaf_value, .. } => leaf_value.as_ref(),
            Node::Node48 { leaf_value, .. } => leaf_value.as_ref(),
            Node::Node256 { leaf_value, .. } => leaf_value.as_ref(),
        }
    }

    /// Take the leaf value (remove and return it).
    pub fn take_leaf_value(&mut self) -> (r: Option<(Vec<u8>, Box<Node<V>>)>)
        ensures
            r == old(self).spec_leaf_value(),
            final(self).same_body(*old(self)),
            final(self).spec_prefix() == old(self).spec_prefix(),
            final(self).spec_leaf_value() is None,
    {
        match self {
            Node::Leaf { .. } => None,
            Node::Node4 { leaf_value, .. } => leaf_value.take(),
            Node::Node16 { leaf_value, .. } => leaf_value.take(),
            Node::Node48 { leaf_value, .. } => leaf_value.take(),
            Node::Node256 { leaf_value, .. } => leaf_value.take(),
        }
    }
}


/// With distinct keys below `n`, the position found for `b` is the one holding `b`.
pub proof fn lemma_find_key_distinct(keys: Seq<u8>, n: int, b: u8)
    requires
        0 <= n <= keys.len(),
        forall|i: int, j: int| 0 <= i < j < n ==> keys[i] != keys[j],
    ensures
        forall|j: int| #![trigger keys[j]]
            0 <= j < n && keys[j] == b ==> find_key(keys, n, b, 0) == Some(j),
        find_key(keys, n, b, 0) matches Some(j) ==> 0 <= j < n && keys[j] == b,
        find_key(keys, n, b, 0) is None ==> forall|j: int| 0 <= j < n ==> keys[j] != b,
{
    lemma_find_key(keys, n, b, 0);
    assert forall|j: int| #![trigger keys[j]] 0 <= j < n && keys[j] == b implies find_key(
        keys,
        n,
        b,
        0,
    ) == Some(j) by {
        lemma_find_key_at(keys, n, b, 0, j);
    }
}

/// The first slot below `len` that no byte of a Node48 index points to.
pub(crate) fn free_slot48(ci: &Vec<u8>, len: usize) -> (r: Option<usize>)
    requires
        ci@.len() == 256,
    ensures
        match r {
            Some(s) => s < len && !used_slots48(ci@).contains(s as int),
            None => forall|j: int| 0 <= j < len ==> #[trigger] used_slots48(ci@).contains(j),
        },
{
    let mut i: usize = 0;
    while i < len
        invariant
            i <= len,
            ci@.len() == 256,
            forall|j: int| 0 <= j < i ==> #[trigger] used_slots48(ci@).contains(j),
        decreases len - i,
    {
        let mut in_use = false;
        let mut k: usize = 0;
        while k < 256 && !in_use
            invariant
                k <= 256,
                ci@.len() == 256,
                in_use ==> used_slots48(ci@).contains(i as int),
                !in_use ==> forall|m: int| 0 <= m < k ==> ci@[m] == 255 || ci@[m] as int != i,
            decreases 256 - k + (if in_use { 0int } else { 1int }),
        {
            if ci[k] != 255 && ci[k] as usize == i {
                assert(used48(ci@).contains(k as int));
                in_use = true;
            } else {
                k += 1;
            }
        }
        if !in_use {
            assert(!used_slots48(ci@).contains(i as int)) by {
                if used_slots48(ci@).contains(i as int) {
                    let b = choose|b: int| used48(ci@).contains(b) && ci@[b] as int == i as int;
                    assert(ci@[b] == 255 || ci@[b] as int != i);
                }
            }
            return Some(i);
        }
        i += 1;
    }
    None
}

/// The first byte of a Node48 index that points to slot `idx`.
pub(crate) fn byte_of_slot48(ci: &Vec<u8>, idx: usize) -> (r: Option<usize>)
    requires
        ci@.len() == 256,
    ensures
        match r {
            Some(k) => k < 256 && ci@[k as int] != 255 && ci@[k as int] == idx,
            None => forall|k: int| 0 <= k < 256 ==> ci@[k] == 255 || ci@[k] != idx,
        },
{
    let mut k: usize = 0;
    while k < 256
        invariant
            k <= 256,
            ci@.len() == 256,
            forall|m: int| 0 <= m < k ==> ci@[m] == 255 || ci@[m] != idx,
        decreases 256 - k,
    {
        if ci[k] != 255 && ci[k] as usize == idx {
            return Some(k);
        }
        k += 1;
    }
    None
}

/// `keys` with the entry at `idx` dropped and those after it, below `n`, moved one down.
pub(crate) fn shift_keys(keys: &Vec<u8>, idx: usize, n: usize) -> (r: Vec<u8>)
    requires
        idx < n <= keys@.len(),
    ensures
        r@.len() == keys@.len(),
        forall|i: int| 0 <= i < idx ==> r@[i] == keys@[i],
        forall|i: int| idx <= i < n - 1 ==> r@[i] == keys@[i + 1],
        forall|i: int| n - 1 <= i < keys@.len() ==> r@[i] == keys@[i],
{
    let mut r: Vec<u8> = Vec::with_capacity(keys.len());
    let mut i: usize = 0;
    while i < keys.len()
        invariant
            i <= keys@.len(),
            idx < n <= keys@.len(),
            r@.len() == i,
            forall|j: int| 0 <= j < i && j < idx ==> r@[j] == keys@[j],
            forall|j: int| 0 <= j < i && idx <= j < n - 1 ==> r@[j] == keys@[j + 1],
            forall|j: int| 0 <= j < i && n - 1 <= j ==> r@[j] == keys@[j],
        decreases keys@.len() - i,
    {
        if idx <= i && i < n - 1 {
            r.push(keys[i + 1]);
        } else {
            r.push(keys[i]);
        }
        i += 1;
    }
    r
}

impl<V> Node<V> {
    /// The node has no room for another child.
    pub open spec fn is_full(self) -> bool {
        match self {
            Node::Node4 { num_children, .. } => num_children >= 4,
            Node::Node16 { num_children, .. } => num_children >= 16,
            Node::Node48 { num_children, .. } => num_children >= 48,
            _ => false,
        }
    }

    /// Find the index of a child with the given key byte.
    pub fn find_child(&self, key: u8) -> (r: Option<usize>)
        requires
            self.index_ok(),
        ensures
            match r {
                Some(i) => self.child_pos(key) == Some(i as int),
                None => self.child_pos(key) is None,
            },
    {
        match self {
            Node::Leaf { .. } => None,
            Node::Node4 { keys, num_children, .. } => {
                let n = *num_children as usize;
                let mut i: usize = 0;
                while i < n
                    invariant
                        i <= n <= keys@.len(),
                        self.child_pos(key) == find_key(keys@, n as int, key, 0),
                        find_key(keys@, n as int, key, 0) == find_key(keys@, n as int, key, i as int),
                    decreases n - i,
                {
                    if keys[i] == key {
                        assert(find_key(keys@, n as int, key, i as int) == Some(i as int));
                        return Some(i);
                    }
                    i += 1;
                }
                None
            },
            Node::Node16 { keys, num_children, .. } => {
                let n = *num_children as usize;
                let mut i: usize = 0;
                while i < n
                    invariant
                        i <= n <= keys@.len(),
                        self.child_pos(key) == find_key(keys@, n as int, key, 0),
                        find_key(keys@, n as int, key, 0) == find_key(keys@, n as int, key, i as int),
                    decreases n - i,
                {
                    if keys[i] == key {
                        assert(find_key(keys@, n as int, key, i as int) == Some(i as int));
                        return Some(i);
                    }
                    i += 1;
                }
                None
            },
            Node::Node48 { child_index, .. } => {
                let idx = child_index[key as usize];
                if idx != 255 {
                    Some(idx as usize)
                } else {
                    None
                }
            },
            Node::Node256 { children, .. } => {
                if children[key as usize].is_some() {
                    Some(key as usize)
                } else {
                    None
                }
            },
        }
    }
}


impl<V> Node<V> {
    /// The node's kind, prefix and value are those of `other`.
    pub open spec fn same_frame(self, other: Node<V>) -> bool {
        &&& self.spec_node_type() == other.spec_node_type()
        &&& self.spec_prefix() == other.spec_prefix()
        &&& self.spec_leaf_value() == other.spec_leaf_value()
    }

    /// Add a child node under `key`; a child already there is replaced.
    pub fn add_child(&mut self, key: u8, child: Box<Node<V>>)
        requires
            old(self).is_inner(),
            old(self).shape_ok(),
            old(self).child_at(key) is None ==> !old(self).is_full(),
        ensures
            final(self).shape_ok(),
            final(self).same_frame(*old(self)),
            final(self).child_at(key) == Some(*child),
            forall|b: u8| b != key ==> #[trigger] final(self).child_at(b) == old(self).child_at(b),
            final(self).spec_num_children() == old(self).spec_num_children() + (if old(
                self,
            ).child_at(key) is None {
                1int
            } else {
                0int
            }),
            old(self).keys_ascending() ==> final(self).keys_ascending(),
    {
        let pos = self.find_child(key);
        let slot = match self {
            Node::Node48 { child_index, children, .. } => if pos.is_none() {
                free_slot48(child_index, children.len())
            } else {
                None
            },
            _ => None,
        };
        match self {
            Node::Leaf { .. } => {
                assert(false);
            },
            Node::Node4 { keys, num_children, children, .. } => {
                let ghost k0 = keys@;
                let ghost c0 = children@;
                let ghost n0 = *num_children as int;
                proof {
                    lemma_find_key_distinct(k0, n0, key);
                }
                match pos {
                    Some(i) => {
                        children.set(i, child);
                        proof {
                            assert forall|b: u8| b != key implies (match #[trigger] find_key(
                                k0,
                                n0,
                                b,
                                0,
                            ) {
                                Some(j) => j != i && children@[j] == c0[j],
                                None => true,
                            }) by {
                                lemma_find_key_distinct(k0, n0, b);
                            }
                        }
                    },
                    None => {
                        let idx = *num_children as usize;
                        Self::insert_sorted_slot(keys, children, idx, key, child);
                        *num_children = *num_children + 1;
                        proof {
                            let kk = keys@;
                            let cc = children@;
                            assert forall|b: u8| b != key implies (match #[trigger] find_key(
                                kk,
                                n0 + 1,
                                b,
                                0,
                            ) {
                                Some(j) => Some(cc[j]),
                                None => None,
                            }) == (match find_key(k0, n0, b, 0) {
                                Some(j) => Some(c0[j]),
                                None => None,
                            }) by {}
                        }
                    },
                }
            },
            Node::Node16 { keys, num_children, children, .. } => {
                let ghost k0 = keys@;
                let ghost c0 = children@;
                let ghost n0 = *num_children as int;
                proof {
                    lemma_find_key_distinct(k0, n0, key);
                }
                match pos {
                    Some(i) => {
                        children.set(i, child);
                        proof {
                            assert forall|b: u8| b != key implies (match #[trigger] find_key(
                                k0,
                                n0,
                                b,
                                0,
                            ) {
                                Some(j) => j != i && children@[j] == c0[j],
                                None => true,
                            }) by {
                                lemma_find_key_distinct(k0, n0, b);
                            }
                        }
                    },
                    None => {
                        let idx = *num_children as usize;
                        Self::insert_sorted_slot(keys, children, idx, key, child);
                        *num_children = *num_children + 1;
                        proof {
                            let kk = keys@;
                            let cc = children@;
                            assert forall|b: u8| b != key implies (match #[trigger] find_key(
                                kk,
                                n0 + 1,
                                b,
                                0,
                            ) {
                                Some(j) => Some(cc[j]),
                                None => None,
                            }) == (match find_key(k0, n0, b, 0) {
                                Some(j) => Some(c0[j]),
                                None => None,
                            }) by {}
                        }
                    },
                }
            },
            Node::Node48 { child_index, num_children, children, .. } => {
                let ghost ci0 = child_index@;
                let ghost c0 = children@;
                proof {
                    lemma_byte_set_finite(used48(ci0));
                }
                match pos {
                    Some(i) => {
                        children.set(i, child);
                        assert forall|b: u8| b != key implies ci0[b as int] == 255 || ci0[b as int]
                            != i by {
                            assert(ci0[key as int] == i);
                        }
                    },
                    None => {
                        let s = match slot {
                            Some(s) => s,
                            None => {
                                proof {
                                    lemma_slots_bound(ci0, c0.len() as int);
                                }
                                children.len()
                            },
                        };
                        assert(!used_slots48(ci0).contains(s as int)) by {
                            if used_slots48(ci0).contains(s as int) {
                                let b = choose|b: int|
                                    used48(ci0).contains(b) && ci0[b] as int == s as int;
                                assert(ci0[b] != 255);
                            }
                        }
                        if s < children.len() {
                            children.set(s, child);
                        } else {
                            children.push(child);
                        }
                        child_index.set(key as usize, s as u8);
                        *num_children = *num_children + 1;
                        proof {
                            assert(used48(child_index@) =~= used48(ci0).insert(key as int));
                            assert forall|b: int| 0 <= b < 256 && b != key && ci0[b] != 255 implies
                                ci0[b] != s by {
                                assert(used48(ci0).contains(b));
                            }
                        }
                    },
                }
            },
            Node::Node256 { children, num_children, .. } => {
                let ghost c0 = children@;
                if children[key as usize].is_none() {
                    proof {
                        lemma_byte_set_finite(used256(c0));
                        let after = used256(c0).insert(key as int);
                        lemma_byte_set_finite(after);
                    }
                    *num_children = *num_children + 1;
                }
                children.set(key as usize, Some(child));
                proof {
                    if c0[key as int] is None {
                        assert(used256(children@) =~= used256(c0).insert(key as int));
                    } else {
                        assert(used256(children@) =~= used256(c0));
                    }
                }
            },
        }
    }
}


impl<V> Node<V> {
    /// Put `key` and `child` among the first `n` keys and children at the place that keeps
    /// the keys in increasing order: before the first key above `key`, or at the end.
    fn insert_sorted_slot(
        keys: &mut Vec<u8>,
        children: &mut Vec<Box<Node<V>>>,
        n: usize,
        key: u8,
        child: Box<Node<V>>,
    )
        requires
            n < old(keys)@.len(),
            n <= old(children)@.len() <= old(keys)@.len(),
            forall|i: int, j: int| 0 <= i < j < n ==> old(keys)@[i] != old(keys)@[j],
            forall|i: int| 0 <= i < n ==> old(keys)@[i] != key,
        ensures
            final(keys)@.len() == old(keys)@.len(),
            final(children)@.len() == if old(children)@.len() == n {
                n + 1
            } else {
                old(children)@.len() as int
            },
            forall|i: int, j: int| 0 <= i < j < n + 1 ==> final(keys)@[i] != final(keys)@[j],
            (forall|i: int, j: int| 0 <= i < j < n ==> old(keys)@[i] < old(keys)@[j]) ==> (forall|
                i: int,
                j: int,
            | 0 <= i < j < n + 1 ==> final(keys)@[i] < final(keys)@[j]),
            match find_key(final(keys)@, n + 1, key, 0) {
                Some(p) => final(children)@[p] == child,
                None => false,
            },
            forall|b: u8|
                b != key ==> (match #[trigger] find_key(final(keys)@, n + 1, b, 0) {
                    Some(j) => Some(final(children)@[j]),
                    None => None,
                }) == (match find_key(old(keys)@, n as int, b, 0) {
                    Some(j) => Some(old(children)@[j]),
                    None => None,
                }),
    {
        let ghost k0 = keys@;
        let ghost c0 = children@;
        let mut pos: usize = 0;
        while pos < n && !(key < keys[pos])
            invariant
                pos <= n < keys@.len(),
                keys@ == k0,
                forall|j: int| 0 <= j < pos ==> !(key < k0[j]),
            decreases n - pos,
        {
            pos += 1;
        }
        let mut j: usize = n;
        while j > pos
            invariant
                pos <= j <= n < keys@.len(),
                keys@.len() == k0.len(),
                forall|m: int| 0 <= m <= j ==> keys@[m] == k0[m],
                forall|m: int| j < m <= n ==> keys@[m] == k0[m - 1],
                forall|m: int| n < m < k0.len() ==> keys@[m] == k0[m],
            decreases j,
        {
            let prev = keys[j - 1];
            keys.set(j, prev);
            j -= 1;
        }
        keys.set(pos, key);
        let ghost k1 = keys@;
        assert(forall|m: int| 0 <= m < pos ==> k1[m] == k0[m]);
        assert(k1[pos as int] == key);
        assert(forall|m: int| pos < m <= n ==> k1[m] == k0[m - 1]);
        if children.len() == n {
            children.insert(pos, child);
        } else {
            children.insert(pos, child);
            let _stale = children.remove(n + 1);
        }
        let ghost c1 = children@;
        assert(forall|m: int| 0 <= m < pos ==> c1[m] == c0[m]);
        assert(c1[pos as int] == child);
        assert(forall|m: int| pos < m <= n ==> c1[m] == c0[m - 1]);
        proof {
            assert forall|a: int, c: int| 0 <= a < c < n + 1 implies k1[a] != k1[c] by {
                if a < pos && c > pos {
                    assert(k1[c] == k0[c - 1]);
                } else if a > pos {
                    assert(k1[a] == k0[a - 1] && k1[c] == k0[c - 1]);
                }
            }
            lemma_find_key_distinct(k1, n + 1, key);
            assert(k1[pos as int] == key);
            if forall|a: int, c: int| 0 <= a < c < n ==> k0[a] < k0[c] {
                assert forall|a: int, c: int| 0 <= a < c < n + 1 implies k1[a] < k1[c] by {
                    if c == pos {
                        assert(!(key < k0[a]) && k0[a] != key);
                    } else if a == pos {
                        assert(key < k0[pos as int]);
                        if c - 1 > pos {
                            assert(k0[pos as int] < k0[c - 1]);
                        }
                    } else if a < pos && c > pos {
                        assert(!(key < k0[a]) && k0[a] != key);
                        assert(key < k0[pos as int]);
                        if c - 1 > pos {
                            assert(k0[pos as int] < k0[c - 1]);
                        }
                    } else if a > pos {
                        assert(k1[a] == k0[a - 1] && k1[c] == k0[c - 1]);
                    }
                }
            }
            assert forall|b: u8| b != key implies (match #[trigger] find_key(k1, n + 1, b, 0) {
                Some(j) => Some(c1[j]),
                None => None,
            }) == (match find_key(k0, n as int, b, 0) {
                Some(j) => Some(c0[j]),
                None => None,
            }) by {
                lemma_find_key_distinct(k0, n as int, b);
                lemma_find_key_distinct(k1, n + 1, b);
                match find_key(k0, n as int, b, 0) {
                    Some(j) => {
                        if j < pos {
                            assert(k1[j] == b);
                        } else {
                            assert(k1[j + 1] == b);
                        }
                    },
                    None => {
                        if find_key(k1, n + 1, b, 0) is Some {
                            let m = find_key(k1, n + 1, b, 0)->0;
                            if m < pos {
                                assert(k0[m] == b);
                            } else if m > pos {
                                assert(k0[m - 1] == b);
                            }
                        }
                    },
                }
            }
        }
    }
}


impl<V> Node<V> {
    /// Remove the child at position `idx` and return it; a fresh empty Node4 holds its slot.
    pub fn remove_child(&mut self, idx: usize) -> (r: Box<Node<V>>)
        requires
            old(self).is_inner(),
            old(self).shape_ok(),
            exists|b: u8| old(self).child_pos(b) == Some(idx as int),
        ensures
            final(self).shape_ok(),
            final(self).same_frame(*old(self)),
            forall|b: u8|
                old(self).child_pos(b) == Some(idx as int) ==> old(self).child_at(b) == Some(*r)
                    && #[trigger] final(self).child_at(b) is None,
            forall|b: u8|
                old(self).child_pos(b) != Some(idx as int) ==> #[trigger] final(self).child_at(b)
                    == old(self).child_at(b),
            final(self).spec_num_children() == old(self).spec_num_children() - 1,
    {
        let ghost b0 = choose|b: u8| old(self).child_pos(b) == Some(idx as int);
        match self {
            Node::Leaf { .. } => {
                assert(false);
                Box::new(Node::new_node4())
            },
            Node::Node4 { keys, num_children, children, .. } => {
                let ghost k0 = keys@;
                let ghost c0 = children@;
                let n = *num_children as usize;
                proof {
                    lemma_find_key_distinct(k0, n as int, b0);
                }
                let nk = shift_keys(keys, idx, n);
                let c = children.remove(idx);
                children.insert(n - 1, Box::new(Node::new_node4()));
                *keys = nk;
                *num_children = *num_children - 1;
                proof {
                    let m = n as int - 1;
                    assert forall|i: int, j: int| 0 <= i < j < m implies nk@[i] != nk@[j] by {
                        let oi = if i < idx { i } else { i + 1 };
                        let oj = if j < idx { j } else { j + 1 };
                        assert(nk@[i] == k0[oi] && nk@[j] == k0[oj]);
                    }
                    assert forall|b: u8|
                        old(self).child_pos(b) == Some(idx as int) ==> find_key(nk@, m, b, 0) is None by {
                        lemma_find_key_distinct(k0, n as int, b);
                        lemma_find_key_distinct(nk@, m, b);
                        if old(self).child_pos(b) == Some(idx as int) {
                            if let Some(j) = find_key(nk@, m, b, 0) {
                                let oj = if j < idx { j } else { j + 1 };
                                assert(k0[oj] == b);
                            }
                        }
                    }
                    assert forall|b: u8| old(self).child_pos(b) != Some(idx as int) implies (match find_key(
                        nk@,
                        m,
                        b,
                        0,
                    ) {
                        Some(j) => j < m && children@[j] == c0[if j < idx { j } else { j + 1 }]
                            && find_key(k0, n as int, b, 0) == Some(if j < idx { j } else { j + 1 }),
                        None => find_key(k0, n as int, b, 0) is None,
                    }) by {
                        lemma_find_key_distinct(k0, n as int, b);
                        lemma_find_key_distinct(nk@, m, b);
                        if let Some(j) = find_key(nk@, m, b, 0) {
                            let oj = if j < idx { j } else { j + 1 };
                            assert(k0[oj] == b);
                        } else {
                            if let Some(oj) = find_key(k0, n as int, b, 0) {
                                let j = if oj < idx { oj } else { oj - 1 };
                                assert(nk@[j] == b);
                            }
                        }
                    }
                }
                c
            },
            Node::Node16 { keys, num_children, children, .. } => {
                let ghost k0 = keys@;
                let ghost c0 = children@;
                let n = *num_children as usize;
                proof {
                    lemma_find_key_distinct(k0, n as int, b0);
                }
                let nk = shift_keys(keys, idx, n);
                let c = children.remove(idx);
                children.insert(n - 1, Box::new(Node::new_node4()));
                *keys = nk;
                *num_children = *num_children - 1;
                proof {
                    let m = n as int - 1;
                    assert forall|i: int, j: int| 0 <= i < j < m implies nk@[i] != nk@[j] by {
                        let oi = if i < idx { i } else { i + 1 };
                        let oj = if j < idx { j } else { j + 1 };
                        assert(nk@[i] == k0[oi] && nk@[j] == k0[oj]);
                    }
                    assert forall|b: u8|
                        old(self).child_pos(b) == Some(idx as int) ==> find_key(nk@, m, b, 0) is None by {
                        lemma_find_key_distinct(k0, n as int, b);
                        lemma_find_key_distinct(nk@, m, b);
                        if old(self).child_pos(b) == Some(idx as int) {
                            if let Some(j) = find_key(nk@, m, b, 0) {
                                let oj = if j < idx { j } else { j + 1 };
                                assert(k0[oj] == b);
                            }
                        }
                    }
                    assert forall|b: u8| old(self).child_pos(b) != Some(idx as int) implies (match find_key(
                        nk@,
                        m,
                        b,
                        0,
                    ) {
                        Some(j) => j < m && children@[j] == c0[if j < idx { j } else { j + 1 }]
                            && find_key(k0, n as int, b, 0) == Some(if j < idx { j } else { j + 1 }),
                        None => find_key(k0, n as int, b, 0) is None,
                    }) by {
                        lemma_find_key_distinct(k0, n as int, b);
                        lemma_find_key_distinct(nk@, m, b);
                        if let Some(j) = find_key(nk@, m, b, 0) {
                            let oj = if j < idx { j } else { j + 1 };
                            assert(k0[oj] == b);
                        } else {
                            if let Some(oj) = find_key(k0, n as int, b, 0) {
                                let j = if oj < idx { oj } else { oj - 1 };
                                assert(nk@[j] == b);
                            }
                        }
                    }
                }
                c
            },
            Node::Node48 { child_index, num_children, children, .. } => {
                let ghost ci0 = child_index@;
                let ghost c0 = children@;
                let kb = byte_of_slot48(child_index, idx);
                let c = children.remove(idx);
                children.insert(idx, Box::new(Node::new_node4()));
                assert(ci0[b0 as int] == idx);
                match kb {
                    Some(k) => {
                        assert(k == b0);
                        proof {
                            lemma_byte_set_finite(used48(ci0));
                            assert(used48(ci0).contains(k as int));
                            assert(used48(ci0).remove(k as int).len() == used48(ci0).len() - 1);
                        }
                        child_index.set(k, 255);
                        *num_children = *num_children - 1;
                        assert(used48(child_index@) =~= used48(ci0).remove(k as int));
                    },
                    None => {
                        assert(false);
                    },
                }
                assert forall|j: int| 0 <= j < c0.len() && j != idx implies children@[j] == c0[j] by {}
                c
            },
            Node::Node256 { children, num_children, .. } => {
                let ghost c0 = children@;
                proof {
                    lemma_byte_set_finite(used256(c0));
                    assert(used256(c0).contains(idx as int));
                }
                *num_children = *num_children - 1;
                let c = children.remove(idx);
                children.insert(idx, None);
                assert(used256(children@) =~= used256(c0).remove(idx as int));
                assert forall|j: int| 0 <= j < 256 && j != idx implies children@[j] == c0[j] by {}
                c.unwrap()
            },
        }
    }
}


/// `x + 1`, held at `usize::MAX`.
pub open spec fn inc(x: usize) -> usize {
    if x < usize::MAX {
        (x + 1) as usize
    } else {
        x
    }
}

/// `x - 1`, held at 0.
pub open spec fn dec(x: usize) -> usize {
    if x > 0 {
        (x - 1) as usize
    } else {
        0
    }
}

/// A count `c` of nodes moved by `d`, the change in that number of nodes: one more, one
/// fewer (held between 0 and `usize::MAX`), or unchanged.
pub open spec fn moved(c: usize, d: int) -> usize {
    if d > 0 {
        inc(c)
    } else if d < 0 {
        dec(c)
    } else {
        c
    }
}

/// 1 when `t` is the kind `k`, else 0.
pub open spec fn kind_is(t: NodeType, k: NodeType) -> int {
    if t == k {
        1
    } else {
        0
    }
}

/// The counts after a node of kind `from` grows into the next larger kind.
pub open spec fn grown_stats(s: ArtMemoryStats, from: NodeType) -> ArtMemoryStats {
    match from {
        NodeType::Node4 => ArtMemoryStats {
            node4_count: dec(s.node4_count),
            node16_count: inc(s.node16_count),
            ..s
        },
        NodeType::Node16 => ArtMemoryStats {
            node16_count: dec(s.node16_count),
            node48_count: inc(s.node48_count),
            ..s
        },
        NodeType::Node48 => ArtMemoryStats {
            node48_count: dec(s.node48_count),
            node256_count: inc(s.node256_count),
            ..s
        },
        _ => s,
    }
}

pub fn count_inc(x: usize) -> (r: usize)
    ensures
        r == inc(x),
{
    if x < usize::MAX {
        x + 1
    } else {
        x
    }
}

pub fn count_dec(x: usize) -> (r: usize)
    ensures
        r == dec(x),
{
    if x > 0 {
        x - 1
    } else {
        0
    }
}

/// `keys[..n]` copied into a vector of `len` keys.
pub(crate) fn widen_keys(keys: &Vec<u8>, n: usize, len: usize) -> (r: Vec<u8>)
    requires
        n <= keys@.len(),
        n <= len,
    ensures
        r@.len() == len,
        forall|i: int| 0 <= i < n ==> r@[i] == keys@[i],
{
    let mut r = filled(0, len);
    let mut i: usize = 0;
    while i < n
        invariant
            i <= n <= keys@.len(),
            n <= len,
            r@.len() == len,
            forall|j: int| 0 <= j < i ==> r@[j] == keys@[j],
        decreases n - i,
    {
        r.set(i, keys[i]);
        i += 1;
    }
    r
}

/// A Node48 index holding, for each of the first `n` keys, its position.
pub(crate) fn index_of_keys(keys: &Vec<u8>, n: usize) -> (r: Vec<u8>)
    requires
        n <= keys@.len(),
        n < 255,
        forall|i: int, j: int| 0 <= i < j < n ==> keys@[i] != keys@[j],
    ensures
        r@.len() == 256,
        forall|b: int|
            #![trigger r@[b]]
            0 <= b < 256 ==> (r@[b] == 255 && forall|i: int| 0 <= i < n ==> keys@[i] != b) || (
            r@[b] < n && keys@[r@[b] as int] == b),
{
    let mut r = filled(255, 256);
    let mut i: usize = 0;
    while i < n
        invariant
            i <= n <= keys@.len(),
            n < 255,
            r@.len() == 256,
            forall|a: int, c: int| 0 <= a < c < n ==> keys@[a] != keys@[c],
            forall|b: int|
                #![trigger r@[b]]
                0 <= b < 256 ==> (r@[b] == 255 && forall|j: int| 0 <= j < i ==> keys@[j] != b) || (
                r@[b] < i && keys@[r@[b] as int] == b),
        decreases n - i,
    {
        let k = keys[i];
        r.set(k as usize, i as u8);
        i += 1;
    }
    r
}

impl<V> Node<V> {
    /// Grow a Node4 into a Node16 with the same children; other nodes are left as they are.
    fn grow_to_node16(&mut self, stats: &mut ArtMemoryStats)
        requires
            old(self).shape_ok(),
        ensures
            final(self).shape_ok(),
            *old(self) is Node4 ==> *final(self) is Node16,
            !(*old(self) is Node4) ==> *final(self) == *old(self),
            final(self).spec_prefix() == old(self).spec_prefix(),
            final(self).spec_leaf_value() == old(self).spec_leaf_value(),
            final(self).spec_num_children() == old(self).spec_num_children(),
            forall|b: u8| #[trigger] final(self).child_at(b) == old(self).child_at(b),
            *final(stats) == if *old(self) is Node4 {
                grown_stats(*old(stats), NodeType::Node4)
            } else {
                *old(stats)
            },
    {
        if let Node::Node4 { .. } = self {
            let mut tmp = Node::new_node4();
            std::mem::swap(self, &mut tmp);
            match tmp {
                Node::Node4 { prefix, num_children, keys, children, leaf_value } => {
                    let nk = widen_keys(&keys, num_children as usize, 16);
                    let ghost n = num_children as int;
                    assert forall|b: u8| #[trigger] find_key(nk@, n, b, 0) == find_key(keys@, n, b, 0) by {
                        lemma_find_key_same(keys@, nk@, n, b, 0);
                    }
                    *self = Node::Node16 { prefix, num_children, keys: nk, children, leaf_value };
                },
                other => {
                    *self = other;
                },
            }
            stats.node4_count = count_dec(stats.node4_count);
            stats.node16_count = count_inc(stats.node16_count);
        }
    }

    /// Grow a Node16 into a Node48 with the same children; other nodes are left as they are.
    fn grow_to_node48(&mut self, stats: &mut ArtMemoryStats)
        requires
            old(self).shape_ok(),
        ensures
            final(self).shape_ok(),
            *old(self) is Node16 ==> *final(self) is Node48,
            !(*old(self) is Node16) ==> *final(self) == *old(self),
            final(self).spec_prefix() == old(self).spec_prefix(),
            final(self).spec_leaf_value() == old(self).spec_leaf_value(),
            final(self).spec_num_children() == old(self).spec_num_children(),
            forall|b: u8| #[trigger] final(self).child_at(b) == old(self).child_at(b),
            *final(stats) == if *old(self) is Node16 {
                grown_stats(*old(stats), NodeType::Node16)
            } else {
                *old(stats)
            },
    {
        if let Node::Node16 { .. } = self {
            let mut tmp = Node::new_node4();
            std::mem::swap(self, &mut tmp);
            match tmp {
                Node::Node16 { prefix, num_children, keys, children, leaf_value } => {
                    let ci = index_of_keys(&keys, num_children as usize);
                    let ghost n = num_children as int;
                    proof {
                        let f = |i: int| keys@[i] as int;
                        let dom = vstd::set_lib::set_int_range(0, n);
                        vstd::set_lib::lemma_int_range(0, n);
                        assert(dom.map(f) =~= used48(ci@)) by {
                            assert forall|b: int| used48(ci@).contains(b) implies dom.map(f).contains(b) by {
                                assert(ci@[b] != 255);
                                assert(dom.contains(ci@[b] as int) && f(ci@[b] as int) == b);
                            }
                            assert forall|b: int| dom.map(f).contains(b) implies used48(ci@).contains(b) by {
                                let i = choose|i: int| dom.contains(i) && f(i) == b;
                                assert(0 <= b < 256);
                                assert(ci@[b] != 255);
                            }
                        }
                        assert(vstd::relations::injective_on(f, dom));
                        vstd::set_lib::lemma_map_size(dom, used48(ci@), f);
                        assert forall|b: u8| #[trigger] find_key(keys@, n, b, 0) == (if ci@[b as int] != 255 {
                            Some(ci@[b as int] as int)
                        } else {
                            None::<int>
                        }) by {
                            lemma_find_key_distinct(keys@, n, b);
                            assert(ci@[b as int] == ci@[b as int]);
                        }
                    }
                    *self = Node::Node48 { prefix, num_children, child_index: ci, children, leaf_value };
                },
                other => {
                    *self = other;
                },
            }
            stats.node16_count = count_dec(stats.node16_count);
            stats.node48_count = count_inc(stats.node48_count);
        }
    }

    /// Grow a Node48 into a Node256 with the same children; other nodes are left as they are.
    fn grow_to_node256(&mut self, stats: &mut ArtMemoryStats)
        requires
            old(self).shape_ok(),
        ensures
            final(self).shape_ok(),
            *old(self) is Node48 ==> *final(self) is Node256,
            !(*old(self) is Node48) ==> *final(self) == *old(self),
            final(self).spec_prefix() == old(self).spec_prefix(),
            final(self).spec_leaf_value() == old(self).spec_leaf_value(),
            final(self).spec_num_children() == old(self).spec_num_children(),
            forall|b: u8| #[trigger] final(self).child_at(b) == old(self).child_at(b),
            *final(stats) == if *old(self) is Node48 {
                grown_stats(*old(stats), NodeType::Node48)
            } else {
                *old(stats)
            },
    {
        if let Node::Node48 { .. } = self {
            let mut tmp = Node::new_node4();
            std::mem::swap(self, &mut tmp);
            match tmp {
                Node::Node48 { prefix, num_children, child_index, children, leaf_value } => {
                    let ghost c0 = children@;
                    let ghost ci = child_index@;
                    let mut children = children;
                    let mut nc: Vec<Option<Box<Node<V>>>> = Vec::with_capacity(256);
                    let mut byte: usize = 0;
                    while byte < 256
                        invariant
                            byte <= 256,
                            ci == child_index@,
                            ci.len() == 256,
                            children@.len() == c0.len(),
                            nc@.len() == byte,
                            forall|b: int|
                                0 <= b < 256 && ci[b] != 255 ==> ci[b] < c0.len(),
                            forall|b1: int, b2: int|
                                0 <= b1 < 256 && 0 <= b2 < 256 && b1 != b2 && ci[b1] != 255
                                    ==> ci[b1] != ci[b2],
                            forall|b: int|
                                byte <= b < 256 && ci[b] != 255 ==> children@[ci[b] as int]
                                    == c0[ci[b] as int],
                            forall|b: int|
                                0 <= b < byte ==> #[trigger] nc@[b] == if ci[b] != 255 {
                                    Some(c0[ci[b] as int])
                                } else {
                                    None
                                },
                        decreases 256 - byte,
                    {
                        let idx = child_index[byte];
                        if idx != 255 && (idx as usize) < children.len() {
                            let c = children.remove(idx as usize);
                            children.insert(idx as usize, Box::new(Node::new_node4()));
                            nc.push(Some(c));
                        } else {
                            nc.push(None);
                        }
                        byte += 1;
                    }
                    assert(used256(nc@) =~= used48(ci));
                    *self = Node::Node256 {
                        prefix,
                        num_children: num_children as u16,
                        children: nc,
                        leaf_value,
                    };
                },
                other => {
                    *self = other;
                },
            }
            stats.node48_count = count_dec(stats.node48_count);
            stats.node256_count = count_inc(stats.node256_count);
        }
    }

    /// Add a child, growing the node first if it is full.
    pub fn add_child_grow(&mut self, key: u8, child: Box<Node<V>>, stats: &mut ArtMemoryStats)
        requires
            old(self).is_inner(),
            old(self).shape_ok(),
        ensures
            final(self).shape_ok(),
            final(self).is_inner(),
            final(self).spec_prefix() == old(self).spec_prefix(),
            final(self).spec_leaf_value() == old(self).spec_leaf_value(),
            final(self).child_at(key) == Some(*child),
            forall|b: u8| b != key ==> #[trigger] final(self).child_at(b) == old(self).child_at(b),
            final(self).spec_num_children() == old(self).spec_num_children() + (if old(
                self,
            ).child_at(key) is None {
                1int
            } else {
                0int
            }),
            *final(stats) == if old(self).is_full() {
                grown_stats(*old(stats), old(self).spec_node_type())
            } else {
                *old(stats)
            },
            final(self).spec_node_type() == if old(self).is_full() {
                match old(self).spec_node_type() {
                    NodeType::Node4 => NodeType::Node16,
                    NodeType::Node16 => NodeType::Node48,
                    _ => NodeType::Node256,
                }
            } else {
                old(self).spec_node_type()
            },
    {
        let nt = self.node_type();
        let n = self.num_children();
        if nt == NodeType::Node4 && n >= 4 {
            self.grow_to_node16(stats);
        } else if nt == NodeType::Node16 && n >= 16 {
            self.grow_to_node48(stats);
        } else if nt == NodeType::Node48 && n >= 48 {
            self.grow_to_node256(stats);
        }
        self.add_child(key, child);
    }
}


/// Whether `key` begins with `p`.
pub open spec fn starts_with(key: Seq<u8>, p: Seq<u8>) -> bool {
    p.len() <= key.len() && key.subrange(0, p.len() as int) == p
}

impl<V> Node<V> {
    /// The subtree is well formed for a search that has consumed the bytes `path`: every key
    /// stored below begins with `path`, a value stored at an inner node has exactly the key
    /// spelled by the path to it, and each child sits under the byte that leads to it.
    pub open spec fn inv(self, path: Seq<u8>) -> bool
        decreases self,
    {
        match self {
            Node::Leaf { key, .. } => starts_with(key@, path),
            _ => {
                let q = path + self.spec_prefix();
                &&& self.shape_ok()
                &&& match self.spec_leaf_value() {
                    Some((k, leaf)) => k@ == q && match *leaf {
                        Node::Leaf { key: lk, .. } => lk@ == q,
                        _ => false,
                    },
                    None => true,
                }
                &&& match self {
                    Node::Node4 { keys, num_children, children, .. } => forall|i: int|
                        0 <= i < num_children && i < children@.len() ==> (#[trigger] children@[i]).inv(
                            q.push(keys@[i]),
                        ),
                    Node::Node16 { keys, num_children, children, .. } => forall|i: int|
                        0 <= i < num_children && i < children@.len() ==> (#[trigger] children@[i]).inv(
                            q.push(keys@[i]),
                        ),
                    Node::Node48 { child_index, children, .. } => forall|b: int|
                        0 <= b < 256 && #[trigger] child_index@[b] != 255 && child_index@[b] < children@.len()
                            ==> children@[child_index@[b] as int].inv(q.push(b as u8)),
                    Node::Node256 { children, .. } => forall|b: int|
                        0 <= b < children@.len() ==> match #[trigger] children@[b] {
                            Some(c) => c.inv(q.push(b as u8)),
                            None => true,
                        },
                    _ => true,
                }
            },
        }
    }

    /// What a search for `key` entered here after `depth` bytes finds, one level down.
    pub open spec fn step(self, key: Seq<u8>, depth: int) -> Option<V> {
        let p = self.spec_prefix();
        if depth < 0 || key.len() < depth + p.len() || key.subrange(depth, depth + p.len()) != p {
            None
        } else if depth + p.len() >= key.len() {
            self.leaf_value_lookup(key)
        } else {
            match self.child_at(key[depth + p.len()]) {
                Some(c) => c.lookup(key, depth + p.len() + 1),
                None => None,
            }
        }
    }

    /// The value a valid leaf value holds.
    pub open spec fn leaf_value_ok(self, q: Seq<u8>) -> bool {
        match self.spec_leaf_value() {
            Some((k, leaf)) => k@ == q && match *leaf {
                Node::Leaf { key: lk, .. } => lk@ == q,
                _ => false,
            },
            None => true,
        }
    }

    pub proof fn lemma_lookup_step(self, key: Seq<u8>, depth: int)
        requires
            self.is_inner(),
            self.shape_ok(),
        ensures
            self.lookup(key, depth) == self.step(key, depth),
    {
        let p = self.spec_prefix();
        if depth >= 0 && key.len() >= depth + p.len() && key.subrange(depth, depth + p.len()) == p
            && depth + p.len() < key.len() {
            let b = key[depth + p.len()];
            match self {
                Node::Node4 { keys, num_children, .. } => {
                    lemma_find_key(keys@, num_children as int, b, 0);
                },
                Node::Node16 { keys, num_children, .. } => {
                    lemma_find_key(keys@, num_children as int, b, 0);
                },
                _ => {},
            }
        }
    }

    /// The children of a valid node are valid, each for the path that leads to it.
    pub proof fn lemma_inv_child(self, path: Seq<u8>, b: u8)
        requires
            self.is_inner(),
            self.inv(path),
        ensures
            self.child_at(b) matches Some(c) ==> c.inv(path + self.spec_prefix() + seq![b]),
    {
        let q = path + self.spec_prefix();
        assert(q.push(b) =~= q + seq![b]);
        match self {
            Node::Node4 { keys, num_children, children, .. } => {
                lemma_find_key(keys@, num_children as int, b, 0);
                if let Some(i) = self.child_pos(b) {
                    assert(children@[i].inv(q.push(keys@[i])));
                }
            },
            Node::Node16 { keys, num_children, children, .. } => {
                lemma_find_key(keys@, num_children as int, b, 0);
                if let Some(i) = self.child_pos(b) {
                    assert(children@[i].inv(q.push(keys@[i])));
                }
            },
            Node::Node48 { child_index, children, .. } => {
                if child_index@[b as int] != 255 {
                    assert(children@[child_index@[b as int] as int].inv(q.push((b as int) as u8)));
                }
            },
            Node::Node256 { children, .. } => {
                if children@[b as int] is Some {
                    assert(children@[b as int].unwrap().inv(q.push((b as int) as u8)));
                }
            },
            _ => {},
        }
    }

    /// A node is valid when its shape, its value and each of its children are.
    pub proof fn lemma_inv_intro(self, path: Seq<u8>)
        requires
            self.is_inner(),
            self.shape_ok(),
            self.leaf_value_ok(path + self.spec_prefix()),
            forall|b: u8| #[trigger]
                self.child_at(b) matches Some(c) ==> c.inv(path + self.spec_prefix() + seq![b]),
        ensures
            self.inv(path),
    {
        let q = path + self.spec_prefix();
        match self {
            Node::Node4 { keys, num_children, children, .. } => {
                assert forall|i: int| 0 <= i < num_children && i < children@.len() implies (#[trigger] children@[i]).inv(
                    q.push(keys@[i]),
                ) by {
                    let b = keys@[i];
                    lemma_find_key_distinct(keys@, num_children as int, b);
                    assert(self.child_at(b) == Some(*children@[i]));
                    assert(q.push(b) =~= q + seq![b]);
                }
            },
            Node::Node16 { keys, num_children, children, .. } => {
                assert forall|i: int| 0 <= i < num_children && i < children@.len() implies (#[trigger] children@[i]).inv(
                    q.push(keys@[i]),
                ) by {
                    let b = keys@[i];
                    lemma_find_key_distinct(keys@, num_children as int, b);
                    assert(self.child_at(b) == Some(*children@[i]));
                    assert(q.push(b) =~= q + seq![b]);
                }
            },
            Node::Node48 { child_index, children, .. } => {
                assert forall|b: int|
                    0 <= b < 256 && #[trigger] child_index@[b] != 255 && child_index@[b] < children@.len() implies children@[child_index@[b] as int].inv(
                    q.push(b as u8),
                ) by {
                    let bb = b as u8;
                    assert(bb as int == b);
                    assert(self.child_at(bb) == Some(*children@[child_index@[b] as int]));
                    assert(q.push(bb) =~= q + seq![bb]);
                }
            },
            Node::Node256 { children, .. } => {
                assert forall|b: int| 0 <= b < children@.len() implies match #[trigger] children@[b] {
                    Some(c) => c.inv(q.push(b as u8)),
                    None => true,
                } by {
                    let bb = b as u8;
                    assert(bb as int == b);
                    assert(q.push(bb) =~= q + seq![bb]);
                    if let Some(c) = children@[b] {
                        assert(self.child_at(bb) == Some(*c));
                    }
                }
            },
            _ => {},
        }
    }

    /// A valid leaf value is where a search for its key ends.
    pub proof fn lemma_inv_leaf_value(self, path: Seq<u8>)
        requires
            self.is_inner(),
            self.inv(path),
        ensures
            self.leaf_value_ok(path + self.spec_prefix()),
    {
    }

    /// Whatever a search finds below a valid node has a key that begins with the node's path.
    pub proof fn lemma_lookup_path(self, path: Seq<u8>, key: Seq<u8>)
        requires
            self.inv(path),
            self.lookup(key, path.len() as int) is Some,
        ensures
            starts_with(key, path),
            self.is_inner() ==> starts_with(key, path + self.spec_prefix()),
        decreases self,
    {
        if self.is_inner() {
            let d = path.len() as int;
            let p = self.spec_prefix();
            let q = path + p;
            self.lemma_lookup_step(key, d);
            if d + p.len() >= key.len() {
                assert(key =~= q);
                assert(key.subrange(0, q.len() as int) =~= q);
            } else {
                let b = key[d + p.len()];
                self.lemma_inv_child(path, b);
                let c = self.child_at(b).unwrap();
                match self {
                    Node::Node4 { keys, num_children, children, .. } => {
                        lemma_find_key(keys@, num_children as int, b, 0);
                    },
                    Node::Node16 { keys, num_children, children, .. } => {
                        lemma_find_key(keys@, num_children as int, b, 0);
                    },
                    _ => {},
                }
                assert(decreases_to!(self => c)) by {
                    match self {
                        Node::Node4 { children, .. } => {
                            assert(decreases_to!(self => children));
                        },
                        Node::Node16 { children, .. } => {
                            assert(decreases_to!(self => children));
                        },
                        Node::Node48 { children, .. } => {
                            assert(decreases_to!(self => children));
                        },
                        Node::Node256 { children, .. } => {
                            assert(decreases_to!(self => children));
                        },
                        _ => {},
                    }
                }
                c.lemma_lookup_path(q + seq![b], key);
                assert(key.subrange(0, q.len() as int) =~= key.subrange(0, q.len() + 1int).subrange(0, q.len() as int));
                assert((q + seq![b]).subrange(0, q.len() as int) =~= q);
                assert(starts_with(key, q));
            }
            assert(starts_with(key, q));
            assert(key.subrange(0, d) =~= key.subrange(0, q.len() as int).subrange(0, d));
            assert(q.subrange(0, d) =~= path);
        }
    }
}


impl<V> Node<V> {
    /// Nodes with the same body have the same children and shape.
    pub proof fn lemma_same_body(self, other: Node<V>)
        requires
            self.same_body(other),
        ensures
            forall|b: u8| #[trigger] self.child_at(b) == other.child_at(b),
            forall|b: u8| #[trigger] self.child_pos(b) == other.child_pos(b),
            self.shape_ok() == other.shape_ok(),
            self.spec_num_children() == other.spec_num_children(),
            self.spec_node_type() == other.spec_node_type(),
            self.is_full() == other.is_full(),
    {
    }

    /// Different bytes lead to different child positions.
    pub proof fn lemma_child_pos_injective(self, b1: u8, b2: u8)
        requires
            self.shape_ok(),
            b1 != b2,
            self.child_pos(b1) is Some,
        ensures
            self.child_pos(b1) != self.child_pos(b2),
    {
        match self {
            Node::Node4 { keys, num_children, .. } => {
                lemma_find_key_distinct(keys@, num_children as int, b1);
                lemma_find_key_distinct(keys@, num_children as int, b2);
            },
            Node::Node16 { keys, num_children, .. } => {
                lemma_find_key_distinct(keys@, num_children as int, b1);
                lemma_find_key_distinct(keys@, num_children as int, b2);
            },
            _ => {},
        }
    }

    /// A node with no children has none under any byte.
    pub proof fn lemma_no_children(self)
        requires
            self.shape_ok(),
            self.spec_num_children() == 0,
        ensures
            forall|b: u8| #[trigger] self.child_at(b) is None,
    {
        assert forall|b: u8| #[trigger] self.child_at(b) is None by {
            match self {
                Node::Node48 { child_index, .. } => {
                    lemma_byte_set_finite(used48(child_index@));
                    if child_index@[b as int] != 255 {
                        assert(used48(child_index@).contains(b as int));
                    }
                },
                Node::Node256 { children, .. } => {
                    lemma_byte_set_finite(used256(children@));
                    if children@[b as int] is Some {
                        assert(used256(children@).contains(b as int));
                    }
                },
                _ => {},
            }
        }
    }

    /// Moving bytes between a node's prefix and the path above it changes neither its
    /// validity nor what a search that has followed the path finds below it.
    pub proof fn lemma_reprefix(self, other: Node<V>, pa: Seq<u8>, pb: Seq<u8>)
        requires
            self.is_inner(),
            self.shape_ok(),
            other.same_body(self),
            other.spec_leaf_value() == self.spec_leaf_value(),
            pa.len() <= pb.len(),
            pa + self.spec_prefix() == pb + other.spec_prefix(),
        ensures
            self.inv(pa) ==> other.inv(pb),
            forall|k: Seq<u8>|
                pb.len() <= k.len() && k.subrange(pa.len() as int, pb.len() as int) == pb.subrange(
                    pa.len() as int,
                    pb.len() as int,
                ) ==> #[trigger] other.lookup(k, pb.len() as int) == self.lookup(k, pa.len() as int),
    {
        let q = pa + self.spec_prefix();
        other.lemma_same_body(self);
        if self.inv(pa) {
            assert forall|b: u8| #[trigger]
                other.child_at(b) matches Some(c) ==> c.inv(pb + other.spec_prefix() + seq![b]) by {
                self.lemma_inv_child(pa, b);
            }
            other.lemma_inv_intro(pb);
        }
        assert forall|k: Seq<u8>|
            pb.len() <= k.len() && k.subrange(pa.len() as int, pb.len() as int) == pb.subrange(
                pa.len() as int,
                pb.len() as int,
            ) implies #[trigger] other.lookup(k, pb.len() as int) == self.lookup(k, pa.len() as int) by {
            self.lemma_lookup_step(k, pa.len() as int);
            other.lemma_lookup_step(k, pb.len() as int);
            let da = pa.len() as int;
            let db = pb.len() as int;
            let ap = self.spec_prefix();
            let bp = other.spec_prefix();
            assert(da + ap.len() == db + bp.len()) by {
                assert((pa + ap).len() == (pb + bp).len());
            }
            assert(ap =~= pb.subrange(da, db) + bp) by {
                assert forall|i: int| 0 <= i < ap.len() implies ap[i] == (pb.subrange(da, db) + bp)[i] by {
                    assert((pa + ap)[da + i] == (pb + bp)[da + i]);
                }
            }
            if k.len() >= da + ap.len() {
                assert(k.subrange(da, da + ap.len()) =~= k.subrange(da, db) + k.subrange(
                    db,
                    db + bp.len(),
                ));
                if k.subrange(db, db + bp.len()) == bp {
                    assert(k.subrange(da, da + ap.len()) =~= ap);
                }
                if k.subrange(da, da + ap.len()) == ap {
                    assert(k.subrange(db, db + bp.len()) =~= ap.subrange(db - da, ap.len() as int));
                    assert(bp =~= ap.subrange(db - da, ap.len() as int));
                }
            }
        }
    }
}

} // verus!
