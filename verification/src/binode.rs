//! Binary discriminator nodes shared by the height-optimized tries (`hot_final`,
//! `hot_inline`): 48-bit child pointers, the 14-byte node layout
//! `[bit:2][left:6][right:6]`, and the key walk that the nodes define.
use vstd::prelude::*;

verus! {

/// Bytes that one binary node takes in the node arena.
pub const BINODE_SIZE: usize = 14;

/// A child pointer of 48 bits: bit 47 marks a leaf, the lower 47 bits hold a leaf
/// index or offset, or a node offset; all 48 bits set is the null pointer.
#[derive(Clone, Copy, Debug, PartialEq, Eq, Structural)]
pub struct Ptr(pub u64);

/// 2^47 - 1: the largest leaf index or node offset a pointer can hold.
pub const PTR_MAX_OFFSET: u64 = 0x0000_7FFF_FFFF_FFFF;

/// The bit that marks a leaf pointer.
pub const PTR_LEAF_BIT: u64 = 0x0000_8000_0000_0000;

/// The mask of the offset part of a pointer.
pub const PTR_OFFSET_MASK: u64 = 0x0000_7FFF_FFFF_FFFF;

/// The value of the null pointer.
pub const PTR_NULL: u64 = 0x0000_FFFF_FFFF_FFFF;

impl Ptr {
    /// Whether this is the null pointer.
    pub open spec fn spec_null(self) -> bool {
        self.0 == PTR_NULL
    }

    /// Whether this points at a leaf.
    pub open spec fn spec_leaf(self) -> bool {
        !self.spec_null() && self.0 & PTR_LEAF_BIT != 0
    }

    /// Whether this points at a node.
    pub open spec fn spec_node(self) -> bool {
        !self.spec_null() && self.0 & PTR_LEAF_BIT == 0
    }

    /// The offset part.
    pub open spec fn spec_offset(self) -> u64 {
        self.0 & PTR_OFFSET_MASK
    }

    /// The null pointer.
    pub fn null() -> (r: Ptr)
        ensures
            r.spec_null(),
            r.0 == PTR_NULL,
    {
        Ptr(PTR_NULL)
    }

    /// A pointer to the leaf with index (or offset) `idx`.
    pub fn leaf(idx: u64) -> (r: Ptr)
        requires
            idx < PTR_MAX_OFFSET,
        ensures
            r.spec_leaf(),
            r.spec_offset() == idx,
            r.0 < 0x1_0000_0000_0000,
            r == leaf_ptr(idx),
    {
        let r = Ptr(idx | PTR_LEAF_BIT);
        proof {
            lemma_leaf_ptr(idx);
        }
        r
    }

    /// A pointer to the node at offset `off`.
    pub fn node(off: u64) -> (r: Ptr)
        requires
            off <= PTR_MAX_OFFSET,
        ensures
            r.spec_node(),
            r.spec_offset() == off,
            r.0 == off,
    {
        proof {
            lemma_node_ptr(off);
        }
        Ptr(off)
    }

    pub fn is_null(self) -> (r: bool)
        ensures
            r == self.spec_null(),
    {
        self.0 == PTR_NULL
    }

    pub fn is_leaf(self) -> (r: bool)
        ensures
            r == self.spec_leaf(),
    {
        !self.is_null() && (self.0 & PTR_LEAF_BIT != 0)
    }

    pub fn is_node(self) -> (r: bool)
        ensures
            r == self.spec_node(),
    {
        !self.is_null() && (self.0 & PTR_LEAF_BIT == 0)
    }

    pub fn leaf_idx(self) -> (r: u64)
        ensures
            r == self.spec_offset(),
    {
        self.0 & PTR_OFFSET_MASK
    }

    /// Alias of the offset part, for a leaf whose handle is an offset.
    pub fn leaf_off(self) -> (r: u64)
        ensures
            r == self.spec_offset(),
    {
        self.0 & PTR_OFFSET_MASK
    }

    pub fn node_off(self) -> (r: u64)
        ensures
            r == self.spec_offset(),
    {
        self.0 & PTR_OFFSET_MASK
    }

    /// The six low bytes, least significant first.
    pub fn to_bytes(self) -> (r: [u8; 6])
        ensures
            r@ == le48_bytes(self.0),
    {
        let v = self.0;
        let r = [
            v as u8,
            (v >> 8) as u8,
            (v >> 16) as u8,
            (v >> 24) as u8,
            (v >> 32) as u8,
            (v >> 40) as u8,
        ];
        assert(r@ =~= le48_bytes(v));
        r
    }

    /// The pointer whose six low bytes, least significant first, are `bytes`.
    pub fn from_bytes(bytes: [u8; 6]) -> (r: Ptr)
        ensures
            r.0 == le48(bytes@, 0),
            r.0 < 0x1_0000_0000_0000,
    {
        proof {
            reveal(le48);
        }
        let v = (bytes[0] as u64) | ((bytes[1] as u64) << 8) | ((bytes[2] as u64) << 16) | ((
        bytes[3] as u64) << 24) | ((bytes[4] as u64) << 32) | ((bytes[5] as u64) << 40);
        proof {
            lemma_le48_bound(bytes[0], bytes[1], bytes[2], bytes[3], bytes[4], bytes[5]);
        }
        Ptr(v)
    }
}

pub proof fn lemma_leaf_ptr(idx: u64)
    requires
        idx < PTR_MAX_OFFSET,
    ensures
        (idx | PTR_LEAF_BIT) != PTR_NULL,
        (idx | PTR_LEAF_BIT) & PTR_LEAF_BIT != 0,
        (idx | PTR_LEAF_BIT) & PTR_OFFSET_MASK == idx,
        (idx | PTR_LEAF_BIT) < 0x1_0000_0000_0000,
{
    assert((idx | 0x0000_8000_0000_0000u64) != 0x0000_FFFF_FFFF_FFFFu64 && (idx
        | 0x0000_8000_0000_0000u64) & 0x0000_8000_0000_0000u64 != 0 && (idx
        | 0x0000_8000_0000_0000u64) & 0x0000_7FFF_FFFF_FFFFu64 == idx && (idx
        | 0x0000_8000_0000_0000u64) < 0x1_0000_0000_0000u64) by (bit_vector)
        requires
            idx < 0x0000_7FFF_FFFF_FFFFu64,
    ;
}

pub proof fn lemma_node_ptr(off: u64)
    requires
        off <= PTR_MAX_OFFSET,
    ensures
        off != PTR_NULL,
        off & PTR_LEAF_BIT == 0,
        off & PTR_OFFSET_MASK == off,
{
    assert(off != 0x0000_FFFF_FFFF_FFFFu64 && off & 0x0000_8000_0000_0000u64 == 0 && off
        & 0x0000_7FFF_FFFF_FFFFu64 == off) by (bit_vector)
        requires
            off <= 0x0000_7FFF_FFFF_FFFFu64,
    ;
}

/// Leaf pointers of 48 bits with the same offset are the same pointer.
pub proof fn lemma_leaf_eq(p: Ptr, q: Ptr)
    requires
        p.spec_leaf(),
        q.spec_leaf(),
        p.0 < 0x1_0000_0000_0000,
        q.0 < 0x1_0000_0000_0000,
        p.spec_offset() == q.spec_offset(),
    ensures
        p == q,
{
    let a = p.0;
    let b = q.0;
    assert(a == b) by (bit_vector)
        requires
            a & 0x0000_8000_0000_0000u64 != 0,
            b & 0x0000_8000_0000_0000u64 != 0,
            a < 0x1_0000_0000_0000u64,
            b < 0x1_0000_0000_0000u64,
            a & 0x0000_7FFF_FFFF_FFFFu64 == b & 0x0000_7FFF_FFFF_FFFFu64,
    ;
}

/// The little-endian 16-bit value at `o`.
#[verifier::opaque]
pub open spec fn le16(s: Seq<u8>, o: int) -> u16 {
    ((s[o] as u16) | ((s[o + 1] as u16) << 8u16)) as u16
}

/// The little-endian 48-bit value at `o`.
#[verifier::opaque]
pub open spec fn le48(s: Seq<u8>, o: int) -> u64 {
    ((s[o] as u64) | ((s[o + 1] as u64) << 8u64) | ((s[o + 2] as u64) << 16u64) | ((s[o
        + 3] as u64) << 24u64) | ((s[o + 4] as u64) << 32u64) | ((s[o + 5] as u64) << 40u64)) as u64
}

/// The little-endian 32-bit value at `o`.
#[verifier::opaque]
pub open spec fn le32(s: Seq<u8>, o: int) -> u32 {
    ((s[o] as u32) | ((s[o + 1] as u32) << 8u32) | ((s[o + 2] as u32) << 16u32) | ((s[o
        + 3] as u32) << 24u32)) as u32
}

/// The pointer a 32-bit word stands for: all ones is null, the high bit marks a leaf index,
/// anything else is a node offset.
pub open spec fn ptr32(x: u32) -> Ptr {
    if x == 0xFFFF_FFFF {
        Ptr(PTR_NULL)
    } else if x >= 0x8000_0000 {
        leaf_ptr((x - 0x8000_0000) as u64)
    } else {
        Ptr(x as u64)
    }
}

/// The six low bytes of `v`, least significant first.
pub open spec fn le48_bytes(v: u64) -> Seq<u8> {
    seq![
        v as u8,
        (v >> 8u64) as u8,
        (v >> 16u64) as u8,
        (v >> 24u64) as u8,
        (v >> 32u64) as u8,
        (v >> 40u64) as u8,
    ]
}

/// Values read from equal bytes are equal.
pub proof fn lemma_le_same(s1: Seq<u8>, s2: Seq<u8>, o: int)
    requires
        0 <= o,
        o + 14 <= s1.len(),
        o + 14 <= s2.len(),
        forall|j: int| o <= j < o + 14 ==> s1[j] == s2[j],
    ensures
        le16(s1, o) == le16(s2, o),
        le48(s1, o + 2) == le48(s2, o + 2),
        le48(s1, o + 8) == le48(s2, o + 8),
        le16(s1, o + 2) == le16(s2, o + 2),
        le32(s1, o + 6) == le32(s2, o + 6),
        le32(s1, o + 10) == le32(s2, o + 10),
{
    reveal(le16);
    reveal(le48);
    reveal(le32);
    assert(s1[o] == s2[o] && s1[o + 1] == s2[o + 1]);
    assert(s1[o + 2] == s2[o + 2] && s1[o + 3] == s2[o + 3] && s1[o + 4] == s2[o + 4]);
    assert(s1[o + 5] == s2[o + 5] && s1[o + 6] == s2[o + 6] && s1[o + 7] == s2[o + 7]);
    assert(s1[o + 8] == s2[o + 8] && s1[o + 9] == s2[o + 9] && s1[o + 10] == s2[o + 10]);
    assert(s1[o + 11] == s2[o + 11] && s1[o + 12] == s2[o + 12] && s1[o + 13] == s2[o + 13]);
}

pub proof fn lemma_le48_bound(b0: u8, b1: u8, b2: u8, b3: u8, b4: u8, b5: u8)
    ensures
        ((b0 as u64) | ((b1 as u64) << 8u64) | ((b2 as u64) << 16u64) | ((b3 as u64) << 24u64) | ((
        b4 as u64) << 32u64) | ((b5 as u64) << 40u64)) < 0x1_0000_0000_0000u64,
{
    assert(((b0 as u64) | ((b1 as u64) << 8u64) | ((b2 as u64) << 16u64) | ((b3 as u64)
        << 24u64) | ((b4 as u64) << 32u64) | ((b5 as u64) << 40u64)) < 0x1_0000_0000_0000u64)
        by (bit_vector);
}

/// Six bytes written from a value below 2^48 read back as that value.
pub proof fn lemma_le48_roundtrip(v: u64)
    requires
        v < 0x1_0000_0000_0000,
    ensures
        le48(le48_bytes(v), 0) == v,
{
    reveal(le48);
    let s = le48_bytes(v);
    assert(((v as u8) as u64 | (((v >> 8u64) as u8) as u64) << 8u64 | (((v >> 16u64) as u8) as u64)
        << 16u64 | (((v >> 24u64) as u8) as u64) << 24u64 | (((v >> 32u64) as u8) as u64) << 32u64
        | (((v >> 40u64) as u8) as u64) << 40u64) == v) by (bit_vector)
        requires
            v < 0x1_0000_0000_0000u64,
    ;
}

/// Two bytes written from `v` read back as `v`.
pub proof fn lemma_le16_roundtrip(v: u16)
    ensures
        ((((v as u8) as u16) | ((((v >> 8u16) as u8) as u16) << 8u16)) as u16) == v,
{
    assert(((((v as u8) as u16) | ((((v >> 8u16) as u8) as u16) << 8u16)) as u16) == v)
        by (bit_vector);
}

/// The byte at `i`, or 0 past the end: keys compare as if padded with zero bytes.
pub open spec fn byte_at(key: Seq<u8>, i: int) -> u8 {
    if 0 <= i < key.len() {
        key[i]
    } else {
        0
    }
}

/// Bit `pos` of `key`, counting from the most significant bit of the first byte.
pub open spec fn bit_of(key: Seq<u8>, pos: int) -> u8 {
    (byte_at(key, pos / 8) >> ((7 - pos % 8) as u8)) & 1u8
}

/// A bit is 0 or 1.
pub proof fn lemma_bit_range(key: Seq<u8>, pos: int)
    ensures
        bit_of(key, pos) <= 1,
{
    let b = byte_at(key, pos / 8);
    let s = (7 - pos % 8) as u8;
    assert((b >> s) & 1u8 <= 1) by (bit_vector);
}

/// Whether `a` and `b` are equal once both are padded with zero bytes.
#[verifier::opaque]
pub open spec fn zero_pad_eq(a: Seq<u8>, b: Seq<u8>) -> bool {
    forall|i: int| #![trigger byte_at(a, i)] #![trigger byte_at(b, i)] byte_at(a, i) == byte_at(b, i)
}

/// Keys that differ in some bit differ.
pub proof fn lemma_bit_differs(a: Seq<u8>, b: Seq<u8>, pos: int)
    requires
        bit_of(a, pos) != bit_of(b, pos),
    ensures
        a != b,
        !zero_pad_eq(a, b),
{
    reveal(zero_pad_eq);    if zero_pad_eq(a, b) {
        assert(byte_at(a, pos / 8) == byte_at(b, pos / 8));
    }
}

/// Bit `pos` of `key`.
pub fn bit_at(key: &[u8], pos: u16) -> (r: u8)
    ensures
        r == bit_of(key@, pos as int),
        r <= 1,
{
    let byte = (pos / 8) as usize;
    let bit = 7 - (pos % 8);
    if byte < key.len() {
        let kb = key[byte];
        let r = (kb >> (bit as u8)) & 1;
        assert(r <= 1) by (bit_vector)
            requires
                r == (kb >> (bit as u8)) & 1u8,
        ;
        r
    } else {
        assert(bit_of(key@, pos as int) == 0) by {
            assert((0u8 >> ((7 - pos % 8) as u8)) & 1u8 == 0) by (bit_vector);
        }
        0
    }
}

/// The number of zero bits above the highest one bit of `x`: 8 for zero, else the position,
/// counted from the top, of a one bit.
pub(crate) fn leading_zeros_u8(x: u8) -> (r: u32)
    ensures
        r == vstd::std_specs::bits::u8_leading_zeros(x),
        r <= 8,
        r == 8 <==> x == 0,
        r < 8 ==> (x >> ((7 - r) as u8)) & 1u8 != 0u8,
{
    let r = x.leading_zeros();
    proof {
        vstd::std_specs::bits::axiom_u8_leading_zeros(x);
    }
    r
}

/// The leading zeros of `x` are the threshold count of `clz8`.
pub(crate) proof fn lemma_leading_zeros_clz8(x: u8)
    ensures
        vstd::std_specs::bits::u8_leading_zeros(x) == crate::hot::clz8(x),
{
    let r = vstd::std_specs::bits::u8_leading_zeros(x);
    vstd::std_specs::bits::axiom_u8_leading_zeros(x);
    vstd::arithmetic::power2::lemma2_to64();
    if x != 0 {
        let k: u8 = (7 - r) as u8;
        let y: u8 = x >> k;
        assert(y & 1u8 != 0u8);
        vstd::bits::lemma_u8_low_bits_mask_is_mod(y, 1);
        assert(vstd::bits::low_bits_mask(1) == 1);
        assert(y % 2 != 0);
        vstd::bits::lemma_u8_shr_is_div(x, k);
        vstd::arithmetic::power2::lemma_pow2_pos(k as nat);
        assert(x as nat / vstd::arithmetic::power2::pow2(k as nat) != 0);
        let p = vstd::arithmetic::power2::pow2(k as nat) as int;
        assert(x as int >= p) by (nonlinear_arith)
            requires
                x as int / p != 0,
                p > 0,
                x as int >= 0,
        ;
        if r > 0 {
            let k2: u8 = (8 - r) as u8;
            assert(x >> k2 == 0);
            vstd::bits::lemma_u8_shr_is_div(x, k2);
            vstd::arithmetic::power2::lemma_pow2_pos(k2 as nat);
            let p2 = vstd::arithmetic::power2::pow2(k2 as nat) as int;
            assert((x as int) < p2) by (nonlinear_arith)
                requires
                    x as int / p2 == 0,
                    p2 > 0,
                    x as int >= 0,
            ;
        }
    }
}

/// The position of a bit in which `a` and `b` differ, both padded with zero bytes; `None` when
/// they are equal so padded.
pub fn first_diff_bit(a: &[u8], b: &[u8]) -> (r: Option<u16>)
    requires
        a@.len() < 8192,
        b@.len() < 8192,
    ensures
        r is None <==> zero_pad_eq(a@, b@),
        r matches Some(d) ==> bit_of(a@, d as int) != bit_of(b@, d as int),
{
    reveal(zero_pad_eq);    let max = if a.len() > b.len() {
        a.len()
    } else {
        b.len()
    };
    let mut i: usize = 0;
    while i < max
        invariant
            i <= max,
            max == if a@.len() > b@.len() {
                a@.len()
            } else {
                b@.len()
            },
            max < 8192,
            forall|j: int| 0 <= j < i ==> byte_at(a@, j) == byte_at(b@, j),
        decreases max - i,
    {
        let ab = if i < a.len() {
            a[i]
        } else {
            0
        };
        let bb = if i < b.len() {
            b[i]
        } else {
            0
        };
        if ab != bb {
            let xor = ab ^ bb;
            let leading = leading_zeros_u8(xor);
            assert(xor != 0) by (bit_vector)
                requires
                    xor == ab ^ bb,
                    ab != bb,
            ;
            let d: u16 = i as u16 * 8 + leading as u16;
            proof {
                let sh = (7 - leading) as u8;
                assert(sh == 7 - d % 8);
                assert(d / 8 == i);
                assert((ab >> sh) & 1u8 != (bb >> sh) & 1u8) by (bit_vector)
                    requires
                        xor == ab ^ bb,
                        (xor >> sh) & 1u8 != 0u8,
                ;
                lemma_bit_differs(a@, b@, d as int);
            }
            return Some(d);
        }
        i += 1;
    }
    assert forall|j: int| #![auto] byte_at(a@, j) == byte_at(b@, j) by {
        if j >= max || j < 0 {
        }
    }
    None
}

/// A view of a binary-node arena as a graph: the node bytes, which leaf handles are live, and
/// a rank on pointers that grows along every edge (so that walks end).
pub struct BiTrie {
    pub nodes: Seq<u8>,
    pub leaf_live: spec_fn(u64) -> bool,
    pub rank: spec_fn(Ptr) -> nat,
    pub bound: nat,
    /// Nodes laid out as `[2][1][bit:2][0][1][left:4][right:4]` with 32-bit pointers, in
    /// place of `[bit:2][left:6][right:6]`.
    pub narrow: bool,
}

impl BiTrie {
    pub open spec fn node_at(self, o: int) -> bool {
        0 <= o && o % 14 == 0 && o + 14 <= self.nodes.len()
    }

    pub open spec fn valid(self, p: Ptr) -> bool {
        if p.spec_leaf() {
            p.0 < 0x1_0000_0000_0000 && (self.leaf_live)(p.spec_offset())
        } else if p.spec_null() {
            false
        } else {
            p.0 % 14 == 0 && p.0 + 14 <= self.nodes.len()
        }
    }

    pub open spec fn bit(self, o: int) -> u16 {
        if self.narrow {
            le16(self.nodes, o + 2)
        } else {
            le16(self.nodes, o)
        }
    }

    pub open spec fn left(self, o: int) -> Ptr {
        if self.narrow {
            ptr32(le32(self.nodes, o + 6))
        } else {
            Ptr(le48(self.nodes, o + 2))
        }
    }

    pub open spec fn right(self, o: int) -> Ptr {
        if self.narrow {
            ptr32(le32(self.nodes, o + 10))
        } else {
            Ptr(le48(self.nodes, o + 8))
        }
    }

    pub open spec fn edges_ok(self, o: int) -> bool {
        &&& self.valid(self.left(o))
        &&& self.valid(self.right(o))
        &&& (self.rank)(self.left(o)) > (self.rank)(Ptr(o as u64))
        &&& (self.rank)(self.right(o)) > (self.rank)(Ptr(o as u64))
    }

    #[verifier::opaque]
    pub open spec fn ok(self) -> bool {
        &&& self.nodes.len() % 14 == 0
        &&& self.nodes.len() <= PTR_MAX_OFFSET
        &&& forall|p: Ptr| #[trigger] self.valid(p) ==> (self.rank)(p) < self.bound
        &&& forall|o: int| #[trigger] self.node_at(o) ==> self.edges_ok(o)
    }

    /// The leaf that a walk from `p` by the bits of `key` ends at.
    pub open spec fn reach(self, p: Ptr, key: Seq<u8>) -> Ptr
        decreases self.bound - (self.rank)(p),
        when self.ok() && self.valid(p)
    {
        if p.spec_leaf() {
            p
        } else {
            let o = p.0 as int;
            proof {
                reveal(BiTrie::ok);
                assert(self.node_at(o));
                assert(Ptr(o as u64) == p);
            }
            if bit_of(key, self.bit(o) as int) == 0 {
                self.reach(self.left(o), key)
            } else {
                self.reach(self.right(o), key)
            }
        }
    }
}

/// The edges of every node of a well-formed arena are ordered.
pub proof fn lemma_ok_edges(t: BiTrie, o: int)
    requires
        t.ok(),
        t.node_at(o),
    ensures
        t.edges_ok(o),
{
    reveal(BiTrie::ok);
}

/// Every valid pointer of a well-formed arena ranks below the bound.
pub proof fn lemma_ok_rank(t: BiTrie, p: Ptr)
    requires
        t.ok(),
        t.valid(p),
    ensures
        (t.rank)(p) < t.bound,
{
    reveal(BiTrie::ok);
}

/// A node pointer that is valid points at a node.
pub proof fn lemma_valid_node(t: BiTrie, p: Ptr)
    requires
        t.ok(),
        t.valid(p),
        !p.spec_leaf(),
    ensures
        t.node_at(p.0 as int),
        p.0 < PTR_MAX_OFFSET,
        Ptr(p.0) == p,
        p.spec_offset() == p.0,
{
    reveal(BiTrie::ok);    lemma_node_ptr(p.0);
}

/// A walk ends at a live leaf.
pub proof fn lemma_reach_leaf(t: BiTrie, p: Ptr, key: Seq<u8>)
    requires
        t.ok(),
        t.valid(p),
    ensures
        t.reach(p, key).spec_leaf(),
        t.valid(t.reach(p, key)),
    decreases t.bound - (t.rank)(p),
{
    reveal(BiTrie::ok);    if !p.spec_leaf() {
        let o = p.0 as int;
        assert(t.node_at(o));
        assert(t.edges_ok(o));
        assert(Ptr(o as u64) == p);
        if bit_of(key, t.bit(o) as int) == 0 {
            lemma_reach_leaf(t, t.left(o), key);
        } else {
            lemma_reach_leaf(t, t.right(o), key);
        }
    }
}

/// Keys that are equal once padded with zero bytes walk to the same leaf.
pub proof fn lemma_reach_zero_pad(t: BiTrie, p: Ptr, a: Seq<u8>, b: Seq<u8>)
    requires
        t.ok(),
        t.valid(p),
        zero_pad_eq(a, b),
    ensures
        t.reach(p, a) == t.reach(p, b),
    decreases t.bound - (t.rank)(p),
{
    reveal(zero_pad_eq);    reveal(BiTrie::ok);    if !p.spec_leaf() {
        let o = p.0 as int;
        assert(t.node_at(o));
        assert(t.edges_ok(o));
        assert(Ptr(o as u64) == p);
        let pos = t.bit(o) as int;
        assert(byte_at(a, pos / 8) == byte_at(b, pos / 8));
        lemma_reach_zero_pad(t, t.left(o), a, b);
        lemma_reach_zero_pad(t, t.right(o), a, b);
    }
}

/// Whether `t1` holds everything `t0` holds, with more appended: the nodes of `t0` are a
/// prefix of those of `t1`, and every live leaf of `t0` is live in `t1`.
pub open spec fn extends(t0: BiTrie, t1: BiTrie) -> bool {
    &&& t0.nodes.len() <= t1.nodes.len()
    &&& t1.nodes.subrange(0, t0.nodes.len() as int) == t0.nodes
    &&& forall|i: u64| #[trigger] (t0.leaf_live)(i) ==> (t1.leaf_live)(i)
    &&& t1.narrow == t0.narrow
}

/// Appending nodes and leaves changes no walk from a pointer that was valid before.
pub proof fn lemma_reach_extend(t0: BiTrie, t1: BiTrie, p: Ptr, key: Seq<u8>)
    requires
        t0.ok(),
        t1.ok(),
        extends(t0, t1),
        t0.valid(p),
    ensures
        t1.valid(p),
        t1.reach(p, key) == t0.reach(p, key),
    decreases t0.bound - (t0.rank)(p),
{
    reveal(BiTrie::ok);    if !p.spec_leaf() {
        let o = p.0 as int;
        assert(t0.node_at(o));
        assert(t0.edges_ok(o));
        assert(Ptr(o as u64) == p);
        assert forall|j: int| o <= j < o + 14 implies t1.nodes[j] == t0.nodes[j] by {
            assert(t1.nodes.subrange(0, t0.nodes.len() as int)[j] == t1.nodes[j]);
        }
        lemma_le_same(t0.nodes, t1.nodes, o);
        lemma_reach_extend(t0, t1, t0.left(o), key);
        lemma_reach_extend(t0, t1, t0.right(o), key);
    } else {
        assert((t0.leaf_live)(p.spec_offset()));
    }
}

/// Whether `t1` differs from `t0` at most in the bytes of the node at `y`, with the same
/// live leaves and ranks.
pub open spec fn same_but_node(t0: BiTrie, t1: BiTrie, y: int) -> bool {
    &&& t0.nodes.len() == t1.nodes.len()
    &&& forall|j: int| 0 <= j < t0.nodes.len() && !(y <= j < y + 14) ==> t1.nodes[j] == t0.nodes[j]
    &&& t1.leaf_live == t0.leaf_live
    &&& t1.rank == t0.rank
    &&& t1.bound == t0.bound
    &&& t1.narrow == t0.narrow
}

/// Distinct node offsets name disjoint byte ranges.
pub proof fn lemma_distinct_nodes(o: int, y: int)
    requires
        o % 14 == 0,
        y % 14 == 0,
        o != y,
        o >= 0,
        y >= 0,
    ensures
        o + 14 <= y || y + 14 <= o,
{
}

/// Rewriting the node at `y` changes no walk from a pointer ranked above it.
pub proof fn lemma_reach_frame(t0: BiTrie, t1: BiTrie, y: int, p: Ptr, key: Seq<u8>)
    requires
        t0.ok(),
        t1.ok(),
        t0.node_at(y),
        same_but_node(t0, t1, y),
        t0.valid(p),
        (t0.rank)(p) > (t0.rank)(Ptr(y as u64)),
    ensures
        t1.valid(p),
        t1.reach(p, key) == t0.reach(p, key),
    decreases t0.bound - (t0.rank)(p),
{
    reveal(BiTrie::ok);    if !p.spec_leaf() {
        let o = p.0 as int;
        assert(t0.node_at(o));
        assert(t0.edges_ok(o));
        assert(Ptr(o as u64) == p);
        assert(o != y);
        lemma_distinct_nodes(o, y);
        lemma_le_same(t0.nodes, t1.nodes, o);
        lemma_reach_frame(t0, t1, y, t0.left(o), key);
        lemma_reach_frame(t0, t1, y, t0.right(o), key);
    }
}

/// How a walk after an insertion relates to the walk before it: it ends at the same leaf, or
/// at the new leaf `nl` where it used to end at the split leaf `l`, for a key other than the
/// one `l` holds.
pub open spec fn walk_moved(before: Ptr, after: Ptr, l: Ptr, nl: Ptr, lkey: Seq<u8>, key: Seq<
    u8,
>) -> bool {
    after == before || (after == nl && before == l && keys_differ(key, lkey))
}

/// Whether two keys differ; kept opaque so that it is unfolded only where needed.
#[verifier::opaque]
pub open spec fn keys_differ(a: Seq<u8>, b: Seq<u8>) -> bool {
    a != b
}

/// The requirements of a redirect of one child pointer of the node at `y` from the leaf `l`
/// to the node `np`, whose walks end at `l` or, for keys other than `lkey`, at `nl`.
pub open spec fn redirect(
    t0: BiTrie,
    t1: BiTrie,
    t2: BiTrie,
    y: int,
    np: Ptr,
    l: Ptr,
    nl: Ptr,
    lkey: Seq<u8>,
) -> bool {
    &&& t0.ok()
    &&& t1.ok()
    &&& t2.ok()
    &&& extends(t0, t1)
    &&& t0.node_at(y)
    &&& same_but_node(t1, t2, y)
    &&& t2.bit(y) == t0.bit(y)
    &&& ((t2.left(y) == t0.left(y) && t0.right(y) == l && t2.right(y) == np) || (t2.right(y)
        == t0.right(y) && t0.left(y) == l && t2.left(y) == np))
    &&& l.spec_leaf()
    &&& !t0.valid(np)
    &&& t1.valid(np)
    &&& (t1.rank)(np) > (t1.rank)(Ptr(y as u64))
    &&& (t1.rank)(Ptr(y as u64)) == (t0.rank)(Ptr(y as u64))
    &&& node_walks(t1, np, l, nl, lkey)
}

#[verifier::rlimit(40)]
proof fn lemma_redirect_at(
    t0: BiTrie,
    t1: BiTrie,
    t2: BiTrie,
    y: int,
    np: Ptr,
    l: Ptr,
    nl: Ptr,
    lkey: Seq<u8>,
    key: Seq<u8>,
)
    requires
        redirect(t0, t1, t2, y, np, l, nl, lkey),
    ensures
        t2.valid(Ptr(y as u64)),
        walk_moved(t0.reach(Ptr(y as u64), key), t2.reach(Ptr(y as u64), key), l, nl, lkey, key),
{
    reveal(BiTrie::ok);    let p = Ptr(y as u64);
    assert(t0.edges_ok(y));
    assert(t2.node_at(y));
    lemma_node_ptr(y as u64);
    assert(t2.valid(p));
    assert(t1.node_at(y));
    assert forall|j: int| y <= j < y + 14 implies t1.nodes[j] == t0.nodes[j] by {
        assert(t1.nodes.subrange(0, t0.nodes.len() as int)[j] == t1.nodes[j]);
    }
    lemma_le_same(t0.nodes, t1.nodes, y);
    assert(t1.edges_ok(y));
    assert(t2.edges_ok(y));
    let b = bit_of(key, t0.bit(y) as int);
    assert(t0.reach(p, key) == if b == 0 {
        t0.reach(t0.left(y), key)
    } else {
        t0.reach(t0.right(y), key)
    });
    assert(t2.reach(p, key) == if b == 0 {
        t2.reach(t2.left(y), key)
    } else {
        t2.reach(t2.right(y), key)
    });
    if t2.left(y) == np && b == 0 {
        lemma_reach_frame(t1, t2, y, np, key);
        lemma_node_walks_at(t1, np, l, nl, lkey, key);
    } else if t2.right(y) == np && b != 0 {
        lemma_reach_frame(t1, t2, y, np, key);
        lemma_node_walks_at(t1, np, l, nl, lkey, key);
    } else if b == 0 {
        lemma_reach_extend(t0, t1, t0.left(y), key);
        lemma_reach_frame(t1, t2, y, t0.left(y), key);
    } else {
        lemma_reach_extend(t0, t1, t0.right(y), key);
        lemma_reach_frame(t1, t2, y, t0.right(y), key);
    }
}

/// Rewriting one child pointer of the node at `y` from the leaf `l` to a node `np` whose walks
/// end at `l` or, for keys other than `lkey`, at `nl`, moves walks only that way.
pub proof fn lemma_reach_redirect(
    t0: BiTrie,
    t1: BiTrie,
    t2: BiTrie,
    y: int,
    np: Ptr,
    l: Ptr,
    nl: Ptr,
    lkey: Seq<u8>,
    p: Ptr,
    key: Seq<u8>,
)
    requires
        redirect(t0, t1, t2, y, np, l, nl, lkey),
        t0.valid(p),
    ensures
        t2.valid(p),
        walk_moved(t0.reach(p, key), t2.reach(p, key), l, nl, lkey, key),
    decreases t0.bound - (t0.rank)(p),
{
    reveal(BiTrie::ok);    if !p.spec_leaf() {
        let o = p.0 as int;
        assert(t0.node_at(o));
        assert(t0.edges_ok(o));
        assert(Ptr(o as u64) == p);
        if o == y {
            lemma_redirect_at(t0, t1, t2, y, np, l, nl, lkey, key);
        } else {
            lemma_distinct_nodes(o, y);
            assert forall|j: int| o <= j < o + 14 implies t2.nodes[j] == t0.nodes[j] by {
                assert(t1.nodes.subrange(0, t0.nodes.len() as int)[j] == t1.nodes[j]);
                assert(t2.nodes[j] == t1.nodes[j]);
            }
            lemma_le_same(t0.nodes, t2.nodes, o);
            assert(t2.node_at(o));
            assert(t2.valid(p));
            lemma_reach_redirect(t0, t1, t2, y, np, l, nl, lkey, t0.left(o), key);
            lemma_reach_redirect(t0, t1, t2, y, np, l, nl, lkey, t0.right(o), key);
        }
    } else {
        assert((t1.leaf_live)(p.spec_offset()));
        assert(t2.valid(p));
    }
}

/// Walk relations compose: a walk moved by a later step that moved nothing it did not move
/// already stays moved.
pub proof fn lemma_walk_moved_extend(
    t0: BiTrie,
    t1: BiTrie,
    p: Ptr,
    l: Ptr,
    nl: Ptr,
    lkey: Seq<u8>,
    key: Seq<u8>,
)
    requires
        t0.ok(),
        t1.ok(),
        extends(t0, t1),
        t0.valid(p),
    ensures
        walk_moved(t0.reach(p, key), t1.reach(p, key), l, nl, lkey, key),
{
    lemma_reach_extend(t0, t1, p, key);
}

} // verus!

verus! {

/// A pointer to the leaf with handle `idx`, as `Ptr::leaf` makes it.
pub open spec fn leaf_ptr(idx: u64) -> Ptr {
    Ptr(idx | PTR_LEAF_BIT)
}

/// Whether two byte strings are equal.
pub fn bytes_equal(a: &[u8], b: &[u8]) -> (r: bool)
    ensures
        r == (a@ == b@),
{
    if a.len() != b.len() {
        return false;
    }
    let mut i: usize = 0;
    while i < a.len()
        invariant
            a@.len() == b@.len(),
            i <= a@.len(),
            forall|j: int| 0 <= j < i ==> a@[j] == b@[j],
        decreases a@.len() - i,
    {
        if a[i] != b[i] {
            return false;
        }
        i += 1;
    }
    assert(a@ =~= b@);
    true
}

/// Rewriting the node at `y` so that its edges stay ordered keeps the arena well formed.
pub proof fn lemma_ok_after_write(t1: BiTrie, t2: BiTrie, y: int)
    requires
        t1.ok(),
        t1.node_at(y),
        same_but_node(t1, t2, y),
        t2.edges_ok(y),
    ensures
        t2.ok(),
{
    reveal(BiTrie::ok);    assert forall|p: Ptr| #[trigger] t2.valid(p) implies (t2.rank)(p) < t2.bound by {
        assert(t1.valid(p));
    }
    assert forall|o: int| #[trigger] t2.node_at(o) implies t2.edges_ok(o) by {
        if o != y {
            assert(t1.node_at(o));
            lemma_distinct_nodes(o, y);
            lemma_le_same(t1.nodes, t2.nodes, o);
            assert(t1.edges_ok(o));
        }
    }
}

} // verus!

verus! {

/// A new node `b` testing bit `diff`, with the leaf `l` (holding `lkey`) on the side of its bit
/// and the new leaf `nl` (holding `key`) on the other, appended to an arena: walks from `b`
/// end at `nl` for `key` and at `l` or `nl` otherwise, and no older walk moves.
pub proof fn lemma_split_node(
    t0: BiTrie,
    t2: BiTrie,
    l: Ptr,
    b: Ptr,
    nl: Ptr,
    diff: int,
    lkey: Seq<u8>,
    key: Seq<u8>,
)
    requires
        t0.ok(),
        t2.ok(),
        extends(t0, t2),
        t0.valid(l),
        l.spec_leaf(),
        nl.spec_leaf(),
        t2.valid(nl),
        t2.valid(b),
        !b.spec_leaf(),
        t2.bit(b.0 as int) == diff,
        bit_of(lkey, diff) != bit_of(key, diff),
        bit_of(lkey, diff) == 0 ==> t2.left(b.0 as int) == l && t2.right(b.0 as int) == nl,
        bit_of(lkey, diff) != 0 ==> t2.left(b.0 as int) == nl && t2.right(b.0 as int) == l,
    ensures
        t2.reach(b, key) == nl,
        node_walks(t2, b, l, nl, lkey),
        moved_walks(t0, t2, l, nl, lkey),
{
    reveal(node_walks);
    reveal(moved_walks);
    reveal(BiTrie::ok);
    lemma_valid_node(t2, b);
    assert(t2.node_at(b.0 as int));
    assert(t2.edges_ok(b.0 as int));
    lemma_bit_range(key, diff);
    lemma_bit_range(lkey, diff);
    assert(t2.valid(nl));
    assert(t2.reach(nl, key) == nl);
    assert(t2.reach(b, key) == if bit_of(key, diff) == 0 {
        t2.reach(t2.left(b.0 as int), key)
    } else {
        t2.reach(t2.right(b.0 as int), key)
    });
    assert(t2.valid(l)) by {
        lemma_reach_extend(t0, t2, l, key);
    }
    assert(t2.reach(b, key) == nl);
    assert forall|k: Seq<u8>| #[trigger] walk_moved(l, t2.reach(b, k), l, nl, lkey, k) by {
        lemma_bit_range(k, diff);
        if bit_of(k, diff) != bit_of(lkey, diff) {
            lemma_bit_differs(k, lkey, diff);
            reveal(keys_differ);
        }
        assert(t2.reach(l, k) == l);
        assert(t2.reach(nl, k) == nl);
    }
    lemma_moved_walks_extend(t0, t2, l, nl, lkey);
}

} // verus!

verus! {

/// Every walk from `np` ends at `l`, or at `nl` for a key other than `lkey`.
#[verifier::opaque]
pub open spec fn node_walks(t: BiTrie, np: Ptr, l: Ptr, nl: Ptr, lkey: Seq<u8>) -> bool {
    forall|k: Seq<u8>| #[trigger] walk_moved(l, t.reach(np, k), l, nl, lkey, k)
}

pub proof fn lemma_node_walks_at(t: BiTrie, np: Ptr, l: Ptr, nl: Ptr, lkey: Seq<u8>, k: Seq<u8>)
    requires
        node_walks(t, np, l, nl, lkey),
    ensures
        walk_moved(l, t.reach(np, k), l, nl, lkey, k),
{
    reveal(node_walks);
}

/// Every pointer valid in `t0` is valid in `t1`, and every walk from it moved at most from the
/// leaf `l` to the leaf `nl`, for keys other than `lkey`.
#[verifier::opaque]
pub open spec fn moved_walks(t0: BiTrie, t1: BiTrie, l: Ptr, nl: Ptr, lkey: Seq<u8>) -> bool {
    forall|q: Ptr, k: Seq<u8>|
        #![trigger t0.reach(q, k), t1.reach(q, k)]
        t0.valid(q) ==> t1.valid(q) && walk_moved(t0.reach(q, k), t1.reach(q, k), l, nl, lkey, k)
}

pub proof fn lemma_moved_walks_at(t0: BiTrie, t1: BiTrie, l: Ptr, nl: Ptr, lkey: Seq<u8>, q: Ptr, k: Seq<u8>)
    requires
        moved_walks(t0, t1, l, nl, lkey),
        t0.valid(q),
    ensures
        t1.valid(q),
        walk_moved(t0.reach(q, k), t1.reach(q, k), l, nl, lkey, k),
{
    reveal(moved_walks);
}

/// Appends move no walk.
pub proof fn lemma_moved_walks_extend(t0: BiTrie, t1: BiTrie, l: Ptr, nl: Ptr, lkey: Seq<u8>)
    requires
        t0.ok(),
        t1.ok(),
        extends(t0, t1),
    ensures
        moved_walks(t0, t1, l, nl, lkey),
{
    reveal(moved_walks);
    assert forall|q: Ptr, k: Seq<u8>| #![trigger t0.reach(q, k), t1.reach(q, k)] t0.valid(q) implies t1.valid(q)
        && walk_moved(t0.reach(q, k), t1.reach(q, k), l, nl, lkey, k) by {
        lemma_reach_extend(t0, t1, q, k);
    }
}

/// A redirect moves walks only from `l` to `nl`.
pub proof fn lemma_moved_walks_redirect(
    t0: BiTrie,
    t1: BiTrie,
    t2: BiTrie,
    y: int,
    np: Ptr,
    l: Ptr,
    nl: Ptr,
    lkey: Seq<u8>,
)
    requires
        redirect(t0, t1, t2, y, np, l, nl, lkey),
    ensures
        moved_walks(t0, t2, l, nl, lkey),
{
    reveal(moved_walks);
    assert forall|q: Ptr, k: Seq<u8>| #![trigger t0.reach(q, k), t2.reach(q, k)] t0.valid(q) implies t2.valid(q)
        && walk_moved(t0.reach(q, k), t2.reach(q, k), l, nl, lkey, k) by {
        lemma_reach_redirect(t0, t1, t2, y, np, l, nl, lkey, q, k);
    }
}

} // verus!
