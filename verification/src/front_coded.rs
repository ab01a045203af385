//! Front-coded (prefix-compressed) index over sorted keys.
//!
//! Keys are grouped in blocks of sixteen. The first key of a block is stored whole; each
//! later one as the length of the prefix it shares with the key before it (at most 256),
//! the length of the rest, and the rest. Lookups bisect on the first keys of the blocks and
//! then decode one block. Built once from keys in sorted order; immutable afterwards.
use vstd::prelude::*;
use crate::encoding::{
    common_prefix, decode_varint, encode_varint, has_varint, law_varint_roundtrip,
    lemma_common_prefix, lemma_varint_encoding_len, varint_encoding, varint_len, varint_value,
};
use crate::sorted::{compare_keys, key_lt, lemma_key_lt_total, lemma_key_lt_trans, KeyOrder};
use crate::vec_mem::vec_capacity;

verus! {

/// Keys per block.
pub const BLOCK_SIZE: usize = 16;

/// The longest shared prefix a key records.
pub const MAX_PREFIX: usize = 256;

/// `a` does not come after `b`.
pub open spec fn key_le(a: Seq<u8>, b: Seq<u8>) -> bool {
    !key_lt(b, a)
}

/// Keys in non-decreasing order.
pub open spec fn keys_sorted(ks: Seq<Seq<u8>>) -> bool {
    forall|i: int, j: int| 0 <= i < j < ks.len() ==> key_le(#[trigger] ks[i], #[trigger] ks[j])
}

/// The prefix a key records as shared with the key before it.
pub open spec fn shared_len(prev: Seq<u8>, k: Seq<u8>) -> nat {
    let c = common_prefix(prev, k);
    if c < 256 {
        c
    } else {
        256
    }
}

/// The encoding of entry `i` of a block.
pub open spec fn entry_enc(blk: Seq<Seq<u8>>, i: int) -> Seq<u8> {
    if i == 0 {
        varint_encoding(blk[0].len()) + blk[0]
    } else {
        let p = shared_len(blk[i - 1], blk[i]);
        varint_encoding(p) + varint_encoding((blk[i].len() - p) as nat) + blk[i].subrange(
            p as int,
            blk[i].len() as int,
        )
    }
}

/// The encoding of the first `n` entries of a block.
pub open spec fn block_enc(blk: Seq<Seq<u8>>, n: int) -> Seq<u8>
    decreases n,
{
    if n <= 0 {
        Seq::empty()
    } else {
        block_enc(blk, n - 1) + entry_enc(blk, n - 1)
    }
}

/// A block header: where its bytes are, how many keys it has, where its values start.
#[derive(Clone, Copy)]
struct FrontCodedBlock {
    data_offset: u32,
    data_len: u32,
    num_keys: u8,
    values_offset: u32,
}

/// The keys of block `b`.
pub open spec fn block_keys(ks: Seq<Seq<u8>>, b: int, n: int) -> Seq<Seq<u8>> {
    ks.subrange(16 * b, 16 * b + n)
}

/// Block `b` holds its keys of `ks`, sixteen to a block but the last, encoded at its place
/// in `data`, with its first key beside it.
spec fn block_ok(data: Seq<u8>, blk: FrontCodedBlock, first: Seq<u8>, ks: Seq<Seq<u8>>, b: int) -> bool {
    let n = blk.num_keys as int;
    &&& blk.values_offset == 16 * b
    &&& n == if ks.len() - 16 * b < 16 {
        ks.len() - 16 * b
    } else {
        16
    }
    &&& 1 <= n
    &&& blk.data_offset + blk.data_len <= data.len()
    &&& data.subrange(blk.data_offset as int, blk.data_offset + blk.data_len) == block_enc(
        block_keys(ks, b, n),
        n,
    )
    &&& first == ks[16 * b]
}

/// Every block is in order.
spec fn blocks_ok(
    data: Seq<u8>,
    blocks: Seq<FrontCodedBlock>,
    firsts: Seq<Vec<u8>>,
    ks: Seq<Seq<u8>>,
) -> bool {
    &&& firsts.len() == blocks.len()
    &&& forall|b: int|
        0 <= b < blocks.len() ==> block_ok(data, #[trigger] blocks[b], firsts[b]@, ks, b)
}

/// The encoding of entries `i` and after follows that of the entries before them.
pub proof fn lemma_block_enc_prefix(blk: Seq<Seq<u8>>, i: int, n: int)
    requires
        0 <= i <= n,
    ensures
        block_enc(blk, n).len() >= block_enc(blk, i).len(),
        block_enc(blk, n).subrange(0, block_enc(blk, i).len() as int) == block_enc(blk, i),
    decreases n - i,
{
    if i < n {
        lemma_block_enc_prefix(blk, i, n - 1);
        assert(block_enc(blk, n) == block_enc(blk, n - 1) + entry_enc(blk, n - 1));
        assert(block_enc(blk, n).subrange(0, block_enc(blk, i).len() as int) =~= block_enc(
            blk,
            n - 1,
        ).subrange(0, block_enc(blk, i).len() as int));
    } else {
        assert(block_enc(blk, n).subrange(0, block_enc(blk, n).len() as int) =~= block_enc(blk, n));
    }
}

/// The front-coded index.
pub struct FrontCodedIndex<V> {
    data: Vec<u8>,
    blocks: Vec<FrontCodedBlock>,
    values: Vec<V>,
    block_first_keys: Vec<Vec<u8>>,
    len: usize,
    keys: Ghost<Seq<Seq<u8>>>,
}

/// Builder for [`FrontCodedIndex`]; keys must come in sorted order.
pub struct FrontCodedBuilder<V> {
    data: Vec<u8>,
    blocks: Vec<FrontCodedBlock>,
    values: Vec<V>,
    block_first_keys: Vec<Vec<u8>>,
    current_block_keys: Vec<Vec<u8>>,
    current_block_values: Vec<V>,
    last_key: Vec<u8>,
    len: usize,
    keys: Ghost<Seq<Seq<u8>>>,
    vals: Ghost<Seq<V>>,
}

/// The bytes the keys of `cur` may take once encoded.
pub open spec fn pending_bytes(cur: Seq<Vec<u8>>, i: int) -> nat
    decreases i,
{
    if i <= 0 {
        0
    } else {
        pending_bytes(cur, i - 1) + cur[i - 1]@.len() + 20
    }
}

impl<V> FrontCodedBuilder<V> {
    /// The keys added so far.
    pub closed spec fn spec_keys(&self) -> Seq<Seq<u8>> {
        self.keys@
    }

    /// The values added so far.
    pub closed spec fn spec_values(&self) -> Seq<V> {
        self.vals@
    }

    /// The bytes the index may take once the current block is written.
    pub closed spec fn spec_bytes(&self) -> nat {
        self.data@.len() + pending_bytes(self.current_block_keys@, self.current_block_keys@.len() as int)
    }

    pub closed spec fn wf(&self) -> bool {
        let ks = self.keys@;
        let nb = self.blocks@.len();
        let f = (16 * nb) as int;
        &&& ks.len() == self.len
        &&& self.vals@.len() == self.len
        &&& keys_sorted(ks)
        &&& f + self.current_block_keys@.len() == self.len
        &&& self.current_block_keys@.len() < 16
        &&& self.current_block_values@.len() == self.current_block_keys@.len()
        &&& blocks_ok(self.data@, self.blocks@, self.block_first_keys@, ks.subrange(0, f))
        &&& forall|j: int|
            0 <= j < self.current_block_keys@.len() ==> (#[trigger] self.current_block_keys@[j])@
                == ks[f + j]
        &&& self.values@ == self.vals@.subrange(0, f)
        &&& self.current_block_values@ == self.vals@.subrange(f, self.len as int)
        &&& self.len > 0 ==> self.last_key@ == ks.last()
        &&& self.data@.len() <= u32::MAX
        &&& self.len <= u32::MAX
        &&& forall|j: int|
            #![auto]
            0 <= j < self.current_block_keys@.len() ==> self.current_block_keys@[j]@.len() <= u64::MAX
    }

    /// A new builder.
    pub fn new() -> (r: Self)
        ensures
            r.wf(),
            r.spec_keys().len() == 0,
            r.spec_bytes() == 0,
    {
        let r = FrontCodedBuilder {
            data: Vec::new(),
            blocks: Vec::new(),
            values: Vec::new(),
            block_first_keys: Vec::new(),
            current_block_keys: Vec::new(),
            current_block_values: Vec::new(),
            last_key: Vec::new(),
            len: 0,
            keys: Ghost(Seq::empty()),
            vals: Ghost(Seq::empty()),
        };
        assert(r.vals@.subrange(0, 0) =~= r.values@);
        assert(r.vals@.subrange(0, 0) =~= r.current_block_values@);
        r
    }
}


/// An entry takes at most twenty bytes more than its key.
pub proof fn lemma_entry_enc_len(blk: Seq<Seq<u8>>, i: int)
    requires
        0 <= i < blk.len(),
        blk[i].len() <= u64::MAX,
    ensures
        entry_enc(blk, i).len() <= blk[i].len() + 20,
{
    lemma_varint_encoding_len(blk[i].len());
    if i > 0 {
        let p = shared_len(blk[i - 1], blk[i]);
        lemma_common_prefix(blk[i - 1], blk[i]);
        lemma_varint_encoding_len(p);
        lemma_varint_encoding_len((blk[i].len() - p) as nat);
    }
}

/// A block's encoding takes at most twenty bytes per key more than its keys.
pub proof fn lemma_block_enc_len(v: Seq<Vec<u8>>, n: int)
    requires
        0 <= n <= v.len(),
        forall|j: int| #![auto] 0 <= j < v.len() ==> v[j]@.len() <= u64::MAX,
    ensures
        block_enc(views(v), n).len() <= pending_bytes(v, n),
    decreases n,
{
    if n > 0 {
        lemma_block_enc_len(v, n - 1);
        lemma_entry_enc_len(views(v), n - 1);
    }
}

/// Append the variable-length encoding of `value`.
fn write_varint(data: &mut Vec<u8>, value: usize)
    ensures
        final(data)@ == old(data)@ + varint_encoding(value as nat),
{
    let mut buf = [0u8; 10];
    proof {
        lemma_varint_encoding_len(value as nat);
    }
    let n = encode_varint(value as u64, &mut buf);
    let ghost start = data@;
    let mut i: usize = 0;
    while i < n
        invariant
            i <= n <= buf@.len(),
            n == varint_encoding(value as nat).len(),
            buf@.subrange(0, n as int) == varint_encoding(value as nat),
            data@ == start + buf@.subrange(0, i as int),
        decreases n - i,
    {
        data.push(buf[i]);
        assert(data@ =~= start + buf@.subrange(0, i + 1));
        i += 1;
    }
}

/// Append `bytes[from..to]`.
fn push_range(data: &mut Vec<u8>, bytes: &[u8], from: usize, to: usize)
    requires
        from <= to <= bytes@.len(),
    ensures
        final(data)@ == old(data)@ + bytes@.subrange(from as int, to as int),
{
    let ghost start = data@;
    let mut i = from;
    while i < to
        invariant
            from <= i <= to <= bytes@.len(),
            data@ == start + bytes@.subrange(from as int, i as int),
        decreases to - i,
    {
        data.push(bytes[i]);
        assert(data@ =~= start + bytes@.subrange(from as int, i + 1));
        i += 1;
    }
}

/// The views of a vector of keys.
pub open spec fn views(v: Seq<Vec<u8>>) -> Seq<Seq<u8>> {
    Seq::new(v.len(), |i: int| v[i]@)
}

/// The length of the prefix `prev` and `k` share, at most 256.
fn shared_prefix_len(prev: &[u8], k: &[u8]) -> (r: usize)
    ensures
        r == shared_len(prev@, k@),
{
    let mut i: usize = 0;
    while i < prev.len() && i < k.len() && prev[i] == k[i]
        invariant
            i <= prev@.len(),
            i <= k@.len(),
            forall|j: int| 0 <= j < i ==> prev@[j] == k@[j],
        decreases prev@.len() - i,
    {
        i += 1;
    }
    proof {
        crate::encoding::lemma_common_prefix_unique(prev@, k@, i as int);
    }
    if i < 256 {
        i
    } else {
        256
    }
}

impl<V> FrontCodedBuilder<V> {
    /// Encode the current block, if any, and move its values over.
    fn flush_block(&mut self)
        requires
            old(self).current_block_keys@.len() <= 16,
            old(self).current_block_values@.len() == old(self).current_block_keys@.len(),
            old(self).data@.len() + pending_bytes(
                old(self).current_block_keys@,
                old(self).current_block_keys@.len() as int,
            ) <= u32::MAX,
            old(self).values@.len() <= u32::MAX,
            forall|j: int|
                #![auto]
                0 <= j < old(self).current_block_keys@.len() ==> old(self).current_block_keys@[j]@.len() <= u64::MAX,
        ensures
            final(self).current_block_keys@.len() == 0,
            final(self).current_block_values@.len() == 0,
            final(self).keys == old(self).keys,
            final(self).vals == old(self).vals,
            final(self).len == old(self).len,
            final(self).last_key == old(self).last_key,
            final(self).values@ == old(self).values@ + old(self).current_block_values@,
            old(self).current_block_keys@.len() == 0 ==> final(self).data == old(self).data
                && final(self).blocks == old(self).blocks && final(self).block_first_keys
                == old(self).block_first_keys,
            old(self).current_block_keys@.len() > 0 ==> {
                let cur = views(old(self).current_block_keys@);
                let n = cur.len() as int;
                let blk = final(self).blocks@.last();
                &&& final(self).data@ == old(self).data@ + block_enc(cur, n)
                &&& final(self).blocks@ == old(self).blocks@.push(blk)
                &&& final(self).block_first_keys@.len() == old(self).block_first_keys@.len() + 1
                &&& forall|b: int|
                    #![auto]
                    0 <= b < old(self).block_first_keys@.len() ==> final(self).block_first_keys@[b] == old(self).block_first_keys@[b]
                &&& final(self).block_first_keys@.last()@ == cur[0]
                &&& blk.data_offset == old(self).data@.len()
                &&& blk.data_len == block_enc(cur, n).len()
                &&& blk.num_keys == n
                &&& blk.values_offset == old(self).values@.len()
            },
    {
        if self.current_block_keys.len() == 0 {
            return;
        }
        let ghost cur = views(self.current_block_keys@);
        let ghost d0 = self.data@;
        let data_offset = self.data.len() as u32;
        let values_offset = self.values.len() as u32;
        let cnt = self.current_block_keys.len();
        let num_keys = cnt as u8;
        let first = crate::art::node::copy_bytes(self.current_block_keys[0].as_slice(), 0, self.current_block_keys[0].len());
        assert(first@ =~= cur[0]);
        self.block_first_keys.push(first);
        proof {
            assert(pending_bytes(self.current_block_keys@, cnt as int) >= 0);
        }
        write_varint(&mut self.data, self.current_block_keys[0].len());
        push_range(&mut self.data, self.current_block_keys[0].as_slice(), 0, self.current_block_keys[0].len());
        assert(self.data@ =~= d0 + block_enc(cur, 1)) by {
            assert(cur[0].subrange(0, cur[0].len() as int) =~= cur[0]);
            assert(block_enc(cur, 0) =~= Seq::<u8>::empty());
        }
        let mut i: usize = 1;
        while i < cnt
            invariant
                1 <= i <= cnt <= 16,
                cnt == self.current_block_keys@.len(),
                cur == views(self.current_block_keys@),
                self.data@ == d0 + block_enc(cur, i as int),
                self.keys == old(self).keys,
                self.vals == old(self).vals,
                self.len == old(self).len,
                self.last_key == old(self).last_key,
                self.values == old(self).values,
                self.blocks == old(self).blocks,
                self.current_block_values == old(self).current_block_values,
                self.current_block_keys == old(self).current_block_keys,
                d0 == old(self).data@,
                self.block_first_keys@.len() == old(self).block_first_keys@.len() + 1,
                forall|b: int|
                    #![auto]
                    0 <= b < old(self).block_first_keys@.len() ==> self.block_first_keys@[b] == old(self).block_first_keys@[b],
                self.block_first_keys@.last()@ == cur[0],
                cur.len() == cnt,
            decreases cnt - i,
        {
            let prefix_len = shared_prefix_len(
                self.current_block_keys[i - 1].as_slice(),
                self.current_block_keys[i].as_slice(),
            );
            proof {
                lemma_common_prefix(cur[i - 1], cur[i as int]);
            }
            let suffix_len = self.current_block_keys[i].len() - prefix_len;
            let ghost before = self.data@;
            write_varint(&mut self.data, prefix_len);
            write_varint(&mut self.data, suffix_len);
            push_range(
                &mut self.data,
                self.current_block_keys[i].as_slice(),
                prefix_len,
                self.current_block_keys[i].len(),
            );
            assert(self.data@ =~= d0 + block_enc(cur, i + 1));
            i += 1;
        }
        proof {
            lemma_block_enc_len(self.current_block_keys@, cnt as int);
        }
        assert(self.data@.len() <= u32::MAX);
        let data_len = (self.data.len() - data_offset as usize) as u32;
        self.values.append(&mut self.current_block_values);
        self.blocks.push(FrontCodedBlock { data_offset, data_len, num_keys, values_offset });
        self.current_block_keys.clear();
    }
}


/// `a <= b` and `b <= c` give `a <= c`.
pub proof fn lemma_key_le_trans(a: Seq<u8>, b: Seq<u8>, c: Seq<u8>)
    requires
        key_le(a, b),
        key_le(b, c),
    ensures
        key_le(a, c),
{
    lemma_key_lt_total(a, b);
    if key_lt(c, a) {
        if a != b {
            lemma_key_lt_trans(c, a, b);
        }
    }
}

/// Blocks stay in order when keys are added after the ones they hold.
proof fn lemma_blocks_extend(
    data: Seq<u8>,
    data2: Seq<u8>,
    blocks: Seq<FrontCodedBlock>,
    firsts: Seq<Vec<u8>>,
    ks: Seq<Seq<u8>>,
    ks2: Seq<Seq<u8>>,
)
    requires
        blocks_ok(data, blocks, firsts, ks),
        ks.len() == 16 * blocks.len(),
        ks.len() <= ks2.len(),
        ks2.subrange(0, ks.len() as int) == ks,
        data.len() <= data2.len(),
        data2.subrange(0, data.len() as int) == data,
    ensures
        forall|b: int|
            0 <= b < blocks.len() ==> block_ok(data2, #[trigger] blocks[b], firsts[b]@, ks2, b),
{
    assert forall|b: int| 0 <= b < blocks.len() implies block_ok(
        data2,
        #[trigger] blocks[b],
        firsts[b]@,
        ks2,
        b,
    ) by {
        assert(block_ok(data, blocks[b], firsts[b]@, ks, b));
        let blk = blocks[b];
        let n = blk.num_keys as int;
        assert(block_keys(ks2, b, n) =~= block_keys(ks, b, n)) by {
            assert forall|j: int| 0 <= j < n implies block_keys(ks2, b, n)[j] == block_keys(ks, b, n)[j] by {
                assert(ks2.subrange(0, ks.len() as int)[16 * b + j] == ks2[16 * b + j]);
            }
        }
        assert(data2.subrange(blk.data_offset as int, blk.data_offset + blk.data_len) =~= data.subrange(
            blk.data_offset as int,
            blk.data_offset + blk.data_len,
        )) by {
            assert forall|j: int| blk.data_offset <= j < blk.data_offset + blk.data_len implies #[trigger] data2[j]
                == data[j] by {
                assert(data2.subrange(0, data.len() as int)[j] == data2[j]);
            }
        }
        assert(ks2.subrange(0, ks.len() as int)[16 * b] == ks2[16 * b]);
    }
}

impl<V> FrontCodedBuilder<V> {
    /// Add a key-value pair. Keys must come in sorted order.
    pub fn add(&mut self, key: &[u8], value: V)
        requires
            old(self).wf(),
            old(self).spec_keys().len() == 0 || key_le(old(self).spec_keys().last(), key@),
            old(self).spec_bytes() + key@.len() + 20 <= u32::MAX,
            old(self).spec_keys().len() < u32::MAX,
        ensures
            final(self).wf(),
            final(self).spec_keys() == old(self).spec_keys().push(key@),
            final(self).spec_values() == old(self).spec_values().push(value),
            final(self).spec_bytes() <= old(self).spec_bytes() + key@.len() + 20,
    {
        let ghost k0 = self.keys@;
        let ghost f = 16 * self.blocks@.len();
        let k = crate::art::node::copy_bytes(key, 0, key.len());
        assert(k@ =~= key@);
        let ghost cur0 = self.current_block_keys@;
        self.current_block_keys.push(k);
        self.current_block_values.push(value);
        self.last_key = crate::art::node::copy_bytes(key, 0, key.len());
        assert(self.last_key@ =~= key@);
        self.len = self.len + 1;
        self.keys = Ghost(self.keys@.push(key@));
        self.vals = Ghost(self.vals@.push(value));
        proof {
            let ks = self.keys@;
            assert forall|i: int, j: int| 0 <= i < j < ks.len() implies key_le(#[trigger] ks[i], #[trigger] ks[j]) by {
                if j == ks.len() - 1 && i < j {
                    if i < k0.len() - 1 {
                        lemma_key_le_trans(ks[i], k0.last(), key@);
                    }
                }
            }
            assert(ks.subrange(0, f as int) =~= k0.subrange(0, f as int));
            assert(self.current_block_values@ =~= self.vals@.subrange(f as int, self.len as int));
            assert(pending_bytes(self.current_block_keys@, cur0.len() as int) == pending_bytes(cur0, cur0.len() as int)) by {
                lemma_pending_prefix(cur0, self.current_block_keys@, cur0.len() as int);
            }
        }
        if self.current_block_keys.len() >= 16 {
            let ghost before = *self;
            proof {
                lemma_block_enc_len(self.current_block_keys@, 16);
            }
            self.flush_block();
            proof {
                let ks = self.keys@;
                let f2 = f + 16;
                let blk = self.blocks@.last();
                let cur = views(before.current_block_keys@);
                assert(views(before.current_block_keys@) =~= ks.subrange(f as int, f2 as int));
                assert(ks.subrange(0, f2 as int).subrange(0, f as int) =~= ks.subrange(0, f as int));
                assert(self.data@.subrange(0, before.data@.len() as int) =~= before.data@);
                lemma_blocks_extend(
                    before.data@,
                    self.data@,
                    before.blocks@,
                    before.block_first_keys@,
                    ks.subrange(0, f as int),
                    ks.subrange(0, f2 as int),
                );
                assert(block_keys(ks.subrange(0, f2 as int), before.blocks@.len() as int, 16) =~= cur);
                assert(self.data@.subrange(blk.data_offset as int, blk.data_offset + blk.data_len) =~= block_enc(cur, 16));
                assert forall|b: int|
                    0 <= b < self.blocks@.len() implies block_ok(
                    self.data@,
                    #[trigger] self.blocks@[b],
                    self.block_first_keys@[b]@,
                    ks.subrange(0, f2 as int),
                    b,
                ) by {
                    if b < before.blocks@.len() {
                        assert(self.blocks@[b] == before.blocks@[b]);
                        assert(self.block_first_keys@[b] == before.block_first_keys@[b]);
                    }
                }
                assert(self.values@ =~= self.vals@.subrange(0, f2 as int));
                assert(self.current_block_values@ =~= self.vals@.subrange(f2 as int, self.len as int));
            }
        }
        proof {
            let ks = self.keys@;
            let nb = self.blocks@.len();
            let ff = (16 * nb) as int;
            assert(ks.len() == self.len);
            assert(self.vals@.len() == self.len);
            assert(keys_sorted(ks));
            assert(ff + self.current_block_keys@.len() == self.len);
            assert(self.current_block_keys@.len() < 16);
            assert(self.current_block_values@.len() == self.current_block_keys@.len());
            assert(blocks_ok(self.data@, self.blocks@, self.block_first_keys@, ks.subrange(0, ff)));
            assert(forall|j: int|
                0 <= j < self.current_block_keys@.len() ==> (#[trigger] self.current_block_keys@[j])@
                    == ks[ff + j]);
            assert(self.values@ == self.vals@.subrange(0, ff));
            assert(self.current_block_values@ == self.vals@.subrange(ff, self.len as int));
            assert(self.len > 0 ==> self.last_key@ == ks.last());
            assert(self.data@.len() <= u32::MAX);
            assert(self.len <= u32::MAX);
        }
    }

    /// Encode the last block and return the index.
    pub fn finish(self) -> (r: FrontCodedIndex<V>)
        requires
            self.wf(),
            self.spec_bytes() <= u32::MAX,
        ensures
            r.wf(),
            r.spec_keys() == self.spec_keys(),
            r.spec_values() == self.spec_values(),
    {
        let mut s = self;
        let ghost before = s;
        let ghost ks = s.keys@;
        let ghost f = 16 * s.blocks@.len();
        proof {
            lemma_block_enc_len(s.current_block_keys@, s.current_block_keys@.len() as int);
        }
        s.flush_block();
        proof {
            if before.current_block_keys@.len() > 0 {
                let cur = views(before.current_block_keys@);
                let n = cur.len() as int;
                let blk = s.blocks@.last();
                assert(cur =~= ks.subrange(f as int, ks.len() as int));
                assert(ks.subrange(0, ks.len() as int) =~= ks);
                assert(s.data@.subrange(0, before.data@.len() as int) =~= before.data@);
                lemma_blocks_extend(
                    before.data@,
                    s.data@,
                    before.blocks@,
                    before.block_first_keys@,
                    ks.subrange(0, f as int),
                    ks,
                );
                assert(block_keys(ks, before.blocks@.len() as int, n) =~= cur);
                assert(s.data@.subrange(blk.data_offset as int, blk.data_offset + blk.data_len) =~= block_enc(cur, n));
                assert forall|b: int|
                    0 <= b < s.blocks@.len() implies block_ok(
                    s.data@,
                    #[trigger] s.blocks@[b],
                    s.block_first_keys@[b]@,
                    ks,
                    b,
                ) by {
                    if b < before.blocks@.len() {
                        assert(s.blocks@[b] == before.blocks@[b]);
                        assert(s.block_first_keys@[b] == before.block_first_keys@[b]);
                    }
                }
            } else {
                assert(ks.subrange(0, f as int) =~= ks);
            }
            assert(s.values@ =~= s.vals@);
        }
        FrontCodedIndex {
            data: s.data,
            blocks: s.blocks,
            values: s.values,
            block_first_keys: s.block_first_keys,
            len: s.len,
            keys: s.keys,
        }
    }
}

proof fn lemma_pending_prefix(a: Seq<Vec<u8>>, b: Seq<Vec<u8>>, n: int)
    requires
        0 <= n <= a.len(),
        n <= b.len(),
        forall|j: int| 0 <= j < n ==> a[j] == b[j],
    ensures
        pending_bytes(a, n) == pending_bytes(b, n),
    decreases n,
{
    if n > 0 {
        lemma_pending_prefix(a, b, n - 1);
    }
}

impl<V> FrontCodedIndex<V> {
    /// The keys, in order.
    pub closed spec fn spec_keys(&self) -> Seq<Seq<u8>> {
        self.keys@
    }

    /// The values, in key order.
    pub closed spec fn spec_values(&self) -> Seq<V> {
        self.values@
    }

    /// The number of bytes the coded keys take.
    pub closed spec fn spec_data_len(&self) -> nat {
        self.data@.len()
    }

    pub closed spec fn wf(&self) -> bool {
        let ks = self.keys@;
        let nb = self.blocks@.len();
        &&& ks.len() == self.len
        &&& self.values@.len() == self.len
        &&& keys_sorted(ks)
        &&& blocks_ok(self.data@, self.blocks@, self.block_first_keys@, ks)
        &&& 16 * nb >= self.len
        &&& nb > 0 ==> 16 * (nb - 1) < self.len
        &&& self.data@.len() <= u32::MAX
    }
}


/// `a < b` and `b <= c` give `a < c`.
pub proof fn lemma_key_lt_le(a: Seq<u8>, b: Seq<u8>, c: Seq<u8>)
    requires
        key_lt(a, b),
        key_le(b, c),
    ensures
        key_lt(a, c),
{
    lemma_key_lt_total(b, c);
    if b != c {
        lemma_key_lt_trans(a, b, c);
    }
}

/// Entry `i` sits in the encoding of the first `n` entries right after the entries before it.
proof fn lemma_entry_at(blk: Seq<Seq<u8>>, i: int, n: int)
    requires
        0 <= i < n,
    ensures
        block_enc(blk, i + 1) == block_enc(blk, i) + entry_enc(blk, i),
        block_enc(blk, i + 1).len() <= block_enc(blk, n).len(),
        block_enc(blk, n).subrange(
            block_enc(blk, i).len() as int,
            block_enc(blk, i + 1).len() as int,
        ) == entry_enc(blk, i),
{
    lemma_block_enc_prefix(blk, i + 1, n);
    let a = block_enc(blk, i).len() as int;
    let b = block_enc(blk, i + 1).len() as int;
    assert(block_enc(blk, n).subrange(a, b) =~= block_enc(blk, n).subrange(0, b).subrange(a, b));
    assert(block_enc(blk, i + 1).subrange(a, b) =~= entry_enc(blk, i));
}

/// Read a whole key stored as its length and its bytes at the start of `rest`.
fn decode_whole(rest: &[u8], Ghost(k): Ghost<Seq<u8>>, Ghost(tail): Ghost<Seq<u8>>) -> (r: (
    Vec<u8>,
    usize,
))
    requires
        rest@ == varint_encoding(k.len()) + k + tail,
    ensures
        r.0@ == k,
        r.1 == varint_encoding(k.len()).len() + k.len(),
{
    let rl = rest.len();
    assert(k.len() <= rest@.len());
    assert(rest@ =~= varint_encoding(k.len()) + (k + tail));
    assert((k.len() as u64) as nat == k.len());
    proof {
        law_varint_roundtrip(k.len() as u64, k + tail);
    }
    let (v, c) = decode_varint(rest);
    let len = v as usize;
    assert(rest@.subrange(c as int, c + len) =~= k);
    let key = crate::art::node::copy_bytes(rest, c, c + len);
    (key, c + len)
}

/// Read a key stored as the length of the prefix it shares with `prev`, the length of the
/// rest, and the rest, at the start of `rest`.
fn decode_shared(
    rest: &[u8],
    prev: &[u8],
    Ghost(k): Ghost<Seq<u8>>,
    Ghost(p): Ghost<nat>,
    Ghost(tail): Ghost<Seq<u8>>,
) -> (r: (Vec<u8>, usize))
    requires
        p <= prev@.len(),
        p <= k.len(),
        forall|j: int| 0 <= j < p ==> prev@[j] == k[j],
        rest@ == varint_encoding(p) + varint_encoding((k.len() - p) as nat) + k.subrange(
            p as int,
            k.len() as int,
        ) + tail,
    ensures
        r.0@ == k,
        r.1 == varint_encoding(p).len() + varint_encoding((k.len() - p) as nat).len() + k.len()
            - p,
{
    let ghost s = (k.len() - p) as nat;
    let ghost suffix = k.subrange(p as int, k.len() as int);
    let rl = rest.len();
    let pl = prev.len();
    assert(s <= rest@.len());
    assert((p as u64) as nat == p);
    assert((s as u64) as nat == s);
    assert(rest@ =~= varint_encoding(p) + (varint_encoding(s) + suffix + tail));
    proof {
        law_varint_roundtrip(p as u64, varint_encoding(s) + suffix + tail);
    }
    let (pv, c1) = decode_varint(rest);
    let rest2 = vstd::slice::slice_subrange(rest, c1, rest.len());
    assert(rest2@ =~= varint_encoding(s) + (suffix + tail));
    proof {
        law_varint_roundtrip(s as u64, suffix + tail);
    }
    let (sv, c2) = decode_varint(rest2);
    let plen = pv as usize;
    let slen = sv as usize;
    let mut key = crate::art::node::copy_bytes(prev, 0, plen);
    assert(rest2@.subrange(c2 as int, c2 + slen) =~= suffix);
    push_range(&mut key, rest2, c2, c2 + slen);
    assert(key@ =~= k);
    (key, c1 + c2 + slen)
}

/// Decode entry `idx` of a block whose first `n` entries `data` holds, given the key before it.
fn decode_entry(
    data: &[u8],
    pos: usize,
    prev: &[u8],
    idx: usize,
    Ghost(blk): Ghost<Seq<Seq<u8>>>,
    Ghost(n): Ghost<int>,
) -> (r: (Vec<u8>, usize))
    requires
        idx < n <= blk.len(),
        data@ == block_enc(blk, n),
        pos == block_enc(blk, idx as int).len(),
        idx > 0 ==> prev@ == blk[idx - 1],
    ensures
        r.0@ == blk[idx as int],
        r.1 == block_enc(blk, idx + 1).len(),
{
    let ghost i = idx as int;
    let ghost e = entry_enc(blk, i);
    proof {
        lemma_entry_at(blk, i, n);
    }
    let rest = vstd::slice::slice_subrange(data, pos, data.len());
    let ghost tail = rest@.subrange(e.len() as int, rest@.len() as int);
    assert(rest@ =~= e + tail) by {
        assert forall|j: int| 0 <= j < e.len() implies rest@[j] == e[j] by {
            assert(data@.subrange(pos as int, block_enc(blk, i + 1).len() as int)[j] == data@[pos
                + j]);
        }
    }
    if idx == 0 {
        let (key, c) = decode_whole(rest, Ghost(blk[0]), Ghost(tail));
        (key, pos + c)
    } else {
        let ghost k = blk[i];
        let ghost p = shared_len(blk[i - 1], k);
        proof {
            lemma_common_prefix(blk[i - 1], k);
        }
        let (key, c) = decode_shared(rest, prev, Ghost(k), Ghost(p), Ghost(tail));
        (key, pos + c)
    }
}

impl<V> FrontCodedIndex<V> {
    /// The number of keys.
    pub fn len(&self) -> (r: usize)
        requires
            self.wf(),
        ensures
            r == self.spec_keys().len(),
    {
        self.len
    }

    /// Whether there are no keys.
    pub fn is_empty(&self) -> (r: bool)
        requires
            self.wf(),
        ensures
            r == (self.spec_keys().len() == 0),
    {
        self.len == 0
    }

    /// The block that holds `key` if any does: the last whose first key is at most `key`, or
    /// the first block.
    fn find_block(&self, key: &[u8]) -> (r: usize)
        requires
            self.wf(),
            self.blocks@.len() > 0,
        ensures
            r < self.blocks@.len(),
            key_le(self.keys@[16 * r], key@) || (r == 0 && key_lt(key@, self.keys@[0])),
            r + 1 < self.blocks@.len() ==> key_lt(key@, self.keys@[16 * (r + 1)]),
    {
        let ghost ks = self.keys@;
        let nb = self.block_first_keys.len();
        let mut lo: usize = 0;
        let mut hi: usize = nb;
        while lo < hi
            invariant
                self.wf(),
                ks == self.keys@,
                nb == self.blocks@.len(),
                nb == self.block_first_keys@.len(),
                lo <= hi <= nb,
                forall|b: int| 0 <= b < lo ==> key_le(#[trigger] ks[16 * b], key@),
                forall|b: int| hi <= b < nb ==> key_lt(key@, #[trigger] ks[16 * b]),
            decreases hi - lo,
        {
            let mid = lo + (hi - lo) / 2;
            assert(block_ok(self.data@, self.blocks@[mid as int], self.block_first_keys@[mid as int]@, ks, mid as int));
            let c = compare_keys(self.block_first_keys[mid].as_slice(), key);
            match c {
                KeyOrder::Greater => {
                    assert forall|b: int| mid <= b < nb implies key_lt(key@, #[trigger] ks[16 * b]) by {
                        if b > mid {
                            assert(block_ok(self.data@, self.blocks@[b], self.block_first_keys@[b]@, ks, b));
                            lemma_key_lt_le(key@, ks[16 * mid], ks[16 * b]);
                        }
                    }
                    hi = mid;
                },
                _ => {
                    assert forall|b: int| 0 <= b <= mid implies key_le(#[trigger] ks[16 * b], key@) by {
                        if b < mid {
                            lemma_key_le_trans(ks[16 * b], ks[16 * mid], key@);
                        }
                    }
                    lo = mid + 1;
                },
            }
        }
        if lo == 0 {
            proof {
                lemma_key_lt_total(key@, ks[0]);
            }
            0
        } else {
            lo - 1
        }
    }

    /// Decode block `b` in order until `key` is found or passed.
    fn search_in_block(&self, b: usize, key: &[u8]) -> (r: Option<&V>)
        requires
            self.wf(),
            b < self.blocks@.len(),
        ensures
            r matches Some(v) ==> exists|i: int|
                16 * b <= i < self.keys@.len() && i < 16 * b + 16 && self.keys@[i] == key@
                    && self.values@[i] == *v,
            r is None ==> forall|i: int|
                16 * b <= i < self.keys@.len() && i < 16 * b + 16 ==> self.keys@[i] != key@,
    {
        let ghost ks = self.keys@;
        let blk = self.blocks[b];
        assert(block_ok(self.data@, blk, self.block_first_keys@[b as int]@, ks, b as int));
        let ghost n = blk.num_keys as int;
        let ghost bk = block_keys(ks, b as int, n);
        let start = blk.data_offset as usize;
        let end = start + blk.data_len as usize;
        let data = vstd::slice::slice_subrange(self.data.as_slice(), start, end);
        let cnt = blk.num_keys as usize;
        let voff = blk.values_offset as usize;
        let mut pos: usize = 0;
        let mut prev: Vec<u8> = Vec::new();
        let mut i: usize = 0;
        while i < cnt
            invariant
                self.wf(),
                ks == self.keys@,
                cnt == n,
                1 <= n <= 16,
                16 * b + n <= ks.len(),
                n == ks.len() - 16 * b || n == 16,
                voff == 16 * b,
                bk == block_keys(ks, b as int, n),
                data@ == block_enc(bk, n),
                i <= cnt,
                pos == block_enc(bk, i as int).len(),
                i > 0 ==> prev@ == bk[i - 1],
                forall|j: int| 0 <= j < i ==> key_lt(#[trigger] bk[j], key@),
            decreases cnt - i,
        {
            let (cur, next) = decode_entry(data, pos, prev.as_slice(), i, Ghost(bk), Ghost(n));
            match compare_keys(cur.as_slice(), key) {
                KeyOrder::Equal => {
                    assert(ks[16 * b + i] == bk[i as int]);
                    return Some(&self.values[voff + i]);
                },
                KeyOrder::Greater => {
                    proof {
                        assert forall|j: int|
                            16 * b <= j < ks.len() && j < 16 * b + 16 implies ks[j] != key@ by {
                            let jj = j - 16 * b;
                            assert(ks[j] == bk[jj]);
                            if jj < i {
                                lemma_key_lt_total(bk[jj], key@);
                            } else if jj > i {
                                assert(key_le(bk[i as int], bk[jj]));
                                lemma_key_lt_le(key@, bk[i as int], bk[jj]);
                                lemma_key_lt_total(key@, bk[jj]);
                            } else {
                                lemma_key_lt_total(key@, bk[jj]);
                            }
                        }
                    }
                    return None;
                },
                KeyOrder::Less => {},
            }
            prev = cur;
            pos = next;
            i += 1;
        }
        proof {
            assert forall|j: int| 16 * b <= j < ks.len() && j < 16 * b + 16 implies ks[j] != key@ by {
                let jj = j - 16 * b;
                assert(ks[j] == bk[jj]);
                lemma_key_lt_total(bk[jj], key@);
            }
        }
        None
    }

    /// The value of `key`, if the index holds it.
    pub fn get(&self, key: &[u8]) -> (r: Option<&V>)
        requires
            self.wf(),
        ensures
            r is Some <==> self.spec_keys().contains(key@),
            r matches Some(v) ==> exists|i: int|
                0 <= i < self.spec_keys().len() && self.spec_keys()[i] == key@
                    && self.spec_values()[i] == *v,
    {
        let ghost ks = self.keys@;
        if self.blocks.len() == 0 {
            return None;
        }
        let b = self.find_block(key);
        let r = self.search_in_block(b, key);
        proof {
            if r is None {
                assert forall|j: int| 0 <= j < ks.len() implies ks[j] != key@ by {
                    if j < 16 * b {
                        assert(key_le(ks[j], ks[16 * b]));
                        if ks[j] == key@ {
                            if key_le(ks[16 * b as int], key@) {
                                lemma_key_lt_total(ks[16 * b as int], key@);
                            } else {
                                lemma_key_lt_le(key@, ks[0], ks[j]);
                                lemma_key_lt_total(key@, key@);
                            }
                        }
                    } else if j >= 16 * b + 16 {
                        assert(key_le(ks[16 * (b + 1)], ks[j]) || j == 16 * (b + 1));
                        lemma_key_lt_le(key@, ks[16 * (b + 1)], ks[j]);
                        lemma_key_lt_total(key@, ks[j]);
                    }
                }
            } else {
                let i = choose|i: int|
                    16 * b <= i < self.keys@.len() && i < 16 * b + 16 && self.keys@[i] == key@
                        && self.values@[i] == *r.unwrap();
                assert(self.spec_keys()[i] == key@);
                assert(self.spec_values()[i] == *r.unwrap());
            }
        }
        r
    }
}


/// The keys of a list of pairs.
pub open spec fn pair_keys<V>(items: Seq<(&[u8], V)>) -> Seq<Seq<u8>> {
    Seq::new(items.len(), |i: int| items[i].0@)
}

/// The values of a list of pairs.
pub open spec fn pair_values<V>(items: Seq<(&[u8], V)>) -> Seq<V> {
    Seq::new(items.len(), |i: int| items[i].1)
}

/// The room the first `n` of `ks` may take in an index: each key and twenty bytes.
pub open spec fn index_bytes(ks: Seq<Seq<u8>>, n: int) -> nat
    decreases n,
{
    if n <= 0 {
        0
    } else {
        index_bytes(ks, n - 1) + ks[n - 1].len() + 20
    }
}

proof fn lemma_index_bytes_mono(ks: Seq<Seq<u8>>, i: int, n: int)
    requires
        0 <= i <= n,
    ensures
        index_bytes(ks, i) + 20 * (n - i) <= index_bytes(ks, n),
    decreases n - i,
{
    if i < n {
        lemma_index_bytes_mono(ks, i, n - 1);
    }
}

impl<V> FrontCodedIndex<V> {
    /// Build an index from pairs in sorted key order.
    pub fn from_sorted_iter<'a>(items: Vec<(&'a [u8], V)>) -> (r: Self)
        requires
            keys_sorted(pair_keys(items@)),
            index_bytes(pair_keys(items@), items@.len() as int) <= u32::MAX,
        ensures
            r.wf(),
            r.spec_keys() == pair_keys(items@),
            r.spec_values() == pair_values(items@),
    {
        let ghost all = items@;
        let ghost ks = pair_keys(all);
        let ghost total = all.len();
        let mut items = items;
        let mut rev: Vec<(&'a [u8], V)> = Vec::new();
        while items.len() > 0
            invariant
                items@.len() + rev@.len() == total,
                all.len() == total,
                items@ == all.subrange(0, items@.len() as int),
                forall|j: int| 0 <= j < rev@.len() ==> #[trigger] rev@[j] == all[total - 1 - j],
            decreases items@.len(),
        {
            let x = items.pop().unwrap();
            rev.push(x);
            assert(items@ =~= all.subrange(0, items@.len() as int));
        }
        let mut builder: FrontCodedBuilder<V> = FrontCodedBuilder::new();
        let mut done: usize = 0;
        proof {
            lemma_index_bytes_mono(ks, 0, total as int);
        }
        while rev.len() > 0
            invariant
                rev@.len() + done == total,
                all.len() == total,
                ks == pair_keys(all),
                keys_sorted(ks),
                index_bytes(ks, total as int) <= u32::MAX,
                20 * total <= u32::MAX,
                forall|j: int| 0 <= j < rev@.len() ==> #[trigger] rev@[j] == all[total - 1 - j],
                builder.wf(),
                builder.spec_keys() == ks.subrange(0, done as int),
                builder.spec_values() == pair_values(all).subrange(0, done as int),
                builder.spec_bytes() <= index_bytes(ks, done as int),
            decreases rev@.len(),
        {
            let (k, v) = rev.pop().unwrap();
            proof {
                assert(k@ == ks[done as int]);
                lemma_index_bytes_mono(ks, done + 1, total as int);
                if done > 0 {
                    assert(builder.spec_keys().last() == ks[done - 1]);
                }
            }
            builder.add(k, v);
            done = done + 1;
            assert(builder.spec_keys() =~= ks.subrange(0, done as int));
            assert(builder.spec_values() =~= pair_values(all).subrange(0, done as int));
        }
        assert(ks.subrange(0, total as int) =~= ks);
        assert(pair_values(all).subrange(0, total as int) =~= pair_values(all));
        builder.finish()
    }

    /// Memory use: buffer capacities and counts.
    pub fn memory_stats(&self) -> (r: FrontCodedStats)
        requires
            self.wf(),
        ensures
            r.data_bytes >= self.spec_data_len(),
            r.num_blocks == (self.spec_keys().len() + 15) / 16,
            r.num_keys == self.spec_keys().len(),
            r.total_bytes == r.data_bytes as int + r.blocks_bytes as int + r.values_bytes as int
                + r.first_keys_bytes as int || r.total_bytes == usize::MAX,
    {
        let data_bytes = vec_capacity(&self.data);
        let blocks_bytes = match vec_capacity(&self.blocks).checked_mul(
            core::mem::size_of::<FrontCodedBlock>(),
        ) {
            Some(b) => b,
            None => usize::MAX,
        };
        let values_bytes = match vec_capacity(&self.values).checked_mul(
            core::mem::size_of::<V>(),
        ) {
            Some(b) => b,
            None => usize::MAX,
        };
        let mut first_keys_bytes: usize = 0;
        let mut i: usize = 0;
        while i < self.block_first_keys.len()
            invariant
                i <= self.block_first_keys@.len(),
            decreases self.block_first_keys@.len() - i,
        {
            first_keys_bytes = first_keys_bytes.saturating_add(
                vec_capacity(&self.block_first_keys[i]),
            );
            i += 1;
        }
        let total = data_bytes.saturating_add(blocks_bytes).saturating_add(
            values_bytes,
        ).saturating_add(first_keys_bytes);
        FrontCodedStats {
            data_bytes,
            blocks_bytes,
            values_bytes,
            first_keys_bytes,
            total_bytes: total,
            num_blocks: self.blocks.len(),
            num_keys: self.len,
        }
    }
}

/// Memory use of a [`FrontCodedIndex`].
pub struct FrontCodedStats {
    pub data_bytes: usize,
    pub blocks_bytes: usize,
    pub values_bytes: usize,
    pub first_keys_bytes: usize,
    pub total_bytes: usize,
    pub num_blocks: usize,
    pub num_keys: usize,
}

impl<V> Default for FrontCodedBuilder<V> {
    fn default() -> (r: Self)
        ensures
            r.wf(),
            r.spec_keys().len() == 0,
            r.spec_bytes() == 0,
    {
        Self::new()
    }
}

} // verus!
