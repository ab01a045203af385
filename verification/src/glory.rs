//! GLORY: sorted entries with binary search, for the least overhead per key.
//!
//! Each entry is stored as `[key_len: 2][key bytes][value: 8]` in one buffer; a sorted list of
//! entry offsets serves the binary search. Overhead: 10 bytes per key plus a 4-byte offset.
use vstd::prelude::*;
use crate::le_bytes::{le_u16, le_u64, push_u16, push_u64, read_u16, read_u64, u16_bytes, u64_bytes, write_u64};
use crate::sorted::{
    compare_keys,
    key_lt,
    lemma_key_lt_total,
    lemma_key_lt_trans,
    lemma_pairs_map,
    lemma_pairs_map_insert,
    lemma_pairs_map_update,
    pairs_map,
    sorted_keys,
    KeyOrder,
};
use crate::vec_mem::vec_capacity;

verus! {

/// The entry at `off` in `data` holds key `k` and value `v`.
pub open spec fn entry_at(data: Seq<u8>, off: int, k: Seq<u8>, v: u64) -> bool {
    &&& 0 <= off
    &&& off + 2 + k.len() + 8 <= data.len()
    &&& le_u16(data, off) == k.len()
    &&& data.subrange(off + 2, off + 2 + k.len()) == k
    &&& le_u64(data, off + 2 + k.len()) == v
}

/// Each offset starts the entry of the key and value at its position, and no two entries
/// overlap.
pub open spec fn layout_ok(data: Seq<u8>, offs: Seq<u32>, ks: Seq<Seq<u8>>, vs: Seq<u64>) -> bool {
    &&& forall|i: int| 0 <= i < offs.len() ==> entry_at(data, #[trigger] offs[i] as int, ks[i], vs[i])
    &&& forall|i: int, j: int|
        0 <= i < offs.len() && 0 <= j < offs.len() && i != j ==> #[trigger] offs[i] + 10 + ks[i].len()
            <= #[trigger] offs[j] || offs[j] + 10 + ks[j].len() <= offs[i]
}

/// Appending an entry and inserting its offset keeps the layout.
proof fn lemma_layout_append(
    d0: Seq<u8>,
    o0: Seq<u32>,
    ks: Seq<Seq<u8>>,
    vs: Seq<u64>,
    idx: int,
    key: Seq<u8>,
    value: u64,
)
    requires
        layout_ok(d0, o0, ks, vs),
        o0.len() == ks.len(),
        ks.len() == vs.len(),
        0 <= idx <= o0.len(),
        key.len() <= u16::MAX,
        d0.len() <= u32::MAX,
    ensures
        layout_ok(
            d0 + u16_bytes(key.len() as u16) + key + u64_bytes(value),
            o0.insert(idx, d0.len() as u32),
            ks.insert(idx, key),
            vs.insert(idx, value),
        ),
{
    let d = d0 + u16_bytes(key.len() as u16) + key + u64_bytes(value);
    let offs = o0.insert(idx, d0.len() as u32);
    let ks2 = ks.insert(idx, key);
    let vs2 = vs.insert(idx, value);
    let kl = key.len() as int;
    assert forall|i: int| 0 <= i < offs.len() implies entry_at(d, #[trigger] offs[i] as int, ks2[i], vs2[i]) by {
        let o = offs[i] as int;
        if i == idx {
            assert(d.subrange(o, o + 2) =~= u16_bytes(key.len() as u16));
            crate::le_bytes::lemma_read_u16_bytes(d, o, key.len() as u16);
            assert(d.subrange(o + 2, o + 2 + kl) =~= key);
            assert(d.subrange(o + 2 + kl, o + 2 + kl + 8) =~= u64_bytes(value));
            crate::le_bytes::lemma_read_u64_bytes(d, o + 2 + kl, value);
        } else {
            let j = if i < idx { i } else { i - 1 };
            assert(offs[i] == o0[j] && ks2[i] == ks[j] && vs2[i] == vs[j]);
            let l = ks[j].len() as int;
            assert(entry_at(d0, o, ks[j], vs[j]));
            assert(d.subrange(o + 2, o + 2 + l) =~= d0.subrange(o + 2, o + 2 + l));
        }
    }
    assert forall|i: int, j: int|
        0 <= i < offs.len() && 0 <= j < offs.len() && i != j implies #[trigger] offs[i] + 10
        + ks2[i].len() <= #[trigger] offs[j] || offs[j] + 10 + ks2[j].len() <= offs[i] by {
        let i0 = if i < idx { i } else { i - 1 };
        let j0 = if j < idx { j } else { j - 1 };
        if i != idx && j != idx {
            assert(offs[i] == o0[i0] && ks2[i] == ks[i0]);
            assert(offs[j] == o0[j0] && ks2[j] == ks[j0]);
        } else if i == idx {
            assert(offs[j] == o0[j0] && ks2[j] == ks[j0]);
            assert(entry_at(d0, o0[j0] as int, ks[j0], vs[j0]));
        } else {
            assert(offs[i] == o0[i0] && ks2[i] == ks[i0]);
            assert(entry_at(d0, o0[i0] as int, ks[i0], vs[i0]));
        }
    }
}

/// Ultra-compact sorted key-value store.
pub struct Glory {
    /// Format: `[key_len: u16][key bytes][value: u64]` repeated.
    data: Vec<u8>,
    /// Entry offsets, in key order.
    offsets: Vec<u32>,
    /// Number of entries.
    len: usize,
    /// The keys, in order.
    keys: Ghost<Seq<Seq<u8>>>,
    /// The values, in key order.
    vals: Ghost<Seq<u64>>,
}

/// Memory use of a [`Glory`].
pub struct GloryStats {
    pub data_bytes: usize,
    pub offsets_bytes: usize,
    pub raw_key_bytes: usize,
    pub total_bytes: usize,
    pub overhead_bytes: usize,
}

impl View for Glory {
    type V = Map<Seq<u8>, u64>;

    closed spec fn view(&self) -> Map<Seq<u8>, u64> {
        pairs_map(self.keys@, self.vals@)
    }
}

impl Glory {
    /// The total length of the stored keys.
    pub closed spec fn raw_key_total(&self) -> nat {
        keys_total(self.keys@, self.len as int)
    }

    /// The bytes the entries take.
    pub closed spec fn data_len(&self) -> nat {
        self.data@.len()
    }

    pub closed spec fn wf(&self) -> bool {
        let ks = self.keys@;
        let vs = self.vals@;
        &&& self.offsets@.len() == self.len
        &&& ks.len() == self.len
        &&& vs.len() == self.len
        &&& sorted_keys(ks)
        &&& self.data@.len() <= u32::MAX
        &&& layout_ok(self.data@, self.offsets@, ks, vs)
        &&& self.data@.len() == 10 * self.len + keys_total(self.keys@, self.len as int)
    }

    pub fn new() -> (r: Self)
        ensures
            r.wf(),
            r@ == Map::<Seq<u8>, u64>::empty(),
            r.data_len() == 0,
    {
        Glory {
            data: Vec::new(),
            offsets: Vec::new(),
            len: 0,
            keys: Ghost(Seq::empty()),
            vals: Ghost(Seq::empty()),
        }
    }

    /// An empty store with room for `keys` entries whose keys total `total_key_bytes`.
    pub fn with_capacity(keys: usize, total_key_bytes: usize) -> (r: Self)
        requires
            total_key_bytes + keys * 10 <= usize::MAX,
        ensures
            r.wf(),
            r@ == Map::<Seq<u8>, u64>::empty(),
            r.data_len() == 0,
    {
        let data_cap = total_key_bytes + keys * 10;
        Glory {
            data: Vec::with_capacity(data_cap),
            offsets: Vec::with_capacity(keys),
            len: 0,
            keys: Ghost(Seq::empty()),
            vals: Ghost(Seq::empty()),
        }
    }

    pub fn len(&self) -> (r: usize)
        requires
            self.wf(),
        ensures
            r == self@.len(),
    {
        proof {
            lemma_pairs_map(self.keys@, self.vals@);
        }
        self.len
    }

    pub fn is_empty(&self) -> (r: bool)
        requires
            self.wf(),
        ensures
            r == (self@.len() == 0),
    {
        proof {
            lemma_pairs_map(self.keys@, self.vals@);
        }
        self.len == 0
    }

    /// The key of the entry at position `idx`.
    fn get_key_at(&self, idx: usize) -> (r: &[u8])
        requires
            self.wf(),
            idx < self.len,
        ensures
            r@ == self.keys@[idx as int],
    {
        let off = self.offsets[idx] as usize;
        let len = read_u16(self.data.as_slice(), off) as usize;
        &self.data.as_slice()[off + 2..off + 2 + len]
    }

    /// The value of the entry at position `idx`.
    fn get_value_at(&self, idx: usize) -> (r: u64)
        requires
            self.wf(),
            idx < self.len,
        ensures
            r == self.vals@[idx as int],
    {
        let off = self.offsets[idx] as usize;
        let len = read_u16(self.data.as_slice(), off) as usize;
        let val_off = off + 2 + len;
        read_u64(self.data.as_slice(), val_off)
    }

    /// Set the value of the entry at position `idx`.
    fn set_value_at(&mut self, idx: usize, value: u64)
        requires
            old(self).wf(),
            idx < old(self).len,
        ensures
            final(self).wf(),
            final(self).keys == old(self).keys,
            final(self).vals@ == old(self).vals@.update(idx as int, value),
            final(self).data_len() == old(self).data_len(),
    {
        let ghost d0 = self.data@;
        let off = self.offsets[idx] as usize;
        let len = read_u16(self.data.as_slice(), off) as usize;
        let val_off = off + 2 + len;
        write_u64(&mut self.data, val_off, value);
        self.vals = Ghost(self.vals@.update(idx as int, value));
        proof {
            let ks = self.keys@;
            assert forall|i: int| 0 <= i < self.offsets@.len() implies entry_at(
                self.data@,
                #[trigger] self.offsets@[i] as int,
                ks[i],
                self.vals@[i],
            ) by {
                let o = self.offsets@[i] as int;
                let kl = ks[i].len() as int;
                if i == idx {
                    assert(self.data@.subrange(o + 2, o + 2 + kl) =~= d0.subrange(o + 2, o + 2 + kl));
                    assert(self.data@.subrange(o + 2 + kl, o + 2 + kl + 8) =~= u64_bytes(value));
                    crate::le_bytes::lemma_read_u64_bytes(self.data@, o + 2 + kl, value);
                } else {
                    assert(self.data@.subrange(o + 2, o + 2 + kl) =~= d0.subrange(o + 2, o + 2 + kl));
                    assert(self.data@[o] == d0[o] && self.data@[o + 1] == d0[o + 1]);
                    assert(forall|j: int| o + 2 + kl <= j < o + 10 + kl ==> self.data@[j] == d0[j]);
                }
            }
            assert(keys_total(self.keys@, self.len as int) == keys_total(old(self).keys@, self.len as int));
        }
    }

    /// Binary search for `key`: whether it is present, and its position or where it belongs.
    fn search(&self, key: &[u8]) -> (r: (bool, usize))
        requires
            self.wf(),
        ensures
            r.1 <= self.len,
            r.0 ==> r.1 < self.len && self.keys@[r.1 as int] == key@,
            !r.0 ==> forall|i: int| 0 <= i < r.1 ==> key_lt(#[trigger] self.keys@[i], key@),
            !r.0 ==> forall|i: int| r.1 <= i < self.len ==> key_lt(key@, #[trigger] self.keys@[i]),
    {
        let ghost ks = self.keys@;
        let mut left: usize = 0;
        let mut right: usize = self.len;
        while left < right
            invariant
                self.wf(),
                ks == self.keys@,
                left <= right <= self.len,
                forall|i: int| 0 <= i < left ==> key_lt(#[trigger] ks[i], key@),
                forall|i: int| right <= i < self.len ==> key_lt(key@, #[trigger] ks[i]),
            decreases right - left,
        {
            let mid = left + (right - left) / 2;
            let mid_key = self.get_key_at(mid);
            match compare_keys(mid_key, key) {
                KeyOrder::Less => {
                    proof {
                        assert forall|i: int| 0 <= i < mid + 1 implies key_lt(#[trigger] ks[i], key@) by {
                            if i < mid {
                                lemma_key_lt_trans(ks[i], ks[mid as int], key@);
                            }
                        }
                    }
                    left = mid + 1;
                },
                KeyOrder::Greater => {
                    proof {
                        assert forall|i: int| mid <= i < self.len implies key_lt(key@, #[trigger] ks[i]) by {
                            if i > mid {
                                lemma_key_lt_trans(key@, ks[mid as int], ks[i]);
                            }
                        }
                    }
                    right = mid;
                },
                KeyOrder::Equal => {
                    return (true, mid);
                },
            }
        }
        (false, left)
    }

    /// The value stored under `key`.
    pub fn get(&self, key: &[u8]) -> (r: Option<u64>)
        requires
            self.wf(),
        ensures
            r == if self@.contains_key(key@) {
                Some(self@[key@])
            } else {
                None::<u64>
            },
    {
        proof {
            lemma_pairs_map(self.keys@, self.vals@);
        }
        if self.len == 0 {
            return None;
        }
        let (found, idx) = self.search(key);
        if found {
            Some(self.get_value_at(idx))
        } else {
            proof {
                if self@.contains_key(key@) {
                    let i = choose|i: int| 0 <= i < self.keys@.len() && self.keys@[i] == key@;
                    lemma_key_lt_total(key@, key@);
                }
            }
            None
        }
    }

    /// Append an entry for `key` and `value`; returns its offset.
    fn append_entry(&mut self, key: &[u8], value: u64) -> (off: u32)
        requires
            old(self).wf(),
            key@.len() <= u16::MAX,
            old(self).data_len() + key@.len() + 10 <= u32::MAX,
        ensures
            off == old(self).data_len(),
            final(self).data@ == old(self).data@ + u16_bytes(key@.len() as u16) + key@ + u64_bytes(
                value,
            ),
            final(self).offsets == old(self).offsets,
            final(self).len == old(self).len,
            final(self).keys == old(self).keys,
            final(self).vals == old(self).vals,
    {
        let off = self.data.len() as u32;
        push_u16(&mut self.data, key.len() as u16);
        let ghost d1 = self.data@;
        self.data.extend_from_slice(key);
        assert(self.data@ =~= d1 + key@) by {
            assert forall|i: int| 0 <= i < key@.len() implies self.data@[d1.len() + i] == key@[i] by {
                assert(vstd::pervasive::cloned::<u8>(key@[i], self.data@[d1.len() + i]));
            }
        }
        push_u64(&mut self.data, value);
        off
    }

    /// Insert `key` with `value`, returning the value it replaces.
    pub fn insert(&mut self, key: &[u8], value: u64) -> (r: Option<u64>)
        requires
            old(self).wf(),
            key@.len() <= u16::MAX,
            old(self).data_len() + key@.len() + 10 <= u32::MAX,
        ensures
            final(self).wf(),
            final(self)@ == old(self)@.insert(key@, value),
            r == if old(self)@.contains_key(key@) {
                Some(old(self)@[key@])
            } else {
                None::<u64>
            },
            final(self).data_len() == old(self).data_len() + if old(self)@.contains_key(key@) {
                0
            } else {
                key@.len() + 10
            },
    {
        proof {
            lemma_pairs_map(self.keys@, self.vals@);
        }
        let (found, idx) = if self.len == 0 {
            (false, 0)
        } else {
            self.search(key)
        };
        if found {
            let prev = self.get_value_at(idx);
            self.set_value_at(idx, value);
            proof {
                lemma_pairs_map_update(self.keys@, old(self).vals@, idx as int, value);
            }
            return Some(prev);
        }
        proof {
            lemma_pairs_map_insert(self.keys@, self.vals@, idx as int, key@, value);
        }
        let ghost d0 = self.data@;
        let ghost o0 = self.offsets@;
        let off = self.append_entry(key, value);
        self.offsets.insert(idx, off);
        self.len = self.len + 1;
        self.keys = Ghost(self.keys@.insert(idx as int, key@));
        self.vals = Ghost(self.vals@.insert(idx as int, value));
        proof {
            lemma_layout_append(d0, o0, old(self).keys@, old(self).vals@, idx as int, key@, value);
            lemma_key_total_insert(old(self).keys@, idx as int, key@, old(self).len as int);
        }
        None
    }

    /// Memory use: buffer capacities, raw key bytes, and the overhead beyond the keys.
    pub fn memory_stats(&self) -> (r: GloryStats)
        requires
            self.wf(),
        ensures
            r.data_bytes >= self.data_len(),
            r.offsets_bytes >= 4 * self@.len() || r.offsets_bytes == usize::MAX,
            r.total_bytes >= self.data_len() + 4 * self@.len() || r.total_bytes == usize::MAX,
            r.raw_key_bytes == self.raw_key_total(),
            r.total_bytes == r.data_bytes as int + r.offsets_bytes as int || r.total_bytes
                == usize::MAX,
            r.overhead_bytes == if r.total_bytes >= r.raw_key_bytes {
                r.total_bytes - r.raw_key_bytes
            } else {
                0
            },
    {
        proof {
            lemma_pairs_map(self.keys@, self.vals@);
        }
        let data_bytes = vec_capacity(&self.data);
        let offsets_bytes = match vec_capacity(&self.offsets).checked_mul(4) {
            Some(b) => b,
            None => usize::MAX,
        };
        let total = data_bytes.saturating_add(offsets_bytes);
        let raw_key_bytes = self.data.len().saturating_sub(self.len * 10);
        let overhead = total.saturating_sub(raw_key_bytes);
        GloryStats {
            data_bytes,
            offsets_bytes,
            raw_key_bytes,
            total_bytes: total,
            overhead_bytes: overhead,
        }
    }
}

/// The total length of the first `n` of `ks`.
pub open spec fn keys_total(ks: Seq<Seq<u8>>, n: int) -> nat
    decreases n,
{
    if n <= 0 {
        0
    } else {
        keys_total(ks, n - 1) + ks[n - 1].len()
    }
}

proof fn lemma_key_total_insert(ks: Seq<Seq<u8>>, idx: int, k: Seq<u8>, n: int)
    requires
        0 <= idx <= n <= ks.len(),
    ensures
        keys_total(ks.insert(idx, k), n + 1) == keys_total(ks, n) + k.len(),
    decreases n,
{
    if n > idx {
        lemma_key_total_insert(ks, idx, k, n - 1);
        assert(ks.insert(idx, k)[n] == ks[n - 1]);
    } else {
        lemma_keys_total_prefix(ks, ks.insert(idx, k), n);
    }
}

proof fn lemma_keys_total_prefix(a: Seq<Seq<u8>>, b: Seq<Seq<u8>>, n: int)
    requires
        0 <= n <= a.len(),
        n <= b.len(),
        forall|i: int| 0 <= i < n ==> a[i] == b[i],
    ensures
        keys_total(a, n) == keys_total(b, n),
    decreases n,
{
    if n > 0 {
        lemma_keys_total_prefix(a, b, n - 1);
    }
}

impl Default for Glory {
    fn default() -> (r: Self)
        ensures
            r.wf(),
            r@ == Map::<Seq<u8>, u64>::empty(),
    {
        Self::new()
    }
}

} // verus!
