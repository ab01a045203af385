//! HOT2: a sorted index over an append-only key arena.
//!
//! Keys are stored once, contiguously; entries `(key_offset, key_len, value)` are kept sorted
//! by key and searched by bisection.
use vstd::prelude::*;
use crate::sorted::{
    compare_keys,
    key_lt,
    lemma_key_lt_total,
    lemma_key_lt_trans,
    lemma_pairs_map,
    lemma_pairs_map_insert,
    lemma_pairs_map_update,
    pairs_map,
    sorted_keys,
    KeyOrder,
};
use crate::vec_mem::vec_capacity;

verus! {

/// The values of the entries, in order.
pub open spec fn entry_values(es: Seq<(u32, u16, u64)>) -> Seq<u64> {
    Seq::new(es.len(), |i: int| es[i].2)
}

/// Sorted index with lazy trie construction.
pub struct Hot2 {
    /// Keys stored contiguously.
    keys: Vec<u8>,
    /// `(key_offset, key_len, value)` tuples, kept sorted by key.
    entries: Vec<(u32, u16, u64)>,
    /// The keys of the entries, in order.
    ks: Ghost<Seq<Seq<u8>>>,
}

/// Memory use of a [`Hot2`].
pub struct Hot2Stats {
    pub keys_bytes: usize,
    pub entries_bytes: usize,
    pub raw_key_bytes: usize,
    pub total_bytes: usize,
    pub overhead_bytes: usize,
}

impl View for Hot2 {
    type V = Map<Seq<u8>, u64>;

    closed spec fn view(&self) -> Map<Seq<u8>, u64> {
        pairs_map(self.ks@, entry_values(self.entries@))
    }
}

impl Hot2 {
    /// The bytes the stored keys take.
    pub closed spec fn arena_len(&self) -> nat {
        self.keys@.len()
    }

    pub closed spec fn wf(&self) -> bool {
        let ks = self.ks@;
        let es = self.entries@;
        &&& es.len() == ks.len()
        &&& sorted_keys(ks)
        &&& self.keys@.len() <= u32::MAX
        &&& forall|i: int|
            0 <= i < es.len() ==> (#[trigger] es[i]).0 + es[i].1 <= self.keys@.len()
                && self.keys@.subrange(es[i].0 as int, es[i].0 + es[i].1) == ks[i]
    }

    pub fn new() -> (r: Self)
        ensures
            r.wf(),
            r@ == Map::<Seq<u8>, u64>::empty(),
            r.arena_len() == 0,
    {
        Hot2 { keys: Vec::new(), entries: Vec::new(), ks: Ghost(Seq::empty()) }
    }

    pub fn len(&self) -> (r: usize)
        requires
            self.wf(),
        ensures
            r == self@.len(),
    {
        proof {
            lemma_pairs_map(self.ks@, entry_values(self.entries@));
        }
        self.entries.len()
    }

    pub fn is_empty(&self) -> (r: bool)
        requires
            self.wf(),
        ensures
            r == (self@.len() == 0),
    {
        proof {
            lemma_pairs_map(self.ks@, entry_values(self.entries@));
        }
        self.entries.len() == 0
    }

    /// The key of the entry at position `idx`.
    fn get_key(&self, idx: usize) -> (r: &[u8])
        requires
            self.wf(),
            idx < self.entries@.len(),
        ensures
            r@ == self.ks@[idx as int],
    {
        let (off, len, _) = self.entries[idx];
        let start = off as usize;
        &self.keys.as_slice()[start..start + len as usize]
    }

    /// Bisect for `key`: whether it is present, and its position or where it belongs.
    fn search(&self, key: &[u8]) -> (r: (bool, usize))
        requires
            self.wf(),
        ensures
            r.1 <= self.ks@.len(),
            r.0 ==> r.1 < self.ks@.len() && self.ks@[r.1 as int] == key@,
            !r.0 ==> forall|i: int| 0 <= i < r.1 ==> key_lt(#[trigger] self.ks@[i], key@),
            !r.0 ==> forall|i: int|
                r.1 <= i < self.ks@.len() ==> key_lt(key@, #[trigger] self.ks@[i]),
    {
        let ghost ks = self.ks@;
        let mut left: usize = 0;
        let mut right: usize = self.entries.len();
        while left < right
            invariant
                self.wf(),
                ks == self.ks@,
                left <= right <= ks.len(),
                forall|i: int| 0 <= i < left ==> key_lt(#[trigger] ks[i], key@),
                forall|i: int| right <= i < ks.len() ==> key_lt(key@, #[trigger] ks[i]),
            decreases right - left,
        {
            let mid = left + (right - left) / 2;
            match compare_keys(self.get_key(mid), key) {
                KeyOrder::Less => {
                    proof {
                        assert forall|i: int| 0 <= i < mid + 1 implies key_lt(#[trigger] ks[i], key@) by {
                            if i < mid {
                                lemma_key_lt_trans(ks[i], ks[mid as int], key@);
                            }
                        }
                    }
                    left = mid + 1;
                },
                KeyOrder::Greater => {
                    proof {
                        assert forall|i: int| mid <= i < ks.len() implies key_lt(key@, #[trigger] ks[i]) by {
                            if i > mid {
                                lemma_key_lt_trans(key@, ks[mid as int], ks[i]);
                            }
                        }
                    }
                    right = mid;
                },
                KeyOrder::Equal => {
                    return (true, mid);
                },
            }
        }
        (false, left)
    }

    /// The value stored under `key`.
    pub fn get(&self, key: &[u8]) -> (r: Option<u64>)
        requires
            self.wf(),
        ensures
            r == if self@.contains_key(key@) {
                Some(self@[key@])
            } else {
                None::<u64>
            },
    {
        proof {
            lemma_pairs_map(self.ks@, entry_values(self.entries@));
        }
        let (found, idx) = self.search(key);
        if found {
            Some(self.entries[idx].2)
        } else {
            proof {
                if self@.contains_key(key@) {
                    let i = choose|i: int| 0 <= i < self.ks@.len() && self.ks@[i] == key@;
                    lemma_key_lt_total(key@, key@);
                }
            }
            None
        }
    }

    /// Insert `key` with `value`, returning the value it replaces.
    pub fn insert(&mut self, key: &[u8], value: u64) -> (r: Option<u64>)
        requires
            old(self).wf(),
            key@.len() <= u16::MAX,
            old(self).arena_len() + key@.len() <= u32::MAX,
        ensures
            final(self).wf(),
            final(self)@ == old(self)@.insert(key@, value),
            r == if old(self)@.contains_key(key@) {
                Some(old(self)@[key@])
            } else {
                None::<u64>
            },
            final(self).arena_len() == old(self).arena_len() + if old(self)@.contains_key(key@) {
                0
            } else {
                key@.len()
            },
    {
        proof {
            lemma_pairs_map(self.ks@, entry_values(self.entries@));
        }
        let key_off = self.keys.len() as u32;
        let key_len = key.len() as u16;
        let (found, idx) = self.search(key);
        let ghost es0 = self.entries@;
        if found {
            let (off, len, old_value) = self.entries[idx];
            self.entries.set(idx, (off, len, value));
            proof {
                assert(entry_values(self.entries@) =~= entry_values(es0).update(idx as int, value));
                lemma_pairs_map_update(self.ks@, entry_values(es0), idx as int, value);
            }
            return Some(old_value);
        }
        proof {
            lemma_pairs_map_insert(self.ks@, entry_values(es0), idx as int, key@, value);
        }
        let ghost k0 = self.keys@;
        self.keys.extend_from_slice(key);
        assert(self.keys@ =~= k0 + key@) by {
            assert forall|i: int| 0 <= i < key@.len() implies self.keys@[k0.len() + i] == key@[i] by {
                assert(vstd::pervasive::cloned::<u8>(key@[i], self.keys@[k0.len() + i]));
            }
        }
        self.entries.insert(idx, (key_off, key_len, value));
        self.ks = Ghost(self.ks@.insert(idx as int, key@));
        proof {
            let es = self.entries@;
            let ks = self.ks@;
            assert(entry_values(es) =~= entry_values(es0).insert(idx as int, value));
            assert forall|i: int| 0 <= i < es.len() implies (#[trigger] es[i]).0 + es[i].1
                <= self.keys@.len() && self.keys@.subrange(es[i].0 as int, es[i].0 + es[i].1)
                == ks[i] by {
                if i == idx {
                    assert(self.keys@.subrange(k0.len() as int, (k0.len() + key@.len()) as int) =~= key@);
                } else {
                    let j = if i < idx { i } else { i - 1 };
                    assert(es[i] == es0[j] && ks[i] == old(self).ks@[j]);
                    assert(self.keys@.subrange(es[i].0 as int, es[i].0 + es[i].1) =~= k0.subrange(
                        es[i].0 as int,
                        es[i].0 + es[i].1,
                    ));
                }
            }
        }
        None
    }

    /// Memory use: buffer capacities, raw key bytes, and the overhead beyond the keys.
    pub fn memory_stats(&self) -> (r: Hot2Stats)
        requires
            self.wf(),
        ensures
            r.keys_bytes >= self.arena_len(),
            r.raw_key_bytes == self.arena_len(),
            r.total_bytes == r.keys_bytes as int + r.entries_bytes as int || r.total_bytes
                == usize::MAX,
            r.overhead_bytes == if r.total_bytes >= r.raw_key_bytes {
                r.total_bytes - r.raw_key_bytes
            } else {
                0
            },
    {
        let keys_bytes = vec_capacity(&self.keys);
        let entries_bytes = match vec_capacity(&self.entries).checked_mul(
            core::mem::size_of::<(u32, u16, u64)>(),
        ) {
            Some(b) => b,
            None => usize::MAX,
        };
        let raw_key_bytes = self.keys.len();
        let total = keys_bytes.saturating_add(entries_bytes);
        Hot2Stats {
            keys_bytes,
            entries_bytes,
            raw_key_bytes,
            total_bytes: total,
            overhead_bytes: total.saturating_sub(raw_key_bytes),
        }
    }
}

impl Default for Hot2 {
    fn default() -> (r: Self)
        ensures
            r.wf(),
            r@ == Map::<Seq<u8>, u64>::empty(),
    {
        Self::new()
    }
}

} // verus!
