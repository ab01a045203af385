//! A transducer layer for the bulk of the keys with a small sorted write buffer in front.
//!
//! Reads look in the buffer first, then in the transducer. Writes go to the buffer; once it
//! holds as many keys as the compaction threshold, buffer and transducer are merged into a
//! new transducer.
use vstd::prelude::*;
use crate::frozen::{
    builder_insert, builder_into_map, builder_memory, fst_contains, fst_encoded_len, fst_get,
    fst_map_contents,
    fst_pairs, fst_builder_pairs, lemma_pairs_to_map_len, lists_pairs, pairs_to_map,
    strictly_sorted,
};
use crate::sorted::{compare_keys, key_lt, lemma_key_lt_total, lemma_key_lt_trans, KeyOrder};

verus! {

/// The keys and values of a list of owned pairs.
pub open spec fn owned_pairs(v: Seq<(Vec<u8>, u64)>) -> Seq<(Seq<u8>, u64)> {
    Seq::new(v.len(), |i: int| (v[i].0@, v[i].1))
}

/// Size of a hybrid index.
pub struct HybridStats {
    /// Bytes of the transducer.
    pub frozen_bytes: usize,
    /// Keys in the write buffer.
    pub buffer_entries: usize,
    /// Estimated bytes of the write buffer.
    pub buffer_bytes: usize,
    /// Both together.
    pub total_bytes: usize,
    /// The number of keys.
    pub len: usize,
}

/// A transducer with a sorted write buffer in front of it.
pub struct HybridIndex {
    /// The transducer, once there is one.
    pub frozen: Option<fst::Map<Vec<u8>>>,
    buffer: Vec<(Vec<u8>, u64)>,
    compact_threshold: usize,
    len: usize,
    frozen_size: usize,
    frozen_pairs: Ghost<Seq<(Seq<u8>, u64)>>,
}

impl HybridIndex {
    /// The pairs of the transducer.
    pub closed spec fn frozen_map(&self) -> Map<Seq<u8>, u64> {
        match self.frozen {
            Some(m) => fst_map_contents(m),
            None => Map::empty(),
        }
    }

    /// The pairs of the write buffer, in key order.
    pub closed spec fn buffer_pairs(&self) -> Seq<(Seq<u8>, u64)> {
        owned_pairs(self.buffer@)
    }

    /// Whether the index holds a transducer.
    pub closed spec fn has_frozen(&self) -> bool {
        self.frozen is Some
    }

    /// The number of keys.
    pub closed spec fn spec_len(&self) -> nat {
        self.len as nat
    }

    /// The pairs the transducer was built from, in increasing key order.
    pub closed spec fn frozen_pairs(&self) -> Seq<(Seq<u8>, u64)> {
        self.frozen_pairs@
    }

    /// The buffer size at which the buffer is merged into the transducer.
    pub closed spec fn spec_threshold(&self) -> nat {
        self.compact_threshold as nat
    }

    pub closed spec fn wf(&self) -> bool {
        &&& self.frozen_map().dom().finite()
        &&& strictly_sorted(self.buffer_pairs())
        &&& strictly_sorted(self.frozen_pairs@)
        &&& self.frozen_map() == pairs_to_map(self.frozen_pairs@)
        &&& match self.frozen {
            Some(_) => self.frozen_size == fst_encoded_len(self.frozen_pairs@),
            None => self.frozen_size == 0 && self.frozen_pairs@.len() == 0,
        }
        &&& self@.dom().finite()
        &&& self.len == self@.len()
    }

    /// A well-formed index holds finitely many keys, and its count is their number.
    pub proof fn lemma_wf_len(&self)
        requires
            self.wf(),
        ensures
            self@.dom().finite(),
            self.spec_len() == self@.len(),
    {
    }
}

impl View for HybridIndex {
    type V = Map<Seq<u8>, u64>;

    /// The buffer's pairs over the transducer's.
    closed spec fn view(&self) -> Map<Seq<u8>, u64> {
        self.frozen_map().union_prefer_right(pairs_to_map(self.buffer_pairs()))
    }
}

/// The place of `key` in strictly sorted pairs: where it is, or where it would go.
fn search(v: &Vec<(Vec<u8>, u64)>, key: &[u8]) -> (r: (bool, usize))
    requires
        strictly_sorted(owned_pairs(v@)),
    ensures
        r.1 <= v@.len(),
        r.0 ==> r.1 < v@.len() && v@[r.1 as int].0@ == key@,
        !r.0 ==> forall|i: int| 0 <= i < r.1 ==> key_lt(#[trigger] v@[i].0@, key@),
        !r.0 ==> forall|i: int| r.1 <= i < v@.len() ==> key_lt(key@, #[trigger] v@[i].0@),
{
    let ghost s = owned_pairs(v@);
    let mut lo: usize = 0;
    let mut hi: usize = v.len();
    while lo < hi
        invariant
            s == owned_pairs(v@),
            strictly_sorted(s),
            lo <= hi <= v@.len(),
            forall|i: int| 0 <= i < lo ==> key_lt(#[trigger] v@[i].0@, key@),
            forall|i: int| hi <= i < v@.len() ==> key_lt(key@, #[trigger] v@[i].0@),
        decreases hi - lo,
    {
        let mid = lo + (hi - lo) / 2;
        match compare_keys(v[mid].0.as_slice(), key) {
            KeyOrder::Less => {
                proof {
                    assert forall|i: int| 0 <= i < mid + 1 implies key_lt(#[trigger] v@[i].0@, key@) by {
                        if i < mid {
                            assert(key_lt(s[i].0, s[mid as int].0));
                            lemma_key_lt_trans(v@[i].0@, v@[mid as int].0@, key@);
                        }
                    }
                }
                lo = mid + 1;
            },
            KeyOrder::Equal => {
                return (true, mid);
            },
            KeyOrder::Greater => {
                proof {
                    assert forall|i: int| mid <= i < v@.len() implies key_lt(key@, #[trigger] v@[i].0@) by {
                        if i > mid {
                            assert(key_lt(s[mid as int].0, s[i].0));
                            lemma_key_lt_trans(key@, v@[mid as int].0@, v@[i].0@);
                        }
                    }
                }
                hi = mid;
            },
        }
    }
    (false, lo)
}

/// Putting a pair at its place in sorted pairs keeps them sorted and puts it in their map.
proof fn lemma_sorted_insert(s: Seq<(Seq<u8>, u64)>, idx: int, k: Seq<u8>, v: u64)
    requires
        strictly_sorted(s),
        0 <= idx <= s.len(),
        forall|i: int| 0 <= i < idx ==> key_lt(#[trigger] s[i].0, k),
        forall|i: int| idx <= i < s.len() ==> key_lt(k, #[trigger] s[i].0),
    ensures
        strictly_sorted(s.insert(idx, (k, v))),
        pairs_to_map(s.insert(idx, (k, v))) == pairs_to_map(s).insert(k, v),
{
    let t = s.insert(idx, (k, v));
    assert forall|i: int, j: int| 0 <= i < j < t.len() implies key_lt(#[trigger] t[i].0, #[trigger] t[j].0) by {
        if j < idx {
        } else if j == idx {
        } else if i < idx {
            lemma_key_lt_trans(t[i].0, k, t[j].0);
        } else if i == idx {
        } else {
            assert(t[i] == s[i - 1] && t[j] == s[j - 1]);
        }
    }
    lemma_pairs_to_map_len(s);
    lemma_pairs_to_map_len(t);
    let m = pairs_to_map(s);
    let m2 = pairs_to_map(t);
    assert forall|x: Seq<u8>| m2.contains_key(x) <==> m.insert(k, v).contains_key(x) by {
        if m2.contains_key(x) {
            let i = choose|i: int| 0 <= i < t.len() && t[i].0 == x;
            if i < idx {
                assert(m.contains_key(s[i].0));
            } else if i > idx {
                assert(m.contains_key(s[i - 1].0));
            }
        }
        if m.contains_key(x) {
            let i = choose|i: int| 0 <= i < s.len() && s[i].0 == x;
            if i < idx {
                assert(m2.contains_key(t[i].0));
            } else {
                assert(m2.contains_key(t[i + 1].0));
            }
        }
        if x == k {
            assert(m2.contains_key(t[idx].0));
        }
    }
    assert forall|x: Seq<u8>| m2.contains_key(x) implies m2[x] == m.insert(k, v)[x] by {
        let i = choose|i: int| 0 <= i < t.len() && t[i].0 == x;
        if i < idx {
            assert(m.contains_key(s[i].0));
            lemma_key_lt_total(s[i].0, k);
        } else if i > idx {
            assert(m.contains_key(s[i - 1].0));
            lemma_key_lt_total(k, s[i - 1].0);
        }
    }
    assert(m2 =~= m.insert(k, v));
}

/// Changing the value at a place of sorted pairs changes the value of its key.
proof fn lemma_sorted_update(s: Seq<(Seq<u8>, u64)>, idx: int, v: u64)
    requires
        strictly_sorted(s),
        0 <= idx < s.len(),
    ensures
        strictly_sorted(s.update(idx, (s[idx].0, v))),
        pairs_to_map(s.update(idx, (s[idx].0, v))) == pairs_to_map(s).insert(s[idx].0, v),
{
    let t = s.update(idx, (s[idx].0, v));
    assert forall|i: int, j: int| 0 <= i < j < t.len() implies key_lt(#[trigger] t[i].0, #[trigger] t[j].0) by {
        assert(t[i].0 == s[i].0 && t[j].0 == s[j].0);
    }
    lemma_pairs_to_map_len(s);
    lemma_pairs_to_map_len(t);
    let m = pairs_to_map(s);
    let m2 = pairs_to_map(t);
    let k = s[idx].0;
    assert forall|x: Seq<u8>| m2.contains_key(x) <==> m.insert(k, v).contains_key(x) by {
        if m2.contains_key(x) {
            let i = choose|i: int| 0 <= i < t.len() && t[i].0 == x;
            assert(m.contains_key(s[i].0));
        }
        if m.contains_key(x) {
            let i = choose|i: int| 0 <= i < s.len() && s[i].0 == x;
            assert(m2.contains_key(t[i].0));
        }
    }
    assert forall|x: Seq<u8>| m2.contains_key(x) implies m2[x] == m.insert(k, v)[x] by {
        let i = choose|i: int| 0 <= i < t.len() && t[i].0 == x;
        if i != idx {
            if i < idx {
                assert(key_lt(s[i].0, s[idx].0));
            } else {
                assert(key_lt(s[idx].0, s[i].0));
            }
            lemma_key_lt_total(s[i].0, k);
        }
    }
    assert(m2 =~= m.insert(k, v));
}


/// `k` comes before the next pair of `f` from `i` on and the next of `b` from `j` on.
pub open spec fn below(k: Seq<u8>, f: Seq<(Vec<u8>, u64)>, i: int, b: Seq<(Vec<u8>, u64)>, j: int) -> bool {
    &&& (i < f.len() ==> key_lt(k, f[i].0@))
    &&& (j < b.len() ==> key_lt(k, b[j].0@))
}

/// What merging two sorted lists into `out` has done once `i` pairs of `f` and `j` of `b`
/// are taken: `out` is sorted and holds exactly the pairs of `m` below both cursors.
pub open spec fn merged_upto(
    out: Seq<(Vec<u8>, u64)>,
    f: Seq<(Vec<u8>, u64)>,
    i: int,
    b: Seq<(Vec<u8>, u64)>,
    j: int,
    m: Map<Seq<u8>, u64>,
) -> bool {
    let om = pairs_to_map(owned_pairs(out));
    &&& strictly_sorted(owned_pairs(out))
    &&& forall|t: int| 0 <= t < out.len() ==> below(#[trigger] out[t].0@, f, i, b, j)
    &&& forall|k: Seq<u8>| #[trigger] om.contains_key(k) == (m.contains_key(k) && below(k, f, i, b, j))
    &&& forall|k: Seq<u8>| #[trigger] om.contains_key(k) ==> om[k] == m[k]
    &&& forall|a: int| 0 <= a < i ==> om.contains_key(#[trigger] f[a].0@)
    &&& forall|c: int| 0 <= c < j ==> om.contains_key(#[trigger] b[c].0@)
}

/// Appending a pair above every pair of sorted pairs keeps them sorted and adds it to their
/// map.
proof fn lemma_push_sorted(out: Seq<(Vec<u8>, u64)>, x: (Vec<u8>, u64))
    requires
        strictly_sorted(owned_pairs(out)),
        forall|t: int| 0 <= t < out.len() ==> key_lt(#[trigger] out[t].0@, x.0@),
    ensures
        strictly_sorted(owned_pairs(out.push(x))),
        pairs_to_map(owned_pairs(out.push(x))) == pairs_to_map(owned_pairs(out)).insert(x.0@, x.1),
{
    let s = owned_pairs(out);
    let t = owned_pairs(out.push(x));
    assert(t =~= s.push((x.0@, x.1)));
    assert(t.drop_last() =~= s);
    assert forall|a: int, c: int| 0 <= a < c < t.len() implies key_lt(#[trigger] t[a].0, #[trigger] t[c].0) by {
        if c == t.len() - 1 {
            assert(key_lt(out[a].0@, x.0@));
        } else {
            assert(t[a] == s[a] && t[c] == s[c]);
        }
    }
}

/// One step of the merge: the pair taken is the least not yet taken, and it is what the
/// merged map holds for its key.
proof fn lemma_merge_step(
    out: Seq<(Vec<u8>, u64)>,
    f: Seq<(Vec<u8>, u64)>,
    i: int,
    b: Seq<(Vec<u8>, u64)>,
    j: int,
    fm: Map<Seq<u8>, u64>,
    bm: Map<Seq<u8>, u64>,
    x: (Vec<u8>, u64),
    i2: int,
    j2: int,
)
    requires
        0 <= i <= f.len(),
        0 <= j <= b.len(),
        lists_pairs(f, fm, |k: Seq<u8>| true),
        strictly_sorted(owned_pairs(b)),
        bm == pairs_to_map(owned_pairs(b)),
        merged_upto(out, f, i, b, j, fm.union_prefer_right(bm)),
        // Take from f alone, from b alone, or from both when the keys are equal.
        (i < f.len() && (j == b.len() || key_lt(f[i].0@, b[j].0@)) && x.0@ == f[i].0@ && x.1
            == f[i].1 && i2 == i + 1 && j2 == j) || (j < b.len() && (i == f.len() || key_lt(
            b[j].0@,
            f[i].0@,
        )) && x.0@ == b[j].0@ && x.1 == b[j].1 && i2 == i && j2 == j + 1) || (i < f.len() && j
            < b.len() && f[i].0@ == b[j].0@ && x.0@ == b[j].0@ && x.1 == b[j].1 && i2 == i + 1
            && j2 == j + 1),
    ensures
        merged_upto(out.push(x), f, i2, b, j2, fm.union_prefer_right(bm)),
{
    let m = fm.union_prefer_right(bm);
    let s = owned_pairs(b);
    lemma_pairs_to_map_len(s);
    let om = pairs_to_map(owned_pairs(out));
    let k0 = x.0@;
    assert forall|t: int| 0 <= t < out.len() implies key_lt(#[trigger] out[t].0@, k0) by {
        assert(below(out[t].0@, f, i, b, j));
    }
    lemma_push_sorted(out, x);
    let om2 = pairs_to_map(owned_pairs(out.push(x)));
    // The key taken is in the merged map with the value taken.
    if j2 == j + 1 {
        assert(s[j].0 == b[j].0@);
        assert(bm.contains_key(k0));
    } else {
        assert(fm.contains_key(k0));
        assert(!bm.contains_key(k0)) by {
            if bm.contains_key(k0) {
                let jj = choose|jj: int| 0 <= jj < s.len() && s[jj].0 == k0;
                if jj < j {
                    assert(s[jj].0 == b[jj].0@);
                    assert(om.contains_key(b[jj].0@));
                    assert(below(k0, f, i, b, j));
                    lemma_key_lt_total(k0, f[i].0@);
                } else {
                    if jj > j {
                        assert(key_lt(s[j].0, s[jj].0));
                        lemma_key_lt_trans(k0, b[j].0@, s[jj].0);
                    }
                    lemma_key_lt_total(k0, s[jj].0);
                }
            }
        }
    }
    assert(m.contains_key(k0) && m[k0] == x.1);
    assert forall|t: int| 0 <= t < out.push(x).len() implies below(#[trigger] out.push(x)[t].0@, f, i2, b, j2) by {
        let kt = out.push(x)[t].0@;
        if t < out.len() {
            assert(below(kt, f, i, b, j));
        }
        if i2 < f.len() && i2 > i {
            assert(key_lt(f[i].0@, f[i2].0@));
            if t < out.len() {
                lemma_key_lt_trans(kt, f[i].0@, f[i2].0@);
            }
        }
        if j2 < b.len() && j2 > j {
            assert(key_lt(s[j].0, s[j2].0));
            if t < out.len() {
                lemma_key_lt_trans(kt, b[j].0@, b[j2].0@);
            }
        }
        if t == out.len() {
            if i2 < f.len() && i2 == i {
                if j2 > j {
                    assert(key_lt(kt, f[i].0@));
                }
            }
            if j2 < b.len() && j2 == j {
                assert(key_lt(kt, b[j].0@));
            }
        }
    }
    assert forall|k: Seq<u8>| #[trigger] om2.contains_key(k) == (m.contains_key(k) && below(k, f, i2, b, j2)) by {
        if k == k0 {
            // the key taken lies below the new cursors
            if i2 < f.len() && i2 > i {
                assert(key_lt(f[i].0@, f[i2].0@));
            }
            if j2 < b.len() && j2 > j {
                assert(key_lt(s[j].0, s[j2].0));
            }
        } else if om.contains_key(k) {
            assert(below(k, f, i, b, j));
            if i2 < f.len() && i2 > i {
                assert(key_lt(f[i].0@, f[i2].0@));
                lemma_key_lt_trans(k, f[i].0@, f[i2].0@);
            }
            if j2 < b.len() && j2 > j {
                assert(key_lt(s[j].0, s[j2].0));
                lemma_key_lt_trans(k, b[j].0@, b[j2].0@);
            }
        } else if m.contains_key(k) && below(k, f, i2, b, j2) {
            // k lies below the new cursors but not the old: it is the key taken.
            assert(!below(k, f, i, b, j));
            if fm.contains_key(k) {
                let ii = choose|ii: int| 0 <= ii < f.len() && f[ii].0@ == k;
                if ii < i {
                    assert(om.contains_key(f[ii].0@));
                } else if ii == i {
                    if i2 == i {
                        lemma_key_lt_total(k, f[i].0@);
                    }
                } else {
                    if i2 < ii {
                        assert(key_lt(f[i2].0@, f[ii].0@));
                        lemma_key_lt_trans(k, f[i2].0@, k);
                    }
                    lemma_key_lt_total(k, k);
                }
                assert(false);
            } else {
                let jj = choose|jj: int| 0 <= jj < s.len() && s[jj].0 == k;
                assert(s[jj].0 == b[jj].0@);
                if jj < j {
                    assert(om.contains_key(b[jj].0@));
                } else if jj == j {
                    if j2 == j {
                        lemma_key_lt_total(k, b[j].0@);
                    }
                } else {
                    if j2 < jj {
                        assert(key_lt(s[j2].0, s[jj].0));
                        lemma_key_lt_trans(k, b[j2].0@, k);
                    }
                    lemma_key_lt_total(k, k);
                }
                assert(false);
            }
        }
    }
    assert forall|k: Seq<u8>| #[trigger] om2.contains_key(k) implies om2[k] == m[k] by {
        if k != k0 {
            assert(om.contains_key(k));
        }
    }
    assert forall|a: int| 0 <= a < i2 implies om2.contains_key(#[trigger] f[a].0@) by {
        if a < i {
            assert(om.contains_key(f[a].0@));
        }
    }
    assert forall|c: int| 0 <= c < j2 implies om2.contains_key(#[trigger] b[c].0@) by {
        if c < j {
            assert(om.contains_key(b[c].0@));
        }
    }
}


/// The total length of the keys of the first `n` pairs.
pub open spec fn key_bytes(s: Seq<(Seq<u8>, u64)>, n: int) -> nat
    decreases n,
{
    if n <= 0 {
        0
    } else {
        key_bytes(s, n - 1) + s[n - 1].0.len()
    }
}

/// `x`, or `usize::MAX` when it does not fit.
pub open spec fn sat(x: int) -> int {
    if x <= usize::MAX {
        x
    } else {
        usize::MAX as int
    }
}

/// The compaction threshold of a new index.
pub const DEFAULT_COMPACT_THRESHOLD: usize = 100_000;

impl HybridIndex {
    /// An empty index.
    pub fn new() -> (r: Self)
        ensures
            r.wf(),
            r@ == Map::<Seq<u8>, u64>::empty(),
            r.spec_len() == 0,
            r.spec_threshold() == DEFAULT_COMPACT_THRESHOLD,
            !r.has_frozen(),
            r.buffer_pairs().len() == 0,
    {
        Self::with_threshold(DEFAULT_COMPACT_THRESHOLD)
    }

    /// An empty index that merges its buffer once it holds `threshold` keys.
    pub fn with_threshold(threshold: usize) -> (r: Self)
        ensures
            r.wf(),
            r@ == Map::<Seq<u8>, u64>::empty(),
            r.spec_len() == 0,
            r.spec_threshold() == threshold,
            !r.has_frozen(),
            r.buffer_pairs().len() == 0,
    {
        let r = HybridIndex {
            frozen: None,
            buffer: Vec::new(),
            compact_threshold: threshold,
            len: 0,
            frozen_size: 0,
            frozen_pairs: Ghost(Seq::empty()),
        };
        assert(r.buffer_pairs() =~= Seq::<(Seq<u8>, u64)>::empty());
        assert(pairs_to_map(Seq::<(Seq<u8>, u64)>::empty()) =~= Map::<Seq<u8>, u64>::empty());
        assert(r@ =~= Map::<Seq<u8>, u64>::empty());
        assert(r@.dom() =~= Set::<Seq<u8>>::empty());
        r
    }

    /// The number of keys.
    pub fn len(&self) -> (r: usize)
        ensures
            r == self.spec_len(),
    {
        self.len
    }

    /// Whether there are no keys.
    pub fn is_empty(&self) -> (r: bool)
        ensures
            r == (self.spec_len() == 0),
    {
        self.len == 0
    }

    /// The value of `key`: the buffer's if it holds the key, else the transducer's.
    pub fn get(&self, key: &[u8]) -> (r: Option<u64>)
        requires
            self.wf(),
        ensures
            r == (if self@.contains_key(key@) {
                Some(self@[key@])
            } else {
                None
            }),
    {
        let ghost bp = self.buffer_pairs();
        proof {
            lemma_pairs_to_map_len(bp);
        }
        let (found, idx) = search(&self.buffer, key);
        if found {
            assert(bp[idx as int].0 == key@);
            return Some(self.buffer[idx].1);
        }
        proof {
            if pairs_to_map(bp).contains_key(key@) {
                let i = choose|i: int| 0 <= i < bp.len() && bp[i].0 == key@;
                lemma_key_lt_total(key@, key@);
                assert(bp[i].0 == self.buffer@[i].0@);
            }
        }
        match &self.frozen {
            Some(m) => fst_get(m, key),
            None => None,
        }
    }

    /// Insert `key` with `value` into the buffer; returns the value the buffer held for it.
    /// When the buffer then holds as many keys as the threshold, it is merged into the
    /// transducer.
    pub fn insert(&mut self, key: &[u8], value: u64) -> (r: Option<u64>)
        requires
            old(self).wf(),
            old(self)@.contains_key(key@) || old(self)@.len() < usize::MAX,
        ensures
            final(self).wf(),
            final(self)@ == old(self)@.insert(key@, value),
            final(self).spec_len() == final(self)@.len(),
            r == (if pairs_to_map(old(self).buffer_pairs()).contains_key(key@) {
                Some(pairs_to_map(old(self).buffer_pairs())[key@])
            } else {
                None
            }),
            final(self).spec_threshold() == old(self).spec_threshold(),
            ({
                let n = old(self).buffer_pairs().len() + if r is None {
                    1int
                } else {
                    0
                };
                &&& n < old(self).spec_threshold() ==> final(self).buffer_pairs().len() == n
                    && final(self).frozen_pairs() == old(self).frozen_pairs()
                    && final(self).has_frozen() == old(self).has_frozen()
                &&& n >= old(self).spec_threshold() ==> final(self).buffer_pairs().len() == 0
                    && final(self).has_frozen()
            }),
    {
        let ghost bp = self.buffer_pairs();
        proof {
            lemma_pairs_to_map_len(bp);
        }
        let key_vec = crate::art::node::copy_bytes(key, 0, key.len());
        assert(key_vec@ =~= key@);
        let (found, idx) = search(&self.buffer, key);
        let old_value = if found {
            let prev = self.buffer[idx].1;
            self.buffer.set(idx, (key_vec, value));
            proof {
                assert(bp[idx as int].0 == key@);
                lemma_sorted_update(bp, idx as int, value);
                assert(self.buffer_pairs() =~= bp.update(idx as int, (bp[idx as int].0, value)));
            }
            Some(prev)
        } else {
            self.buffer.insert(idx, (key_vec, value));
            proof {
                assert forall|i: int| 0 <= i < idx implies key_lt(#[trigger] bp[i].0, key@) by {
                    assert(bp[i].0 == old(self).buffer@[i].0@);
                }
                assert forall|i: int| idx <= i < bp.len() implies key_lt(key@, #[trigger] bp[i].0) by {
                    assert(bp[i].0 == old(self).buffer@[i].0@);
                }
                lemma_sorted_insert(bp, idx as int, key@, value);
                assert(self.buffer_pairs() =~= bp.insert(idx as int, (key@, value)));
                if pairs_to_map(bp).contains_key(key@) {
                    let i = choose|i: int| 0 <= i < bp.len() && bp[i].0 == key@;
                    lemma_key_lt_total(key@, key@);
                }
            }
            let in_frozen = match &self.frozen {
                Some(m) => fst_contains(m, key),
                None => false,
            };
            if !in_frozen {
                self.len = self.len + 1;
            }
            None
        };
        assert(self@ =~= old(self)@.insert(key@, value));
        proof {
            lemma_pairs_to_map_len(self.buffer_pairs());
            assert(self@.dom() =~= old(self)@.dom().insert(key@));
        }
        if self.buffer.len() >= self.compact_threshold {
            self.compact();
        }
        old_value
    }

    /// Merge the buffer into a new transducer holding every pair, and empty the buffer.
    pub fn compact(&mut self)
        requires
            old(self).wf(),
        ensures
            final(self).wf(),
            final(self)@ == old(self)@,
            final(self).spec_threshold() == old(self).spec_threshold(),
            final(self).spec_len() == final(self)@.len(),
            old(self).buffer_pairs().len() == 0 ==> final(self).spec_len() == old(self).spec_len()
                && final(self).buffer_pairs().len() == 0 && final(self).frozen_map() == old(self).frozen_map()
                && final(self).frozen_pairs() == old(self).frozen_pairs()
                && final(self).has_frozen() == old(self).has_frozen(),
            old(self).buffer_pairs().len() > 0 ==> final(self).buffer_pairs().len() == 0
                && final(self).has_frozen(),
    {
        if self.buffer.len() == 0 {
            return;
        }
        let ghost fm = self.frozen_map();
        let ghost bm = pairs_to_map(self.buffer_pairs());
        let ghost m = fm.union_prefer_right(bm);
        let f: Vec<(Vec<u8>, u64)> = match &self.frozen {
            Some(fr) => fst_pairs(fr),
            None => {
                let e: Vec<(Vec<u8>, u64)> = Vec::new();
                assert(lists_pairs(e@, fm, |k: Seq<u8>| true));
                e
            },
        };
        let mut out: Vec<(Vec<u8>, u64)> = Vec::new();
        let mut i: usize = 0;
        let mut j: usize = 0;
        proof {
            lemma_pairs_to_map_len(self.buffer_pairs());
            assert(owned_pairs(out@) =~= Seq::<(Seq<u8>, u64)>::empty());
            assert(pairs_to_map(owned_pairs(out@)) =~= Map::<Seq<u8>, u64>::empty());
            assert forall|k: Seq<u8>| #[trigger] pairs_to_map(owned_pairs(out@)).contains_key(k) == (
            m.contains_key(k) && below(k, f@, 0, self.buffer@, 0)) by {
                if m.contains_key(k) {
                    if fm.contains_key(k) {
                        let ii = choose|ii: int| 0 <= ii < f@.len() && f@[ii].0@ == k;
                        if ii > 0 {
                            assert(key_lt(f@[0].0@, f@[ii].0@));
                        }
                        lemma_key_lt_total(k, f@[0].0@);
                    } else {
                        let s = self.buffer_pairs();
                        let jj = choose|jj: int| 0 <= jj < s.len() && s[jj].0 == k;
                        if jj > 0 {
                            assert(key_lt(s[0].0, s[jj].0));
                        }
                        assert(s[0].0 == self.buffer@[0].0@);
                        lemma_key_lt_total(k, self.buffer@[0].0@);
                    }
                }
            }
        }
        while i < f.len() || j < self.buffer.len()
            invariant
                i <= f@.len(),
                j <= self.buffer@.len(),
                lists_pairs(f@, fm, |k: Seq<u8>| true),
                strictly_sorted(owned_pairs(self.buffer@)),
                bm == pairs_to_map(owned_pairs(self.buffer@)),
                m == fm.union_prefer_right(bm),
                merged_upto(out@, f@, i as int, self.buffer@, j as int, m),
                out@.len() <= i + j,
            decreases f@.len() + self.buffer@.len() - i - j,
        {
            let take_f;
            let take_b;
            if i < f.len() && j < self.buffer.len() {
                match compare_keys(f[i].0.as_slice(), self.buffer[j].0.as_slice()) {
                    KeyOrder::Less => {
                        take_f = true;
                        take_b = false;
                    },
                    KeyOrder::Equal => {
                        take_f = true;
                        take_b = true;
                    },
                    KeyOrder::Greater => {
                        take_f = false;
                        take_b = true;
                    },
                }
            } else if i < f.len() {
                take_f = true;
                take_b = false;
            } else {
                take_f = false;
                take_b = true;
            }
            let x = if take_b {
                let k = crate::art::node::copy_bytes(
                    self.buffer[j].0.as_slice(),
                    0,
                    self.buffer[j].0.len(),
                );
                (k, self.buffer[j].1)
            } else {
                let k = crate::art::node::copy_bytes(f[i].0.as_slice(), 0, f[i].0.len());
                (k, f[i].1)
            };
            let i2 = if take_f {
                i + 1
            } else {
                i
            };
            let j2 = if take_b {
                j + 1
            } else {
                j
            };
            proof {
                assert(x.0@ =~= (if take_b {
                    self.buffer@[j as int].0@
                } else {
                    f@[i as int].0@
                }));
                lemma_merge_step(out@, f@, i as int, self.buffer@, j as int, fm, bm, x, i2 as int, j2 as int);
            }
            out.push(x);
            i = i2;
            j = j2;
        }
        let ghost om = pairs_to_map(owned_pairs(out@));
        proof {
            assert forall|k: Seq<u8>| om.contains_key(k) == m.contains_key(k) by {}
            assert(om =~= m);
        }
        let mut builder = builder_memory();
        let mut t: usize = 0;
        while t < out.len()
            invariant
                t <= out@.len(),
                strictly_sorted(owned_pairs(out@)),
                fst_builder_pairs(builder) == owned_pairs(out@).subrange(0, t as int),
            decreases out@.len() - t,
        {
            let ghost before = fst_builder_pairs(builder);
            proof {
                if t > 0 {
                    assert(before.last() == owned_pairs(out@)[t - 1]);
                    assert(key_lt(owned_pairs(out@)[t - 1].0, owned_pairs(out@)[t as int].0));
                }
            }
            match builder_insert(&mut builder, out[t].0.as_slice(), out[t].1) {
                Ok(()) => {},
                Err(_) => {
                    proof {
                        assert(false);
                    }
                },
            }
            assert(fst_builder_pairs(builder) =~= owned_pairs(out@).subrange(0, t + 1));
            t += 1;
        }
        assert(owned_pairs(out@).subrange(0, out@.len() as int) =~= owned_pairs(out@));
        let (map, map_size) = builder_into_map(builder);
        proof {
            lemma_pairs_to_map_len(owned_pairs(out@));
        }
        self.frozen = Some(map);
        self.frozen_size = map_size;
        self.frozen_pairs = Ghost(owned_pairs(out@));
        self.buffer = Vec::new();
        self.len = out.len();
        proof {
            assert(self.buffer_pairs() =~= Seq::<(Seq<u8>, u64)>::empty());
            assert(pairs_to_map(self.buffer_pairs()) =~= Map::<Seq<u8>, u64>::empty());
            assert(self@ =~= m);
        }
    }

    /// The size of the transducer, and an estimate of the buffer's: its key bytes, eight bytes
    /// a value and forty-eight bytes a node.
    pub fn memory_stats(&self) -> (r: HybridStats)
        requires
            self.wf(),
        ensures
            r.buffer_entries == self.buffer_pairs().len(),
            r.buffer_bytes == sat(
                (key_bytes(self.buffer_pairs(), self.buffer_pairs().len() as int) + 56
                    * self.buffer_pairs().len()) as int,
            ),
            r.total_bytes == sat(r.frozen_bytes + r.buffer_bytes),
            r.len == self.spec_len(),
            r.frozen_bytes == if self.has_frozen() {
                fst_encoded_len(self.frozen_pairs())
            } else {
                0
            },
    {
        let frozen_bytes = self.frozen_size;
        let ghost bp = self.buffer_pairs();
        let mut key_total: usize = 0;
        let mut i: usize = 0;
        while i < self.buffer.len()
            invariant
                i <= self.buffer@.len(),
                bp == owned_pairs(self.buffer@),
                key_total == sat(key_bytes(bp, i as int) as int),
            decreases self.buffer@.len() - i,
        {
            key_total = key_total.saturating_add(self.buffer[i].0.len());
            i += 1;
        }
        let n = self.buffer.len();
        let per = match n.checked_mul(56) {
            Some(x) => x,
            None => usize::MAX,
        };
        let buffer_bytes = key_total.saturating_add(per);
        HybridStats {
            frozen_bytes,
            buffer_entries: n,
            buffer_bytes,
            total_bytes: frozen_bytes.saturating_add(buffer_bytes),
            len: self.len,
        }
    }
}

impl Default for HybridIndex {
    fn default() -> (r: Self)
        ensures
            r.wf(),
            r@ == Map::<Seq<u8>, u64>::empty(),
            r.spec_len() == 0,
    {
        Self::new()
    }
}

/// Collects pairs, given in strictly increasing key order, for a [`HybridIndex`].
pub struct HybridBuilder {
    data: Vec<(Vec<u8>, u64)>,
}

impl HybridBuilder {
    /// The pairs added so far.
    pub closed spec fn spec_pairs(&self) -> Seq<(Seq<u8>, u64)> {
        owned_pairs(self.data@)
    }

    /// A builder with nothing added.
    pub fn new() -> (r: Self)
        ensures
            r.spec_pairs().len() == 0,
    {
        HybridBuilder { data: Vec::new() }
    }

    /// Add a pair; keys are to come in strictly increasing order.
    pub fn add(&mut self, key: &[u8], value: u64)
        ensures
            final(self).spec_pairs() == old(self).spec_pairs().push((key@, value)),
    {
        let k = crate::art::node::copy_bytes(key, 0, key.len());
        assert(k@ =~= key@);
        self.data.push((k, value));
        assert(self.spec_pairs() =~= old(self).spec_pairs().push((key@, value)));
    }

    /// The index: the pairs in a transducer, the buffer empty.
    pub fn finish(self) -> (r: HybridIndex)
        requires
            strictly_sorted(self.spec_pairs()),
        ensures
            r.wf(),
            r@ == pairs_to_map(self.spec_pairs()),
            r.spec_len() == self.spec_pairs().len(),
            r.spec_threshold() == DEFAULT_COMPACT_THRESHOLD,
            r.buffer_pairs().len() == 0,
            r.spec_len() > 0 ==> r.frozen_pairs() == self.spec_pairs(),
    {
        let len = self.data.len();
        if len == 0 {
            let r = HybridIndex::new();
            assert(pairs_to_map(self.spec_pairs()) =~= Map::<Seq<u8>, u64>::empty());
            return r;
        }
        let ghost ps = self.spec_pairs();
        let mut builder = builder_memory();
        let mut t: usize = 0;
        while t < len
            invariant
                t <= len == self.data@.len(),
                ps == owned_pairs(self.data@),
                strictly_sorted(ps),
                fst_builder_pairs(builder) == ps.subrange(0, t as int),
            decreases len - t,
        {
            let ghost before = fst_builder_pairs(builder);
            proof {
                if t > 0 {
                    assert(before.last() == ps[t - 1]);
                    assert(key_lt(ps[t - 1].0, ps[t as int].0));
                }
            }
            match builder_insert(&mut builder, self.data[t].0.as_slice(), self.data[t].1) {
                Ok(()) => {},
                Err(_) => {
                    proof {
                        assert(false);
                    }
                },
            }
            assert(fst_builder_pairs(builder) =~= ps.subrange(0, t + 1));
            t += 1;
        }
        assert(ps.subrange(0, len as int) =~= ps);
        let (map, map_size) = builder_into_map(builder);
        proof {
            lemma_pairs_to_map_len(ps);
        }
        let r = HybridIndex {
            frozen: Some(map),
            buffer: Vec::new(),
            compact_threshold: DEFAULT_COMPACT_THRESHOLD,
            len,
            frozen_size: map_size,
            frozen_pairs: Ghost(ps),
        };
        proof {
            assert(r.buffer_pairs() =~= Seq::<(Seq<u8>, u64)>::empty());
            assert(pairs_to_map(r.buffer_pairs()) =~= Map::<Seq<u8>, u64>::empty());
            assert(r@ =~= pairs_to_map(ps));
        }
        r
    }
}

impl Default for HybridBuilder {
    fn default() -> (r: Self)
        ensures
            r.spec_pairs().len() == 0,
    {
        Self::new()
    }
}

} // verus!
