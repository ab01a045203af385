//! An immutable layer of sorted keys with `u64` values, kept in a finite state transducer
//! (the `fst` crate), which shares the prefixes and suffixes of the keys.
//!
//! The layer is built once from keys in strictly increasing order and then only read.
use vstd::prelude::*;
use crate::sorted::{key_lt, lemma_key_lt_total};

verus! {

#[verifier::external_type_specification]
#[verifier::external_body]
#[verifier::reject_recursive_types(D)]
pub struct ExFstMap<D>(fst::Map<D>);

#[verifier::external_type_specification]
#[verifier::external_body]
#[verifier::reject_recursive_types(W)]
pub struct ExFstMapBuilder<W>(fst::MapBuilder<W>);

#[verifier::external_type_specification]
#[verifier::external_body]
pub struct ExFstError(fst::Error);

/// The pairs a transducer map holds.
pub uninterp spec fn fst_map_contents(m: fst::Map<Vec<u8>>) -> Map<Seq<u8>, u64>;

/// The pairs inserted into a transducer builder so far, in order.
pub uninterp spec fn fst_builder_pairs(b: fst::MapBuilder<Vec<u8>>) -> Seq<(Seq<u8>, u64)>;

/// The map that a list of pairs makes, later pairs winning.
pub open spec fn pairs_to_map(s: Seq<(Seq<u8>, u64)>) -> Map<Seq<u8>, u64>
    decreases s.len(),
{
    if s.len() == 0 {
        Map::empty()
    } else {
        pairs_to_map(s.drop_last()).insert(s.last().0, s.last().1)
    }
}

/// Keys in strictly increasing order.
pub open spec fn strictly_sorted(s: Seq<(Seq<u8>, u64)>) -> bool {
    forall|i: int, j: int| 0 <= i < j < s.len() ==> key_lt(#[trigger] s[i].0, #[trigger] s[j].0)
}

/// `v` lists, in increasing key order, exactly the pairs of `m` whose key satisfies `inside`.
pub open spec fn lists_pairs(
    v: Seq<(Vec<u8>, u64)>,
    m: Map<Seq<u8>, u64>,
    inside: spec_fn(Seq<u8>) -> bool,
) -> bool {
    &&& forall|i: int, j: int| 0 <= i < j < v.len() ==> key_lt(#[trigger] v[i].0@, #[trigger] v[j].0@)
    &&& forall|i: int|
        0 <= i < v.len() ==> inside(#[trigger] v[i].0@) && m.contains_key(v[i].0@) && m[v[i].0@]
            == v[i].1
    &&& forall|k: Seq<u8>|
        #[trigger] m.contains_key(k) && inside(k) ==> exists|i: int| 0 <= i < v.len() && v[i].0@ == k
}

/// `MapBuilder::memory`: a builder that writes the transducer to memory, with nothing in it.
#[verifier::external_body]
pub(crate) fn builder_memory() -> (b: fst::MapBuilder<Vec<u8>>)
    ensures
        fst_builder_pairs(b) == Seq::<(Seq<u8>, u64)>::empty(),
{
    fst::MapBuilder::memory()
}

/// `MapBuilder::insert` on an in-memory builder: a key that does not come after the last one
/// inserted is refused and the builder stays as it was; any other key is added with its value.
/// The builder fails otherwise only when its writer does, and a `Vec` writer does not.
#[verifier::external_body]
pub(crate) fn builder_insert(b: &mut fst::MapBuilder<Vec<u8>>, key: &[u8], value: u64) -> (r: Result<
    (),
    fst::Error,
>)
    ensures
        ({
            let p = fst_builder_pairs(*old(b));
            p.len() == 0 || key_lt(p.last().0, key@)
        }) ==> r is Ok && fst_builder_pairs(*final(b)) == fst_builder_pairs(*old(b)).push(
            (key@, value),
        ),
        !({
            let p = fst_builder_pairs(*old(b));
            p.len() == 0 || key_lt(p.last().0, key@)
        }) ==> r is Err && fst_builder_pairs(*final(b)) == fst_builder_pairs(*old(b)),
{
    b.insert(key, value)
}

/// The number of bytes of the transducer that an in-memory builder writes for the pairs
/// inserted, in order.
pub uninterp spec fn fst_encoded_len(pairs: Seq<(Seq<u8>, u64)>) -> nat;

/// `MapBuilder::into_map` on an in-memory builder: the map of the pairs inserted, with the
/// length of the bytes it is read from (`Map::as_fst().as_bytes()`). The builder starts from
/// a fixed state and hashes deterministically, so that length depends on the pairs alone;
/// it is at least 36, the fewest bytes that `raw::Fst::new` accepts.
#[verifier::external_body]
pub(crate) fn builder_into_map(b: fst::MapBuilder<Vec<u8>>) -> (r: (fst::Map<Vec<u8>>, usize))
    ensures
        fst_map_contents(r.0) == pairs_to_map(fst_builder_pairs(b)),
        r.1 == fst_encoded_len(fst_builder_pairs(b)),
        r.1 >= 36,
{
    let m = b.into_map();
    let n = m.as_fst().as_bytes().len();
    (m, n)
}

/// `Map::get`: the value of `key`, if the map holds it.
#[verifier::external_body]
pub(crate) fn fst_get(m: &fst::Map<Vec<u8>>, key: &[u8]) -> (r: Option<u64>)
    ensures
        r == (if fst_map_contents(*m).contains_key(key@) {
            Some(fst_map_contents(*m)[key@])
        } else {
            None
        }),
{
    m.get(key)
}

/// `Map::contains_key`: whether the map holds `key`.
#[verifier::external_body]
pub(crate) fn fst_contains(m: &fst::Map<Vec<u8>>, key: &[u8]) -> (r: bool)
    ensures
        r == fst_map_contents(*m).contains_key(key@),
{
    m.contains_key(key)
}

/// `Map::stream`, read to its end: every pair, in increasing key order.
#[verifier::external_body]
pub(crate) fn fst_pairs(m: &fst::Map<Vec<u8>>) -> (r: Vec<(Vec<u8>, u64)>)
    ensures
        lists_pairs(r@, fst_map_contents(*m), |k: Seq<u8>| true),
{
    m.stream().into_byte_vec()
}

/// `Map::range` with a lower bound, read to its end: the pairs whose key is at least
/// `start`, in increasing key order.
#[verifier::external_body]
fn fst_pairs_from(m: &fst::Map<Vec<u8>>, start: &[u8]) -> (r: Vec<(Vec<u8>, u64)>)
    ensures
        lists_pairs(r@, fst_map_contents(*m), |k: Seq<u8>| !key_lt(k, start@)),
{
    fst::IntoStreamer::into_stream(m.range().ge(start)).into_byte_vec()
}

/// `Map::range` with both bounds, read to its end: the pairs whose key is at least `start`
/// and below `end`, in increasing key order.
#[verifier::external_body]
fn fst_pairs_between(m: &fst::Map<Vec<u8>>, start: &[u8], end: &[u8]) -> (r: Vec<(Vec<u8>, u64)>)
    ensures
        lists_pairs(r@, fst_map_contents(*m), |k: Seq<u8>| !key_lt(k, start@) && key_lt(k, end@)),
{
    fst::IntoStreamer::into_stream(m.range().ge(start).lt(end)).into_byte_vec()
}

/// What can go wrong in the frozen layer.
#[derive(Debug)]
pub enum FrozenError {
    /// The transducer refused a key or could not be built or read.
    Fst(fst::Error),
}

/// A layer of keys and values, immutable once built.
pub struct FrozenLayer {
    fst: fst::Map<Vec<u8>>,
    fst_size: usize,
    len: usize,
    pairs: Ghost<Seq<(Seq<u8>, u64)>>,
}

/// Builds a [`FrozenLayer`] from keys given in strictly increasing order.
pub struct FrozenLayerBuilder {
    builder: fst::MapBuilder<Vec<u8>>,
    count: usize,
}

/// Size of a frozen layer.
pub struct FrozenStats {
    /// Bytes of the serialized transducer.
    pub fst_bytes: usize,
    /// Number of keys.
    pub key_count: usize,
}

impl FrozenLayerBuilder {
    /// The pairs inserted so far.
    pub closed spec fn spec_pairs(&self) -> Seq<(Seq<u8>, u64)> {
        fst_builder_pairs(self.builder)
    }

    /// The count is that of the pairs inserted, whose keys increase strictly.
    pub closed spec fn wf(&self) -> bool {
        &&& self.count == fst_builder_pairs(self.builder).len()
        &&& strictly_sorted(fst_builder_pairs(self.builder))
    }

    /// An empty builder.
    pub fn new() -> (r: Result<Self, FrozenError>)
        ensures
            r matches Ok(b) ==> b.wf() && b.spec_pairs().len() == 0,
            r is Ok,
    {
        Ok(FrozenLayerBuilder { builder: builder_memory(), count: 0 })
    }

    /// Add a pair; the key must come after every key added before, else it is refused and
    /// nothing changes.
    pub fn insert(&mut self, key: &[u8], value: u64) -> (r: Result<(), FrozenError>)
        requires
            old(self).wf(),
            old(self).spec_pairs().len() < usize::MAX,
        ensures
            final(self).wf(),
            (old(self).spec_pairs().len() == 0 || key_lt(old(self).spec_pairs().last().0, key@))
                ==> r is Ok && final(self).spec_pairs() == old(self).spec_pairs().push((key@, value)),
            !(old(self).spec_pairs().len() == 0 || key_lt(old(self).spec_pairs().last().0, key@))
                ==> r is Err && final(self).spec_pairs() == old(self).spec_pairs(),
    {
        let ghost before = fst_builder_pairs(self.builder);
        match builder_insert(&mut self.builder, key, value) {
            Ok(()) => {
                self.count = self.count + 1;
                proof {
                    let p = fst_builder_pairs(self.builder);
                    assert forall|a: int, b: int| 0 <= a < b < p.len() implies key_lt(
                        #[trigger] p[a].0,
                        #[trigger] p[b].0,
                    ) by {
                        if b == p.len() - 1 {
                            lemma_key_lt_trans_pairs(before, a, key@);
                        } else {
                            assert(p[a] == before[a] && p[b] == before[b]);
                        }
                    }
                }
                Ok(())
            },
            Err(e) => Err(FrozenError::Fst(e)),
        }
    }

    /// Finish the transducer and open it as a layer holding the pairs inserted.
    pub fn finish(self) -> (r: Result<FrozenLayer, FrozenError>)
        requires
            self.wf(),
        ensures
            r is Ok,
            r matches Ok(l) ==> l.wf() && l@ == pairs_to_map(self.spec_pairs()) && l@.len()
                == self.spec_pairs().len() && l.spec_pairs() == self.spec_pairs(),
    {
        let count = self.count;
        let ghost pairs = self.spec_pairs();
        let (fst, fst_size) = builder_into_map(self.builder);
        proof {
            lemma_pairs_to_map_len(pairs);
        }
        Ok(FrozenLayer { fst, fst_size, len: count, pairs: Ghost(pairs) })
    }
}

/// The map of strictly sorted pairs has one key per pair, and holds each pair.
pub proof fn lemma_pairs_to_map_len(s: Seq<(Seq<u8>, u64)>)
    requires
        strictly_sorted(s),
    ensures
        pairs_to_map(s).dom().finite(),
        pairs_to_map(s).len() == s.len(),
        forall|i: int| 0 <= i < s.len() ==> #[trigger] pairs_to_map(s).contains_key(s[i].0)
            && pairs_to_map(s)[s[i].0] == s[i].1,
        forall|k: Seq<u8>| #[trigger] pairs_to_map(s).contains_key(k) ==> exists|i: int|
            0 <= i < s.len() && s[i].0 == k,
    decreases s.len(),
{
    if s.len() > 0 {
        let t = s.drop_last();
        assert(strictly_sorted(t)) by {
            assert forall|i: int, j: int| 0 <= i < j < t.len() implies key_lt(#[trigger] t[i].0, #[trigger] t[j].0) by {
                assert(t[i] == s[i] && t[j] == s[j]);
            }
        }
        lemma_pairs_to_map_len(t);
        let last = s.last();
        assert(!pairs_to_map(t).contains_key(last.0)) by {
            if pairs_to_map(t).contains_key(last.0) {
                let i = choose|i: int| 0 <= i < t.len() && t[i].0 == last.0;
                assert(key_lt(s[i].0, s[s.len() - 1].0));
                lemma_key_lt_total(last.0, last.0);
            }
        }
        assert forall|i: int| 0 <= i < s.len() implies #[trigger] pairs_to_map(s).contains_key(s[i].0)
            && pairs_to_map(s)[s[i].0] == s[i].1 by {
            if i < s.len() - 1 {
                assert(t[i] == s[i]);
                assert(key_lt(s[i].0, s[s.len() - 1].0));
                lemma_key_lt_total(s[i].0, last.0);
            }
        }
        assert forall|k: Seq<u8>| #[trigger] pairs_to_map(s).contains_key(k) implies exists|i: int|
            0 <= i < s.len() && s[i].0 == k by {
            if k != last.0 {
                let i = choose|i: int| 0 <= i < t.len() && t[i].0 == k;
                assert(s[i] == t[i]);
            } else {
                assert(s[s.len() - 1].0 == k);
            }
        }
    }
}

impl Default for FrozenLayerBuilder {
    fn default() -> (r: Self)
        ensures
            r.wf(),
            r.spec_pairs().len() == 0,
    {
        FrozenLayerBuilder { builder: builder_memory(), count: 0 }
    }
}

impl View for FrozenLayer {
    type V = Map<Seq<u8>, u64>;

    closed spec fn view(&self) -> Map<Seq<u8>, u64> {
        fst_map_contents(self.fst)
    }
}

impl FrozenLayer {
    /// The pairs the layer was built from, in increasing key order.
    pub closed spec fn spec_pairs(&self) -> Seq<(Seq<u8>, u64)> {
        self.pairs@
    }

    pub closed spec fn wf(&self) -> bool {
        &&& self@.dom().finite()
        &&& self.len == self@.len()
        &&& self.fst_size >= 36
        &&& self.fst_size == fst_encoded_len(self.pairs@)
        &&& self@ == pairs_to_map(self.pairs@)
        &&& strictly_sorted(self.pairs@)
    }

    /// Build a layer from pairs in strictly increasing key order; a pair out of order is
    /// refused.
    pub fn from_sorted_iter<'a>(items: Vec<(&'a [u8], u64)>) -> (r: Result<Self, FrozenError>)
        requires
            items@.len() < usize::MAX,
        ensures
            r matches Ok(l) ==> l.wf() && l@ == pairs_to_map(pair_list(items@)) && l.spec_pairs()
                == pair_list(items@),
            r is Ok <==> strictly_sorted(pair_list(items@)),
    {
        let mut builder = match FrozenLayerBuilder::new() {
            Ok(b) => b,
            Err(e) => {
                return Err(e);
            },
        };
        let mut i: usize = 0;
        while i < items.len()
            invariant
                i <= items@.len() < usize::MAX,
                builder.wf(),
                builder.spec_pairs() == pair_list(items@).subrange(0, i as int),
                strictly_sorted(builder.spec_pairs()),
            decreases items@.len() - i,
        {
            let (key, value) = items[i];
            let ghost before = builder.spec_pairs();
            match builder.insert(key, value) {
                Ok(()) => {},
                Err(e) => {
                    proof {
                        let s = pair_list(items@);
                        assert(s[i as int] == (key@, value));
                        if strictly_sorted(s) {
                            assert(before.last() == s[i - 1]);
                            assert(key_lt(s[i - 1].0, s[i as int].0));
                        }
                    }
                    return Err(e);
                },
            }
            proof {
                let s = pair_list(items@);
                assert(builder.spec_pairs() =~= s.subrange(0, i + 1));
                let p = builder.spec_pairs();
                assert forall|a: int, b: int| 0 <= a < b < p.len() implies key_lt(#[trigger] p[a].0, #[trigger] p[b].0) by {
                    if b == p.len() - 1 && a < b - 1 {
                        lemma_key_lt_trans_pairs(before, a, key@);
                    }
                }
            }
            i += 1;
        }
        assert(pair_list(items@).subrange(0, items@.len() as int) =~= pair_list(items@));
        builder.finish()
    }

    /// The value of `key`, if the layer holds it.
    pub fn get(&self, key: &[u8]) -> (r: Option<u64>)
        ensures
            r == (if self@.contains_key(key@) {
                Some(self@[key@])
            } else {
                None
            }),
    {
        fst_get(&self.fst, key)
    }

    /// Whether the layer holds `key`.
    pub fn contains(&self, key: &[u8]) -> (r: bool)
        ensures
            r == self@.contains_key(key@),
    {
        fst_contains(&self.fst, key)
    }

    /// The number of keys.
    pub fn len(&self) -> (r: usize)
        requires
            self.wf(),
        ensures
            r == self@.len(),
    {
        self.len
    }

    /// Whether there are no keys.
    pub fn is_empty(&self) -> (r: bool)
        requires
            self.wf(),
        ensures
            r == (self@.len() == 0),
    {
        self.len == 0
    }

    /// The size of the transducer and the number of keys.
    pub fn stats(&self) -> (r: FrozenStats)
        requires
            self.wf(),
        ensures
            r.fst_bytes == self.spec_fst_size(),
            r.fst_bytes == fst_encoded_len(self.spec_pairs()),
            r.fst_bytes >= 36,
            r.key_count == self@.len(),
    {
        FrozenStats { fst_bytes: self.fst_size, key_count: self.len }
    }

    /// The size of the serialized transducer.
    pub closed spec fn spec_fst_size(&self) -> nat {
        self.fst_size as nat
    }

    /// Every pair, in increasing key order.
    pub fn iter(&self) -> (r: Vec<(Vec<u8>, u64)>)
        ensures
            lists_pairs(r@, self@, |k: Seq<u8>| true),
    {
        fst_pairs(&self.fst)
    }

    /// The pairs whose key is at least `start` and below `end`, in increasing key order.
    pub fn range(&self, start: &[u8], end: &[u8]) -> (r: Vec<(Vec<u8>, u64)>)
        ensures
            lists_pairs(r@, self@, |k: Seq<u8>| !key_lt(k, start@) && key_lt(k, end@)),
    {
        fst_pairs_between(&self.fst, start, end)
    }

    /// The pairs whose key starts with `prefix`, in increasing key order.
    pub fn prefix_scan(&self, prefix: &[u8]) -> (r: Vec<(Vec<u8>, u64)>)
        ensures
            lists_pairs(r@, self@, |k: Seq<u8>| has_prefix(k, prefix@)),
    {
        match prefix_end(prefix) {
            None => {
                let r = fst_pairs_from(&self.fst, prefix);
                proof {
                    assert forall|k: Seq<u8>| has_prefix(k, prefix@) == !key_lt(k, prefix@) by {
                        lemma_prefix_end_none(prefix@, k);
                    }
                    lemma_lists_same(r@, self@, |k: Seq<u8>| !key_lt(k, prefix@), |k: Seq<u8>| has_prefix(k, prefix@));
                }
                r
            },
            Some(end) => {
                let r = fst_pairs_between(&self.fst, prefix, end.as_slice());
                proof {
                    assert forall|k: Seq<u8>| has_prefix(k, prefix@) == (!key_lt(k, prefix@) && key_lt(k, end@)) by {
                        lemma_prefix_end_some(prefix@, end@, k);
                    }
                    lemma_lists_same(
                        r@,
                        self@,
                        |k: Seq<u8>| !key_lt(k, prefix@) && key_lt(k, end@),
                        |k: Seq<u8>| has_prefix(k, prefix@),
                    );
                }
                r
            },
        }
    }
}

/// The pairs of a list of borrowed keys and values, as plain sequences.
pub open spec fn pair_list(items: Seq<(&[u8], u64)>) -> Seq<(Seq<u8>, u64)> {
    Seq::new(items.len(), |i: int| (items[i].0@, items[i].1))
}

proof fn lemma_key_lt_trans_pairs(p: Seq<(Seq<u8>, u64)>, a: int, k: Seq<u8>)
    requires
        strictly_sorted(p),
        0 <= a < p.len(),
        key_lt(p.last().0, k),
    ensures
        key_lt(p[a].0, k),
{
    if a < p.len() - 1 {
        crate::sorted::lemma_key_lt_trans(p[a].0, p.last().0, k);
    }
}

/// `k` starts with `prefix`.
pub open spec fn has_prefix(k: Seq<u8>, prefix: Seq<u8>) -> bool {
    prefix.len() <= k.len() && k.subrange(0, prefix.len() as int) == prefix
}

/// Two descriptions of the same keys list the same pairs.
proof fn lemma_lists_same(
    v: Seq<(Vec<u8>, u64)>,
    m: Map<Seq<u8>, u64>,
    a: spec_fn(Seq<u8>) -> bool,
    b: spec_fn(Seq<u8>) -> bool,
)
    requires
        lists_pairs(v, m, a),
        forall|k: Seq<u8>| #[trigger] b(k) == a(k),
    ensures
        lists_pairs(v, m, b),
{
    assert forall|i: int| 0 <= i < v.len() implies b(#[trigger] v[i].0@) && m.contains_key(v[i].0@)
        && m[v[i].0@] == v[i].1 by {
        assert(a(v[i].0@) == b(v[i].0@));
    }
    assert forall|k: Seq<u8>| #[trigger] m.contains_key(k) && b(k) implies exists|i: int|
        0 <= i < v.len() && v[i].0@ == k by {
        assert(a(k) == b(k));
    }
}

/// The least key above every key that starts with `prefix`: `prefix` with its trailing `0xFF`
/// bytes dropped and its last byte then raised by one. `None` when the prefix is all `0xFF`
/// (no such key: every key from `prefix` on starts with it).
pub fn prefix_end(prefix: &[u8]) -> (r: Option<Vec<u8>>)
    ensures
        r matches Some(e) ==> prefix_end_spec(prefix@) == Some(e@),
        r is None ==> prefix_end_spec(prefix@) is None,
{
    let mut n = prefix.len();
    while n > 0 && prefix[n - 1] == 255
        invariant
            n <= prefix@.len(),
            forall|j: int| n <= j < prefix@.len() ==> prefix@[j] == 255,
        decreases n,
    {
        n -= 1;
    }
    if n == 0 {
        proof {
            lemma_prefix_end_spec(prefix@, 0);
        }
        None
    } else {
        let mut end = crate::art::node::copy_bytes(prefix, 0, n);
        let last = end[n - 1];
        end.set(n - 1, last + 1);
        proof {
            lemma_prefix_end_spec(prefix@, n as int);
            assert(end@ =~= prefix@.subrange(0, n - 1).push((prefix@[n - 1] + 1) as u8));
        }
        Some(end)
    }
}

/// The number of bytes of `p` before its trailing `0xFF` bytes.
pub open spec fn kept_len(p: Seq<u8>) -> nat
    decreases p.len(),
{
    if p.len() == 0 {
        0
    } else if p.last() == 255 {
        kept_len(p.drop_last())
    } else {
        p.len()
    }
}

/// What [`prefix_end`] returns.
pub open spec fn prefix_end_spec(p: Seq<u8>) -> Option<Seq<u8>> {
    let n = kept_len(p) as int;
    if n == 0 {
        None
    } else {
        Some(p.subrange(0, n - 1).push((p[n - 1] + 1) as u8))
    }
}

proof fn lemma_prefix_end_spec(p: Seq<u8>, n: int)
    requires
        0 <= n <= p.len(),
        forall|j: int| n <= j < p.len() ==> p[j] == 255,
        n == 0 || p[n - 1] != 255,
    ensures
        kept_len(p) == n,
    decreases p.len(),
{
    if p.len() > n {
        lemma_prefix_end_spec(p.drop_last(), n);
    }
}

proof fn lemma_kept_len(p: Seq<u8>)
    ensures
        kept_len(p) <= p.len(),
        forall|j: int| kept_len(p) <= j < p.len() ==> p[j] == 255,
        kept_len(p) > 0 ==> p[kept_len(p) - 1] != 255,
    decreases p.len(),
{
    if p.len() > 0 && p.last() == 255 {
        let q = p.drop_last();
        lemma_kept_len(q);
        assert forall|j: int| kept_len(p) <= j < p.len() implies p[j] == 255 by {
            if j < q.len() {
                assert(p[j] == q[j]);
            }
        }
    }
}

/// With no end, a key starts with `prefix` exactly when it is at least `prefix`.
pub(crate) proof fn lemma_prefix_end_none(p: Seq<u8>, k: Seq<u8>)
    requires
        prefix_end_spec(p) is None,
    ensures
        has_prefix(k, p) == !key_lt(k, p),
{
    lemma_kept_len(p);
    crate::encoding::lemma_common_prefix(k, p);
    let c = crate::encoding::common_prefix(k, p) as int;
    if has_prefix(k, p) {
        crate::encoding::lemma_common_prefix_unique(k, p, p.len() as int);
    } else if !key_lt(k, p) {
        if c < p.len() && c < k.len() {
            assert(p[c] == 255);
        } else if c == k.len() && c < p.len() {
        } else {
            assert(k.subrange(0, p.len() as int) =~= p);
        }
    }
}

/// With an end, a key starts with `prefix` exactly when it is at least `prefix` and below the
/// end.
pub(crate) proof fn lemma_prefix_end_some(p: Seq<u8>, e: Seq<u8>, k: Seq<u8>)
    requires
        prefix_end_spec(p) == Some(e),
    ensures
        has_prefix(k, p) == (!key_lt(k, p) && key_lt(k, e)),
{
    lemma_kept_len(p);
    let n = kept_len(p) as int;
    crate::encoding::lemma_common_prefix(k, p);
    crate::encoding::lemma_common_prefix(k, e);
    let c = crate::encoding::common_prefix(k, p) as int;
    let d = crate::encoding::common_prefix(k, e) as int;
    assert(e.len() == n);
    if has_prefix(k, p) {
        crate::encoding::lemma_common_prefix_unique(k, p, p.len() as int);
        assert forall|j: int| 0 <= j < n - 1 implies k[j] == e[j] by {
            assert(k[j] == k.subrange(0, p.len() as int)[j]);
        }
        assert(k[n - 1] == p[n - 1]);
        crate::encoding::lemma_common_prefix_unique(k, e, n - 1);
    } else if !key_lt(k, p) && key_lt(k, e) {
        // k is at least p, below e, yet does not start with p: impossible.
        if c < p.len() && c < k.len() {
            assert(k[c] > p[c]);
            if c < n - 1 {
                assert(e[c] == p[c]);
                crate::encoding::lemma_common_prefix_unique(k, e, c);
            } else if c == n - 1 {
                crate::encoding::lemma_common_prefix_unique(k, e, c);
            } else {
                assert(p[c] == 255);
            }
        } else if c == k.len() && c < p.len() {
        } else {
            assert(k.subrange(0, p.len() as int) =~= p);
        }
    }
}

} // verus!
