//! Byte-string keys in lexicographic order, and maps kept as sorted key and value sequences.
use vstd::prelude::*;
use crate::encoding::{common_prefix, lemma_common_prefix, lemma_common_prefix_unique};

verus! {

/// `a` comes strictly before `b` in lexicographic byte order.
pub open spec fn key_lt(a: Seq<u8>, b: Seq<u8>) -> bool {
    let c = common_prefix(a, b) as int;
    (c == a.len() && c < b.len()) || (c < a.len() && c < b.len() && a[c] < b[c])
}

/// The outcome of comparing two keys.
#[derive(Debug, Clone, Copy, PartialEq, Eq, Structural)]
pub enum KeyOrder {
    Less,
    Equal,
    Greater,
}

pub proof fn lemma_common_prefix_sym(a: Seq<u8>, b: Seq<u8>)
    ensures
        common_prefix(a, b) == common_prefix(b, a),
{
    lemma_common_prefix(a, b);
    lemma_common_prefix_unique(b, a, common_prefix(a, b) as int);
}

/// Exactly one of `a < b`, `a == b`, `b < a` holds.
pub proof fn lemma_key_lt_total(a: Seq<u8>, b: Seq<u8>)
    ensures
        !(key_lt(a, b) && key_lt(b, a)),
        a == b ==> !key_lt(a, b),
        a != b ==> key_lt(a, b) || key_lt(b, a),
{
    lemma_common_prefix(a, b);
    lemma_common_prefix_sym(a, b);
    let c = common_prefix(a, b) as int;
    if c == a.len() && c == b.len() {
        assert(a =~= b);
    }
}

/// Lexicographic order is transitive.
pub proof fn lemma_key_lt_trans(a: Seq<u8>, b: Seq<u8>, c: Seq<u8>)
    requires
        key_lt(a, b),
        key_lt(b, c),
    ensures
        key_lt(a, c),
{
    lemma_common_prefix(a, b);
    lemma_common_prefix(b, c);
    lemma_common_prefix(a, c);
    let x = common_prefix(a, b) as int;
    let y = common_prefix(b, c) as int;
    let m = if x < y { x } else { y };
    assert forall|j: int| 0 <= j < m implies a[j] == c[j] by {
        assert(a[j] == b[j] && b[j] == c[j]);
    }
    if x < y {
        // a and c first differ where a and b do.
        lemma_common_prefix_unique(a, c, x);
    } else if y < x {
        lemma_common_prefix_unique(a, c, y);
    } else {
        if x < a.len() && x < c.len() && a[x] != c[x] {
            lemma_common_prefix_unique(a, c, x);
        } else if x == a.len() || x == c.len() {
            lemma_common_prefix_unique(a, c, x);
        }
    }
}

/// Compare two keys in lexicographic byte order.
pub fn compare_keys(a: &[u8], b: &[u8]) -> (r: KeyOrder)
    ensures
        (r == KeyOrder::Less) == key_lt(a@, b@),
        (r == KeyOrder::Equal) == (a@ == b@),
        (r == KeyOrder::Greater) == key_lt(b@, a@),
{
    proof {
        lemma_key_lt_total(a@, b@);
        lemma_common_prefix_sym(a@, b@);
    }
    let mut i: usize = 0;
    while i < a.len() && i < b.len() && a[i] == b[i]
        invariant
            i <= a@.len(),
            i <= b@.len(),
            forall|j: int| 0 <= j < i ==> a@[j] == b@[j],
        decreases a@.len() - i,
    {
        i += 1;
    }
    proof {
        lemma_common_prefix_unique(a@, b@, i as int);
        if i == a@.len() && i == b@.len() {
            assert(a@ =~= b@);
        }
    }
    if i < a.len() && i < b.len() {
        if a[i] < b[i] {
            KeyOrder::Less
        } else {
            KeyOrder::Greater
        }
    } else if i < b.len() {
        KeyOrder::Less
    } else if i < a.len() {
        KeyOrder::Greater
    } else {
        KeyOrder::Equal
    }
}

/// Keys in strictly increasing order.
pub open spec fn sorted_keys(ks: Seq<Seq<u8>>) -> bool {
    forall|i: int, j: int| 0 <= i < j < ks.len() ==> key_lt(#[trigger] ks[i], #[trigger] ks[j])
}

/// The map that pairs each key with the value at the same position.
pub open spec fn pairs_map(ks: Seq<Seq<u8>>, vs: Seq<u64>) -> Map<Seq<u8>, u64>
    decreases ks.len(),
{
    if ks.len() == 0 {
        Map::empty()
    } else {
        pairs_map(ks.drop_last(), vs).insert(ks.last(), vs[ks.len() - 1])
    }
}

/// What the map of sorted keys holds.
pub proof fn lemma_pairs_map(ks: Seq<Seq<u8>>, vs: Seq<u64>)
    requires
        sorted_keys(ks),
        ks.len() <= vs.len(),
    ensures
        pairs_map(ks, vs).dom().finite(),
        pairs_map(ks, vs).len() == ks.len(),
        forall|i: int|
            0 <= i < ks.len() ==> #[trigger] pairs_map(ks, vs).contains_key(ks[i]) && pairs_map(
                ks,
                vs,
            )[ks[i]] == vs[i],
        forall|k: Seq<u8>|
            #[trigger] pairs_map(ks, vs).contains_key(k) ==> exists|i: int|
                0 <= i < ks.len() && ks[i] == k,
    decreases ks.len(),
{
    if ks.len() > 0 {
        let init = ks.drop_last();
        assert(sorted_keys(init));
        lemma_pairs_map(init, vs);
        let last = ks.last();
        assert(!pairs_map(init, vs).contains_key(last)) by {
            if pairs_map(init, vs).contains_key(last) {
                let i = choose|i: int| 0 <= i < init.len() && init[i] == last;
                assert(key_lt(ks[i], ks[ks.len() - 1]));
                lemma_key_lt_total(last, last);
            }
        }
        assert forall|i: int| 0 <= i < ks.len() implies #[trigger] pairs_map(ks, vs).contains_key(
            ks[i],
        ) && pairs_map(ks, vs)[ks[i]] == vs[i] by {
            if i < ks.len() - 1 {
                assert(init[i] == ks[i]);
                assert(key_lt(ks[i], ks[ks.len() - 1]));
                lemma_key_lt_total(ks[i], last);
            }
        }
        assert forall|k: Seq<u8>| #[trigger] pairs_map(ks, vs).contains_key(k) implies exists|i: int|
            0 <= i < ks.len() && ks[i] == k by {
            if k != last {
                let i = choose|i: int| 0 <= i < init.len() && init[i] == k;
                assert(ks[i] == k);
            } else {
                assert(ks[ks.len() - 1] == k);
            }
        }
    }
}

/// Inserting a new key at its place in sorted order inserts it into the map.
pub proof fn lemma_pairs_map_insert(ks: Seq<Seq<u8>>, vs: Seq<u64>, idx: int, k: Seq<u8>, v: u64)
    requires
        sorted_keys(ks),
        ks.len() == vs.len(),
        0 <= idx <= ks.len(),
        forall|i: int| 0 <= i < idx ==> key_lt(#[trigger] ks[i], k),
        forall|i: int| idx <= i < ks.len() ==> key_lt(k, #[trigger] ks[i]),
    ensures
        sorted_keys(ks.insert(idx, k)),
        pairs_map(ks.insert(idx, k), vs.insert(idx, v)) == pairs_map(ks, vs).insert(k, v),
        !pairs_map(ks, vs).contains_key(k),
{
    let ks2 = ks.insert(idx, k);
    let vs2 = vs.insert(idx, v);
    assert forall|i: int, j: int| 0 <= i < j < ks2.len() implies key_lt(
        #[trigger] ks2[i],
        #[trigger] ks2[j],
    ) by {
        if j < idx {
        } else if j == idx {
        } else if i < idx {
            lemma_key_lt_trans(ks2[i], k, ks2[j]);
        } else if i == idx {
        } else {
            assert(ks2[i] == ks[i - 1] && ks2[j] == ks[j - 1]);
        }
    }
    lemma_pairs_map(ks, vs);
    lemma_pairs_map(ks2, vs2);
    let m = pairs_map(ks, vs);
    let m2 = pairs_map(ks2, vs2);
    assert(!m.contains_key(k)) by {
        if m.contains_key(k) {
            let i = choose|i: int| 0 <= i < ks.len() && ks[i] == k;
            lemma_key_lt_total(k, k);
        }
    }
    assert forall|x: Seq<u8>| m2.contains_key(x) <==> m.insert(k, v).contains_key(x) by {
        if m2.contains_key(x) {
            let i = choose|i: int| 0 <= i < ks2.len() && ks2[i] == x;
            if i < idx {
                assert(m.contains_key(ks[i]));
            } else if i > idx {
                assert(m.contains_key(ks[i - 1]));
            }
        }
        if m.contains_key(x) {
            let i = choose|i: int| 0 <= i < ks.len() && ks[i] == x;
            if i < idx {
                assert(m2.contains_key(ks2[i]));
            } else {
                assert(m2.contains_key(ks2[i + 1]));
            }
        }
        if x == k {
            assert(m2.contains_key(ks2[idx]));
        }
    }
    assert forall|x: Seq<u8>| m2.contains_key(x) implies m2[x] == m.insert(k, v)[x] by {
        let i = choose|i: int| 0 <= i < ks2.len() && ks2[i] == x;
        if i < idx {
            assert(m.contains_key(ks[i]));
        } else if i > idx {
            assert(m.contains_key(ks[i - 1]));
        }
    }
    assert(m2 =~= m.insert(k, v));
}

/// Changing the value at a position changes the value of its key.
pub proof fn lemma_pairs_map_update(ks: Seq<Seq<u8>>, vs: Seq<u64>, idx: int, v: u64)
    requires
        sorted_keys(ks),
        ks.len() == vs.len(),
        0 <= idx < ks.len(),
    ensures
        pairs_map(ks, vs.update(idx, v)) == pairs_map(ks, vs).insert(ks[idx], v),
{
    let vs2 = vs.update(idx, v);
    lemma_pairs_map(ks, vs);
    lemma_pairs_map(ks, vs2);
    let m = pairs_map(ks, vs);
    let m2 = pairs_map(ks, vs2);
    assert forall|x: Seq<u8>| m2.contains_key(x) <==> m.insert(ks[idx], v).contains_key(x) by {
        if m2.contains_key(x) {
            let i = choose|i: int| 0 <= i < ks.len() && ks[i] == x;
            assert(m.contains_key(ks[i]));
        }
        if m.contains_key(x) {
            let i = choose|i: int| 0 <= i < ks.len() && ks[i] == x;
            assert(m2.contains_key(ks[i]));
        }
    }
    assert forall|x: Seq<u8>| m2.contains_key(x) implies m2[x] == m.insert(ks[idx], v)[x] by {
        let i = choose|i: int| 0 <= i < ks.len() && ks[i] == x;
        if i != idx {
            assert(key_lt(ks[i], ks[idx]) || key_lt(ks[idx], ks[i]));
            lemma_key_lt_total(ks[i], ks[idx]);
        }
    }
    assert(m2 =~= m.insert(ks[idx], v));
}

} // verus!
