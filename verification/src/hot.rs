//! The height-optimized trie with nodes of dynamic span: a node tests up to eight bits of the
//! key at chosen positions. Here: its storage and the bit arithmetic its nodes rest on.
use vstd::prelude::*;
use crate::binode::{bit_of, byte_at};
use crate::encoding::{common_prefix, lemma_common_prefix, lemma_common_prefix_unique};
use vstd::arithmetic::power2::pow2;

verus! {

/// Keys one after another as `[len:2][key]`, with the offset of each.
struct KeyStore {
    data: Vec<u8>,
    offsets: Vec<u32>,
}

/// A reference: a leaf index with the high bit set, or a node offset; all ones is null.
#[derive(Clone, Copy, PartialEq, Eq, Debug)]
struct Ref(u32);

/// A leaf: its value and the index of its key.
#[derive(Clone, Copy)]
struct Leaf {
    value: u64,
    key_idx: u32,
}

/// The bytes of the nodes.
struct NodeArena {
    data: Vec<u8>,
}

/// The height-optimized trie with nodes of dynamic span.
pub struct TrueHot {
    keys: KeyStore,
    leaves: Vec<Leaf>,
    nodes: NodeArena,
    root: Ref,
    len: usize,
}

/// The value of the `n` bits of `key` from bit `pos` on, most significant first; bits past
/// the end of the key are 0.
pub open spec fn bits_value(key: Seq<u8>, pos: int, n: nat) -> nat
    decreases n,
{
    if n == 0 {
        0
    } else {
        2 * bits_value(key, pos, (n - 1) as nat) + bit_of(key, pos + n - 1) as nat
    }
}

/// The number of leading zero bits of a byte.
pub open spec fn clz8(x: u8) -> nat {
    if x >= 128 {
        0
    } else if x >= 64 {
        1
    } else if x >= 32 {
        2
    } else if x >= 16 {
        3
    } else if x >= 8 {
        4
    } else if x >= 4 {
        5
    } else if x >= 2 {
        6
    } else if x >= 1 {
        7
    } else {
        8
    }
}

/// The number of zero bits above the highest one bit of `x` (8 for zero).
fn leading_zeros(x: u8) -> (r: u32)
    ensures
        r == clz8(x),
{
    let r = crate::binode::leading_zeros_u8(x);
    proof {
        crate::binode::lemma_leading_zeros_clz8(x);
    }
    r
}

/// Bits beyond the end of the key count as zero: reading `r` more of them multiplies.
proof fn lemma_bits_past_end(key: Seq<u8>, pos: int, m: nat, r: nat)
    requires
        pos + m >= 8 * key.len(),
        pos >= 0,
    ensures
        bits_value(key, pos, m + r) == bits_value(key, pos, m) * pow2(r),
    decreases r,
{
    if r > 0 {
        vstd::arithmetic::power2::lemma_pow2_unfold(r);
        lemma_bits_past_end(key, pos, m, (r - 1) as nat);
        let p = pos + m + r - 1;
        assert(p / 8 >= key.len()) by (nonlinear_arith)
            requires
                p >= 8 * key.len(),
        ;
        assert(byte_at(key, p / 8) == 0);
        let sh = (7 - p % 8) as u8;
        assert((0u8 >> sh) & 1u8 == 0) by (bit_vector);
        assert(bits_value(key, pos, m + r) == 2 * bits_value(key, pos, (m + r - 1) as nat));
        let v = bits_value(key, pos, m);
        let q = pow2((r - 1) as nat);
        assert(pow2(r) == 2 * q);
        assert(v * (2 * q) == 2 * (v * q)) by (nonlinear_arith);
    } else {
        assert(pow2(0) == 1) by {
            vstd::arithmetic::power2::lemma2_to64();
        }
    }
}

/// Reading `k` more bits appends them below the ones read.
proof fn lemma_bits_concat(key: Seq<u8>, pos: int, m: nat, k: nat)
    ensures
        bits_value(key, pos, m + k) == bits_value(key, pos, m) * pow2(k) + bits_value(
            key,
            pos + m,
            k,
        ),
    decreases k,
{
    if k > 0 {
        vstd::arithmetic::power2::lemma_pow2_unfold(k);
        lemma_bits_concat(key, pos, m, (k - 1) as nat);
        assert(bits_value(key, pos, m) * pow2(k) == 2 * (bits_value(key, pos, m) * pow2(
            (k - 1) as nat,
        ))) by (nonlinear_arith)
            requires
                pow2(k) == 2 * pow2((k - 1) as nat),
        ;
    } else {
        assert(pow2(0) == 1) by {
            vstd::arithmetic::power2::lemma2_to64();
        }
    }
}

/// The `k` bits of the byte `x` from bit `cur` on, most significant first.
spec fn byte_bits(x: u8, cur: u8, k: u8) -> u8 {
    (x >> ((8 - cur - k) as u8)) & ((((1u16 << k) - 1) as u8))
}

/// Within one byte, the bits from `cur` on are what the mask and shift pick out.
proof fn lemma_byte_bits(key: Seq<u8>, b: int, cur: u8, k: u8)
    requires
        0 <= b < key.len(),
        cur + k <= 8,
        k <= 8,
    ensures
        bits_value(key, 8 * b + cur, k as nat) == byte_bits(key[b], cur, k) as nat,
    decreases k,
{
    let x = key[b];
    if k == 0 {
        assert(byte_bits(x, cur, 0) == 0) by (bit_vector)
            requires
                cur <= 8,
        ;
    } else {
        lemma_byte_bits(key, b, cur, (k - 1) as u8);
        let t = cur + k - 1;
        let p = 8 * b + t;
        assert(p / 8 == b && p % 8 == t) by (nonlinear_arith)
            requires
                p == 8 * b + t,
                0 <= t < 8,
                b >= 0,
        ;
        let s = (7 - (cur + k - 1)) as u8;
        assert(byte_bits(x, cur, k) as nat == 2 * (byte_bits(x, cur, (k - 1) as u8) as nat) + (((x
            >> s) & 1u8) as nat)) by (bit_vector)
            requires
                cur + k <= 8,
                k >= 1,
                s == 7 - (cur + k - 1),
        ;
    }
}

/// The mask and shift of one step of the extraction pick out the bits from `cur` on.
proof fn lemma_mask_shift(x: u8, cur: u8, k: u8)
    requires
        1 <= k <= 7,
        cur + k <= 8,
    ensures
        (x & ((((1u8 << k) - 1) as u8) << ((8 - cur - k) as u8))) >> ((8 - cur - k) as u8)
            == byte_bits(x, cur, k),
{
    assert((x & ((((1u8 << k) - 1) as u8) << ((8 - cur - k) as u8))) >> ((8 - cur - k) as u8)
        == byte_bits(x, cur, k)) by (bit_vector)
        requires
            1 <= k <= 7,
            cur + k <= 8,
    ;
}

impl TrueHot {
    /// The `span` bits of `key` from bit `bit_pos` on, most significant first; bits past the
    /// end of the key read as 0. A span of eight that starts on a byte boundary within the
    /// key is not taken: its mask does not fit in a byte.
    pub fn extract_bits(key: &[u8], bit_pos: usize, span: usize) -> (r: usize)
        requires
            span <= 8,
            span < 8 || bit_pos % 8 != 0 || bit_pos / 8 >= key@.len(),
        ensures
            r == bits_value(key@, bit_pos as int, span as nat),
    {
        let byte_idx = bit_pos / 8;
        let bit_offset = bit_pos % 8;
        if byte_idx >= key.len() {
            proof {
                lemma_bits_past_end(key@, bit_pos as int, 0, span as nat);
                assert(bits_value(key@, bit_pos as int, 0) == 0);
                assert(0 * pow2(span as nat) == 0);
            }
            return 0;
        }
        let mut result: usize = 0;
        let mut bits_remaining = span;
        let mut current_byte = byte_idx;
        let mut current_bit = bit_offset;
        proof {
            vstd::arithmetic::power2::lemma2_to64();
        }
        while bits_remaining > 0 && current_byte < key.len()
            invariant
                span <= 8,
                span < 8 || bit_pos % 8 != 0,
                bits_remaining <= span,
                current_bit < 8,
                bits_remaining > 0 ==> bit_pos + (span - bits_remaining) == 8 * current_byte
                    + current_bit,
                bits_remaining < span ==> current_bit == 0,
                current_bit == 0 || bits_remaining == span,
                result == bits_value(key@, bit_pos as int, (span - bits_remaining) as nat),
                result < pow2((span - bits_remaining) as nat),
            decreases bits_remaining,
        {
            let k = if 8 - current_bit < bits_remaining {
                8 - current_bit
            } else {
                bits_remaining
            };
            proof {
                if bits_remaining == span {
                    assert(bit_pos % 8 == current_bit) by (nonlinear_arith)
                        requires
                            bit_pos == 8 * current_byte + current_bit,
                            current_bit < 8,
                    ;
                }
            }
            assert(1 <= k <= 7);
            let kb = k as u8;
            let cb = current_bit as u8;
            assert((1u8 << kb) >= 1 && (1u8 << kb) as u64 == (1u64 << (k as u64))) by (bit_vector)
                requires
                    1 <= kb <= 7,
                    kb as u64 == k as u64,
            ;
            let x = key[current_byte];
            let mask = ((1u8 << kb) - 1) << (8 - cb - kb);
            let extracted = (x & mask) >> (8 - cb - kb);
            let ghost m = (span - bits_remaining) as nat;
            proof {
                lemma_mask_shift(x, cb, kb);
                lemma_byte_bits(key@, current_byte as int, cb, kb);
                lemma_bits_concat(key@, bit_pos as int, m, k as nat);
                vstd::arithmetic::power2::lemma2_to64();
                vstd::arithmetic::power2::lemma_pow2_strictly_increases(k as nat, 8);
                vstd::bits::lemma_u64_shl_is_mul(1, k as u64);
                vstd::arithmetic::power2::lemma_pow2_adds(m, k as nat);
                assert(extracted < (1u8 << kb)) by (bit_vector)
                    requires
                        extracted == byte_bits(x, cb, kb),
                        1 <= kb <= 7,
                        cb + kb <= 8,
                ;
                assert(result * pow2(k as nat) + extracted < pow2(m + k as nat)) by (nonlinear_arith)
                    requires
                        result < pow2(m),
                        extracted < pow2(k as nat),
                        pow2(m + k as nat) == pow2(m) * pow2(k as nat),
                ;
                assert(pow2(m + k as nat) <= 256) by {
                    if m + k < 8 {
                        vstd::arithmetic::power2::lemma_pow2_strictly_increases(m + k as nat, 8);
                    }
                }
            }
            let shifted = result << k;
            proof {
                assert(shifted == result * (1usize << k) && (1usize << k) as u64 == (1u64 << (k
                    as u64)) && (shifted | (extracted as usize)) == shifted + extracted) by (bit_vector)
                    requires
                        shifted == result << k,
                        result < 256,
                        1 <= k <= 7,
                        (extracted as u64) < (1u64 << (k as u64)),
                ;
            }
            result = shifted | (extracted as usize);
            bits_remaining -= k;
            current_byte += 1;
            current_bit = 0;
        }
        let ghost m = (span - bits_remaining) as nat;
        proof {
            vstd::arithmetic::power2::lemma2_to64();
            if bits_remaining > 0 {
                assert(current_byte >= key@.len());
                assert(current_bit == 0);
                lemma_bits_past_end(key@, bit_pos as int, m, bits_remaining as nat);
                vstd::arithmetic::power2::lemma_pow2_adds(m, bits_remaining as nat);
                if m + bits_remaining < 8 {
                    vstd::arithmetic::power2::lemma_pow2_strictly_increases(m + bits_remaining as nat, 8);
                }
                assert(result * pow2(bits_remaining as nat) < pow2(m + bits_remaining as nat)) by (nonlinear_arith)
                    requires
                        result < pow2(m),
                        pow2(m + bits_remaining as nat) == pow2(m) * pow2(bits_remaining as nat),
                        pow2(bits_remaining as nat) > 0,
                ;
                vstd::bits::lemma_u64_shl_is_mul(result as u64, bits_remaining as u64);
            } else {
                assert(bits_value(key@, bit_pos as int, m) * pow2(0) == bits_value(key@, bit_pos as int, m));
                vstd::bits::lemma_u64_shl_is_mul(result as u64, 0);
            }
        }
        let out = result << bits_remaining;
        proof {
            assert(out as u64 == (result as u64) << (bits_remaining as u64)) by (bit_vector)
                requires
                    out == result << bits_remaining,
                    result < 256,
                    bits_remaining <= 8,
            ;
        }
        out
    }

    /// The first bit position at which `a` and `b` differ, and whether each key reaches it:
    /// in the first differing byte, or, when one key is a prefix of the other, just past the
    /// shorter one.
    pub fn find_first_diff_bit(a: &[u8], b: &[u8]) -> (r: (usize, bool, bool))
        requires
            a@.len() < 0x1000_0000,
            b@.len() < 0x1000_0000,
        ensures
            ({
                let c = common_prefix(a@, b@);
                let m = if a@.len() < b@.len() {
                    a@.len()
                } else {
                    b@.len()
                };
                if c < m {
                    r == ((8 * c + clz8(a@[c as int] ^ b@[c as int])) as usize, true, true)
                } else {
                    r == ((8 * m) as usize, a@.len() > m, b@.len() > m)
                }
            }),
    {
        let min_len = if a.len() < b.len() {
            a.len()
        } else {
            b.len()
        };
        let mut i: usize = 0;
        while i < min_len
            invariant
                i <= min_len,
                min_len <= a@.len(),
                min_len <= b@.len(),
                min_len == a@.len() || min_len == b@.len(),
                min_len < 0x1000_0000,
                forall|j: int| 0 <= j < i ==> a@[j] == b@[j],
            decreases min_len - i,
        {
            if a[i] != b[i] {
                let diff = a[i] ^ b[i];
                let bit_in_byte = leading_zeros(diff) as usize;
                proof {
                    lemma_common_prefix_unique(a@, b@, i as int);
                }
                return (i * 8 + bit_in_byte, true, true);
            }
            i += 1;
        }
        proof {
            lemma_common_prefix_unique(a@, b@, min_len as int);
        }
        (min_len * 8, a.len() > min_len, b.len() > min_len)
    }
}

} // verus!
