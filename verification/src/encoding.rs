//! Encodings for compact storage: LEB128-style variable-length integers,
//! length-prefixed byte strings and front coding of sorted keys.
use vstd::prelude::*;

verus! {

/// `128^n`.
pub open spec fn pow128(n: nat) -> nat
    decreases n,
{
    if n == 0 {
        1
    } else {
        128 * pow128((n - 1) as nat)
    }
}

/// The variable-length encoding of `v`: seven bits per byte, least significant group
/// first, the high bit set on every byte but the last.
pub open spec fn varint_encoding(v: nat) -> Seq<u8>
    decreases v,
{
    if v < 128 {
        seq![v as u8]
    } else {
        seq![(v % 128 + 128) as u8] + varint_encoding(v / 128)
    }
}

/// The number of leading bytes of `s` whose high bit is set.
pub open spec fn continuation_count(s: Seq<u8>) -> nat
    decreases s.len(),
{
    if s.len() == 0 || s[0] < 128 {
        0
    } else {
        1 + continuation_count(s.drop_first())
    }
}

/// The length of the variable-length integer at the start of `s`: the continuation bytes
/// and the byte that ends it.
pub open spec fn varint_len(s: Seq<u8>) -> nat {
    continuation_count(s) + 1
}

/// The integer that the seven-bit groups of `s` stand for, least significant group first.
pub open spec fn varint_sum(s: Seq<u8>) -> nat
    decreases s.len(),
{
    if s.len() == 0 {
        0
    } else {
        (s[0] % 128) as nat + 128 * varint_sum(s.drop_first())
    }
}

/// The value that decoding the variable-length integer at the start of `s` yields: the sum of
/// its groups, reduced to 64 bits.
pub open spec fn varint_value(s: Seq<u8>) -> nat {
    varint_sum(s.take(varint_len(s) as int)) % 0x1_0000_0000_0000_0000
}

/// Whether `s` starts with a variable-length integer of at most ten bytes.
pub open spec fn has_varint(s: Seq<u8>) -> bool {
    continuation_count(s) < s.len() && continuation_count(s) < 10
}

/// The length of the common prefix of `a` and `b`.
pub open spec fn common_prefix(a: Seq<u8>, b: Seq<u8>) -> nat
    decreases a.len(),
{
    if a.len() == 0 || b.len() == 0 || a[0] != b[0] {
        0
    } else {
        1 + common_prefix(a.drop_first(), b.drop_first())
    }
}

pub proof fn lemma_common_prefix(a: Seq<u8>, b: Seq<u8>)
    ensures
        common_prefix(a, b) <= a.len(),
        common_prefix(a, b) <= b.len(),
        forall|i: int| 0 <= i < common_prefix(a, b) ==> a[i] == b[i],
        common_prefix(a, b) < a.len() && common_prefix(a, b) < b.len() ==> a[
            common_prefix(a, b) as int] != b[common_prefix(a, b) as int],
    decreases a.len(),
{
    if !(a.len() == 0 || b.len() == 0 || a[0] != b[0]) {
        lemma_common_prefix(a.drop_first(), b.drop_first());
        assert forall|i: int| 0 <= i < common_prefix(a, b) implies a[i] == b[i] by {
            if i > 0 {
                assert(a.drop_first()[i - 1] == b.drop_first()[i - 1]);
            }
        }
    }
}

/// A position `i` up to which `a` and `b` agree, and at which they differ or one ends, is
/// their common prefix length.
pub proof fn lemma_common_prefix_unique(a: Seq<u8>, b: Seq<u8>, i: int)
    requires
        0 <= i <= a.len(),
        i <= b.len(),
        forall|j: int| 0 <= j < i ==> a[j] == b[j],
        i == a.len() || i == b.len() || a[i] != b[i],
    ensures
        common_prefix(a, b) == i,
    decreases a.len(),
{
    if i > 0 {
        assert forall|j: int| 0 <= j < i - 1 implies a.drop_first()[j] == b.drop_first()[j] by {
            assert(a[j + 1] == b[j + 1]);
        }
        lemma_common_prefix_unique(a.drop_first(), b.drop_first(), i - 1);
    }
}

pub proof fn lemma_varint_encoding_len(v: nat)
    ensures
        1 <= varint_encoding(v).len() <= 10 || v >= 0x1_0000_0000_0000_0000,
        varint_encoding(v).len() >= 1,
    decreases v,
{
    if v >= 128 {
        lemma_varint_encoding_len(v / 128);
        if v < 0x1_0000_0000_0000_0000 {
            assert(v / 128 < 0x200_0000_0000_0000);
            assert(pow128(9) == 0x8000_0000_0000_0000) by {
                reveal_with_fuel(pow128, 10);
            }
            lemma_varint_encoding_len_bound(v / 128, 9);
        }
    }
}

proof fn lemma_varint_encoding_len_bound(v: nat, n: nat)
    requires
        v < pow128(n),
        n >= 1,
    ensures
        varint_encoding(v).len() <= n,
    decreases v,
{
    if v >= 128 {
        if n == 1 {
            assert(pow128(1) == 128) by {
                reveal_with_fuel(pow128, 2);
            }
        } else {
            lemma_varint_encoding_len_bound(v / 128, (n - 1) as nat);
        }
    }
}

/// The encoding of a value decodes to that value, and it is exactly one varint long.
pub proof fn lemma_varint_encoding_decodes(v: nat)
    ensures
        continuation_count(varint_encoding(v)) + 1 == varint_encoding(v).len(),
        varint_sum(varint_encoding(v)) == v,
    decreases v,
{
    let e = varint_encoding(v);
    if v >= 128 {
        lemma_varint_encoding_decodes(v / 128);
        assert(e.drop_first() =~= varint_encoding(v / 128));
        assert(e[0] >= 128);
        assert(e[0] % 128 == v % 128);
        assert(varint_sum(e) == (e[0] % 128) as nat + 128 * varint_sum(e.drop_first()));
        assert(v == 128 * (v / 128) + v % 128);
    } else {
        assert(e.drop_first() =~= Seq::<u8>::empty());
        assert(varint_sum(e.drop_first()) == 0);
    }
}

/// Whatever follows an encoding does not change what it decodes to.
pub proof fn lemma_varint_extend(e: Seq<u8>, rest: Seq<u8>)
    requires
        e.len() >= 1,
        continuation_count(e) + 1 == e.len(),
    ensures
        continuation_count(e + rest) == continuation_count(e),
        (e + rest).take(e.len() as int) == e,
    decreases e.len(),
{
    assert((e + rest).take(e.len() as int) =~= e);
    if e.len() > 1 {
        assert(e[0] >= 128);
        assert((e + rest).drop_first() =~= e.drop_first() + rest);
        lemma_varint_extend(e.drop_first(), rest);
    }
}

proof fn lemma_continuation_prefix(s: Seq<u8>, i: int)
    requires
        0 <= i <= continuation_count(s),
    ensures
        forall|j: int| 0 <= j < i ==> s[j] >= 128,
        i == continuation_count(s) && i < s.len() ==> s[i] < 128,
        continuation_count(s) <= s.len(),
    decreases s.len(),
{
    if s.len() > 0 && s[0] >= 128 {
        if i > 0 {
            lemma_continuation_prefix(s.drop_first(), i - 1);
            assert forall|j: int| 0 <= j < i implies s[j] >= 128 by {
                if j > 0 {
                    assert(s.drop_first()[j - 1] == s[j]);
                }
            }
        } else {
            lemma_continuation_prefix(s.drop_first(), 0);
        }
    }
}

proof fn lemma_varint_sum_push(s: Seq<u8>, b: u8)
    ensures
        varint_sum(s.push(b)) == varint_sum(s) + (b % 128) as nat * pow128(s.len()),
    decreases s.len(),
{
    if s.len() == 0 {
        assert(s.push(b).drop_first() =~= Seq::<u8>::empty());
        assert(varint_sum(s.push(b).drop_first()) == 0);
        assert(pow128(0) == 1);
    } else {
        assert(s.push(b).drop_first() =~= s.drop_first().push(b));
        assert(s.push(b)[0] == s[0]);
        lemma_varint_sum_push(s.drop_first(), b);
        assert(pow128(s.len()) == 128 * pow128((s.len() - 1) as nat));
        assert(128 * ((b % 128) as nat * pow128((s.len() - 1) as nat)) == (b % 128) as nat * pow128(
            s.len(),
        )) by (nonlinear_arith)
            requires
                pow128(s.len()) == 128 * pow128((s.len() - 1) as nat),
        ;
    }
}

proof fn lemma_pow128_bits(i: nat)
    requires
        i <= 9,
    ensures
        pow128(i) == (1u64 << (7 * i) as u64),
{
    reveal_with_fuel(pow128, 10);
    assert((1u64 << 0u64) == 1) by (bit_vector);
    assert((1u64 << 7u64) == 128) by (bit_vector);
    assert((1u64 << 14u64) == 16384) by (bit_vector);
    assert((1u64 << 21u64) == 2097152) by (bit_vector);
    assert((1u64 << 28u64) == 268435456) by (bit_vector);
    assert((1u64 << 35u64) == 34359738368) by (bit_vector);
    assert((1u64 << 42u64) == 4398046511104) by (bit_vector);
    assert((1u64 << 49u64) == 562949953421312) by (bit_vector);
    assert((1u64 << 56u64) == 72057594037927936) by (bit_vector);
    assert((1u64 << 63u64) == 9223372036854775808) by (bit_vector);
}

/// Encodes `value` as a variable-length integer at the start of `buf`, and returns the
/// number of bytes written.
pub fn encode_varint(value: u64, buf: &mut [u8]) -> (n: usize)
    requires
        varint_encoding(value as nat).len() <= old(buf)@.len(),
    ensures
        n == varint_encoding(value as nat).len(),
        final(buf)@.len() == old(buf)@.len(),
        final(buf)@.subrange(0, n as int) == varint_encoding(value as nat),
        final(buf)@.subrange(n as int, final(buf)@.len() as int) == old(buf)@.subrange(
            n as int,
            old(buf)@.len() as int,
        ),
{
    let ghost orig = value as nat;
    let mut value = value;
    let mut i: usize = 0;
    proof {
        lemma_varint_encoding_len(orig);
    }
    while value >= 0x80
        invariant
            buf@.len() == old(buf)@.len(),
            i + varint_encoding(value as nat).len() == varint_encoding(orig).len(),
            varint_encoding(orig).len() <= buf@.len(),
            buf@.subrange(0, i as int) + varint_encoding(value as nat) == varint_encoding(orig),
            buf@.subrange((i + varint_encoding(value as nat).len()) as int, buf@.len() as int)
                == old(buf)@.subrange(varint_encoding(orig).len() as int, old(buf)@.len() as int),
            forall|j: int|
                i <= j < buf@.len() ==> #[trigger] buf@[j] == old(buf)@[j],
        decreases value,
    {
        let ghost prev = buf@;
        let b: u8 = (value as u8) | 0x80;
        assert(b == ((value % 128) + 128) as u8) by (bit_vector)
            requires
                b == (value as u8) | 0x80u8,
        ;
        buf[i] = b;
        assert(value >> 7 == value / 128) by (bit_vector);
        let ghost enc = varint_encoding(value as nat);
        assert(enc == seq![b] + varint_encoding((value / 128) as nat));
        value = value >> 7;
        i = i + 1;
        assert(buf@.subrange(0, i as int) =~= prev.subrange(0, i - 1) + seq![b]);
        assert(buf@.subrange(0, i as int) + varint_encoding(value as nat) =~= prev.subrange(
            0,
            i - 1,
        ) + enc);
        assert(buf@.subrange((i + varint_encoding(value as nat).len()) as int, buf@.len() as int)
            =~= prev.subrange((i + varint_encoding(value as nat).len()) as int, buf@.len() as int));
    }
    let ghost prev = buf@;
    buf[i] = value as u8;
    assert(varint_encoding(value as nat) == seq![value as u8]);
    assert(buf@.subrange(0, i + 1) =~= prev.subrange(0, i as int) + seq![value as u8]);
    assert(buf@.subrange(i + 1, buf@.len() as int) =~= prev.subrange(
        i + 1,
        buf@.len() as int,
    ));
    i + 1
}

/// Decodes the variable-length integer at the start of `buf`; returns its value and the
/// number of bytes it takes.
pub fn decode_varint(buf: &[u8]) -> (r: (u64, usize))
    requires
        has_varint(buf@),
    ensures
        r.1 == varint_len(buf@),
        r.0 == varint_value(buf@),
{
    let ghost s = buf@;
    let ghost n = varint_len(s);
    proof {
        lemma_continuation_prefix(s, continuation_count(s) as int);
    }
    let mut value = 0u64;
    let mut shift: u64 = 0;
    let mut i: usize = 0;
    assert((1u64 << 0u64) == 1) by (bit_vector);
    assert(s.take(0) =~= Seq::<u8>::empty());
    loop
        invariant
            s == buf@,
            n == varint_len(s),
            n <= 10,
            n <= s.len(),
            forall|j: int| 0 <= j < n - 1 ==> s[j] >= 128,
            s[n - 1] < 128,
            i < n,
            shift == 7 * i,
            value as nat == varint_sum(s.take(i as int)),
            value < (1u64 << shift),
            pow128(i as nat) == (1u64 << shift),
        decreases n - i,
    {
        let byte = buf[i];
        let ghost old_value = value;
        let c: u64 = (byte & 0x7F) as u64;
        assert(c == byte % 128) by (bit_vector)
            requires
                c == (byte & 0x7Fu8) as u64,
        ;
        proof {
            lemma_varint_sum_push(s.take(i as int), byte);
            assert(s.take(i as int).push(byte) =~= s.take(i + 1));
        }
        if i < 9 {
            assert((value | (c << shift)) == value + c * (1u64 << shift) && value + c * (1u64
                << shift) < (1u64 << (shift + 7))) by (bit_vector)
                requires
                    value < (1u64 << shift),
                    shift <= 56,
                    c < 128,
            ;
            assert((1u64 << (shift + 7)) == 128 * (1u64 << shift)) by (bit_vector)
                requires
                    shift <= 56,
            ;
        } else {
            assert((value | (c << shift)) == value + (c % 2) * (1u64 << shift)) by (bit_vector)
                requires
                    value < (1u64 << shift),
                    shift == 63,
                    c < 128,
            ;
        }
        value |= c << shift;
        i += 1;
        if byte & 0x80 == 0 {
            assert(byte < 128) by (bit_vector)
                requires
                    byte & 0x80u8 == 0,
            ;
            assert(i == n);
            proof {
                if i == 10 {
                    reveal_with_fuel(pow128, 10);
                    let q = c / 2;
                    assert(c * pow128(9) == q * 0x1_0000_0000_0000_0000 + (c % 2) * pow128(9))
                        by (nonlinear_arith)
                        requires
                            pow128(9) == 0x8000_0000_0000_0000,
                            q == c / 2,
                    ;
                    vstd::arithmetic::div_mod::lemma_mod_multiples_vanish(
                        q as int,
                        old_value + (c % 2) * pow128(9),
                        0x1_0000_0000_0000_0000,
                    );
                } else {
                    assert(value < 0x1_0000_0000_0000_0000);
                }
            }
            return (value, i);
        }
        assert(byte >= 128) by (bit_vector)
            requires
                byte & 0x80u8 != 0,
        ;
        shift += 7;
    }
}

/// The number of bytes that the variable-length encoding of `value` takes.
pub fn varint_size(value: u64) -> (n: usize)
    ensures
        n == varint_encoding(value as nat).len(),
{
    if value == 0 {
        return 1;
    }
    let lz = leading_zeros_u64(value);
    proof {
        vstd::arithmetic::power2::lemma2_to64();
    }
    let bits = 64 - lz as usize;
    proof {
        lemma_varint_size(value as nat, bits as nat);
    }
    (bits + 6) / 7
}

proof fn lemma_varint_size(v: nat, bits: nat)
    requires
        1 <= bits <= 64,
        vstd::arithmetic::power2::pow2((bits - 1) as nat) <= v < vstd::arithmetic::power2::pow2(
            bits,
        ),
    ensures
        varint_encoding(v).len() == (bits + 6) / 7,
    decreases v,
{
    vstd::arithmetic::power2::lemma_pow2_pos((bits - 1) as nat);
    if v < 128 {
        if bits > 8 {
            vstd::arithmetic::power2::lemma_pow2_strictly_increases(7, (bits - 1) as nat);
        }
        vstd::arithmetic::power2::lemma2_to64();
    } else {
        vstd::arithmetic::power2::lemma2_to64();
        if bits < 7 {
            vstd::arithmetic::power2::lemma_pow2_strictly_increases(bits, 7);
        }
        assert(bits > 7);
        vstd::arithmetic::power2::lemma_pow2_adds((bits - 8) as nat, 7);
        vstd::arithmetic::power2::lemma_pow2_adds((bits - 7) as nat, 7);
        let lo = vstd::arithmetic::power2::pow2((bits - 8) as nat);
        let hi = vstd::arithmetic::power2::pow2((bits - 7) as nat);
        assert(lo <= v / 128 < hi) by (nonlinear_arith)
            requires
                lo * 128 <= v < hi * 128,
        ;
        lemma_varint_size(v / 128, (bits - 7) as nat);
    }
}

/// The number of zero bits above the highest one bit of `value` (64 for zero).
fn leading_zeros_u64(value: u64) -> (r: u32)
    ensures
        r <= 64,
        r < 64 ==> vstd::arithmetic::power2::pow2((63 - r) as nat) <= value,
        value < vstd::arithmetic::power2::pow2((64 - r) as nat),
{
    let r = value.leading_zeros();
    proof {
        lemma_leading_zeros_u64(value);
    }
    r
}

/// The highest one bit of `value` lies where its leading zeros say.
proof fn lemma_leading_zeros_u64(value: u64)
    ensures
        ({
            let r = vstd::std_specs::bits::u64_leading_zeros(value);
            &&& r <= 64
            &&& r < 64 ==> vstd::arithmetic::power2::pow2((63 - r) as nat) <= value
            &&& value < vstd::arithmetic::power2::pow2((64 - r) as nat)
        }),
{
    let r = vstd::std_specs::bits::u64_leading_zeros(value);
    vstd::std_specs::bits::axiom_u64_leading_zeros(value);
    vstd::arithmetic::power2::lemma2_to64();
    if r < 64 {
        let k: u64 = (63 - r) as u64;
        let y: u64 = value >> k;
        assert(y & 1u64 != 0u64);
        vstd::bits::lemma_u64_low_bits_mask_is_mod(y, 1);
        assert(vstd::bits::low_bits_mask(1) == 1);
        assert(y % 2 != 0);
        vstd::bits::lemma_u64_shr_is_div(value, k);
        vstd::arithmetic::power2::lemma_pow2_pos(k as nat);
        let p = vstd::arithmetic::power2::pow2(k as nat) as int;
        assert(value as int >= p) by (nonlinear_arith)
            requires
                value as int / p != 0,
                p > 0,
                value as int >= 0,
        ;
    }
    if r > 0 {
        let k2: u64 = (64 - r) as u64;
        assert(value >> k2 == 0);
        vstd::bits::lemma_u64_shr_is_div(value, k2);
        vstd::arithmetic::power2::lemma_pow2_pos(k2 as nat);
        let p2 = vstd::arithmetic::power2::pow2(k2 as nat) as int;
        assert((value as int) < p2) by (nonlinear_arith)
            requires
                value as int / p2 == 0,
                p2 > 0,
                value as int >= 0,
        ;
    }
}

/// Appends `data` to `buf`, preceded by its length as a variable-length integer.
pub fn encode_bytes(data: &[u8], buf: &mut Vec<u8>)
    ensures
        final(buf)@ == old(buf)@ + varint_encoding(data@.len() as nat) + data@,
{
    let mut len_buf = [0u8; 10];
    proof {
        lemma_varint_encoding_len(data@.len() as nat);
    }
    let len_size = encode_varint(data.len() as u64, &mut len_buf);
    let ghost start = buf@;
    let mut i: usize = 0;
    while i < len_size
        invariant
            i <= len_size,
            len_size == varint_encoding(data@.len() as nat).len(),
            len_buf@.subrange(0, len_size as int) == varint_encoding(data@.len() as nat),
            len_size <= len_buf@.len(),
            buf@ == start + len_buf@.subrange(0, i as int),
        decreases len_size - i,
    {
        buf.push(len_buf[i]);
        assert(buf@ =~= start + len_buf@.subrange(0, i + 1));
        i += 1;
    }
    let ghost mid = buf@;
    let mut j: usize = 0;
    while j < data.len()
        invariant
            j <= data@.len(),
            buf@ == mid + data@.subrange(0, j as int),
        decreases data@.len() - j,
    {
        buf.push(data[j]);
        assert(buf@ =~= mid + data@.subrange(0, j + 1));
        j += 1;
    }
    assert(data@.subrange(0, data@.len() as int) =~= data@);
}

/// Whether `s` starts with a length-prefixed byte string that it holds whole.
pub open spec fn has_bytes(s: Seq<u8>) -> bool {
    &&& has_varint(s)
    &&& varint_len(s) + varint_value(s) <= s.len()
}

/// Decodes the length-prefixed byte string at the start of `buf`; returns it and the number
/// of bytes it takes with its length.
pub fn decode_bytes(buf: &[u8]) -> (r: (&[u8], usize))
    requires
        has_bytes(buf@),
    ensures
        r.1 == varint_len(buf@) + varint_value(buf@),
        r.0@ == buf@.subrange(varint_len(buf@) as int, r.1 as int),
{
    let (len, len_size) = decode_varint(buf);
    let blen = buf.len();
    assert(len_size + len <= blen);
    let len = len as usize;
    (&buf[len_size..len_size + len], len_size + len)
}

/// The length of the longest common prefix of `a` and `b`.
pub fn common_prefix_len(a: &[u8], b: &[u8]) -> (n: usize)
    ensures
        n == common_prefix(a@, b@),
{
    let mut i: usize = 0;
    while i < a.len() && i < b.len() && a[i] == b[i]
        invariant
            i <= a@.len(),
            i <= b@.len(),
            forall|j: int| 0 <= j < i ==> a@[j] == b@[j],
        decreases a@.len() - i,
    {
        i += 1;
    }
    proof {
        lemma_common_prefix_unique(a@, b@, i as int);
    }
    i
}

/// Front coding of `key` against `prev_key`: the length of their common prefix and the rest
/// of `key`.
pub fn front_encode<'a>(prev_key: &[u8], key: &'a [u8]) -> (r: (usize, &'a [u8]))
    ensures
        r.0 == common_prefix(prev_key@, key@),
        r.1@ == key@.subrange(r.0 as int, key@.len() as int),
{
    let shared = common_prefix_len(prev_key, key);
    proof {
        lemma_common_prefix(prev_key@, key@);
    }
    (shared, &key[shared..key.len()])
}

/// Rebuilds a front-coded key: the first `shared_len` bytes of `prev_key`, then `suffix`.
pub fn front_decode(prev_key: &[u8], shared_len: usize, suffix: &[u8]) -> (r: Vec<u8>)
    requires
        shared_len <= prev_key@.len(),
    ensures
        r@ == prev_key@.subrange(0, shared_len as int) + suffix@,
{
    let mut result: Vec<u8> = Vec::new();
    let mut i: usize = 0;
    while i < shared_len
        invariant
            i <= shared_len <= prev_key@.len(),
            result@ == prev_key@.subrange(0, i as int),
        decreases shared_len - i,
    {
        result.push(prev_key[i]);
        assert(result@ =~= prev_key@.subrange(0, i + 1));
        i += 1;
    }
    let mut j: usize = 0;
    while j < suffix.len()
        invariant
            j <= suffix@.len(),
            result@ == prev_key@.subrange(0, shared_len as int) + suffix@.subrange(0, j as int),
        decreases suffix@.len() - j,
    {
        result.push(suffix[j]);
        assert(result@ =~= prev_key@.subrange(0, shared_len as int) + suffix@.subrange(0, j + 1));
        j += 1;
    }
    assert(suffix@.subrange(0, suffix@.len() as int) =~= suffix@);
    result
}

/// A value written by `encode_varint` is read back by `decode_varint` whole, whatever
/// follows it.
pub proof fn law_varint_roundtrip(v: u64, rest: Seq<u8>)
    ensures
        has_varint(varint_encoding(v as nat) + rest),
        varint_len(varint_encoding(v as nat) + rest) == varint_encoding(v as nat).len(),
        varint_value(varint_encoding(v as nat) + rest) == v,
{
    let e = varint_encoding(v as nat);
    lemma_varint_encoding_len(v as nat);
    lemma_varint_encoding_decodes(v as nat);
    lemma_varint_extend(e, rest);
}

/// Decoding a front-coded key against the key it was coded against gives the key back.
pub proof fn law_front_coding_roundtrip(prev_key: Seq<u8>, key: Seq<u8>)
    ensures
        common_prefix(prev_key, key) <= prev_key.len(),
        prev_key.subrange(0, common_prefix(prev_key, key) as int) + key.subrange(
            common_prefix(prev_key, key) as int,
            key.len() as int,
        ) == key,
{
    lemma_common_prefix(prev_key, key);
    let n = common_prefix(prev_key, key) as int;
    assert(prev_key.subrange(0, n) + key.subrange(n, key.len() as int) =~= key);
}

/// Length-prefixed bytes appended by `encode_bytes` are read back by `decode_bytes` whole.
pub proof fn law_bytes_roundtrip(data: Seq<u8>, rest: Seq<u8>)
    requires
        data.len() <= u64::MAX,
    ensures
        has_bytes(varint_encoding(data.len()) + data + rest),
        varint_len(varint_encoding(data.len()) + data + rest) + varint_value(
            varint_encoding(data.len()) + data + rest,
        ) == varint_encoding(data.len()).len() + data.len(),
        (varint_encoding(data.len()) + data + rest).subrange(
            varint_encoding(data.len()).len() as int,
            (varint_encoding(data.len()).len() + data.len()) as int,
        ) == data,
{
    let e = varint_encoding(data.len());
    law_varint_roundtrip(data.len() as u64, data + rest);
    assert(e + data + rest =~= e + (data + rest));
    assert((e + data + rest).subrange(e.len() as int, (e.len() + data.len()) as int) =~= data);
}

} // verus!
