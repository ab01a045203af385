//! Little-endian integers in byte buffers.
use vstd::prelude::*;

verus! {

/// The `u16` whose little-endian bytes are `b0, b1`.
pub open spec fn u16_of(b0: u8, b1: u8) -> u16 {
    ((b0 as u16) | ((b1 as u16) << 8u16)) as u16
}

/// The `u64` whose little-endian bytes are `b0..b7`.
pub open spec fn u64_of(b0: u8, b1: u8, b2: u8, b3: u8, b4: u8, b5: u8, b6: u8, b7: u8) -> u64 {
    (b0 as u64) | ((b1 as u64) << 8u64) | ((b2 as u64) << 16u64) | ((b3 as u64) << 24u64) | ((
    b4 as u64) << 32u64) | ((b5 as u64) << 40u64) | ((b6 as u64) << 48u64) | ((b7 as u64)
        << 56u64)
}

/// The `u16` stored little-endian at `o` in `s`.
pub open spec fn le_u16(s: Seq<u8>, o: int) -> u16 {
    u16_of(s[o], s[o + 1])
}

/// The `u64` stored little-endian at `o` in `s`.
pub open spec fn le_u64(s: Seq<u8>, o: int) -> u64 {
    u64_of(s[o], s[o + 1], s[o + 2], s[o + 3], s[o + 4], s[o + 5], s[o + 6], s[o + 7])
}

/// The little-endian bytes of `v`.
pub open spec fn u16_bytes(v: u16) -> Seq<u8> {
    seq![(v & 0xff) as u8, (v >> 8u16) as u8]
}

/// The little-endian bytes of `v`.
pub open spec fn u64_bytes(v: u64) -> Seq<u8> {
    seq![
        (v & 0xff) as u8,
        ((v >> 8u64) & 0xff) as u8,
        ((v >> 16u64) & 0xff) as u8,
        ((v >> 24u64) & 0xff) as u8,
        ((v >> 32u64) & 0xff) as u8,
        ((v >> 40u64) & 0xff) as u8,
        ((v >> 48u64) & 0xff) as u8,
        ((v >> 56u64) & 0xff) as u8,
    ]
}

pub proof fn lemma_u16_roundtrip(v: u16)
    ensures
        u16_of((v & 0xff) as u8, (v >> 8u16) as u8) == v,
{
    assert(u16_of((v & 0xff) as u8, (v >> 8u16) as u8) == v) by (bit_vector);
}

pub proof fn lemma_u64_roundtrip(v: u64)
    ensures
        u64_of(
            (v & 0xff) as u8,
            ((v >> 8u64) & 0xff) as u8,
            ((v >> 16u64) & 0xff) as u8,
            ((v >> 24u64) & 0xff) as u8,
            ((v >> 32u64) & 0xff) as u8,
            ((v >> 40u64) & 0xff) as u8,
            ((v >> 48u64) & 0xff) as u8,
            ((v >> 56u64) & 0xff) as u8,
        ) == v,
{
    assert(u64_of(
        (v & 0xff) as u8,
        ((v >> 8u64) & 0xff) as u8,
        ((v >> 16u64) & 0xff) as u8,
        ((v >> 24u64) & 0xff) as u8,
        ((v >> 32u64) & 0xff) as u8,
        ((v >> 40u64) & 0xff) as u8,
        ((v >> 48u64) & 0xff) as u8,
        ((v >> 56u64) & 0xff) as u8,
    ) == v) by (bit_vector);
}

/// Bytes stored at `o` in `s` read back as what was stored.
pub proof fn lemma_read_u64_bytes(s: Seq<u8>, o: int, v: u64)
    requires
        0 <= o,
        o + 8 <= s.len(),
        s.subrange(o, o + 8) == u64_bytes(v),
    ensures
        le_u64(s, o) == v,
{
    assert(s[o] == s.subrange(o, o + 8)[0]);
    assert(s[o + 1] == s.subrange(o, o + 8)[1]);
    assert(s[o + 2] == s.subrange(o, o + 8)[2]);
    assert(s[o + 3] == s.subrange(o, o + 8)[3]);
    assert(s[o + 4] == s.subrange(o, o + 8)[4]);
    assert(s[o + 5] == s.subrange(o, o + 8)[5]);
    assert(s[o + 6] == s.subrange(o, o + 8)[6]);
    assert(s[o + 7] == s.subrange(o, o + 8)[7]);
    lemma_u64_roundtrip(v);
}

/// Bytes stored at `o` in `s` read back as what was stored.
pub proof fn lemma_read_u16_bytes(s: Seq<u8>, o: int, v: u16)
    requires
        0 <= o,
        o + 2 <= s.len(),
        s.subrange(o, o + 2) == u16_bytes(v),
    ensures
        le_u16(s, o) == v,
{
    assert(s[o] == s.subrange(o, o + 2)[0]);
    assert(s[o + 1] == s.subrange(o, o + 2)[1]);
    lemma_u16_roundtrip(v);
}

/// Read the `u16` stored little-endian at `o`.
pub fn read_u16(s: &[u8], o: usize) -> (r: u16)
    requires
        o + 2 <= s@.len(),
    ensures
        r == le_u16(s@, o as int),
{
    (s[o] as u16) | ((s[o + 1] as u16) << 8)
}

/// Read the `u64` stored little-endian at `o`.
pub fn read_u64(s: &[u8], o: usize) -> (r: u64)
    requires
        o + 8 <= s@.len(),
    ensures
        r == le_u64(s@, o as int),
{
    (s[o] as u64) | ((s[o + 1] as u64) << 8) | ((s[o + 2] as u64) << 16) | ((s[o + 3] as u64)
        << 24) | ((s[o + 4] as u64) << 32) | ((s[o + 5] as u64) << 40) | ((s[o + 6] as u64)
        << 48) | ((s[o + 7] as u64) << 56)
}

/// Append the little-endian bytes of `v`.
pub fn push_u16(buf: &mut Vec<u8>, v: u16)
    ensures
        final(buf)@ == old(buf)@ + u16_bytes(v),
{
    buf.push((v & 0xff) as u8);
    buf.push((v >> 8) as u8);
    assert(final(buf)@ =~= old(buf)@ + u16_bytes(v));
}

/// Append the little-endian bytes of `v`.
pub fn push_u64(buf: &mut Vec<u8>, v: u64)
    ensures
        final(buf)@ == old(buf)@ + u64_bytes(v),
{
    let mut i: u64 = 0;
    let ghost b0 = buf@;
    while i < 8
        invariant
            i <= 8,
            buf@ == b0 + u64_bytes(v).subrange(0, i as int),
        decreases 8 - i,
    {
        buf.push(((v >> (8 * i)) & 0xff) as u8);
        assert(buf@ =~= b0 + u64_bytes(v).subrange(0, i + 1)) by {
            assert(((v >> (8 * i)) & 0xff) as u8 == u64_bytes(v)[i as int]) by {
                if i == 0 {
                    assert(v >> 0u64 == v) by (bit_vector);
                }
            }
        }
        i += 1;
    }
    assert(u64_bytes(v).subrange(0, 8) =~= u64_bytes(v));
}

/// Overwrite the eight bytes at `o` with the little-endian bytes of `v`.
pub fn write_u64(buf: &mut Vec<u8>, o: usize, v: u64)
    requires
        o + 8 <= old(buf)@.len(),
    ensures
        final(buf)@ == old(buf)@.subrange(0, o as int) + u64_bytes(v) + old(buf)@.subrange(
            o + 8,
            old(buf)@.len() as int,
        ),
{
    let ghost b0 = buf@;
    let n = buf.len();
    let mut i: usize = 0;
    while i < 8
        invariant
            i <= 8,
            n == b0.len(),
            o + 8 <= b0.len(),
            buf@.len() == b0.len(),
            forall|j: int| 0 <= j < b0.len() && !(o <= j < o + i) ==> buf@[j] == b0[j],
            forall|j: int| 0 <= j < i ==> buf@[o + j] == u64_bytes(v)[j],
        decreases 8 - i,
    {
        let sh = 8 * (i as u64);
        buf.set(o + i, ((v >> sh) & 0xff) as u8);
        assert(((v >> sh) & 0xff) as u8 == u64_bytes(v)[i as int]) by {
            if i == 0 {
                assert(v >> 0u64 == v) by (bit_vector);
            }
        }
        i += 1;
    }
    assert(buf@ =~= b0.subrange(0, o as int) + u64_bytes(v) + b0.subrange(o + 8, b0.len() as int));
}


/// The 32-bit value of four little-endian bytes.
pub open spec fn u32_of(b0: u8, b1: u8, b2: u8, b3: u8) -> u32 {
    ((b0 as u32) | ((b1 as u32) << 8u32) | ((b2 as u32) << 16u32) | ((b3 as u32) << 24u32)) as u32
}

/// The four little-endian bytes of `v`.
pub fn pack_u32(v: u32) -> (r: [u8; 4])
    ensures
        u32_of(r@[0], r@[1], r@[2], r@[3]) == v,
{
    let r = [
        (v & 0xff) as u8,
        ((v >> 8u32) & 0xff) as u8,
        ((v >> 16u32) & 0xff) as u8,
        ((v >> 24u32) & 0xff) as u8,
    ];
    assert(u32_of(
        (v & 0xff) as u8,
        ((v >> 8u32) & 0xff) as u8,
        ((v >> 16u32) & 0xff) as u8,
        ((v >> 24u32) & 0xff) as u8,
    ) == v) by (bit_vector);
    r
}

/// The value of four little-endian bytes.
pub fn unpack_u32(b: [u8; 4]) -> (r: u32)
    ensures
        r == u32_of(b@[0], b@[1], b@[2], b@[3]),
{
    (b[0] as u32) | ((b[1] as u32) << 8u32) | ((b[2] as u32) << 16u32) | ((b[3] as u32) << 24u32)
}

/// The two little-endian bytes of `v`.
pub fn pack_u16(v: u16) -> (r: [u8; 2])
    ensures
        u16_of(r@[0], r@[1]) == v,
{
    proof {
        lemma_u16_roundtrip(v);
    }
    [(v & 0xff) as u8, (v >> 8u16) as u8]
}

/// The value of two little-endian bytes.
pub fn unpack_u16(b: [u8; 2]) -> (r: u16)
    ensures
        r == u16_of(b@[0], b@[1]),
{
    (b[0] as u16) | ((b[1] as u16) << 8u16)
}

} // verus!
