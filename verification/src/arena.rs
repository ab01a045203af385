//! Byte arenas: a chunked bump allocator, and an offset-addressed arena whose 32-bit
//! offsets stand in for pointers.
use vstd::prelude::*;
use crate::vec_mem::vec_capacity;

verus! {

/// The size of a chunk of a new [`Arena`]: one MiB.
pub const DEFAULT_CHUNK_SIZE: usize = 1048576;

/// The least alignment of an allocation.
pub const MIN_ALIGN: usize = 8;

/// Where an allocation of an [`Arena`] lies: its chunk, where it starts there, its length.
#[derive(Clone, Copy, Debug, PartialEq, Eq, Structural)]
pub struct ArenaSpan {
    pub chunk: usize,
    pub start: usize,
    pub len: usize,
}

/// The sum of the lengths of `chunks`.
pub open spec fn total_len(chunks: Seq<Seq<u8>>) -> nat
    decreases chunks.len(),
{
    if chunks.len() == 0 {
        0
    } else {
        total_len(chunks.drop_last()) + chunks.last().len()
    }
}

/// `x` rounded up to a multiple of `a`.
pub open spec fn round_up(x: int, a: int) -> int {
    (x + a - 1) / a * a
}

/// The alignment an allocation asked for with `align` gets.
pub open spec fn effective_align(align: usize) -> int {
    if align < MIN_ALIGN {
        MIN_ALIGN as int
    } else {
        align as int
    }
}

/// A memory arena for bulk allocation.
///
/// It hands out room from large chunks; a request that does not fit in what is left of the
/// current chunk opens a new chunk of at least the chunk size. Allocations are never freed
/// one by one.
pub struct Arena {
    chunks: Vec<Vec<u8>>,
    current: usize,
    remaining: usize,
    chunk_size: usize,
    total_allocated: usize,
}

impl View for Arena {
    type V = Seq<Seq<u8>>;

    /// The bytes of each chunk.
    closed spec fn view(&self) -> Seq<Seq<u8>> {
        self.chunks@.map_values(|c: Vec<u8>| c@)
    }
}

impl Arena {
    /// Where the next allocation may start in the last chunk.
    pub closed spec fn spec_current(&self) -> nat {
        self.current as nat
    }

    /// The size of a new chunk.
    pub closed spec fn spec_chunk_size(&self) -> nat {
        self.chunk_size as nat
    }

    /// The bytes of all chunks together.
    pub closed spec fn spec_total(&self) -> nat {
        self.total_allocated as nat
    }

    pub closed spec fn wf(&self) -> bool {
        &&& self.total_allocated == total_len(self@)
        &&& if self.chunks@.len() == 0 {
            self.current == 0 && self.remaining == 0
        } else {
            self.current + self.remaining == self@.last().len()
        }
    }

    /// `s` lies in room handed out so far.
    pub open spec fn holds(&self, s: ArenaSpan) -> bool {
        &&& s.chunk < self@.len()
        &&& s.start + s.len <= self@[s.chunk as int].len()
        &&& s.chunk == self@.len() - 1 ==> s.start + s.len <= self.spec_current()
    }

    /// The bytes of `s`.
    pub open spec fn read(&self, s: ArenaSpan) -> Seq<u8> {
        self@[s.chunk as int].subrange(s.start as int, s.start + s.len)
    }

    /// An arena with chunks of the default size.
    pub fn new() -> (r: Self)
        ensures
            r.wf(),
            r@.len() == 0,
            r.spec_total() == 0,
            r.spec_current() == 0,
            r.spec_chunk_size() == DEFAULT_CHUNK_SIZE,
    {
        Self::with_chunk_size(DEFAULT_CHUNK_SIZE)
    }

    /// An arena with chunks of `chunk_size` bytes.
    pub fn with_chunk_size(chunk_size: usize) -> (r: Self)
        ensures
            r.wf(),
            r@.len() == 0,
            r.spec_total() == 0,
            r.spec_current() == 0,
            r.spec_chunk_size() == chunk_size,
    {
        let r = Arena { chunks: Vec::new(), current: 0, remaining: 0, chunk_size, total_allocated: 0 };
        assert(r@ =~= Seq::<Seq<u8>>::empty());
        r
    }

    /// Room for `size` bytes aligned to `align` (at least [`MIN_ALIGN`]): after the room
    /// handed out in the last chunk if it fits there, else at the start of a new chunk of
    /// `max(size, chunk size)` zero bytes. No byte changes.
    pub fn allocate(&mut self, size: usize, align: usize) -> (r: ArenaSpan)
        requires
            old(self).wf(),
            old(self).spec_total() + size + effective_align(align) + old(self).spec_chunk_size()
                <= usize::MAX,
        ensures
            final(self).wf(),
            r.len == size,
            r.start as int % effective_align(align) == 0,
            final(self).holds(r),
            r.chunk == final(self)@.len() - 1,
            final(self).spec_current() == r.start + size,
            final(self).spec_chunk_size() == old(self).spec_chunk_size(),
            final(self).spec_total() == total_len(final(self)@),
            ({
                let a = effective_align(align);
                let aligned = round_up(old(self).spec_current() as int, a);
                if old(self)@.len() > 0 && aligned + size <= old(self)@.last().len() {
                    &&& final(self)@ == old(self)@
                    &&& final(self).spec_total() == old(self).spec_total()
                    &&& r.chunk == old(self)@.len() - 1
                    &&& r.start == aligned
                } else {
                    let n = if size > old(self).spec_chunk_size() {
                        size as nat
                    } else {
                        old(self).spec_chunk_size()
                    };
                    &&& final(self)@ == old(self)@.push(Seq::new(n, |i: int| 0u8))
                    &&& final(self).spec_total() == old(self).spec_total() + n
                    &&& r.start == 0
                }
            }),
    {
        let a = if align < MIN_ALIGN {
            MIN_ALIGN
        } else {
            align
        };
        let ghost old_view = self@;
        proof {
            if self.chunks@.len() > 0 {
                lemma_total_len_last(self@);
            }
            lemma_round_up(self.current as int, a as int);
        }
        let q = (self.current + a - 1) / a;
        let aligned = q * a;
        let padding = aligned - self.current;
        if self.chunks.len() > 0 && size <= self.remaining && padding <= self.remaining - size {
            self.current = aligned + size;
            self.remaining = self.remaining - size - padding;
            return ArenaSpan { chunk: self.chunks.len() - 1, start: aligned, len: size };
        }
        let n = if size > self.chunk_size {
            size
        } else {
            self.chunk_size
        };
        let chunk: Vec<u8> = vec![0u8; n];
        proof {
            assert(chunk@ =~= Seq::new(n as nat, |i: int| 0u8));
        }
        self.chunks.push(chunk);
        self.total_allocated = self.total_allocated + n;
        self.current = size;
        self.remaining = n - size;
        proof {
            assert(self@ =~= old_view.push(Seq::new(n as nat, |i: int| 0u8)));
            assert(self@.drop_last() =~= old_view);
            assert(0int % (a as int) == 0);
        }
        ArenaSpan { chunk: self.chunks.len() - 1, start: 0, len: size }
    }

    /// Copy `bytes` into fresh room (alignment one, raised to [`MIN_ALIGN`]) and return it;
    /// empty bytes take no room and get an empty span. Room handed out before keeps its bytes.
    pub fn alloc_bytes(&mut self, bytes: &[u8]) -> (r: ArenaSpan)
        requires
            old(self).wf(),
            old(self).spec_total() + bytes@.len() + MIN_ALIGN + old(self).spec_chunk_size()
                <= usize::MAX,
        ensures
            final(self).wf(),
            r.len == bytes@.len(),
            bytes@.len() == 0 ==> final(self)@ == old(self)@ && final(self).spec_current()
                == old(self).spec_current() && r == (ArenaSpan { chunk: 0, start: 0, len: 0 }),
            bytes@.len() > 0 ==> final(self).holds(r) && final(self).read(r) == bytes@,
            forall|s: ArenaSpan| old(self).holds(s) ==> #[trigger] final(self).holds(s)
                && final(self).read(s) == old(self).read(s),
            final(self).spec_chunk_size() == old(self).spec_chunk_size(),
            final(self).spec_total() == total_len(final(self)@),
    {
        if bytes.len() == 0 {
            return ArenaSpan { chunk: 0, start: 0, len: 0 };
        }
        let ghost v0 = self@;
        let ghost c0 = self.current;
        let span = self.allocate(bytes.len(), 1);
        let ghost v1 = self@;
        let mut chunk = self.chunks.pop().unwrap();
        let clen = chunk.len();
        let mut i: usize = 0;
        while i < bytes.len()
            invariant
                v1.len() > 0,
                chunk@.len() == clen,
                i <= bytes@.len() == span.len,
                span.start + span.len <= chunk@.len() == v1.last().len(),
                forall|j: int| 0 <= j < chunk@.len() && !(span.start <= j < span.start + i)
                    ==> #[trigger] chunk@[j] == v1.last()[j],
                forall|j: int| 0 <= j < i ==> #[trigger] chunk@[span.start + j] == bytes@[j],
            decreases bytes@.len() - i,
        {
            chunk.set(span.start + i, bytes[i]);
            i += 1;
        }
        self.chunks.push(chunk);
        proof {
            assert(self@ =~= v1.update(v1.len() - 1, chunk@));
            assert(self@.drop_last() =~= v1.drop_last());
            lemma_total_len_last(self@);
            lemma_total_len_last(v1);
            assert forall|j: int| 0 <= j < bytes@.len() implies #[trigger] self.read(span)[j]
                == bytes@[j] by {
                assert(chunk@[span.start + j] == bytes@[j]);
            }
            assert(self.read(span) =~= bytes@);
            assert forall|s: ArenaSpan| old(self).holds(s) implies #[trigger] self.holds(s)
                && self.read(s) == old(self).read(s) by {
                assert(self.read(s) =~= old(self).read(s));
            }
        }
        span
    }

    /// The bytes of room handed out.
    pub fn get(&self, s: ArenaSpan) -> (r: &[u8])
        requires
            self.holds(s),
        ensures
            r@ == self.read(s),
    {
        let c = &self.chunks[s.chunk];
        let clen = c.len();
        proof {
            assert(c@ == self@[s.chunk as int]);
        }
        vstd::slice::slice_subrange(c.as_slice(), s.start, s.start + s.len)
    }

    /// The bytes of all chunks together.
    pub fn total_allocated(&self) -> (r: usize)
        ensures
            r == self.spec_total(),
    {
        self.total_allocated
    }

    /// The number of chunks.
    pub fn num_chunks(&self) -> (r: usize)
        ensures
            r == self@.len(),
    {
        self.chunks.len()
    }
}

impl Default for Arena {
    fn default() -> (r: Self)
        ensures
            r.wf(),
            r@.len() == 0,
            r.spec_total() == 0,
            r.spec_current() == 0,
            r.spec_chunk_size() == DEFAULT_CHUNK_SIZE,
    {
        Self::new()
    }
}

/// The last chunk is part of the total.
proof fn lemma_total_len_last(chunks: Seq<Seq<u8>>)
    requires
        chunks.len() > 0,
    ensures
        total_len(chunks) == total_len(chunks.drop_last()) + chunks.last().len(),
        chunks.last().len() <= total_len(chunks),
{
}

/// Rounding up to a positive `a` adds less than `a` and gives a multiple of `a`.
proof fn lemma_round_up(x: int, a: int)
    requires
        x >= 0,
        a > 0,
    ensures
        x <= round_up(x, a) < x + a,
        round_up(x, a) % a == 0,
{
    let q = (x + a - 1) / a;
    vstd::arithmetic::div_mod::lemma_fundamental_div_mod(x + a - 1, a);
    vstd::arithmetic::div_mod::lemma_mod_multiples_basic(q, a);
    assert(round_up(x, a) == q * a);
    assert(q * a == (x + a - 1) - (x + a - 1) % a);
    assert(0 <= (x + a - 1) % a < a) by {
        vstd::arithmetic::div_mod::lemma_mod_bound(x + a - 1, a);
    }
}


/// A 32-bit offset into an arena, used for pointer compression.
///
/// This reduces pointer size from 8 bytes to 4 bytes, but limits the maximum arena size
/// to 4GB.
#[derive(Clone, Copy, Debug, PartialEq, Eq, Structural)]
pub struct ArenaOffset(pub u32);

impl ArenaOffset {
    /// A null offset (represents no value).
    pub fn null() -> (r: Self)
        ensures
            r.0 == u32::MAX,
    {
        ArenaOffset(u32::MAX)
    }

    /// Whether this offset is null.
    pub fn is_null(self) -> (r: bool)
        ensures
            r == (self.0 == u32::MAX),
    {
        self.0 == u32::MAX
    }

    /// An offset from a usize; offsets from `u32::MAX` up cannot be represented.
    pub fn from_usize(offset: usize) -> (r: Self)
        requires
            offset < u32::MAX,
        ensures
            r.0 == offset,
    {
        ArenaOffset(offset as u32)
    }

    /// The offset as usize.
    pub fn as_usize(self) -> (r: usize)
        ensures
            r == self.0,
    {
        self.0 as usize
    }
}

/// An arena that hands out offsets for pointer compression.
pub struct OffsetArena {
    data: Vec<u8>,
}

impl View for OffsetArena {
    type V = Seq<u8>;

    closed spec fn view(&self) -> Seq<u8> {
        self.data@
    }
}

impl OffsetArena {
    /// A new, empty arena with room for `capacity` bytes.
    pub fn new(capacity: usize) -> (r: Self)
        ensures
            r@ == Seq::<u8>::empty(),
    {
        OffsetArena { data: Vec::with_capacity(capacity) }
    }

    /// Store `bytes` and return where they start; an empty slice gets the null offset.
    pub fn alloc_bytes(&mut self, bytes: &[u8]) -> (r: ArenaOffset)
        requires
            bytes@.len() == 0 || old(self)@.len() < u32::MAX,
        ensures
            bytes@.len() == 0 ==> r.0 == u32::MAX && final(self)@ == old(self)@,
            bytes@.len() > 0 ==> r.0 == old(self)@.len() && final(self)@ == old(self)@ + bytes@,
    {
        if bytes.len() == 0 {
            return ArenaOffset::null();
        }
        let offset = self.data.len();
        let mut i: usize = 0;
        let ghost d0 = self.data@;
        while i < bytes.len()
            invariant
                i <= bytes@.len(),
                self.data@ == d0 + bytes@.subrange(0, i as int),
            decreases bytes@.len() - i,
        {
            self.data.push(bytes[i]);
            assert(self.data@ =~= d0 + bytes@.subrange(0, i + 1));
            i += 1;
        }
        assert(bytes@.subrange(0, bytes@.len() as int) =~= bytes@);
        ArenaOffset::from_usize(offset)
    }

    /// The `len` bytes at `offset`; the null offset gives none.
    pub fn get_bytes(&self, offset: ArenaOffset, len: usize) -> (r: &[u8])
        requires
            offset.0 == u32::MAX || offset.0 + len <= self@.len(),
        ensures
            r@ == if offset.0 == u32::MAX {
                Seq::<u8>::empty()
            } else {
                self@.subrange(offset.0 as int, offset.0 + len)
            },
    {
        if offset.is_null() {
            return &[];
        }
        let n = self.data.len();
        let start = offset.as_usize();
        &self.data.as_slice()[start..start + len]
    }

    /// Total bytes used.
    pub fn len(&self) -> (r: usize)
        ensures
            r == self@.len(),
    {
        self.data.len()
    }

    /// Whether no byte is stored.
    pub fn is_empty(&self) -> (r: bool)
        ensures
            r == (self@.len() == 0),
    {
        self.len() == 0
    }

    /// Bytes reserved, at least those used.
    pub fn capacity(&self) -> (r: usize)
        ensures
            r >= self@.len(),
    {
        vec_capacity(&self.data)
    }
}

impl Default for OffsetArena {
    fn default() -> (r: Self)
        ensures
            r@ == Seq::<u8>::empty(),
    {
        Self::new(4096)
    }
}

} // verus!
