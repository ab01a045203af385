# memkv

Memory-efficient maps from byte-string keys to values, written in Verus: every map's
operations carry contracts over a mathematical model (a `Map<Seq<u8>, V>`), and Verus proves
the code against them.

## Layout

- `src/art/`: an adaptive radix tree (`AdaptiveRadixTree`) with four node sizes, prefix
  compression, ordered range and prefix scans, and a memory report.
- `src/art_compact/`, `src/art_compact2/`: the same tree with keys and prefixes kept in a
  byte arena (`CompactArt`, `UltraCompactArt`).
- `src/art_fast.rs`: `FastArt`, the tree for `u64` values with zero-terminated keys.
- `src/hot_final.rs`, `src/hot_inline.rs`, `src/hot_compound.rs`, `src/binode.rs`:
  height-optimized tries of binary nodes packed into byte arenas (`HOT`, `InlineHot`,
  `CompoundHot`).
- `src/frozen.rs`, `src/hybrid.rs`: an immutable layer kept in a finite state transducer (the
  `fst` crate, called through a few trusted wrappers), and an index that puts a sorted write
  buffer in front of it.
- `src/front_coded.rs`, `src/glory.rs`, `src/hot2.rs`, `src/encoding.rs`, `src/arena.rs`:
  front-coded sorted blocks, flat sorted stores, variable-length encodings and arenas.
- `app/`: `MemKV`, a thread-safe store over the tree, and the float-valued memory summary.
- `tests/`: the tests, run against the compiled library.

Each map has a closed `wf()` that its constructors establish and its operations keep, and a
view `@` that its contracts are stated over.
