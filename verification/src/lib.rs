//! Memory-efficient maps from byte-string keys to values.
use vstd::prelude::*;

pub mod arena;
pub mod art;
pub mod art_arena;
pub mod art_compact;
pub mod art_fast;
pub mod art_glory;
pub mod art_hot;
pub mod art_lean;
pub mod art_optimized;
pub mod art_compact2;
pub mod art_ultra;
pub mod binode;
pub mod encoding;
pub mod front_coded;
pub mod frozen;
pub mod glory;
pub mod hot;
pub mod hybrid;
pub mod hot2;
pub mod hot_compound;
pub mod hot_final;
pub mod hot_inline;
pub mod le_bytes;
pub mod sorted;
pub mod vec_mem;

pub use art::AdaptiveRadixTree;
pub use art_compact2::UltraCompactArt;
pub use art_fast::FastArt;
pub use frozen::{FrozenLayer, FrozenLayerBuilder, FrozenStats};
pub use hot_final::HOT;
pub use hot_inline::InlineHot;

verus! {

/// Configuration for a store.
pub struct Config {
    /// Initial capacity hint
    pub initial_capacity: usize,
}

impl Default for Config {
    fn default() -> (r: Self)
        ensures
            r.initial_capacity == 1024,
    {
        Config { initial_capacity: 1024 }
    }
}

} // verus!
