//! Persistent hash map built on a CHAMP trie.
//!
//! A CHAMP trie keeps inline entries and child subtrees of every inner node
//! in two disjoint bitmaps, which forces one structure per set of entries.
//! On top of that canonical form the map maintains an additive structural
//! hash, so that two maps holding the same entries agree on hash and length.
use crate::store::StoreCheckpoint;
use vstd::prelude::*;

pub mod adhash;
pub mod arena;
pub mod arena_sync;
pub mod bump;
pub mod canon;
pub mod collide;
pub mod iter;
pub mod map;
pub mod map_sync;
pub mod node;
pub mod ops;
pub mod order;
pub mod state;
pub mod store;
pub mod text;
pub mod trie;

pub use map::ChampMap;
pub use map_sync::ChampMapSync;

verus! {

/// What an insert into the shareable map did.
#[derive(Clone, Copy, Debug, PartialEq, Eq, Structural)]
pub enum InsertResult {
    /// The key was new.
    Inserted,
    /// The key was there and its value was replaced.
    Updated,
}

/// Saved map state for rollback: the high-water marks of the arenas with the
/// root, the size and the structural hash of the moment.
#[derive(Clone, Copy, Debug)]
pub struct ChampCheckpoint {
    /// Three-arena store checkpoint.
    pub store: StoreCheckpoint,
    /// Root node index at checkpoint time.
    pub root: Option<usize>,
    /// Entry count at checkpoint time.
    pub size: usize,
    /// Structural hash at checkpoint time.
    pub adhash: u64,
}

} // verus!
