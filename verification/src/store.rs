//! The storage that the trie algorithms allocate from and read.
use crate::node::{Entry, Node};
use vstd::prelude::*;

verus! {

/// What an operation appends to the three arenas.
pub struct Growth {
    /// Number of node records.
    pub nodes: nat,
    /// Number of entries.
    pub entries: nat,
    /// Number of child indices.
    pub children: nat,
}

impl Growth {
    /// Nothing appended.
    pub open spec fn none() -> Growth {
        Growth { nodes: 0, entries: 0, children: 0 }
    }

    /// One node record, with blocks of the given lengths.
    pub open spec fn node(entries: nat, children: nat) -> Growth {
        Growth { nodes: 1, entries, children }
    }

    /// The sum of two growths.
    pub open spec fn plus(self, other: Growth) -> Growth {
        Growth {
            nodes: self.nodes + other.nodes,
            entries: self.entries + other.entries,
            children: self.children + other.children,
        }
    }
}

/// Contents of a store: three append-only sequences.
pub struct StoreView<K, V> {
    /// Node records.
    pub nodes: Seq<Node>,
    /// Entries, in contiguous blocks.
    pub entries: Seq<Entry<K, V>>,
    /// Child node indices, in contiguous blocks.
    pub children: Seq<usize>,
}

impl<K, V> StoreView<K, V> {
    /// Every item of `self` is still in `later`, at the same offset.
    pub open spec fn extended_by(self, later: Self) -> bool {
        &&& self.nodes.is_prefix_of(later.nodes)
        &&& self.entries.is_prefix_of(later.entries)
        &&& self.children.is_prefix_of(later.children)
    }

    /// `later` holds exactly `g` more than `self`.
    pub open spec fn grown_by(self, later: Self, g: Growth) -> bool {
        &&& later.nodes.len() == self.nodes.len() + g.nodes
        &&& later.entries.len() == self.entries.len() + g.entries
        &&& later.children.len() == self.children.len() + g.children
    }

    /// `later` holds at most `n` items more than `self` in each sequence.
    pub open spec fn grown_within(self, later: Self, n: nat) -> bool {
        &&& later.nodes.len() <= self.nodes.len() + n
        &&& later.entries.len() <= self.entries.len() + n
        &&& later.children.len() <= self.children.len() + n
    }

    /// Every offset into the store is a machine word.
    pub open spec fn fits(self) -> bool {
        &&& self.nodes.len() <= usize::MAX
        &&& self.entries.len() <= usize::MAX
        &&& self.children.len() <= usize::MAX
    }

    /// Each sequence can take `n` more items without passing `limit`.
    pub open spec fn has_room(self, limit: nat, n: nat) -> bool {
        &&& self.nodes.len() + n <= limit
        &&& self.entries.len() + n <= limit
        &&& self.children.len() + n <= limit
    }

    /// The store cut back to the lengths of a checkpoint.
    pub open spec fn truncated(self, cp: StoreCheckpoint) -> Self {
        StoreView {
            nodes: self.nodes.take(cp.nodes as int),
            entries: self.entries.take(cp.entries as int),
            children: self.children.take(cp.children as int),
        }
    }

    /// Whether a checkpoint lies within the store.
    pub open spec fn covers(self, cp: StoreCheckpoint) -> bool {
        &&& cp.nodes <= self.nodes.len()
        &&& cp.entries <= self.entries.len()
        &&& cp.children <= self.children.len()
    }

    /// The checkpoint at the current lengths.
    pub open spec fn mark(self) -> StoreCheckpoint {
        StoreCheckpoint {
            nodes: self.nodes.len() as usize,
            entries: self.entries.len() as usize,
            children: self.children.len() as usize,
        }
    }
}

/// Saved high-water marks of the three arenas.
#[derive(Clone, Copy, Debug)]
pub struct StoreCheckpoint {
    /// Length of the nodes arena.
    pub nodes: usize,
    /// Length of the entries arena.
    pub entries: usize,
    /// Length of the children arena.
    pub children: usize,
}

/// Storage backend of the trie: three arenas under one checkpoint.
pub trait ChampStore<K, V>: View<V = StoreView<K, V>> + Sized {
    /// Most items that each arena can hold.
    spec fn limit(&self) -> nat;

    /// Appends one node and returns its index.
    fn alloc_node(&mut self, node: Node) -> (idx: usize)
        requires
            old(self)@.nodes.len() < old(self).limit(),
        ensures
            final(self)@ == (StoreView { nodes: old(self)@.nodes.push(node), ..old(self)@ }),
            idx == old(self)@.nodes.len(),
            final(self).limit() == old(self).limit(),
    ;

    /// Returns the node at `idx`.
    fn get_node(&self, idx: usize) -> (node: &Node)
        requires
            idx < self@.nodes.len(),
        ensures
            *node == self@.nodes[idx as int],
    ;

    /// Appends a block of entries contiguously and returns the index of the
    /// first one, or `None` for an empty block.
    fn alloc_entries(&mut self, block: Vec<Entry<K, V>>) -> (start: Option<usize>)
        requires
            old(self)@.entries.len() + block@.len() <= old(self).limit(),
        ensures
            final(self)@ == (StoreView { entries: old(self)@.entries + block@, ..old(self)@ }),
            start == if block@.len() == 0 {
                None
            } else {
                Some(old(self)@.entries.len() as usize)
            },
            final(self).limit() == old(self).limit(),
    ;

    /// Returns the entry at `idx`.
    fn get_entry(&self, idx: usize) -> (entry: &Entry<K, V>)
        requires
            idx < self@.entries.len(),
        ensures
            *entry == self@.entries[idx as int],
    ;

    /// Appends a block of child indices contiguously and returns the index
    /// of the first one, or `None` for an empty block.
    fn alloc_children(&mut self, block: Vec<usize>) -> (start: Option<usize>)
        requires
            old(self)@.children.len() + block@.len() <= old(self).limit(),
        ensures
            final(self)@ == (StoreView { children: old(self)@.children + block@, ..old(self)@ }),
            start == if block@.len() == 0 {
                None
            } else {
                Some(old(self)@.children.len() as usize)
            },
            final(self).limit() == old(self).limit(),
    ;

    /// Returns the child index at `idx`.
    fn get_child(&self, idx: usize) -> (child: usize)
        requires
            idx < self@.children.len(),
        ensures
            child == self@.children[idx as int],
    ;

    /// Saves the current lengths of the three arenas.
    fn checkpoint(&self) -> (cp: StoreCheckpoint)
        ensures
            cp == self@.mark(),
    ;

    /// Cuts the three arenas back to a checkpoint.
    fn rollback(&mut self, cp: StoreCheckpoint)
        requires
            old(self)@.covers(cp),
        ensures
            final(self)@ == old(self)@.truncated(cp),
            final(self).limit() == old(self).limit(),
    ;

    /// Number of items in each arena: `(nodes, entries, children)`. Copies
    /// that no live node refers to any more are counted.
    fn arena_len(&self) -> (lens: (usize, usize, usize))
        ensures
            lens.0 == self@.nodes.len(),
            lens.1 == self@.entries.len(),
            lens.2 == self@.children.len(),
    ;
}

} // verus!
