//! Arena-backed storage for a single writer.
use crate::bump::{
    node_arena_alloc, node_arena_get, node_arena_len, node_arena_new, node_arena_rollback,
    node_items, slot_arena_extend, slot_arena_get, slot_arena_len, slot_arena_new,
    slot_arena_rollback, slot_items,
};
use crate::node::{Entry, Node};
use crate::store::{ChampStore, StoreCheckpoint, StoreView};
use safe_bump::Arena;
use vstd::prelude::*;

verus! {

/// Storage backend on two bump arenas and a vector of entries.
pub struct ChampArena<K, V> {
    nodes: Arena<Node>,
    entries: Vec<Entry<K, V>>,
    children: Arena<usize>,
}

impl<K, V> View for ChampArena<K, V> {
    type V = StoreView<K, V>;

    closed spec fn view(&self) -> StoreView<K, V> {
        StoreView {
            nodes: node_items(self.nodes),
            entries: self.entries@,
            children: slot_items(self.children),
        }
    }
}

impl<K, V> ChampArena<K, V> {
    /// Creates an empty store.
    pub fn new() -> (store: Self)
        ensures
            store@.nodes.len() == 0,
            store@.entries.len() == 0,
            store@.children.len() == 0,
            store.limit() == usize::MAX,
    {
        ChampArena { nodes: node_arena_new(), entries: Vec::new(), children: slot_arena_new() }
    }
}

impl<K, V> ChampStore<K, V> for ChampArena<K, V> {
    open spec fn limit(&self) -> nat {
        usize::MAX as nat
    }

    fn alloc_node(&mut self, node: Node) -> (idx: usize) {
        node_arena_alloc(&mut self.nodes, node)
    }

    fn get_node(&self, idx: usize) -> (node: &Node) {
        node_arena_get(&self.nodes, idx)
    }

    fn alloc_entries(&mut self, block: Vec<Entry<K, V>>) -> (start: Option<usize>) {
        let mut block = block;
        let first = self.entries.len();
        let empty = block.len() == 0;
        self.entries.append(&mut block);
        if empty {
            None
        } else {
            Some(first)
        }
    }

    fn get_entry(&self, idx: usize) -> (entry: &Entry<K, V>) {
        &self.entries[idx]
    }

    fn alloc_children(&mut self, block: Vec<usize>) -> (start: Option<usize>) {
        slot_arena_extend(&mut self.children, block)
    }

    fn get_child(&self, idx: usize) -> (child: usize) {
        *slot_arena_get(&self.children, idx)
    }

    fn checkpoint(&self) -> (cp: StoreCheckpoint) {
        StoreCheckpoint {
            nodes: node_arena_len(&self.nodes),
            entries: self.entries.len(),
            children: slot_arena_len(&self.children),
        }
    }

    fn rollback(&mut self, cp: StoreCheckpoint) {
        node_arena_rollback(&mut self.nodes, cp.nodes);
        self.entries.truncate(cp.entries);
        slot_arena_rollback(&mut self.children, cp.children);
    }

    fn arena_len(&self) -> (lens: (usize, usize, usize)) {
        (node_arena_len(&self.nodes), self.entries.len(), slot_arena_len(&self.children))
    }
}

} // verus!
