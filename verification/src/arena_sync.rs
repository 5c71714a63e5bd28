//! Storage whose completed contents can be read from several threads.
use crate::bump::{
    shared_node_arena_alloc, shared_node_arena_get, shared_node_arena_len, shared_node_arena_new,
    shared_node_arena_rollback, shared_node_items, shared_slot_arena_extend, shared_slot_arena_get,
    shared_slot_arena_len, shared_slot_arena_new, shared_slot_arena_rollback, shared_slot_items,
    SHARED_LIMIT,
};
use crate::node::{Entry, Node};
use crate::store::{ChampStore, StoreCheckpoint, StoreView};
use safe_bump::SharedArena;
use vstd::prelude::*;

verus! {

/// Storage backend on two chunked arenas, whose items never move, and a vector of entries.
pub struct ChampArenaSync<K, V> {
    nodes: SharedArena<Node>,
    entries: Vec<Entry<K, V>>,
    children: SharedArena<usize>,
}

impl<K, V> View for ChampArenaSync<K, V> {
    type V = StoreView<K, V>;

    closed spec fn view(&self) -> StoreView<K, V> {
        StoreView {
            nodes: shared_node_items(self.nodes),
            entries: self.entries@,
            children: shared_slot_items(self.children),
        }
    }
}

impl<K, V> ChampArenaSync<K, V> {
    /// Creates an empty store.
    pub fn new() -> (store: Self)
        ensures
            store@.nodes.len() == 0,
            store@.entries.len() == 0,
            store@.children.len() == 0,
            store.limit() == SHARED_LIMIT,
    {
        ChampArenaSync { nodes: shared_node_arena_new(), entries: Vec::new(), children: shared_slot_arena_new() }
    }
}

impl<K, V> ChampStore<K, V> for ChampArenaSync<K, V> {
    open spec fn limit(&self) -> nat {
        SHARED_LIMIT as nat
    }

    fn alloc_node(&mut self, node: Node) -> (idx: usize) {
        shared_node_arena_alloc(&mut self.nodes, node)
    }

    fn get_node(&self, idx: usize) -> (node: &Node) {
        shared_node_arena_get(&self.nodes, idx)
    }

    fn alloc_entries(&mut self, block: Vec<Entry<K, V>>) -> (start: Option<usize>) {
        let mut block = block;
        let first = self.entries.len();
        let empty = block.len() == 0;
        self.entries.append(&mut block);
        if empty {
            None
        } else {
            Some(first)
        }
    }

    fn get_entry(&self, idx: usize) -> (entry: &Entry<K, V>) {
        &self.entries[idx]
    }

    fn alloc_children(&mut self, block: Vec<usize>) -> (start: Option<usize>) {
        shared_slot_arena_extend(&mut self.children, block)
    }

    fn get_child(&self, idx: usize) -> (child: usize) {
        *shared_slot_arena_get(&self.children, idx)
    }

    fn checkpoint(&self) -> (cp: StoreCheckpoint) {
        StoreCheckpoint {
            nodes: shared_node_arena_len(&self.nodes),
            entries: self.entries.len(),
            children: shared_slot_arena_len(&self.children),
        }
    }

    fn rollback(&mut self, cp: StoreCheckpoint) {
        shared_node_arena_rollback(&mut self.nodes, cp.nodes);
        self.entries.truncate(cp.entries);
        shared_slot_arena_rollback(&mut self.children, cp.children);
    }

    fn arena_len(&self) -> (lens: (usize, usize, usize)) {
        (shared_node_arena_len(&self.nodes), self.entries.len(), shared_slot_arena_len(&self.children))
    }
}

} // verus!
