//! Lookup: descent by hash fragments, linear scan in a collision node.
use crate::adhash::StableHash;
use crate::node::{fragment, index, lemma_bit_edits, lemma_index_is_rank, mask, offset, Node};
use crate::store::ChampStore;
use crate::trie::{
    block_has, block_of, block_pos, distinct_keys, lemma_on_route, lookup, route, wf_subtree,
};
use vstd::laws_eq::obeys_concrete_eq;
use vstd::prelude::*;

verus! {

/// Whether a borrowed result is the value that the model names.
pub open spec fn same_value<V>(found: Option<&V>, model: Option<V>) -> bool {
    match found {
        Some(v) => model == Some(*v),
        None => model.is_none(),
    }
}

/// Searches for `key`, whose hash is `hash`, in the subtree rooted at
/// `node_idx`, which sits at depth `shift / 5`.
#[verifier::loop_isolation(false)]
pub fn get_recursive<'a, K, V, S>(
    store: &'a S,
    node_idx: usize,
    hash: u64,
    key: &K,
    shift: u32,
) -> (found: Option<&'a V>) where K: StableHash + Eq + 'a, V: StableHash + 'a, S: ChampStore<K, V>
    requires
        obeys_concrete_eq::<K>(),
        shift % 5 == 0,
        shift <= 65,
        store@.fits(),
        wf_subtree(store@, node_idx, route(hash, (shift / 5) as nat)),
    ensures
        same_value(found, lookup(store@, node_idx, (shift / 5) as nat, hash, *key)),
    decreases 70 - shift,
{
    proof {
        reveal(obeys_concrete_eq);
    }
    let ghost level = (shift / 5) as nat;
    let ghost path = route(hash, level);
    match *store.get_node(node_idx) {
        Node::Inner { data_map, node_map, data_start, children_start, .. } => {
            let frag = fragment(hash, shift);
            let bit = mask(frag);
            proof {
                lemma_bit_edits(data_map, frag, frag);
                lemma_bit_edits(node_map, frag, frag);
                lemma_index_is_rank(data_map, frag);
                lemma_index_is_rank(node_map, frag);
                lemma_on_route(hash, hash, level);
            }
            if data_map & bit != 0 {
                let pos = index(data_map, bit);
                let entry = store.get_entry(offset(data_start, pos));
                if entry.hash == hash && entry.key == *key {
                    Some(&entry.value)
                } else {
                    None
                }
            } else if node_map & bit != 0 {
                let pos = index(node_map, bit);
                let child_idx = store.get_child(offset(children_start, pos));
                get_recursive(store, child_idx, hash, key, shift + crate::node::BITS_PER_LEVEL)
            } else {
                None
            }
        },
        Node::Collision { hash: node_hash, entries_start, entries_len, .. } => {
            if hash != node_hash {
                return None;
            }
            let ghost block = block_of(store@, entries_start, entries_len as nat);
            let len = entries_len as usize;
            let mut i: usize = 0;
            while i < len
                invariant
                    obeys_concrete_eq::<K>(),
                    i <= len,
                    len == entries_len,
                    store@.fits(),
                    entries_start + len <= store@.entries.len(),
                    block == block_of(store@, entries_start, entries_len as nat),
                    distinct_keys(block),
                    forall|j: int| 0 <= j < i ==> (#[trigger] block[j]).key != *key,
                decreases len - i,
            {
                let entry = store.get_entry(offset(entries_start, i));
                assert(*entry == block[i as int]);
                if entry.key == *key {
                    assert(block_has(block, *key));
                    assert(block_pos(block, *key) == i);
                    return Some(&entry.value);
                }
                i += 1;
            }
            assert(!block_has(block, *key));
            None
        },
    }
}

} // verus!
