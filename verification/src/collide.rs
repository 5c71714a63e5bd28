//! Keys that share all 64 bits of their hash: how many of them a map holds
//! decides whether it can take one more.
use crate::adhash::StableHash;
use crate::canon::found;
use crate::node::{Entry, Node};
use crate::ops::insert::insert_fits;
use crate::store::StoreView;
use crate::trie::{
    block_has, block_of, block_pos, frag_at, lemma_block_lookup, lemma_on_route, lemma_route_full,
    on_path, route, slot_of, slot_ok, wf_subtree, Slot,
};
use vstd::prelude::*;

verus! {

/// The keys of a map whose hash is `hash`.
pub open spec fn same_hash_keys<K: StableHash, V>(m: Map<K, V>, hash: u64) -> Set<K> {
    Set::new(|k: K| m.contains_key(k) && k.hash_spec() == hash)
}

/// The keys below the node at `idx` whose hash is `hash`.
pub open spec fn crowd<K: StableHash, V>(
    st: StoreView<K, V>,
    idx: usize,
    level: nat,
    hash: u64,
) -> Set<K> {
    Set::new(|k: K| found(st, idx, level, k) && k.hash_spec() == hash)
}

/// An insert stays clear of a full collision node exactly if the key is
/// there already or fewer than 255 keys with its hash are.
pub proof fn lemma_fits<K: StableHash, V: StableHash>(
    st: StoreView<K, V>,
    idx: usize,
    path: Seq<u32>,
    key: K,
)
    requires
        wf_subtree(st, idx, path),
        on_path(key.hash_spec(), path),
    ensures
        crowd(st, idx, path.len(), key.hash_spec()).finite(),
        insert_fits(st, idx, path.len(), key.hash_spec(), key) <==> (found(
            st,
            idx,
            path.len(),
            key,
        ) || crowd(st, idx, path.len(), key.hash_spec()).len() < 255),
    decreases 14 - path.len(),
{
    let node = st.nodes[idx as int];
    let level = path.len();
    let hash = key.hash_spec();
    let here = crowd(st, idx, level, hash);
    match node {
        Node::Inner { .. } => {
            let f = frag_at(hash, level);
            assert(slot_ok(st, slot_of(st, node, f), path, f));
            match slot_of(st, node, f) {
                Slot::Empty => {
                    assert(here =~= Set::<K>::empty());
                },
                Slot::Data(e) => {
                    if e.hash == hash {
                        assert(here =~= Set::<K>::empty().insert(e.key));
                    } else {
                        assert(here =~= Set::<K>::empty());
                    }
                },
                Slot::Child(c) => {
                    assert(path.push(f).len() == level + 1);
                    assert(on_path(hash, path.push(f))) by {
                        assert forall|l: int| 0 <= l < path.push(f).len() implies frag_at(
                            hash,
                            l as nat,
                        ) == #[trigger] path.push(f)[l] by {
                            if l < path.len() {
                                assert(path.push(f)[l] == path[l]);
                            }
                        }
                    }
                    lemma_fits(st, c, path.push(f), key);
                    assert(here =~= crowd(st, c, level + 1, hash));
                },
            }
        },
        Node::Collision { hash: shared, entries_start, entries_len, .. } => {
            let block = block_of(st, entries_start, entries_len as nat);
            let keys = block.map_values(|e: Entry<K, V>| e.key);
            assert(shared == hash) by {
                assert(path =~= route(shared, 13)) by {
                    assert forall|l: int| 0 <= l < 13 implies path[l] == route(shared, 13)[l] by {
                        assert(frag_at(shared, l as nat) == path[l]);
                    }
                }
                lemma_on_route(hash, shared, 13);
                lemma_route_full(hash, shared);
            }
            assert(keys.no_duplicates()) by {
                assert forall|i: int, j: int|
                    0 <= i < keys.len() && 0 <= j < keys.len() && i != j implies keys[i]
                    != keys[j] by {
                    assert(block[i].key != block[j].key);
                }
            }
            keys.unique_seq_to_set();
            assert(here =~= keys.to_set()) by {
                assert forall|k: K| here.contains(k) <==> keys.to_set().contains(k) by {
                    if keys.to_set().contains(k) {
                        let i = choose|i: int| 0 <= i < keys.len() && keys[i] == k;
                        lemma_block_lookup(block, i);
                        assert(block[i].hash == shared);
                    }
                    if here.contains(k) {
                        assert(block_has(block, k));
                        let i = block_pos(block, k);
                        assert(keys[i] == k);
                    }
                }
            }
            if block_has(block, key) {
                lemma_block_lookup(block, block_pos(block, key));
            }
        },
    }
}

} // verus!
