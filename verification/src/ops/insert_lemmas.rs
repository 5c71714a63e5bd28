//! What the cases of an insert leave behind: one lemma for each way in
//! which a node is rebuilt.
use crate::adhash::{lemma_wrap64, lemma_wrap64_sum, wrap64, StableHash};
use crate::node::{popcount, rank};
use crate::node::{
    lemma_bit_edits, lemma_index_is_rank, lemma_kept_insert, lemma_kept_remove, lemma_kept_update,
    Entry, Node,
};
use crate::ops::insert::{
    contribution_of, holds_pair, inserted_into, replaced_weight, InsertOutcome,
};
use crate::store::StoreView;
use crate::trie::{
    block_has, block_of, block_pos, block_total, data_block, distinct_keys, frag_at, hash_run,
    kid_block, lemma_block_lookup, lemma_block_total_push, lemma_block_total_update,
    lemma_blocks_same, lemma_edit_inner, lemma_edit_run, lemma_frame, lemma_frame_run,
    lemma_fresh_inner, lemma_kept_same, lemma_on_route, lemma_route_full, lemma_short_runs,
    lemma_slots_kept, lookup, phi_weight, route, run_of_one, run_put, singleton_node, slot_of,
    slot_ok, slot_run, slot_total, subtree_total, wf_subtree, Slot,
};
use vstd::prelude::*;

verus! {

/// The runs below an inner node that was rebuilt in the slot of `entry`:
/// what holds of the runs in that slot holds of the runs below the node.
pub proof fn lemma_put_run<K: StableHash, V: StableHash>(
    st: StoreView<K, V>,
    later: StoreView<K, V>,
    idx: usize,
    new_idx: usize,
    level: nat,
    entry: Entry<K, V>,
)
    requires
        wf_subtree(st, idx, route(entry.hash, level)),
        st.extended_by(later),
        st.nodes[idx as int] is Inner,
        new_idx < later.nodes.len(),
        later.nodes[new_idx as int] is Inner,
        forall|g: u32|
            g != frag_at(entry.hash, level) ==> #[trigger] slot_of(
                later,
                later.nodes[new_idx as int],
                g,
            ) == slot_of(st, st.nodes[idx as int], g),
        forall|hash: u64|
            frag_at(hash, level) == frag_at(entry.hash, level) ==> #[trigger] slot_run(
                later,
                slot_of(later, later.nodes[new_idx as int], frag_at(entry.hash, level)),
                level,
                hash,
            ) == if hash == entry.hash {
                run_put(
                    slot_run(
                        st,
                        slot_of(st, st.nodes[idx as int], frag_at(entry.hash, level)),
                        level,
                        hash,
                    ),
                    entry,
                )
            } else {
                slot_run(
                    st,
                    slot_of(st, st.nodes[idx as int], frag_at(entry.hash, level)),
                    level,
                    hash,
                )
            },
    ensures
        forall|hash: u64| #[trigger]
            hash_run(later, new_idx, level, hash) == if hash == entry.hash {
                run_put(hash_run(st, idx, level, hash), entry)
            } else {
                hash_run(st, idx, level, hash)
            },
{
    let f0 = frag_at(entry.hash, level);
    let node = st.nodes[idx as int];
    let new_node = later.nodes[new_idx as int];
    lemma_on_route(entry.hash, entry.hash, level);
    lemma_edit_run(st, later, idx, new_idx, route(entry.hash, level), f0);
    assert forall|hash: u64| #[trigger]
        hash_run(later, new_idx, level, hash) == if hash == entry.hash {
            run_put(hash_run(st, idx, level, hash), entry)
        } else {
            hash_run(st, idx, level, hash)
        } by {
        if frag_at(hash, level) == f0 {
            assert(slot_run(later, slot_of(later, new_node, f0), level, hash) == if hash
                == entry.hash {
                run_put(slot_run(st, slot_of(st, node, f0), level, hash), entry)
            } else {
                slot_run(st, slot_of(st, node, f0), level, hash)
            });
            assert(hash_run(st, idx, level, hash) == slot_run(
                st,
                slot_of(st, node, frag_at(hash, level)),
                level,
                hash,
            ));
        }
    }
}

/// An inner node rebuilt with `entry` in a slot that was empty.
pub proof fn lemma_inner_add<K: StableHash, V: StableHash>(
    st: StoreView<K, V>,
    later: StoreView<K, V>,
    idx: usize,
    out: InsertOutcome<V>,
    level: nat,
    entry: Entry<K, V>,
)
    requires
        wf_subtree(st, idx, route(entry.hash, level)),
        st.extended_by(later),
        entry.hash == entry.key.hash_spec(),
        out.node < later.nodes.len(),
        out.inserted,
        out.old_value.is_none(),
        out.adhash_delta == wrap64(phi_weight::<K, V>()(entry)),
        st.nodes[idx as int] is Inner,
        slot_of(st, st.nodes[idx as int], frag_at(entry.hash, level)) == Slot::<K, V>::Empty,
        later.nodes[out.node as int] matches Node::Inner {
            data_map,
            node_map,
            data_start,
            children_start,
            adhash,
        } && data_map == st.nodes[idx as int]->data_map | (1u32 << frag_at(entry.hash, level))
            && node_map == st.nodes[idx as int]->node_map && children_start
            == st.nodes[idx as int]->children_start && data_start + popcount(data_map)
            <= later.entries.len() && adhash == vstd::wrapping::u64_specs::wrapping_add(
            st.nodes[idx as int].adhash_spec(),
            out.adhash_delta,
        ),
        data_block(later, later.nodes[out.node as int]) == data_block(
            st,
            st.nodes[idx as int],
        ).insert(
            rank(st.nodes[idx as int]->data_map, frag_at(entry.hash, level)) as int,
            entry,
        ),
    ensures
        inserted_into(st, idx, later, out, level, entry),
{
    reveal(inserted_into);
    let node = st.nodes[idx as int];
    let new_node = later.nodes[out.node as int];
    let path = route(entry.hash, level);
    let f0 = frag_at(entry.hash, level);
    let dm = node->data_map;
    let nm = node->node_map;
    crate::node::lemma_fragment_bound(entry.hash, (5 * level) as u32);
    lemma_on_route(entry.hash, entry.hash, level);
    crate::node::lemma_disjoint_edits(dm, nm, f0);
    lemma_blocks_same(st, later, node);
    lemma_kept_insert(dm, data_block(st, node), f0, entry);
    lemma_kept_same(nm, kid_block(st, node), f0);
    assert(kid_block(later, new_node) == kid_block(later, node));
    lemma_slots_kept(st, later, node, new_node, f0);
    lemma_index_is_rank(new_node->data_map, f0);
    assert(slot_of(later, new_node, f0) == Slot::Data(entry));
    lemma_wrap64(subtree_total(st, idx, level, phi_weight()), out.adhash_delta);
    lemma_wrap64(subtree_total(st, idx, level, phi_weight()), contribution_of(entry));
    lemma_edit_inner(st, later, idx, out.node, path, f0);
    assert forall|hash: u64| frag_at(hash, level) == f0 implies #[trigger] slot_run(
        later,
        slot_of(later, new_node, f0),
        level,
        hash,
    ) == (if hash == entry.hash {
        run_put(slot_run(st, slot_of(st, node, f0), level, hash), entry)
    } else {
        slot_run(st, slot_of(st, node, f0), level, hash)
    }) by {
        lemma_short_runs(entry, entry);
    }
    lemma_put_run(st, later, idx, out.node, level, entry);
    assert forall|hash: u64, key: K| #[trigger]
        lookup(later, out.node, level, hash, key) == if hash == entry.hash && key == entry.key {
            Some(entry.value)
        } else {
            lookup(st, idx, level, hash, key)
        } by {
    }
    crate::node::lemma_popcount_zero(dm);
}

/// An inner node rebuilt with `entry` in place of the entry of the same key.
pub proof fn lemma_inner_update<K: StableHash, V: StableHash>(
    st: StoreView<K, V>,
    later: StoreView<K, V>,
    idx: usize,
    out: InsertOutcome<V>,
    level: nat,
    entry: Entry<K, V>,
    e: Entry<K, V>,
)
    requires
        wf_subtree(st, idx, route(entry.hash, level)),
        st.extended_by(later),
        entry.hash == entry.key.hash_spec(),
        out.node < later.nodes.len(),
        !out.inserted,
        out.old_value == Some(e.value),
        out.adhash_delta == vstd::wrapping::u64_specs::wrapping_sub(
            contribution_of(entry),
            contribution_of(e),
        ),
        st.nodes[idx as int] is Inner,
        slot_of(st, st.nodes[idx as int], frag_at(entry.hash, level)) == Slot::Data(e),
        e.hash == entry.hash,
        e.key == entry.key,
        later.nodes[out.node as int] matches Node::Inner {
            data_map,
            node_map,
            data_start,
            children_start,
            adhash,
        } && data_map == st.nodes[idx as int]->data_map && node_map
            == st.nodes[idx as int]->node_map && children_start
            == st.nodes[idx as int]->children_start && data_start + popcount(data_map)
            <= later.entries.len() && adhash == vstd::wrapping::u64_specs::wrapping_add(
            st.nodes[idx as int].adhash_spec(),
            out.adhash_delta,
        ),
        data_block(later, later.nodes[out.node as int]) == data_block(
            st,
            st.nodes[idx as int],
        ).update(
            rank(st.nodes[idx as int]->data_map, frag_at(entry.hash, level)) as int,
            entry,
        ),
    ensures
        inserted_into(st, idx, later, out, level, entry),
{
    reveal(inserted_into);
    let node = st.nodes[idx as int];
    let new_node = later.nodes[out.node as int];
    let path = route(entry.hash, level);
    let f0 = frag_at(entry.hash, level);
    let dm = node->data_map;
    let nm = node->node_map;
    let total = subtree_total(st, idx, level, phi_weight());
    crate::node::lemma_fragment_bound(entry.hash, (5 * level) as u32);
    lemma_on_route(entry.hash, entry.hash, level);
    lemma_blocks_same(st, later, node);
    lemma_kept_update(dm, data_block(st, node), f0, entry);
    lemma_kept_same(nm, kid_block(st, node), f0);
    assert(kid_block(later, new_node) == kid_block(later, node));
    lemma_slots_kept(st, later, node, new_node, f0);
    lemma_index_is_rank(dm, f0);
    assert(slot_of(later, new_node, f0) == Slot::Data(entry));
    lemma_wrap64(contribution_of(entry) as int, contribution_of(e));
    lemma_wrap64(total, out.adhash_delta);
    lemma_wrap64_sum(total, contribution_of(entry) - contribution_of(e));
    assert(e == Entry { hash: entry.hash, key: entry.key, value: e.value });
    lemma_edit_inner(st, later, idx, out.node, path, f0);
    assert forall|hash: u64| frag_at(hash, level) == f0 implies #[trigger] slot_run(
        later,
        slot_of(later, new_node, f0),
        level,
        hash,
    ) == (if hash == entry.hash {
        run_put(slot_run(st, slot_of(st, node, f0), level, hash), entry)
    } else {
        slot_run(st, slot_of(st, node, f0), level, hash)
    }) by {
        lemma_short_runs(e, entry);
    }
    lemma_put_run(st, later, idx, out.node, level, entry);
    assert forall|hash: u64, key: K| #[trigger]
        lookup(later, out.node, level, hash, key) == if hash == entry.hash && key == entry.key {
            Some(entry.value)
        } else {
            lookup(st, idx, level, hash, key)
        } by {
    }
}

/// An inner node rebuilt around the child that took `entry`.
pub proof fn lemma_inner_descend<K: StableHash, V: StableHash>(
    st: StoreView<K, V>,
    mid: StoreView<K, V>,
    later: StoreView<K, V>,
    idx: usize,
    child: usize,
    child_out: InsertOutcome<V>,
    out: InsertOutcome<V>,
    level: nat,
    entry: Entry<K, V>,
)
    requires
        wf_subtree(st, idx, route(entry.hash, level)),
        st.extended_by(mid),
        mid.extended_by(later),
        out.node < later.nodes.len(),
        out.inserted == child_out.inserted,
        out.old_value == child_out.old_value,
        out.adhash_delta == child_out.adhash_delta,
        st.nodes[idx as int] is Inner,
        slot_of(st, st.nodes[idx as int], frag_at(entry.hash, level)) == Slot::<K, V>::Child(
            child,
        ),
        inserted_into(st, child, mid, child_out, level + 1, entry),
        later.nodes[out.node as int] matches Node::Inner {
            data_map,
            node_map,
            data_start,
            children_start,
            adhash,
        } && data_map == st.nodes[idx as int]->data_map && node_map
            == st.nodes[idx as int]->node_map && data_start == st.nodes[idx as int]->data_start
            && children_start + popcount(node_map) <= later.children.len() && adhash
            == vstd::wrapping::u64_specs::wrapping_add(
            st.nodes[idx as int].adhash_spec(),
            out.adhash_delta,
        ),
        kid_block(later, later.nodes[out.node as int]) == kid_block(
            st,
            st.nodes[idx as int],
        ).update(
            rank(st.nodes[idx as int]->node_map, frag_at(entry.hash, level)) as int,
            child_out.node,
        ),
    ensures
        inserted_into(st, idx, later, out, level, entry),
{
    reveal(inserted_into);
    let node = st.nodes[idx as int];
    let new_node = later.nodes[out.node as int];
    let path = route(entry.hash, level);
    let f0 = frag_at(entry.hash, level);
    let dm = node->data_map;
    let nm = node->node_map;
    let total = subtree_total(st, idx, level, phi_weight());
    let old = lookup(st, child, level + 1, entry.hash, entry.key);
    crate::node::lemma_fragment_bound(entry.hash, (5 * level) as u32);
    lemma_on_route(entry.hash, entry.hash, level);
    crate::node::lemma_disjoint_edits(dm, nm, f0);
    lemma_blocks_same(st, later, node);
    lemma_kept_update(nm, kid_block(st, node), f0, child_out.node);
    lemma_kept_same(dm, data_block(st, node), f0);
    assert(data_block(later, new_node) == data_block(later, node));
    lemma_slots_kept(st, later, node, new_node, f0);
    lemma_index_is_rank(nm, f0);
    assert(slot_of(later, new_node, f0) == Slot::<K, V>::Child(child_out.node));
    assert(slot_ok(st, slot_of(st, node, f0), path, f0));
    lemma_frame(mid, later, child_out.node, route(entry.hash, level + 1));
    assert(route(entry.hash, level + 1).len() == level + 1);
    assert forall|w: spec_fn(Entry<K, V>) -> int|
        slot_total(later, new_node, level, f0, w) == #[trigger] slot_total(st, node, level, f0, w)
            + w(entry) - replaced_weight(entry, old, w) by {
        assert(subtree_total(later, child_out.node, level + 1, w) == subtree_total(
            mid,
            child_out.node,
            level + 1,
            w,
        ));
    }
    assert(slot_total(later, new_node, level, f0, phi_weight()) == slot_total(
        st,
        node,
        level,
        f0,
        phi_weight(),
    ) + phi_weight::<K, V>()(entry) - replaced_weight(entry, old, phi_weight()));
    lemma_wrap64(total, out.adhash_delta);
    lemma_wrap64_sum(
        total,
        phi_weight::<K, V>()(entry) - replaced_weight(entry, old, phi_weight()),
    );
    lemma_edit_inner(st, later, idx, out.node, path, f0);
    assert forall|hash: u64| frag_at(hash, level) == f0 implies #[trigger] slot_run(
        later,
        slot_of(later, new_node, f0),
        level,
        hash,
    ) == (if hash == entry.hash {
        run_put(slot_run(st, slot_of(st, node, f0), level, hash), entry)
    } else {
        slot_run(st, slot_of(st, node, f0), level, hash)
    }) by {
        lemma_frame_run(mid, later, child_out.node, route(entry.hash, level + 1), hash);
        assert(hash_run(mid, child_out.node, level + 1, hash) == if hash == entry.hash {
            run_put(hash_run(st, child, level + 1, hash), entry)
        } else {
            hash_run(st, child, level + 1, hash)
        });
    }
    lemma_put_run(st, later, idx, out.node, level, entry);
    assert forall|hash: u64, key: K| #[trigger]
        lookup(later, out.node, level, hash, key) == if hash == entry.hash && key == entry.key {
            Some(entry.value)
        } else {
            lookup(st, idx, level, hash, key)
        } by {
        if frag_at(hash, level) == f0 {
            assert(lookup(later, child_out.node, level + 1, hash, key) == lookup(
                mid,
                child_out.node,
                level + 1,
                hash,
                key,
            ));
        }
    }
    assert forall|w: spec_fn(Entry<K, V>) -> int| #[trigger]
        subtree_total(later, out.node, level, w) == subtree_total(st, idx, level, w) + w(entry)
            - replaced_weight(entry, old, w) by {
        assert(slot_total(later, new_node, level, f0, w) == slot_total(st, node, level, f0, w)
            + w(entry) - replaced_weight(entry, old, w));
    }
    crate::node::lemma_popcount_zero(nm);
    assert(crate::node::has_bit(nm, f0));
}

/// An inner node rebuilt with a subtree where an entry stood, the subtree
/// holding that entry and `entry`.
pub proof fn lemma_inner_split<K: StableHash, V: StableHash>(
    st: StoreView<K, V>,
    mid: StoreView<K, V>,
    later: StoreView<K, V>,
    idx: usize,
    child: usize,
    out: InsertOutcome<V>,
    level: nat,
    entry: Entry<K, V>,
    e: Entry<K, V>,
)
    requires
        wf_subtree(st, idx, route(entry.hash, level)),
        st.extended_by(mid),
        mid.extended_by(later),
        entry.hash == entry.key.hash_spec(),
        out.node < later.nodes.len(),
        out.inserted,
        out.old_value.is_none(),
        out.adhash_delta == contribution_of(entry),
        st.nodes[idx as int] is Inner,
        slot_of(st, st.nodes[idx as int], frag_at(entry.hash, level)) == Slot::Data(e),
        !(e.hash == entry.hash && e.key == entry.key),
        holds_pair(mid, child, level + 1, e, entry),
        later.nodes[out.node as int] matches Node::Inner {
            data_map,
            node_map,
            data_start,
            children_start,
            adhash,
        } && data_map == st.nodes[idx as int]->data_map & !(1u32 << frag_at(entry.hash, level))
            && node_map == st.nodes[idx as int]->node_map | (1u32 << frag_at(entry.hash, level))
            && data_start + popcount(data_map) <= later.entries.len() && children_start
            + popcount(node_map) <= later.children.len() && adhash
            == vstd::wrapping::u64_specs::wrapping_add(
            st.nodes[idx as int].adhash_spec(),
            out.adhash_delta,
        ),
        data_block(later, later.nodes[out.node as int]) == data_block(
            st,
            st.nodes[idx as int],
        ).remove(rank(st.nodes[idx as int]->data_map, frag_at(entry.hash, level)) as int),
        kid_block(later, later.nodes[out.node as int]) == kid_block(
            st,
            st.nodes[idx as int],
        ).insert(
            rank(st.nodes[idx as int]->node_map, frag_at(entry.hash, level)) as int,
            child,
        ),
    ensures
        inserted_into(st, idx, later, out, level, entry),
{
    reveal(inserted_into);
    let node = st.nodes[idx as int];
    let new_node = later.nodes[out.node as int];
    let path = route(entry.hash, level);
    let f0 = frag_at(entry.hash, level);
    let dm = node->data_map;
    let nm = node->node_map;
    let total = subtree_total(st, idx, level, phi_weight());
    crate::node::lemma_fragment_bound(entry.hash, (5 * level) as u32);
    lemma_on_route(entry.hash, entry.hash, level);
    crate::node::lemma_disjoint_edits(dm, nm, f0);
    lemma_kept_remove(dm, data_block(st, node), f0);
    lemma_kept_insert(nm, kid_block(st, node), f0, child);
    lemma_slots_kept(st, later, node, new_node, f0);
    lemma_index_is_rank(new_node->node_map, f0);
    assert(slot_of(later, new_node, f0) == Slot::<K, V>::Child(child));
    assert(slot_ok(st, slot_of(st, node, f0), path, f0));
    lemma_on_route(e.hash, entry.hash, level);
    lemma_on_route(e.hash, e.hash, level);
    assert(route(e.hash, level + 1) == route(entry.hash, level + 1));
    lemma_pair_kept(mid, later, child, level + 1, e, entry);
    assert(route(entry.hash, level + 1).len() == level + 1);
    assert(wf_subtree(later, child, route(entry.hash, level + 1)) && !singleton_node(
        later.nodes[child as int],
    )) by {
        reveal(holds_pair);
    }
    assert(slot_ok(later, slot_of(later, new_node, f0), path, f0));
    lemma_wrap64(total, out.adhash_delta);
    assert(slot_total(later, new_node, level, f0, phi_weight()) == phi_weight::<K, V>()(e)
        + phi_weight::<K, V>()(entry)) by {
        reveal(holds_pair);
    }
    assert(slot_total(st, node, level, f0, phi_weight()) == phi_weight::<K, V>()(e));
    lemma_edit_inner(st, later, idx, out.node, path, f0);
    assert forall|hash: u64| frag_at(hash, level) == f0 implies #[trigger] slot_run(
        later,
        slot_of(later, new_node, f0),
        level,
        hash,
    ) == (if hash == entry.hash {
        run_put(slot_run(st, slot_of(st, node, f0), level, hash), entry)
    } else {
        slot_run(st, slot_of(st, node, f0), level, hash)
    }) by {
        lemma_short_runs(e, entry);
        assert(hash_run(later, child, level + 1, hash) == run_of_one(e, hash) + run_of_one(
            entry,
            hash,
        )) by {
            reveal(holds_pair);
        }
        assert(run_of_one(e, hash) + run_of_one(entry, hash) =~= if hash == entry.hash {
            run_put(run_of_one(e, hash), entry)
        } else {
            run_of_one(e, hash)
        });
    }
    lemma_put_run(st, later, idx, out.node, level, entry);
    assert forall|hash: u64, key: K| #[trigger]
        lookup(later, out.node, level, hash, key) == if hash == entry.hash && key == entry.key {
            Some(entry.value)
        } else {
            lookup(st, idx, level, hash, key)
        } by {
        if frag_at(hash, level) == f0 {
            assert(lookup(later, child, level + 1, hash, key) == if hash == e.hash && key
                == e.key {
                Some(e.value)
            } else if hash == entry.hash && key == entry.key {
                Some(entry.value)
            } else {
                None
            }) by {
                reveal(holds_pair);
            }
            assert(lookup(later, out.node, level, hash, key) == lookup(
                later,
                child,
                level + 1,
                hash,
                key,
            ));
        }
    }
    assert forall|w: spec_fn(Entry<K, V>) -> int| #[trigger]
        subtree_total(later, out.node, level, w) == subtree_total(st, idx, level, w) + w(entry) by {
        assert(subtree_total(later, child, level + 1, w) == w(e) + w(entry)) by {
            reveal(holds_pair);
        }
        assert(slot_total(later, new_node, level, f0, w) == w(e) + w(entry));
        assert(slot_total(st, node, level, f0, w) == w(e));
    }
    crate::node::lemma_popcount_zero(new_node->node_map);
}

/// A collision node rebuilt with `entry` in place of the entry of the same
/// key.
pub proof fn lemma_collision_replace<K: StableHash, V: StableHash>(
    st: StoreView<K, V>,
    later: StoreView<K, V>,
    idx: usize,
    out: InsertOutcome<V>,
    entry: Entry<K, V>,
    i: int,
    new_start: usize,
)
    requires
        wf_subtree(st, idx, route(entry.hash, 13)),
        st.extended_by(later),
        entry.hash == entry.key.hash_spec(),
        out.node < later.nodes.len(),
        st.nodes[idx as int] matches Node::Collision { hash, entries_start, entries_len, adhash }
            && 0 <= i < entries_len && block_of(st, entries_start, entries_len as nat)[i].key
            == entry.key && out.old_value == Some(
            block_of(st, entries_start, entries_len as nat)[i].value,
        ) && out.adhash_delta == vstd::wrapping::u64_specs::wrapping_sub(
            contribution_of(entry),
            contribution_of(block_of(st, entries_start, entries_len as nat)[i]),
        ) && later.nodes[out.node as int] == (Node::Collision {
            hash,
            entries_start: new_start,
            entries_len,
            adhash: vstd::wrapping::u64_specs::wrapping_add(adhash, out.adhash_delta),
        }) && new_start + entries_len <= later.entries.len() && block_of(
            later,
            new_start,
            entries_len as nat,
        ) == block_of(st, entries_start, entries_len as nat).update(i, entry),
        !out.inserted,
    ensures
        inserted_into(st, idx, later, out, 13, entry),
{
    reveal(inserted_into);
    let node = st.nodes[idx as int];
    let hash = node->hash;
    let len = node->entries_len as nat;
    let block = block_of(st, node->entries_start, len);
    let block2 = block.update(i, entry);
    let e = block[i];
    let total = block_total(block, phi_weight());
    lemma_on_route(hash, entry.hash, 13);
    lemma_route_full(hash, entry.hash);
    lemma_block_lookup(block, i);
    assert(e == Entry { hash: entry.hash, key: entry.key, value: e.value });
    assert(distinct_keys(block2));
    assert forall|w: spec_fn(Entry<K, V>) -> int| #[trigger]
        subtree_total(later, out.node, 13, w) == subtree_total(st, idx, 13, w) + w(entry) - w(
            e,
        ) by {
        lemma_block_total_update(block, i, entry, w);
    }
    lemma_block_total_update(block, i, entry, phi_weight());
    lemma_wrap64(contribution_of(entry) as int, contribution_of(e));
    lemma_wrap64(total, out.adhash_delta);
    lemma_wrap64_sum(total, contribution_of(entry) - contribution_of(e));
    assert forall|hash2: u64, key: K| #[trigger]
        lookup(later, out.node, 13, hash2, key) == if hash2 == entry.hash && key == entry.key {
            Some(entry.value)
        } else {
            lookup(st, idx, 13, hash2, key)
        } by {
        if hash2 == hash {
            if key == entry.key {
                lemma_block_lookup(block2, i);
            } else if block_has(block, key) {
                let j = block_pos(block, key);
                lemma_block_lookup(block, j);
                assert(block2[j] == block[j]);
                lemma_block_lookup(block2, j);
            } else {
                if block_has(block2, key) {
                    let j = block_pos(block2, key);
                    assert(block[j].key == key);
                }
            }
        }
    }
}

/// A collision node rebuilt with `entry` after its entries.
pub proof fn lemma_collision_append<K: StableHash, V: StableHash>(
    st: StoreView<K, V>,
    later: StoreView<K, V>,
    idx: usize,
    out: InsertOutcome<V>,
    entry: Entry<K, V>,
    new_start: usize,
)
    requires
        wf_subtree(st, idx, route(entry.hash, 13)),
        st.extended_by(later),
        entry.hash == entry.key.hash_spec(),
        out.node < later.nodes.len(),
        st.nodes[idx as int] matches Node::Collision { hash, entries_start, entries_len, adhash }
            && entries_len < 255 && !block_has(
            block_of(st, entries_start, entries_len as nat),
            entry.key,
        ) && later.nodes[out.node as int] == (Node::Collision {
            hash,
            entries_start: new_start,
            entries_len: (entries_len + 1) as u8,
            adhash: vstd::wrapping::u64_specs::wrapping_add(adhash, out.adhash_delta),
        }) && new_start + entries_len + 1 <= later.entries.len() && block_of(
            later,
            new_start,
            (entries_len + 1) as nat,
        ) == block_of(st, entries_start, entries_len as nat).push(entry),
        out.inserted,
        out.old_value.is_none(),
        out.adhash_delta == contribution_of(entry),
    ensures
        inserted_into(st, idx, later, out, 13, entry),
{
    reveal(inserted_into);
    let node = st.nodes[idx as int];
    let hash = node->hash;
    let len = node->entries_len as nat;
    let block = block_of(st, node->entries_start, len);
    let block2 = block.push(entry);
    let total = block_total(block, phi_weight());
    lemma_on_route(hash, entry.hash, 13);
    lemma_route_full(hash, entry.hash);
    assert(distinct_keys(block2)) by {
        assert forall|a: int, b: int|
            0 <= a < block2.len() && 0 <= b < block2.len() && a != b implies (
        #[trigger] block2[a]).key != (#[trigger] block2[b]).key by {
            if a < block.len() && b < block.len() {
                assert(block[a].key != block[b].key);
            } else if a < block.len() {
                assert(block[a].key != entry.key);
            } else {
                assert(block[b].key != entry.key);
            }
        }
    }
    assert forall|w: spec_fn(Entry<K, V>) -> int| #[trigger]
        subtree_total(later, out.node, 13, w) == subtree_total(st, idx, 13, w) + w(entry) by {
        lemma_block_total_push(block, entry, w);
    }
    lemma_block_total_push(block, entry, phi_weight());
    lemma_wrap64(total, out.adhash_delta);
    assert forall|hash2: u64, key: K| #[trigger]
        lookup(later, out.node, 13, hash2, key) == if hash2 == entry.hash && key == entry.key {
            Some(entry.value)
        } else {
            lookup(st, idx, 13, hash2, key)
        } by {
        if hash2 == hash {
            if key == entry.key {
                lemma_block_lookup(block2, len as int);
            } else if block_has(block, key) {
                let j = block_pos(block, key);
                lemma_block_lookup(block, j);
                assert(block2[j] == block[j]);
                lemma_block_lookup(block2, j);
            } else {
                if block_has(block2, key) {
                    let j = block_pos(block2, key);
                    assert(block[j].key == key);
                }
            }
        }
    }
}

/// A collision node with the two entries holds them.
#[verifier::rlimit(50)]
pub proof fn lemma_pair_collision<K: StableHash, V: StableHash>(
    st: StoreView<K, V>,
    idx: usize,
    start: usize,
    e1: Entry<K, V>,
    e2: Entry<K, V>,
)
    requires
        idx < st.nodes.len(),
        st.nodes[idx as int] matches Node::Collision { hash, entries_start, entries_len, adhash }
            && hash == e1.hash && entries_start == start && entries_len == 2 && adhash == wrap64(
            phi_weight::<K, V>()(e1) + phi_weight::<K, V>()(e2),
        ),
        start + 2 <= st.entries.len(),
        st.entries[start as int] == e1,
        st.entries[start + 1] == e2,
        e1.hash == e1.key.hash_spec(),
        e2.hash == e2.key.hash_spec(),
        e1.key != e2.key,
        route(e1.hash, 13) == route(e2.hash, 13),
    ensures
        holds_pair(st, idx, 13, e1, e2),
{
    reveal(holds_pair);
    let block = block_of(st, start, 2);
    lemma_route_full(e1.hash, e2.hash);
    lemma_on_route(e1.hash, e1.hash, 13);
    assert(block =~= seq![e1, e2]);
    assert(block.drop_last() =~= seq![e1]);
    assert(block.drop_last().drop_last() =~= Seq::<Entry<K, V>>::empty());
    assert forall|w: spec_fn(Entry<K, V>) -> int| #[trigger]
        subtree_total(st, idx, 13, w) == w(e1) + w(e2) by {
        assert(block_total(block.drop_last().drop_last(), w) == 0);
        assert(block_total(block.drop_last(), w) == w(e1));
        assert(block_total(block, w) == w(e1) + w(e2));
    }
    assert(block_total(block, phi_weight()) == phi_weight::<K, V>()(e1) + phi_weight::<K, V>()(
        e2,
    )) by {
        assert(subtree_total(st, idx, 13, phi_weight()) == phi_weight::<K, V>()(e1) + phi_weight::<
            K,
            V,
        >()(e2));
    }
    assert forall|hash2: u64, key: K| #[trigger]
        lookup(st, idx, 13, hash2, key) == if hash2 == e1.hash && key == e1.key {
            Some(e1.value)
        } else if hash2 == e2.hash && key == e2.key {
            Some(e2.value)
        } else {
            None
        } by {
        if hash2 == e1.hash {
            if key == e1.key {
                assert(block[0].key == key);
                assert(block_has(block, key));
            } else if key == e2.key {
                assert(block[1].key == key);
                assert(block_has(block, key));
            } else {
                assert(!block_has(block, key));
            }
        }
    }
    assert forall|hash2: u64| #[trigger]
        hash_run(st, idx, 13, hash2) == run_of_one(e1, hash2) + run_of_one(e2, hash2) by {
        if hash2 == e1.hash {
            assert(run_of_one(e1, hash2) + run_of_one(e2, hash2) =~= seq![e1, e2]);
        } else {
            assert(run_of_one(e1, hash2) + run_of_one(e2, hash2) =~= Seq::<
                Entry<K, V>,
            >::empty());
        }
    }
}

/// An inner node whose one child holds the two entries holds them.
pub proof fn lemma_pair_chain<K: StableHash, V: StableHash>(
    st: StoreView<K, V>,
    idx: usize,
    child: usize,
    level: nat,
    e1: Entry<K, V>,
    e2: Entry<K, V>,
    f: u32,
)
    requires
        level <= 12,
        f < 32,
        f == frag_at(e1.hash, level),
        f == frag_at(e2.hash, level),
        idx < st.nodes.len(),
        holds_pair(st, child, level + 1, e1, e2),
        st.nodes[idx as int] matches Node::Inner {
            data_map,
            node_map,
            data_start,
            children_start,
            adhash,
        } && data_map == 0 && node_map == 1u32 << f && data_start == 0 && children_start
            < st.children.len() && st.children[children_start as int] == child && adhash
            == st.nodes[child as int].adhash_spec(),
    ensures
        holds_pair(st, idx, level, e1, e2),
{
    reveal(holds_pair);
    let node = st.nodes[idx as int];
    let path = route(e1.hash, level);
    crate::node::lemma_one_slot(f);
    crate::node::lemma_popcount_zero(0);
    assert(0u32 & (1u32 << f) == 0) by (bit_vector);
    lemma_on_route(e1.hash, e1.hash, level);
    assert forall|g: u32| g != f implies #[trigger] slot_of(st, node, g) == Slot::<K, V>::Empty by {
        lemma_bit_edits(0, 0, g);
        assert(!crate::node::has_bit(1u32 << f, g));
    }
    lemma_bit_edits(0, 0, f);
    assert(crate::node::has_bit(1u32 << f, f));
    assert(slot_of(st, node, f) == Slot::<K, V>::Child(child));
    assert(path.push(f) == route(e1.hash, level + 1));
    assert(wf_subtree(st, child, route(e1.hash, level + 1)));
    assert(subtree_total(st, child, level + 1, phi_weight()) == phi_weight::<K, V>()(e1)
        + phi_weight::<K, V>()(e2));
    lemma_fresh_inner(st, idx, path, f, f);
    assert forall|hash2: u64, key: K| #[trigger]
        lookup(st, idx, level, hash2, key) == if hash2 == e1.hash && key == e1.key {
            Some(e1.value)
        } else if hash2 == e2.hash && key == e2.key {
            Some(e2.value)
        } else {
            None
        } by {
        if frag_at(hash2, level) == f {
            assert(lookup(st, idx, level, hash2, key) == lookup(st, child, level + 1, hash2, key));
        }
    }
    assert forall|w: spec_fn(Entry<K, V>) -> int| #[trigger]
        subtree_total(st, idx, level, w) == w(e1) + w(e2) by {
        assert(subtree_total(st, child, level + 1, w) == w(e1) + w(e2));
    }
    assert forall|hash2: u64| #[trigger]
        hash_run(st, idx, level, hash2) == run_of_one(e1, hash2) + run_of_one(e2, hash2) by {
        if frag_at(hash2, level) == f {
            assert(hash_run(st, child, level + 1, hash2) == run_of_one(e1, hash2) + run_of_one(
                e2,
                hash2,
            ));
        } else {
            assert(run_of_one(e1, hash2) + run_of_one(e2, hash2) =~= Seq::<
                Entry<K, V>,
            >::empty());
        }
    }
}

/// An inner node with the two entries inline holds them.
pub proof fn lemma_pair_split<K: StableHash, V: StableHash>(
    st: StoreView<K, V>,
    idx: usize,
    level: nat,
    e1: Entry<K, V>,
    e2: Entry<K, V>,
)
    requires
        level <= 12,
        frag_at(e1.hash, level) != frag_at(e2.hash, level),
        route(e1.hash, level) == route(e2.hash, level),
        e1.hash == e1.key.hash_spec(),
        e2.hash == e2.key.hash_spec(),
        idx < st.nodes.len(),
        st.nodes[idx as int] matches Node::Inner {
            data_map,
            node_map,
            data_start,
            children_start,
            adhash,
        } && data_map == (1u32 << frag_at(e1.hash, level)) | (1u32 << frag_at(e2.hash, level))
            && node_map == 0 && children_start == 0 && data_start + 2 <= st.entries.len()
            && st.entries[data_start as int] == (if frag_at(e1.hash, level) < frag_at(
            e2.hash,
            level,
        ) {
            e1
        } else {
            e2
        }) && st.entries[data_start + 1] == (if frag_at(e1.hash, level) < frag_at(
            e2.hash,
            level,
        ) {
            e2
        } else {
            e1
        }) && adhash == wrap64(phi_weight::<K, V>()(e1) + phi_weight::<K, V>()(e2)),
    ensures
        holds_pair(st, idx, level, e1, e2),
{
    reveal(holds_pair);
    let node = st.nodes[idx as int];
    let path = route(e1.hash, level);
    let f1 = frag_at(e1.hash, level);
    let f2 = frag_at(e2.hash, level);
    crate::node::lemma_fragment_bound(e1.hash, (5 * level) as u32);
    crate::node::lemma_fragment_bound(e2.hash, (5 * level) as u32);
    if f1 < f2 {
        crate::node::lemma_two_slots(f1, f2);
    } else {
        crate::node::lemma_two_slots(f2, f1);
    }
    crate::node::lemma_popcount_zero(0);
    assert(((1u32 << f1) | (1u32 << f2)) & 0 == 0) by (bit_vector);
    lemma_on_route(e1.hash, e1.hash, level);
    lemma_on_route(e2.hash, e1.hash, level);
    assert forall|g: u32| g != f1 && g != f2 implies #[trigger] slot_of(st, node, g) == Slot::<
        K,
        V,
    >::Empty by {
        lemma_bit_edits(0, 0, g);
        assert(!crate::node::has_bit(node->data_map, g));
    }
    assert(crate::node::has_bit(node->data_map, f1));
    assert(crate::node::has_bit(node->data_map, f2));
    assert(slot_of(st, node, f1) == Slot::Data(e1));
    assert(slot_of(st, node, f2) == Slot::Data(e2));
    lemma_fresh_inner(st, idx, path, f1, f2);
    assert forall|hash2: u64, key: K| #[trigger]
        lookup(st, idx, level, hash2, key) == if hash2 == e1.hash && key == e1.key {
            Some(e1.value)
        } else if hash2 == e2.hash && key == e2.key {
            Some(e2.value)
        } else {
            None
        } by {
    }
}

/// A subtree that holds a pair holds it after the store has grown.
pub proof fn lemma_pair_kept<K: StableHash, V: StableHash>(
    st: StoreView<K, V>,
    later: StoreView<K, V>,
    idx: usize,
    level: nat,
    e1: Entry<K, V>,
    e2: Entry<K, V>,
)
    requires
        holds_pair(st, idx, level, e1, e2),
        st.extended_by(later),
    ensures
        holds_pair(later, idx, level, e1, e2),
{
    reveal(holds_pair);
    lemma_frame(st, later, idx, route(e1.hash, level));
    lemma_on_route(e1.hash, e1.hash, level);
    assert forall|hash: u64, key: K| #[trigger]
        lookup(later, idx, level, hash, key) == lookup(st, idx, level, hash, key) by {
        assert(lookup(later, idx, route(e1.hash, level).len(), hash, key) == lookup(
            st,
            idx,
            route(e1.hash, level).len(),
            hash,
            key,
        ));
    }
    assert forall|w: spec_fn(Entry<K, V>) -> int| #[trigger]
        subtree_total(later, idx, level, w) == subtree_total(st, idx, level, w) by {
        assert(subtree_total(later, idx, route(e1.hash, level).len(), w) == subtree_total(
            st,
            idx,
            route(e1.hash, level).len(),
            w,
        ));
    }
    assert forall|hash: u64| #[trigger]
        hash_run(later, idx, level, hash) == run_of_one(e1, hash) + run_of_one(e2, hash) by {
        lemma_frame_run(st, later, idx, route(e1.hash, level), hash);
        assert(hash_run(st, idx, level, hash) == run_of_one(e1, hash) + run_of_one(e2, hash));
    }
}

} // verus!
