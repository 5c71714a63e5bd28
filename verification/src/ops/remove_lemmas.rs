//! What the cases of a removal leave behind: one lemma for each way in
//! which a node is rebuilt or folded away.
use crate::adhash::{lemma_wrap64, StableHash};
use crate::node::{
    has_bit, lemma_bit_edits, lemma_index_is_rank, lemma_kept_insert, lemma_kept_remove,
    lemma_kept_update, popcount, rank, Entry, Node,
};
use crate::ops::insert::contribution_of;
use crate::ops::remove::{inlined, lone_entry, lone_left, remainder, removed_from, RemoveOutcome};
use crate::store::StoreView;
use crate::trie::{
    block_has, block_of, block_pos, block_total, data_block, distinct_keys, frag_at, hash_run,
    inner_shape, kid_block, lemma_block_lookup, lemma_block_total_remove, lemma_blocks_same,
    lemma_edit_inner, lemma_edit_run, lemma_frame, lemma_frame_run, lemma_kept_same, lemma_on_route,
    lemma_route_prefix, lemma_short_runs, lemma_slots_kept, lemma_sparse_inner, lookup, phi_weight,
    route, run_of_one, run_take, singleton_node, slot_of, slot_ok, slot_run, slot_total,
    subtree_total, unit_weight, wf_subtree, Slot,
};
use vstd::prelude::*;

verus! {

/// In a bitmap with one bit set, no other bit is set.
pub proof fn lemma_single_bit(bitmap: u32, f: u32)
    requires
        popcount(bitmap) == 1,
        has_bit(bitmap, f),
    ensures
        forall|g: u32| g != f ==> !#[trigger] has_bit(bitmap, g),
        rank(bitmap, f) == 0,
{
    assert forall|g: u32| g != f implies !#[trigger] has_bit(bitmap, g) by {
        if has_bit(bitmap, g) {
            if g < f {
                crate::node::lemma_rank_monotone(bitmap, g, f);
                crate::node::lemma_rank_monotone(bitmap, f, 32);
            } else {
                crate::node::lemma_rank_monotone(bitmap, f, g);
                crate::node::lemma_rank_monotone(bitmap, g, 32);
            }
        }
    }
    crate::node::lemma_rank_monotone(bitmap, f, 32);
}

/// An inner node with no child and one inline entry, in slot `f`.
pub proof fn lemma_singleton_slots<K, V>(st: StoreView<K, V>, node: Node, f: u32)
    requires
        singleton_node(node),
        has_bit(node->data_map, f),
    ensures
        forall|g: u32| g != f ==> #[trigger] slot_of(st, node, g) == Slot::<K, V>::Empty,
        slot_of(st, node, f) == Slot::Data(st.entries[node->data_start as int]),
{
    lemma_single_bit(node->data_map, f);
    assert forall|g: u32| g != f implies #[trigger] slot_of(st, node, g) == Slot::<K, V>::Empty by {
        lemma_bit_edits(0, 0, g);
    }
}

/// The set bit of a bitmap with exactly one.
pub proof fn lemma_the_bit(bitmap: u32) -> (f: u32)
    requires
        popcount(bitmap) == 1,
    ensures
        has_bit(bitmap, f),
{
    crate::node::lemma_popcount_zero(bitmap);
    choose|g: u32| has_bit(bitmap, g)
}

/// The runs below an inner node that was rebuilt in the slot of `gone`:
/// what holds of the runs in that slot holds of the runs below the node.
pub proof fn lemma_take_run<K: StableHash, V: StableHash>(
    st: StoreView<K, V>,
    later: StoreView<K, V>,
    idx: usize,
    new_idx: usize,
    level: nat,
    gone: Entry<K, V>,
)
    requires
        wf_subtree(st, idx, route(gone.hash, level)),
        st.extended_by(later),
        st.nodes[idx as int] is Inner,
        new_idx < later.nodes.len(),
        later.nodes[new_idx as int] is Inner,
        forall|g: u32|
            g != frag_at(gone.hash, level) ==> #[trigger] slot_of(
                later,
                later.nodes[new_idx as int],
                g,
            ) == slot_of(st, st.nodes[idx as int], g),
        forall|hash: u64|
            frag_at(hash, level) == frag_at(gone.hash, level) ==> #[trigger] slot_run(
                later,
                slot_of(later, later.nodes[new_idx as int], frag_at(gone.hash, level)),
                level,
                hash,
            ) == if hash == gone.hash {
                run_take(
                    slot_run(
                        st,
                        slot_of(st, st.nodes[idx as int], frag_at(gone.hash, level)),
                        level,
                        hash,
                    ),
                    gone.key,
                )
            } else {
                slot_run(
                    st,
                    slot_of(st, st.nodes[idx as int], frag_at(gone.hash, level)),
                    level,
                    hash,
                )
            },
    ensures
        forall|hash: u64| #[trigger]
            hash_run(later, new_idx, level, hash) == if hash == gone.hash {
                run_take(hash_run(st, idx, level, hash), gone.key)
            } else {
                hash_run(st, idx, level, hash)
            },
{
    let f0 = frag_at(gone.hash, level);
    let node = st.nodes[idx as int];
    let new_node = later.nodes[new_idx as int];
    lemma_on_route(gone.hash, gone.hash, level);
    lemma_edit_run(st, later, idx, new_idx, route(gone.hash, level), f0);
    assert forall|hash: u64| #[trigger]
        hash_run(later, new_idx, level, hash) == if hash == gone.hash {
            run_take(hash_run(st, idx, level, hash), gone.key)
        } else {
            hash_run(st, idx, level, hash)
        } by {
        if frag_at(hash, level) == f0 {
            assert(slot_run(later, slot_of(later, new_node, f0), level, hash) == if hash
                == gone.hash {
                run_take(slot_run(st, slot_of(st, node, f0), level, hash), gone.key)
            } else {
                slot_run(st, slot_of(st, node, f0), level, hash)
            });
            assert(hash_run(st, idx, level, hash) == slot_run(
                st,
                slot_of(st, node, frag_at(hash, level)),
                level,
                hash,
            ));
        }
    }
}

/// The last entry of an inner node without children was removed.
pub proof fn lemma_remove_last<K: StableHash, V: StableHash>(
    st: StoreView<K, V>,
    idx: usize,
    out: RemoveOutcome<V>,
    level: nat,
    gone: Entry<K, V>,
)
    requires
        wf_subtree(st, idx, route(gone.hash, level)),
        st.nodes[idx as int] is Inner,
        slot_of(st, st.nodes[idx as int], frag_at(gone.hash, level)) == Slot::Data(gone),
        st.nodes[idx as int]->data_map & !(1u32 << frag_at(gone.hash, level)) == 0,
        st.nodes[idx as int]->node_map == 0,
        out == (RemoveOutcome::Removed {
            node: None,
            adhash_delta: contribution_of(gone),
            removed_value: gone.value,
        }),
    ensures
        removed_from(st, idx, st, out, level, gone.hash, gone.key),
{
    reveal(removed_from);
    let node = st.nodes[idx as int];
    let f0 = frag_at(gone.hash, level);
    let path = route(gone.hash, level);
    crate::node::lemma_fragment_bound(gone.hash, (5 * level) as u32);
    lemma_on_route(gone.hash, gone.hash, level);
    lemma_kept_remove(node->data_map, data_block(st, node), f0);
    crate::node::lemma_popcount_zero(0);
    assert forall|g: u32| g != f0 implies #[trigger] slot_of(st, node, g) == Slot::<K, V>::Empty by {
        lemma_bit_edits(node->data_map, f0, g);
        lemma_bit_edits(0, 0, g);
    }
    lemma_sparse_inner(st, idx, level, f0, f0);
    assert(gone == Entry { hash: gone.hash, key: gone.key, value: gone.value });
}

/// An inner node rebuilt without one of its inline entries.
pub proof fn lemma_remove_data<K: StableHash, V: StableHash>(
    st: StoreView<K, V>,
    later: StoreView<K, V>,
    idx: usize,
    new_idx: usize,
    out: RemoveOutcome<V>,
    level: nat,
    gone: Entry<K, V>,
)
    requires
        wf_subtree(st, idx, route(gone.hash, level)),
        st.extended_by(later),
        st.nodes[idx as int] is Inner,
        slot_of(st, st.nodes[idx as int], frag_at(gone.hash, level)) == Slot::Data(gone),
        new_idx < later.nodes.len(),
        out == (RemoveOutcome::Removed {
            node: Some(new_idx),
            adhash_delta: contribution_of(gone),
            removed_value: gone.value,
        }),
        later.nodes[new_idx as int] matches Node::Inner {
            data_map,
            node_map,
            data_start,
            children_start,
            adhash,
        } && data_map == st.nodes[idx as int]->data_map & !(1u32 << frag_at(gone.hash, level))
            && node_map == st.nodes[idx as int]->node_map && children_start
            == st.nodes[idx as int]->children_start && data_start + popcount(data_map)
            <= later.entries.len() && (data_map != 0 || node_map != 0) && adhash
            == vstd::wrapping::u64_specs::wrapping_sub(
            st.nodes[idx as int].adhash_spec(),
            contribution_of(gone),
        ),
        data_block(later, later.nodes[new_idx as int]) == data_block(
            st,
            st.nodes[idx as int],
        ).remove(rank(st.nodes[idx as int]->data_map, frag_at(gone.hash, level)) as int),
    ensures
        removed_from(st, idx, later, out, level, gone.hash, gone.key),
{
    reveal(removed_from);
    let node = st.nodes[idx as int];
    let new_node = later.nodes[new_idx as int];
    let path = route(gone.hash, level);
    let f0 = frag_at(gone.hash, level);
    let dm = node->data_map;
    let nm = node->node_map;
    let total = subtree_total(st, idx, level, phi_weight());
    crate::node::lemma_fragment_bound(gone.hash, (5 * level) as u32);
    lemma_on_route(gone.hash, gone.hash, level);
    crate::node::lemma_disjoint_edits(dm, nm, f0);
    lemma_blocks_same(st, later, node);
    lemma_kept_remove(dm, data_block(st, node), f0);
    lemma_kept_same(nm, kid_block(st, node), f0);
    assert(kid_block(later, new_node) == kid_block(later, node));
    lemma_slots_kept(st, later, node, new_node, f0);
    assert(slot_of(later, new_node, f0) == Slot::<K, V>::Empty);
    lemma_wrap64(total, contribution_of(gone));
    lemma_edit_inner(st, later, idx, new_idx, path, f0);
    assert forall|hash: u64| frag_at(hash, level) == f0 implies #[trigger] slot_run(
        later,
        slot_of(later, new_node, f0),
        level,
        hash,
    ) == (if hash == gone.hash {
        run_take(slot_run(st, slot_of(st, node, f0), level, hash), gone.key)
    } else {
        slot_run(st, slot_of(st, node, f0), level, hash)
    }) by {
        lemma_short_runs(gone, gone);
    }
    lemma_take_run(st, later, idx, new_idx, level, gone);
    assert(gone == Entry { hash: gone.hash, key: gone.key, value: gone.value });
    assert(remainder(st, idx, later, new_idx, level, gone));
    if singleton_node(new_node) {
        let fe = lemma_the_bit(new_node->data_map);
        lemma_singleton_slots(later, new_node, fe);
        let kept = lone_entry(later, new_idx);
        assert(slot_ok(later, slot_of(later, new_node, fe), path, fe));
        assert(slot_of(st, node, fe) == Slot::Data(kept));
        assert forall|g: u32| g != f0 && g != fe implies #[trigger] slot_of(st, node, g)
            == Slot::<K, V>::Empty by {
            assert(slot_of(later, new_node, g) == slot_of(st, node, g));
        }
        lemma_sparse_inner(st, idx, level, f0, fe);
        lemma_index_is_rank(new_node->data_map, fe);
        crate::node::lemma_only_bit(new_node->data_map, fe);
        assert(subtree_total(st, idx, level, phi_weight()) == phi_weight::<K, V>()(gone)
            + phi_weight::<K, V>()(kept));
        assert(subtree_total(later, new_idx, level, phi_weight()) == phi_weight::<K, V>()(kept));
        lemma_wrap64(contribution_of(kept) as int, 0);
        lemma_pair_runs(st, idx, level, gone, kept, f0, fe);
    }
}

/// The runs below an inner node that holds `gone` in slot `f0`, `kept` in
/// slot `fe` and nothing else.
proof fn lemma_pair_runs<K: StableHash, V: StableHash>(
    st: StoreView<K, V>,
    idx: usize,
    level: nat,
    gone: Entry<K, V>,
    kept: Entry<K, V>,
    f0: u32,
    fe: u32,
)
    requires
        idx < st.nodes.len(),
        level <= 12,
        st.nodes[idx as int] is Inner,
        f0 != fe,
        f0 == frag_at(gone.hash, level),
        fe == frag_at(kept.hash, level),
        slot_of(st, st.nodes[idx as int], f0) == Slot::Data(gone),
        slot_of(st, st.nodes[idx as int], fe) == Slot::Data(kept),
        forall|g: u32|
            g != f0 && g != fe ==> #[trigger] slot_of(st, st.nodes[idx as int], g) == Slot::<
                K,
                V,
            >::Empty,
    ensures
        forall|hash: u64|
            run_of_one(kept, hash) == if hash == gone.hash {
                run_take(#[trigger] hash_run(st, idx, level, hash), gone.key)
            } else {
                hash_run(st, idx, level, hash)
            },
{
    let node = st.nodes[idx as int];
    assert forall|hash: u64|
        run_of_one(kept, hash) == if hash == gone.hash {
            run_take(#[trigger] hash_run(st, idx, level, hash), gone.key)
        } else {
            hash_run(st, idx, level, hash)
        } by {
        lemma_short_runs(gone, gone);
        let g = frag_at(hash, level);
        if g != f0 && g != fe {
            assert(slot_of(st, node, g) == Slot::<K, V>::Empty);
        }
    }
}

/// An inner node rebuilt around the child that lost the key.
pub proof fn lemma_remove_descend<K: StableHash, V: StableHash>(
    st: StoreView<K, V>,
    mid: StoreView<K, V>,
    later: StoreView<K, V>,
    idx: usize,
    child: usize,
    new_child: usize,
    new_idx: usize,
    out: RemoveOutcome<V>,
    level: nat,
    gone: Entry<K, V>,
)
    requires
        wf_subtree(st, idx, route(gone.hash, level)),
        st.extended_by(mid),
        mid.extended_by(later),
        st.nodes[idx as int] is Inner,
        slot_of(st, st.nodes[idx as int], frag_at(gone.hash, level)) == Slot::<K, V>::Child(
            child,
        ),
        new_child < mid.nodes.len(),
        !singleton_node(mid.nodes[new_child as int]),
        remainder(st, child, mid, new_child, level + 1, gone),
        lookup(st, child, level + 1, gone.hash, gone.key) == Some(gone.value),
        new_idx < later.nodes.len(),
        out == (RemoveOutcome::Removed {
            node: Some(new_idx),
            adhash_delta: contribution_of(gone),
            removed_value: gone.value,
        }),
        later.nodes[new_idx as int] matches Node::Inner {
            data_map,
            node_map,
            data_start,
            children_start,
            adhash,
        } && data_map == st.nodes[idx as int]->data_map && node_map
            == st.nodes[idx as int]->node_map && data_start == st.nodes[idx as int]->data_start
            && children_start + popcount(node_map) <= later.children.len() && adhash
            == vstd::wrapping::u64_specs::wrapping_sub(
            st.nodes[idx as int].adhash_spec(),
            contribution_of(gone),
        ),
        kid_block(later, later.nodes[new_idx as int]) == kid_block(
            st,
            st.nodes[idx as int],
        ).update(rank(st.nodes[idx as int]->node_map, frag_at(gone.hash, level)) as int, new_child),
    ensures
        removed_from(st, idx, later, out, level, gone.hash, gone.key),
{
    reveal(removed_from);
    let node = st.nodes[idx as int];
    let new_node = later.nodes[new_idx as int];
    let path = route(gone.hash, level);
    let f0 = frag_at(gone.hash, level);
    let dm = node->data_map;
    let nm = node->node_map;
    let total = subtree_total(st, idx, level, phi_weight());
    crate::node::lemma_fragment_bound(gone.hash, (5 * level) as u32);
    lemma_on_route(gone.hash, gone.hash, level);
    crate::node::lemma_disjoint_edits(dm, nm, f0);
    lemma_blocks_same(st, later, node);
    lemma_kept_update(nm, kid_block(st, node), f0, new_child);
    lemma_kept_same(dm, data_block(st, node), f0);
    assert(data_block(later, new_node) == data_block(later, node));
    lemma_slots_kept(st, later, node, new_node, f0);
    lemma_index_is_rank(nm, f0);
    assert(slot_of(later, new_node, f0) == Slot::<K, V>::Child(new_child));
    assert(slot_ok(st, slot_of(st, node, f0), path, f0));
    lemma_frame(mid, later, new_child, route(gone.hash, level + 1));
    assert(route(gone.hash, level + 1).len() == level + 1);
    assert forall|w: spec_fn(Entry<K, V>) -> int|
        slot_total(later, new_node, level, f0, w) == #[trigger] slot_total(st, node, level, f0, w)
            - w(gone) by {
        assert(subtree_total(later, new_child, level + 1, w) == subtree_total(
            mid,
            new_child,
            level + 1,
            w,
        ));
    }
    assert(slot_total(later, new_node, level, f0, phi_weight()) == slot_total(
        st,
        node,
        level,
        f0,
        phi_weight(),
    ) - phi_weight::<K, V>()(gone));
    lemma_wrap64(total, contribution_of(gone));
    lemma_edit_inner(st, later, idx, new_idx, path, f0);
    assert forall|hash: u64| frag_at(hash, level) == f0 implies #[trigger] slot_run(
        later,
        slot_of(later, new_node, f0),
        level,
        hash,
    ) == (if hash == gone.hash {
        run_take(slot_run(st, slot_of(st, node, f0), level, hash), gone.key)
    } else {
        slot_run(st, slot_of(st, node, f0), level, hash)
    }) by {
        lemma_frame_run(mid, later, new_child, route(gone.hash, level + 1), hash);
        assert(hash_run(mid, new_child, level + 1, hash) == if hash == gone.hash {
            run_take(hash_run(st, child, level + 1, hash), gone.key)
        } else {
            hash_run(st, child, level + 1, hash)
        });
    }
    lemma_take_run(st, later, idx, new_idx, level, gone);
    assert forall|hash: u64, key: K| #[trigger]
        lookup(later, new_idx, level, hash, key) == if hash == gone.hash && key == gone.key {
            None
        } else {
            lookup(st, idx, level, hash, key)
        } by {
        if frag_at(hash, level) == f0 {
            assert(lookup(later, new_child, level + 1, hash, key) == lookup(
                mid,
                new_child,
                level + 1,
                hash,
                key,
            ));
        }
    }
    assert forall|w: spec_fn(Entry<K, V>) -> int| #[trigger]
        subtree_total(later, new_idx, level, w) == subtree_total(st, idx, level, w) - w(gone) by {
        assert(slot_total(later, new_node, level, f0, w) == slot_total(st, node, level, f0, w)
            - w(gone));
    }
    crate::node::lemma_popcount_zero(nm);
    assert(has_bit(nm, f0));
    assert(gone == Entry { hash: gone.hash, key: gone.key, value: gone.value });
}

/// After an inlining, every slot of the new node but the one edited holds
/// what it held, and the edited slot holds the lone entry.
pub proof fn lemma_inline_slots<K: StableHash, V: StableHash>(
    st: StoreView<K, V>,
    mid: StoreView<K, V>,
    later: StoreView<K, V>,
    idx: usize,
    child: usize,
    new_child: usize,
    new_idx: usize,
    level: nat,
    gone: Entry<K, V>,
)
    requires
        inlined(st, mid, later, idx, child, new_child, new_idx, level, gone),
    ensures
        level <= 12,
        route(gone.hash, level).len() == level,
        frag_at(gone.hash, level) < 32,
        inner_shape(later, later.nodes[new_idx as int]),
        forall|g: u32|
            g != frag_at(gone.hash, level) ==> #[trigger] slot_of(
                later,
                later.nodes[new_idx as int],
                g,
            ) == slot_of(st, st.nodes[idx as int], g),
        slot_of(later, later.nodes[new_idx as int], frag_at(gone.hash, level)) == Slot::Data(
            lone_entry(mid, new_child),
        ),
        has_bit(later.nodes[new_idx as int]->data_map, frag_at(gone.hash, level)),
        crate::trie::entry_fits(
            lone_entry(mid, new_child),
            route(gone.hash, level),
            frag_at(gone.hash, level),
        ),
{
    let node = st.nodes[idx as int];
    let new_node = later.nodes[new_idx as int];
    let f0 = frag_at(gone.hash, level);
    let dm = node->data_map;
    let nm = node->node_map;
    let kept = lone_entry(mid, new_child);
    crate::node::lemma_fragment_bound(gone.hash, (5 * level) as u32);
    lemma_on_route(gone.hash, gone.hash, level);
    lemma_on_route(kept.hash, gone.hash, level + 1);
    lemma_on_route(kept.hash, gone.hash, level);
    crate::node::lemma_disjoint_edits(dm, nm, f0);
    lemma_kept_insert(dm, data_block(st, node), f0, kept);
    lemma_kept_remove(nm, kid_block(st, node), f0);
    lemma_slots_kept(st, later, node, new_node, f0);
    lemma_index_is_rank(new_node->data_map, f0);
    lemma_route_prefix(kept.hash, gone.hash, level);
}

/// An inner node rebuilt with the lone entry of a child inline in the slot
/// of that child: what is left of the subtree.
pub proof fn lemma_inline_remainder<K: StableHash, V: StableHash>(
    st: StoreView<K, V>,
    mid: StoreView<K, V>,
    later: StoreView<K, V>,
    idx: usize,
    child: usize,
    new_child: usize,
    new_idx: usize,
    level: nat,
    gone: Entry<K, V>,
)
    requires
        inlined(st, mid, later, idx, child, new_child, new_idx, level, gone),
    ensures
        remainder(st, idx, later, new_idx, level, gone),
{
    let node = st.nodes[idx as int];
    let new_node = later.nodes[new_idx as int];
    let path = route(gone.hash, level);
    let f0 = frag_at(gone.hash, level);
    let kept = lone_entry(mid, new_child);
    let total = subtree_total(st, idx, level, phi_weight());
    lemma_inline_slots(st, mid, later, idx, child, new_child, new_idx, level, gone);
    assert(slot_ok(later, slot_of(later, new_node, f0), path, f0));
    assert(subtree_total(st, child, level + 1, phi_weight()) == phi_weight::<K, V>()(gone)
        + phi_weight::<K, V>()(kept));
    assert(slot_total(st, node, level, f0, phi_weight()) == phi_weight::<K, V>()(gone)
        + phi_weight::<K, V>()(kept));
    assert(slot_total(later, new_node, level, f0, phi_weight()) == phi_weight::<K, V>()(kept));
    lemma_wrap64(total, contribution_of(gone));
    lemma_edit_inner(st, later, idx, new_idx, path, f0);
    assert forall|hash: u64| frag_at(hash, level) == f0 implies #[trigger] slot_run(
        later,
        slot_of(later, new_node, f0),
        level,
        hash,
    ) == (if hash == gone.hash {
        run_take(slot_run(st, slot_of(st, node, f0), level, hash), gone.key)
    } else {
        slot_run(st, slot_of(st, node, f0), level, hash)
    }) by {
        assert(run_of_one(kept, hash) == if hash == gone.hash {
            run_take(hash_run(st, child, level + 1, hash), gone.key)
        } else {
            hash_run(st, child, level + 1, hash)
        });
    }
    lemma_take_run(st, later, idx, new_idx, level, gone);
    assert forall|hash: u64, key: K| #[trigger]
        lookup(later, new_idx, level, hash, key) == if hash == gone.hash && key == gone.key {
            None
        } else {
            lookup(st, idx, level, hash, key)
        } by {
        if frag_at(hash, level) == f0 {
            assert(lookup(st, idx, level, hash, key) == lookup(st, child, level + 1, hash, key));
        }
    }
    assert forall|w: spec_fn(Entry<K, V>) -> int| #[trigger]
        subtree_total(later, new_idx, level, w) == subtree_total(st, idx, level, w) - w(gone) by {
        assert(subtree_total(st, child, level + 1, w) == w(gone) + w(kept));
        assert(slot_total(st, node, level, f0, w) == w(gone) + w(kept));
        assert(slot_total(later, new_node, level, f0, w) == w(kept));
    }
}

/// An inner node rebuilt with the lone entry of a child inline in the slot
/// of that child: where nothing else is left in the node, the subtree held
/// the removed entry and the lone one.
pub proof fn lemma_inline_lone<K: StableHash, V: StableHash>(
    st: StoreView<K, V>,
    mid: StoreView<K, V>,
    later: StoreView<K, V>,
    idx: usize,
    child: usize,
    new_child: usize,
    new_idx: usize,
    level: nat,
    gone: Entry<K, V>,
)
    requires
        inlined(st, mid, later, idx, child, new_child, new_idx, level, gone),
        singleton_node(later.nodes[new_idx as int]),
    ensures
        lone_left(st, idx, later, new_idx, level, gone),
{
    let node = st.nodes[idx as int];
    let new_node = later.nodes[new_idx as int];
    let f0 = frag_at(gone.hash, level);
    let kept = lone_entry(mid, new_child);
    lemma_inline_slots(st, mid, later, idx, child, new_child, new_idx, level, gone);
    lemma_singleton_slots(later, new_node, f0);
    assert(lone_entry(later, new_idx) == kept);
    crate::node::lemma_only_bit(new_node->data_map, f0);
    lemma_inline_remainder(st, mid, later, idx, child, new_child, new_idx, level, gone);
    assert(subtree_total(st, child, level + 1, phi_weight()) == phi_weight::<K, V>()(gone)
        + phi_weight::<K, V>()(kept));
    lemma_wrap64(contribution_of(kept) as int, 0);
    assert forall|g: u32| g != f0 implies #[trigger] slot_of(st, node, g) == Slot::<K, V>::Empty by {
        assert(slot_of(later, new_node, g) == slot_of(st, node, g));
    }
    lemma_sparse_inner(st, idx, level, f0, f0);
    assert forall|hash: u64, key: K| #[trigger]
        lookup(st, idx, level, hash, key) == if hash == gone.hash && key == gone.key {
            Some(gone.value)
        } else if hash == kept.hash && key == kept.key {
            Some(kept.value)
        } else {
            None
        } by {
        if frag_at(hash, level) == f0 {
            assert(lookup(st, idx, level, hash, key) == lookup(st, child, level + 1, hash, key));
        }
    }
    assert forall|w: spec_fn(Entry<K, V>) -> int| #[trigger]
        subtree_total(st, idx, level, w) == w(gone) + w(kept) by {
        assert(subtree_total(st, child, level + 1, w) == w(gone) + w(kept));
        assert(slot_total(st, node, level, f0, w) == w(gone) + w(kept));
    }
    lemma_chain_runs(st, idx, child, level, gone, kept);
}

/// The runs below an inner node that holds one child and nothing else are
/// the runs below the child.
proof fn lemma_chain_runs<K: StableHash, V: StableHash>(
    st: StoreView<K, V>,
    idx: usize,
    child: usize,
    level: nat,
    gone: Entry<K, V>,
    kept: Entry<K, V>,
)
    requires
        idx < st.nodes.len(),
        level <= 12,
        st.nodes[idx as int] is Inner,
        slot_of(st, st.nodes[idx as int], frag_at(gone.hash, level)) == Slot::<K, V>::Child(
            child,
        ),
        frag_at(kept.hash, level) == frag_at(gone.hash, level),
        forall|g: u32|
            g != frag_at(gone.hash, level) ==> #[trigger] slot_of(st, st.nodes[idx as int], g)
                == Slot::<K, V>::Empty,
        forall|hash: u64|
            run_of_one(kept, hash) == if hash == gone.hash {
                run_take(#[trigger] hash_run(st, child, level + 1, hash), gone.key)
            } else {
                hash_run(st, child, level + 1, hash)
            },
    ensures
        forall|hash: u64|
            run_of_one(kept, hash) == if hash == gone.hash {
                run_take(#[trigger] hash_run(st, idx, level, hash), gone.key)
            } else {
                hash_run(st, idx, level, hash)
            },
{
    let node = st.nodes[idx as int];
    let f0 = frag_at(gone.hash, level);
    assert forall|hash: u64|
        run_of_one(kept, hash) == if hash == gone.hash {
            run_take(#[trigger] hash_run(st, idx, level, hash), gone.key)
        } else {
            hash_run(st, idx, level, hash)
        } by {
        let g = frag_at(hash, level);
        if g != f0 {
            assert(slot_of(st, node, g) == Slot::<K, V>::Empty);
        } else {
            assert(hash_run(st, idx, level, hash) == hash_run(st, child, level + 1, hash));
            assert(run_of_one(kept, hash) == if hash == gone.hash {
                run_take(hash_run(st, child, level + 1, hash), gone.key)
            } else {
                hash_run(st, child, level + 1, hash)
            });
        }
    }
}

/// An inner node rebuilt with the lone entry of a child inline in the slot
/// of that child.
pub proof fn lemma_remove_inline<K: StableHash, V: StableHash>(
    st: StoreView<K, V>,
    mid: StoreView<K, V>,
    later: StoreView<K, V>,
    idx: usize,
    child: usize,
    new_child: usize,
    new_idx: usize,
    out: RemoveOutcome<V>,
    level: nat,
    gone: Entry<K, V>,
)
    requires
        inlined(st, mid, later, idx, child, new_child, new_idx, level, gone),
        out == (RemoveOutcome::Removed {
            node: Some(new_idx),
            adhash_delta: contribution_of(gone),
            removed_value: gone.value,
        }),
    ensures
        removed_from(st, idx, later, out, level, gone.hash, gone.key),
{
    lemma_inline_remainder(st, mid, later, idx, child, new_child, new_idx, level, gone);
    if singleton_node(later.nodes[new_idx as int]) {
        lemma_inline_lone(st, mid, later, idx, child, new_child, new_idx, level, gone);
    }
    lemma_inline_slots(st, mid, later, idx, child, new_child, new_idx, level, gone);
    assert(lookup(st, idx, level, gone.hash, gone.key) == lookup(
        st,
        child,
        level + 1,
        gone.hash,
        gone.key,
    ));
    assert(gone == Entry { hash: gone.hash, key: gone.key, value: gone.value });
    reveal(removed_from);
}

/// What the caller of a recursive remove learns from its outcome.
pub proof fn lemma_outcome<K: StableHash, V: StableHash>(
    st: StoreView<K, V>,
    idx: usize,
    later: StoreView<K, V>,
    out: RemoveOutcome<V>,
    level: nat,
    hash: u64,
    key: K,
)
    requires
        removed_from(st, idx, later, out, level, hash, key),
    ensures
        match out {
            RemoveOutcome::NotFound => lookup(st, idx, level, hash, key).is_none() && later == st,
            RemoveOutcome::Removed { node, adhash_delta, removed_value } => {
                let gone = Entry { hash, key, value: removed_value };
                &&& lookup(st, idx, level, hash, key) == Some(removed_value)
                &&& adhash_delta == contribution_of(gone)
                &&& match node {
                    None => singleton_node(st.nodes[idx as int]),
                    Some(n) => {
                        &&& n < later.nodes.len()
                        &&& (singleton_node(later.nodes[n as int]) ==> lone_left(
                            st,
                            idx,
                            later,
                            n,
                            level,
                            gone,
                        ))
                        &&& (!singleton_node(later.nodes[n as int]) ==> remainder(
                            st,
                            idx,
                            later,
                            n,
                            level,
                            gone,
                        ))
                        &&& (singleton_node(later.nodes[n as int]) <==> subtree_total(
                            st,
                            idx,
                            level,
                            unit_weight(),
                        ) == 2)
                    },
                }
            },
        },
{
    reveal(removed_from);
    match out {
        RemoveOutcome::Removed { node: Some(n), adhash_delta, removed_value } => {
            let gone = Entry { hash, key, value: removed_value };
            if !singleton_node(later.nodes[n as int]) {
                lemma_on_route(hash, hash, level);
                crate::iter::lemma_at_least_two(later, n, route(hash, level));
                assert(subtree_total(later, n, level, unit_weight()) == subtree_total(
                    st,
                    idx,
                    level,
                    unit_weight(),
                ) - unit_weight::<K, V>()(gone));
            } else {
                assert(subtree_total(st, idx, level, unit_weight()) == unit_weight::<K, V>()(gone)
                    + unit_weight::<K, V>()(lone_entry(later, n)));
            }
        },
        _ => {},
    }
}

/// A key that is not in the subtree was looked for.
pub proof fn lemma_not_found<K: StableHash, V: StableHash>(
    st: StoreView<K, V>,
    idx: usize,
    level: nat,
    hash: u64,
    key: K,
)
    requires
        lookup(st, idx, level, hash, key).is_none(),
    ensures
        removed_from(st, idx, st, RemoveOutcome::<V>::NotFound, level, hash, key),
{
    reveal(removed_from);
}

/// A collision node of two entries lost one: the other is left alone.
pub proof fn lemma_collision_promote<K: StableHash, V: StableHash>(
    st: StoreView<K, V>,
    later: StoreView<K, V>,
    idx: usize,
    new_idx: usize,
    new_start: usize,
    i: int,
    out: RemoveOutcome<V>,
    gone: Entry<K, V>,
)
    requires
        wf_subtree(st, idx, route(gone.hash, 13)),
        st.extended_by(later),
        0 <= i < 2,
        new_idx < later.nodes.len(),
        new_start < later.entries.len(),
        st.nodes[idx as int] matches Node::Collision { hash, entries_start, entries_len, adhash }
            && entries_len == 2 && hash == gone.hash && block_of(st, entries_start, 2)[i] == gone
            && later.entries[new_start as int] == block_of(st, entries_start, 2)[1 - i]
            && later.nodes[new_idx as int] == (Node::Inner {
            data_map: 1u32 << frag_at(later.entries[new_start as int].hash, 0),
            node_map: 0,
            data_start: new_start,
            children_start: 0,
            adhash: contribution_of(later.entries[new_start as int]),
        }),
        out == (RemoveOutcome::Removed {
            node: Some(new_idx),
            adhash_delta: contribution_of(gone),
            removed_value: gone.value,
        }),
    ensures
        removed_from(st, idx, later, out, 13, gone.hash, gone.key),
{
    reveal(removed_from);
    let node = st.nodes[idx as int];
    let block = block_of(st, node->entries_start, 2);
    let kept = block[1 - i];
    crate::node::lemma_fragment_bound(kept.hash, 0);
    crate::node::lemma_one_slot(frag_at(kept.hash, 0));
    lemma_on_route(kept.hash, gone.hash, 13);
    lemma_on_route(gone.hash, gone.hash, 13);
    lemma_block_lookup(block, i);
    lemma_block_lookup(block, 1 - i);
    assert(block.drop_last() =~= seq![block[0]]);
    assert(block.drop_last().drop_last() =~= Seq::<Entry<K, V>>::empty());
    assert forall|w: spec_fn(Entry<K, V>) -> int| #[trigger]
        subtree_total(st, idx, 13, w) == w(gone) + w(kept) by {
        assert(block_total(block.drop_last().drop_last(), w) == 0);
        assert(block_total(block.drop_last(), w) == w(block[0]));
        assert(block_total(block, w) == w(block[0]) + w(block[1]));
    }
    assert forall|hash: u64, key: K| #[trigger]
        lookup(st, idx, 13, hash, key) == if hash == gone.hash && key == gone.key {
            Some(gone.value)
        } else if hash == kept.hash && key == kept.key {
            Some(kept.value)
        } else {
            None
        } by {
        if hash == gone.hash {
            if block_has(block, key) {
                let j = block_pos(block, key);
                lemma_block_lookup(block, j);
                assert(j == i || j == 1 - i);
            }
        }
    }
    assert forall|hash: u64|
        run_of_one(kept, hash) == if hash == gone.hash {
            run_take(#[trigger] hash_run(st, idx, 13, hash), gone.key)
        } else {
            hash_run(st, idx, 13, hash)
        } by {
        if hash == gone.hash {
            assert(block.remove(i) =~= seq![kept]);
        }
    }
    assert(gone == Entry { hash: gone.hash, key: gone.key, value: gone.value });
}

/// A collision node of more than two entries rebuilt without one of them.
pub proof fn lemma_collision_shrink<K: StableHash, V: StableHash>(
    st: StoreView<K, V>,
    later: StoreView<K, V>,
    idx: usize,
    new_idx: usize,
    new_start: usize,
    i: int,
    out: RemoveOutcome<V>,
    gone: Entry<K, V>,
)
    requires
        wf_subtree(st, idx, route(gone.hash, 13)),
        st.extended_by(later),
        new_idx < later.nodes.len(),
        st.nodes[idx as int] matches Node::Collision { hash, entries_start, entries_len, adhash }
            && entries_len > 2 && 0 <= i < entries_len && hash == gone.hash && block_of(
            st,
            entries_start,
            entries_len as nat,
        )[i] == gone && later.nodes[new_idx as int] == (Node::Collision {
            hash,
            entries_start: new_start,
            entries_len: (entries_len - 1) as u8,
            adhash: vstd::wrapping::u64_specs::wrapping_sub(adhash, contribution_of(gone)),
        }) && new_start + entries_len - 1 <= later.entries.len() && block_of(
            later,
            new_start,
            (entries_len - 1) as nat,
        ) == block_of(st, entries_start, entries_len as nat).remove(i),
        out == (RemoveOutcome::Removed {
            node: Some(new_idx),
            adhash_delta: contribution_of(gone),
            removed_value: gone.value,
        }),
    ensures
        removed_from(st, idx, later, out, 13, gone.hash, gone.key),
{
    reveal(removed_from);
    let node = st.nodes[idx as int];
    let len = node->entries_len as nat;
    let block = block_of(st, node->entries_start, len);
    let block2 = block.remove(i);
    let total = block_total(block, phi_weight());
    lemma_on_route(gone.hash, gone.hash, 13);
    lemma_block_lookup(block, i);
    assert forall|j: int| 0 <= j < block2.len() implies #[trigger] block2[j] == block[if j < i {
        j
    } else {
        j + 1
    }] by {
    }
    assert(distinct_keys(block2)) by {
        assert forall|a: int, b: int|
            0 <= a < block2.len() && 0 <= b < block2.len() && a != b implies (
        #[trigger] block2[a]).key != (#[trigger] block2[b]).key by {
            let a1 = if a < i {
                a
            } else {
                a + 1
            };
            let b1 = if b < i {
                b
            } else {
                b + 1
            };
            assert(block[a1].key != block[b1].key);
        }
    }
    assert forall|j: int| 0 <= j < block2.len() implies (#[trigger] block2[j]).hash == gone.hash
        && gone.hash == block2[j].key.hash_spec() by {
        let j1 = if j < i {
            j
        } else {
            j + 1
        };
        assert(block[j1].hash == gone.hash);
    }
    assert forall|w: spec_fn(Entry<K, V>) -> int| #[trigger]
        subtree_total(later, new_idx, 13, w) == subtree_total(st, idx, 13, w) - w(gone) by {
        lemma_block_total_remove(block, i, w);
    }
    lemma_block_total_remove(block, i, phi_weight());
    lemma_wrap64(total, contribution_of(gone));
    assert forall|hash: u64, key: K| #[trigger]
        lookup(later, new_idx, 13, hash, key) == if hash == gone.hash && key == gone.key {
            None
        } else {
            lookup(st, idx, 13, hash, key)
        } by {
        if hash == gone.hash {
            if key == gone.key {
                if block_has(block2, key) {
                    let j = block_pos(block2, key);
                    let j1 = if j < i {
                        j
                    } else {
                        j + 1
                    };
                    assert(block[j1].key == block[i].key);
                }
            } else if block_has(block, key) {
                let j = block_pos(block, key);
                lemma_block_lookup(block, j);
                let j2 = if j < i {
                    j
                } else {
                    j - 1
                };
                assert(block2[j2] == block[j]);
                lemma_block_lookup(block2, j2);
            } else {
                if block_has(block2, key) {
                    let j = block_pos(block2, key);
                    let j1 = if j < i {
                        j
                    } else {
                        j + 1
                    };
                    assert(block[j1].key == key);
                }
            }
        }
    }
    assert(gone == Entry { hash: gone.hash, key: gone.key, value: gone.value });
}

} // verus!
