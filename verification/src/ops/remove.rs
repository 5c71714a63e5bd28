//! Removal by path copy, with the inlining that keeps the trie canonical: a
//! child left with one entry and no child of its own is folded back into
//! its parent, level by level.
use crate::adhash::{entry_adhash, hash_one, StableHash};
use crate::node::{
    fragment, index, lemma_bit_edits, lemma_index_is_rank, lemma_kept_insert, lemma_kept_remove,
    mask, offset, popcount, rank, BITS_PER_LEVEL, Entry, Node,
};
use crate::ops::blocks::{
    alloc_or_sentinel, build_children_removing, build_children_replacing, build_entries_inserting,
    build_entries_removing, clone_entry,
};
use crate::ops::insert::{alloc_bound, contribution_of, type_model};
use crate::ops::remove_lemmas::{
    lemma_collision_promote, lemma_collision_shrink, lemma_not_found, lemma_outcome,
    lemma_remove_data, lemma_remove_descend, lemma_remove_inline, lemma_remove_last,
};
use crate::store::{ChampStore, Growth, StoreView};
use crate::trie::{
    block_has, block_of, data_block, frag_at, hash_run, kid_block, lemma_on_route, lookup, on_path,
    route, run_of_one, run_take, singleton_node, slot_of, slot_ok, subtree_total, unit_weight,
    wf_subtree, Slot,
};
use vstd::laws_eq::obeys_concrete_eq;
use vstd::prelude::*;

verus! {

/// Outcome of a recursive remove.
pub enum RemoveOutcome<V> {
    /// The key was not found; nothing was allocated.
    NotFound,
    /// The key was removed.
    Removed {
        /// New root of the modified subtree, or `None` if the subtree is now
        /// empty.
        node: Option<usize>,
        /// What to subtract, wrapping, from the structural hash of every
        /// ancestor.
        adhash_delta: u64,
        /// The value that was removed.
        removed_value: V,
    },
}

/// The subtree holds `gone` and nothing else.
pub open spec fn only_held<K: StableHash, V: StableHash>(
    st: StoreView<K, V>,
    idx: usize,
    level: nat,
    gone: Entry<K, V>,
) -> bool {
    &&& singleton_node(st.nodes[idx as int])
    &&& forall|hash: u64, key: K| #[trigger]
        lookup(st, idx, level, hash, key) == if hash == gone.hash && key == gone.key {
            Some(gone.value)
        } else {
            None
        }
    &&& forall|w: spec_fn(Entry<K, V>) -> int| #[trigger]
        subtree_total(st, idx, level, w) == w(gone)
    &&& forall|hash: u64| #[trigger] hash_run(st, idx, level, hash) == run_of_one(gone, hash)
}

/// The subtree holds `gone`, `kept` and nothing else.
pub open spec fn pair_held<K: StableHash, V: StableHash>(
    st: StoreView<K, V>,
    idx: usize,
    level: nat,
    gone: Entry<K, V>,
    kept: Entry<K, V>,
) -> bool {
    &&& forall|hash: u64, key: K| #[trigger]
        lookup(st, idx, level, hash, key) == if hash == gone.hash && key == gone.key {
            Some(gone.value)
        } else if hash == kept.hash && key == kept.key {
            Some(kept.value)
        } else {
            None
        }
    &&& forall|w: spec_fn(Entry<K, V>) -> int| #[trigger]
        subtree_total(st, idx, level, w) == w(gone) + w(kept)
    &&& forall|hash: u64|
        run_of_one(kept, hash) == if hash == gone.hash {
            run_take(#[trigger] hash_run(st, idx, level, hash), gone.key)
        } else {
            hash_run(st, idx, level, hash)
        }
}

/// The one entry of a node that holds a lone entry.
pub open spec fn lone_entry<K, V>(st: StoreView<K, V>, idx: usize) -> Entry<K, V> {
    match st.nodes[idx as int] {
        Node::Inner { data_start, .. } => st.entries[data_start as int],
        Node::Collision { entries_start, .. } => st.entries[entries_start as int],
    }
}

/// The node at `new_idx` is an inner node with one entry and nothing else:
/// its one bit is that of the entry's fragment, on the level of the node
/// where an inner node was rebuilt and on level 0 where a collision node of
/// two entries gave way to it; its hash field is the contribution of the
/// entry. The entry is routed to the subtree that the node replaces, and
/// that subtree held this entry and `gone`.
pub open spec fn lone_left<K: StableHash, V: StableHash>(
    st: StoreView<K, V>,
    idx: usize,
    later: StoreView<K, V>,
    new_idx: usize,
    level: nat,
    gone: Entry<K, V>,
) -> bool {
    let kept = lone_entry(later, new_idx);
    &&& later.nodes[new_idx as int] matches Node::Inner {
        data_map,
        node_map,
        data_start,
        adhash,
        ..
    } && data_start < later.entries.len() && node_map == 0 && adhash == contribution_of(kept)
        && data_map == 1u32 << frag_at(
        kept.hash,
        if st.nodes[idx as int] is Collision {
            0
        } else {
            level
        },
    )
    &&& kept.hash == kept.key.hash_spec()
    &&& on_path(kept.hash, route(gone.hash, level))
    &&& !(kept.hash == gone.hash && kept.key == gone.key)
    &&& pair_held(st, idx, level, gone, kept)
}

/// The subtree at `new_idx` of `later` is well-formed and holds what the
/// subtree at `idx` of `st` held, less `gone`; the entries that shared the
/// hash of `gone` keep their order.
pub open spec fn remainder<K: StableHash, V: StableHash>(
    st: StoreView<K, V>,
    idx: usize,
    later: StoreView<K, V>,
    new_idx: usize,
    level: nat,
    gone: Entry<K, V>,
) -> bool {
    &&& wf_subtree(later, new_idx, route(gone.hash, level))
    &&& forall|hash: u64, key: K| #[trigger]
        lookup(later, new_idx, level, hash, key) == if hash == gone.hash && key == gone.key {
            None
        } else {
            lookup(st, idx, level, hash, key)
        }
    &&& forall|w: spec_fn(Entry<K, V>) -> int| #[trigger]
        subtree_total(later, new_idx, level, w) == subtree_total(st, idx, level, w) - w(gone)
    &&& forall|hash: u64| #[trigger]
        hash_run(later, new_idx, level, hash) == if hash == gone.hash {
            run_take(hash_run(st, idx, level, hash), gone.key)
        } else {
            hash_run(st, idx, level, hash)
        }
}

/// What a removal of `(hash, key)` from the subtree at `idx` adds to the
/// arenas. Nothing, where the key is not there or the subtree held nothing
/// else. Otherwise one node on every level of the way down, with the block
/// that the edit rebuilds: the inline entries without the removed one; or
/// the child slots with the new child in place of the old; or, where the
/// child held two entries and is left with one, the inline entries with that
/// one and the child slots without the child.
pub open spec fn remove_growth<K, V>(
    st: StoreView<K, V>,
    idx: usize,
    level: nat,
    hash: u64,
    key: K,
) -> Growth
    decreases 14 - level,
{
    if idx >= st.nodes.len() || lookup(st, idx, level, hash, key).is_none() {
        Growth::none()
    } else {
        match st.nodes[idx as int] {
            Node::Inner { data_map, node_map, .. } => {
                if level > 12 {
                    Growth::none()
                } else {
                    match slot_of(st, st.nodes[idx as int], frag_at(hash, level)) {
                        Slot::Data(e) => if popcount(data_map) == 1 && node_map == 0 {
                            Growth::none()
                        } else {
                            Growth::node((popcount(data_map) - 1) as nat, 0)
                        },
                        Slot::Child(c) => remove_growth(st, c, level + 1, hash, key).plus(
                            if subtree_total(st, c, level + 1, unit_weight()) == 2 {
                                Growth::node(
                                    popcount(data_map) + 1,
                                    (popcount(node_map) - 1) as nat,
                                )
                            } else {
                                Growth::node(0, popcount(node_map))
                            },
                        ),
                        Slot::Empty => Growth::none(),
                    }
                }
            },
            Node::Collision { entries_len, .. } => if entries_len == 2 {
                Growth::node(1, 0)
            } else {
                Growth::node((entries_len - 1) as nat, 0)
            },
        }
    }
}

/// What a removal of `(hash, key)` from the subtree at `idx` of `st` leaves.
///
/// If the key is not there, nothing has changed. Otherwise the value it led
/// to is handed out with its contribution, and the subtree is gone, if it
/// held nothing else, or rebuilt in `later`: well-formed and without the
/// key, or, where one entry is left below an inner node's slot, as a lone
/// entry for the parent to take inline.
#[verifier::opaque]
pub open spec fn removed_from<K: StableHash, V: StableHash>(
    st: StoreView<K, V>,
    idx: usize,
    later: StoreView<K, V>,
    out: RemoveOutcome<V>,
    level: nat,
    hash: u64,
    key: K,
) -> bool {
    match out {
        RemoveOutcome::NotFound => lookup(st, idx, level, hash, key).is_none() && later == st,
        RemoveOutcome::Removed { node, adhash_delta, removed_value } => {
            let gone = Entry { hash, key, value: removed_value };
            &&& lookup(st, idx, level, hash, key) == Some(removed_value)
            &&& adhash_delta == contribution_of(gone)
            &&& match node {
                None => only_held(st, idx, level, gone),
                Some(n) => {
                    &&& n < later.nodes.len()
                    &&& (singleton_node(later.nodes[n as int]) ==> lone_left(
                        st,
                        idx,
                        later,
                        n,
                        level,
                        gone,
                    ))
                    &&& (!singleton_node(later.nodes[n as int]) || st.nodes[idx as int] is Inner
                        ==> remainder(st, idx, later, n, level, gone))
                },
            }
        },
    }
}

/// The store after a child that was left with a lone entry has been taken
/// inline: the new node has the entry in the slot where the child was.
pub open spec fn inlined<K: StableHash, V: StableHash>(
    st: StoreView<K, V>,
    mid: StoreView<K, V>,
    later: StoreView<K, V>,
    idx: usize,
    child: usize,
    new_child: usize,
    new_idx: usize,
    level: nat,
    gone: Entry<K, V>,
) -> bool {
    &&& wf_subtree(st, idx, route(gone.hash, level))
    &&& st.extended_by(mid)
    &&& mid.extended_by(later)
    &&& st.nodes[idx as int] is Inner
    &&& slot_of(st, st.nodes[idx as int], frag_at(gone.hash, level)) == Slot::<K, V>::Child(child)
    &&& new_child < mid.nodes.len()
    &&& lone_left(st, child, mid, new_child, level + 1, gone)
    &&& lookup(st, child, level + 1, gone.hash, gone.key) == Some(gone.value)
    &&& new_idx < later.nodes.len()
    &&& later.nodes[new_idx as int] matches Node::Inner {
        data_map,
        node_map,
        data_start,
        children_start,
        adhash,
    } && data_map == st.nodes[idx as int]->data_map | (1u32 << frag_at(gone.hash, level))
        && node_map == st.nodes[idx as int]->node_map & !(1u32 << frag_at(gone.hash, level))
        && data_start + popcount(data_map) <= later.entries.len() && children_start + popcount(
        node_map,
    ) <= later.children.len() && adhash == vstd::wrapping::u64_specs::wrapping_sub(
        st.nodes[idx as int].adhash_spec(),
        contribution_of(gone),
    )
    &&& data_block(later, later.nodes[new_idx as int]) == data_block(
        st,
        st.nodes[idx as int],
    ).insert(
        rank(st.nodes[idx as int]->data_map, frag_at(gone.hash, level)) as int,
        lone_entry(mid, new_child),
    )
    &&& kid_block(later, later.nodes[new_idx as int]) == kid_block(
        st,
        st.nodes[idx as int],
    ).remove(rank(st.nodes[idx as int]->node_map, frag_at(gone.hash, level)) as int)
}

/// Removes `key`, whose hash is `hash`, from the subtree rooted at
/// `node_idx`, which sits at depth `shift / 5`.
pub fn remove_recursive<K, V, S>(
    store: &mut S,
    node_idx: usize,
    hash: u64,
    key: &K,
    shift: u32,
) -> (out: RemoveOutcome<V>) where
    K: StableHash + Eq + Clone,
    V: StableHash + Clone,
    S: ChampStore<K, V>,

    requires
        type_model::<K, V>(),
        shift % 5 == 0,
        shift <= 65,
        hash == key.hash_spec(),
        wf_subtree(old(store)@, node_idx, route(hash, (shift / 5) as nat)),
        old(store)@.has_room(old(store).limit(), alloc_bound(shift)),
        old(store).limit() <= usize::MAX,
    ensures
        old(store)@.extended_by(final(store)@),
        old(store)@.grown_within(final(store)@, alloc_bound(shift)),
        old(store)@.grown_by(
            final(store)@,
            remove_growth(old(store)@, node_idx, (shift / 5) as nat, hash, *key),
        ),
        final(store).limit() == old(store).limit(),
        removed_from(old(store)@, node_idx, final(store)@, out, (shift / 5) as nat, hash, *key),
    decreases 70 - shift, 1nat,
{
    let node = *store.get_node(node_idx);
    match node {
        Node::Inner { data_map, node_map, data_start, children_start, adhash } => {
            remove_from_inner(
                store,
                node_idx,
                data_map,
                node_map,
                data_start,
                children_start,
                adhash,
                hash,
                key,
                shift,
            )
        },
        Node::Collision { hash: node_hash, entries_start, entries_len, adhash } => {
            remove_from_collision(
                store,
                node_idx,
                node_hash,
                entries_start,
                entries_len,
                adhash,
                hash,
                key,
            )
        },
    }
}

/// Removes `key` from the inner node at `node_idx`, whose fields are the
/// other arguments.
#[verifier::rlimit(100)]
#[verifier::spinoff_prover]
fn remove_from_inner<K, V, S>(
    store: &mut S,
    node_idx: usize,
    data_map: u32,
    node_map: u32,
    data_start: usize,
    children_start: usize,
    adhash: u64,
    hash: u64,
    key: &K,
    shift: u32,
) -> (out: RemoveOutcome<V>) where
    K: StableHash + Eq + Clone,
    V: StableHash + Clone,
    S: ChampStore<K, V>,

    requires
        type_model::<K, V>(),
        shift % 5 == 0,
        shift <= 65,
        hash == key.hash_spec(),
        wf_subtree(old(store)@, node_idx, route(hash, (shift / 5) as nat)),
        old(store)@.has_room(old(store).limit(), alloc_bound(shift)),
        old(store).limit() <= usize::MAX,
        old(store)@.nodes[node_idx as int] == (Node::Inner {
            data_map,
            node_map,
            data_start,
            children_start,
            adhash,
        }),
    ensures
        old(store)@.extended_by(final(store)@),
        old(store)@.grown_within(final(store)@, alloc_bound(shift)),
        old(store)@.grown_by(
            final(store)@,
            remove_growth(old(store)@, node_idx, (shift / 5) as nat, hash, *key),
        ),
        final(store).limit() == old(store).limit(),
        removed_from(old(store)@, node_idx, final(store)@, out, (shift / 5) as nat, hash, *key),
    decreases 70 - shift, 0nat,
{
    let ghost level = (shift / 5) as nat;
    let ghost st = store@;
    let ghost node = st.nodes[node_idx as int];
    let frag = fragment(hash, shift);
    let bit = mask(frag);
    proof {
        reveal(obeys_concrete_eq);
        lemma_bit_edits(data_map, frag, frag);
        lemma_bit_edits(node_map, frag, frag);
        lemma_index_is_rank(data_map, frag);
        lemma_index_is_rank(node_map, frag);
        crate::node::lemma_rank_bound(data_map, 32);
        crate::node::lemma_rank_bound(node_map, 32);
        lemma_on_route(hash, hash, level);
        assert(slot_ok(st, slot_of(st, node, frag), route(hash, level), frag));
    }
    let data_len = data_map.count_ones() as usize;
    let children_len = node_map.count_ones() as usize;

    if data_map & bit != 0 {
        let pos = index(data_map, bit);
        let e = store.get_entry(offset(data_start, pos));
        let found = e.hash == hash && e.key == *key;
        let removed_contrib = entry_adhash(e.hash, hash_one(&e.value));
        let ghost gone = *e;
        if !found {
            proof {
                lemma_not_found::<K, V>(st, node_idx, level, hash, *key);
            }
            return RemoveOutcome::NotFound;
        }
        let removed_value = e.value.clone();
        let new_data_map = data_map & !bit;
        proof {
            lemma_kept_remove(data_map, data_block(st, node), frag);
            crate::node::lemma_popcount_zero(new_data_map);
            assert(lookup(st, node_idx, level, hash, *key).is_some());
        }
        if new_data_map == 0 && node_map == 0 {
            let out = RemoveOutcome::Removed {
                node: None,
                adhash_delta: removed_contrib,
                removed_value,
            };
            proof {
                lemma_remove_last(st, node_idx, out, level, gone);
            }
            return out;
        }
        let entries = build_entries_removing(store, data_start, data_len, pos);
        let new_data = alloc_or_sentinel(store.alloc_entries(entries));
        let new_node = store.alloc_node(
            Node::Inner {
                data_map: new_data_map,
                node_map,
                data_start: new_data,
                children_start,
                adhash: adhash.wrapping_sub(removed_contrib),
            },
        );
        let out = RemoveOutcome::Removed {
            node: Some(new_node),
            adhash_delta: removed_contrib,
            removed_value,
        };
        proof {
            let later = store@;
            assert(data_block(later, later.nodes[new_node as int]) =~= data_block(
                st,
                node,
            ).remove(pos as int));
            lemma_remove_data(st, later, node_idx, new_node, out, level, gone);
        }
        out
    } else if node_map & bit != 0 {
        let child_pos = index(node_map, bit);
        let old_child = store.get_child(offset(children_start, child_pos));
        let outcome = remove_recursive(store, old_child, hash, key, shift + BITS_PER_LEVEL);
        let ghost mid = store@;
        proof {
            lemma_outcome(st, old_child, mid, outcome, level + 1, hash, *key);
        }
        match outcome {
            RemoveOutcome::NotFound => {
                proof {
                    lemma_not_found::<K, V>(st, node_idx, level, hash, *key);
                }
                RemoveOutcome::NotFound
            },
            RemoveOutcome::Removed { node: new_child, adhash_delta, removed_value } => {
                let ghost gone = Entry { hash, key: *key, value: removed_value };
                if let Some(child_idx) = new_child {
                    let child_node = *store.get_node(child_idx);
                    if should_inline(&child_node) {
                        inline_child(
                            store,
                            node_idx,
                            data_map,
                            node_map,
                            data_start,
                            children_start,
                            adhash,
                            bit,
                            child_pos,
                            child_idx,
                            adhash_delta,
                            removed_value,
                            data_len,
                            children_len,
                            Ghost(st),
                            Ghost(old_child),
                            Ghost(level),
                            Ghost(gone),
                        )
                    } else {
                        let children = build_children_replacing(
                            store,
                            children_start,
                            children_len,
                            child_pos,
                            child_idx,
                        );
                        let new_children = store.alloc_children(children).unwrap();
                        let new_node = store.alloc_node(
                            Node::Inner {
                                data_map,
                                node_map,
                                data_start,
                                children_start: new_children,
                                adhash: adhash.wrapping_sub(adhash_delta),
                            },
                        );
                        let out = RemoveOutcome::Removed {
                            node: Some(new_node),
                            adhash_delta,
                            removed_value,
                        };
                        proof {
                            let later = store@;
                            assert(crate::ops::blocks::child_block(
                                mid.children,
                                children_start,
                                children_len,
                            ) =~= kid_block(st, node));
                            assert(kid_block(later, later.nodes[new_node as int]) =~= kid_block(
                                st,
                                node,
                            ).update(child_pos as int, child_idx));
                            lemma_remove_descend(
                                st,
                                mid,
                                later,
                                node_idx,
                                old_child,
                                child_idx,
                                new_node,
                                out,
                                level,
                                gone,
                            );
                        }
                        out
                    }
                } else {
                    // A child is never a lone entry, so it cannot become empty.
                    assert(false);
                    let new_node_map = node_map & !bit;
                    if data_map == 0 && new_node_map == 0 {
                        return RemoveOutcome::Removed { node: None, adhash_delta, removed_value };
                    }
                    let children = build_children_removing(
                        store,
                        children_start,
                        children_len,
                        child_pos,
                    );
                    let new_children = alloc_or_sentinel(store.alloc_children(children));
                    let new_node = store.alloc_node(
                        Node::Inner {
                            data_map,
                            node_map: new_node_map,
                            data_start,
                            children_start: new_children,
                            adhash: adhash.wrapping_sub(adhash_delta),
                        },
                    );
                    RemoveOutcome::Removed { node: Some(new_node), adhash_delta, removed_value }
                }
            },
        }
    } else {
        proof {
            lemma_not_found::<K, V>(st, node_idx, level, hash, *key);
        }
        RemoveOutcome::NotFound
    }
}

/// Whether a child must be folded back into its parent: it is an inner node
/// with one inline entry and no child.
pub fn should_inline(node: &Node) -> (fold: bool)
    ensures
        fold == singleton_node(*node),
{
    match node {
        Node::Inner { data_map, node_map, .. } => data_map.count_ones() == 1 && *node_map == 0,
        Node::Collision { .. } => false,
    }
}

/// Folds a child that is left with one entry back into its parent: the
/// child's slot leaves the children and its entry joins the inline entries.
fn inline_child<K, V, S>(
    store: &mut S,
    node_idx: usize,
    data_map: u32,
    node_map: u32,
    data_start: usize,
    children_start: usize,
    adhash: u64,
    bit: u32,
    child_pos: usize,
    child_idx: usize,
    adhash_delta: u64,
    removed_value: V,
    data_len: usize,
    children_len: usize,
    Ghost(st): Ghost<StoreView<K, V>>,
    Ghost(old_child): Ghost<usize>,
    Ghost(level): Ghost<nat>,
    Ghost(gone): Ghost<Entry<K, V>>,
) -> (out: RemoveOutcome<V>) where
    K: StableHash + Eq + Clone,
    V: StableHash + Clone,
    S: ChampStore<K, V>,

    requires
        type_model::<K, V>(),
        st.extended_by(old(store)@),
        wf_subtree(st, node_idx, route(gone.hash, level)),
        st.nodes[node_idx as int] == (Node::Inner {
            data_map,
            node_map,
            data_start,
            children_start,
            adhash,
        }),
        bit == 1u32 << frag_at(gone.hash, level),
        slot_of(st, st.nodes[node_idx as int], frag_at(gone.hash, level)) == Slot::<
            K,
            V,
        >::Child(old_child),
        child_pos == rank(node_map, frag_at(gone.hash, level)),
        child_idx < old(store)@.nodes.len(),
        singleton_node(old(store)@.nodes[child_idx as int]),
        lone_left(st, old_child, old(store)@, child_idx, level + 1, gone),
        lookup(st, old_child, level + 1, gone.hash, gone.key) == Some(gone.value),
        adhash_delta == contribution_of(gone),
        removed_value == gone.value,
        data_len == popcount(data_map),
        children_len == popcount(node_map),
        old(store)@.has_room(old(store).limit(), 40),
        old(store).limit() <= usize::MAX,
    ensures
        old(store)@.extended_by(final(store)@),
        old(store)@.grown_within(final(store)@, 40),
        old(store)@.grown_by(
            final(store)@,
            Growth::node(popcount(data_map) + 1, (popcount(node_map) - 1) as nat),
        ),
        final(store).limit() == old(store).limit(),
        removed_from(st, node_idx, final(store)@, out, level, gone.hash, gone.key),
{
    let ghost mid = store@;
    let ghost node = st.nodes[node_idx as int];
    let ghost frag = frag_at(gone.hash, level);
    let child = *store.get_node(child_idx);
    let child_data_start = match child {
        Node::Inner { data_start, .. } => data_start,
        Node::Collision { entries_start, .. } => entries_start,
    };
    let inlined_entry = clone_entry(store, child_data_start);
    let ghost kept = inlined_entry;
    let new_data_map = data_map | bit;
    let new_node_map = node_map & !bit;
    proof {
        crate::node::lemma_fragment_bound(gone.hash, (5 * level) as u32);
        lemma_on_route(gone.hash, gone.hash, level);
        assert(slot_ok(st, slot_of(st, node, frag), route(gone.hash, level), frag));
        crate::node::lemma_disjoint_edits(data_map, node_map, frag);
        lemma_index_is_rank(new_data_map, frag);
        lemma_kept_insert(data_map, data_block(st, node), frag, kept);
        lemma_kept_remove(node_map, kid_block(st, node), frag);
        crate::node::lemma_rank_bound(data_map, 32);
        crate::node::lemma_rank_bound(node_map, 32);
        assert(1u32 << frag >= 1) by (bit_vector)
            requires
                frag < 32,
        ;
    }
    let data_insert_at = index(new_data_map, bit);
    let entries = build_entries_inserting(
        store,
        data_start,
        data_len,
        data_insert_at,
        inlined_entry,
    );
    let children = build_children_removing(store, children_start, children_len, child_pos);
    let new_data = store.alloc_entries(entries).unwrap();
    let new_children = alloc_or_sentinel(store.alloc_children(children));
    let new_node = store.alloc_node(
        Node::Inner {
            data_map: new_data_map,
            node_map: new_node_map,
            data_start: new_data,
            children_start: new_children,
            adhash: adhash.wrapping_sub(adhash_delta),
        },
    );
    let out = RemoveOutcome::Removed { node: Some(new_node), adhash_delta, removed_value };
    proof {
        let later = store@;
        assert(crate::ops::blocks::entry_block(mid.entries, data_start, data_len) =~= data_block(
            st,
            node,
        ));
        assert(crate::ops::blocks::child_block(mid.children, children_start, children_len)
            =~= kid_block(st, node));
        assert(data_block(later, later.nodes[new_node as int]) =~= data_block(st, node).insert(
            data_insert_at as int,
            kept,
        ));
        assert(kid_block(later, later.nodes[new_node as int]) =~= kid_block(st, node).remove(
            child_pos as int,
        ));
        lemma_remove_inline(
            st,
            mid,
            later,
            node_idx,
            old_child,
            child_idx,
            new_node,
            out,
            level,
            gone,
        );
    }
    out
}

/// Removes `key` from the collision node at `node_idx`, whose fields are the
/// other arguments.
#[verifier::loop_isolation(false)]
fn remove_from_collision<K, V, S>(
    store: &mut S,
    node_idx: usize,
    node_hash: u64,
    entries_start: usize,
    entries_len: u8,
    adhash: u64,
    hash: u64,
    key: &K,
) -> (out: RemoveOutcome<V>) where
    K: StableHash + Eq + Clone,
    V: StableHash + Clone,
    S: ChampStore<K, V>,

    requires
        type_model::<K, V>(),
        hash == key.hash_spec(),
        wf_subtree(old(store)@, node_idx, route(hash, 13)),
        old(store)@.has_room(old(store).limit(), alloc_bound(65)),
        old(store).limit() <= usize::MAX,
        old(store)@.nodes[node_idx as int] == (Node::Collision {
            hash: node_hash,
            entries_start,
            entries_len,
            adhash,
        }),
    ensures
        old(store)@.extended_by(final(store)@),
        old(store)@.grown_within(final(store)@, alloc_bound(65)),
        old(store)@.grown_by(final(store)@, remove_growth(old(store)@, node_idx, 13, hash, *key)),
        final(store).limit() == old(store).limit(),
        removed_from(old(store)@, node_idx, final(store)@, out, 13, hash, *key),
{
    let ghost st = store@;
    let ghost block = block_of(st, entries_start, entries_len as nat);
    proof {
        reveal(obeys_concrete_eq);
    }
    if hash != node_hash {
        proof {
            lemma_not_found::<K, V>(st, node_idx, 13, hash, *key);
        }
        return RemoveOutcome::NotFound;
    }
    let len = entries_len as usize;
    let mut i: usize = 0;
    while i < len
        invariant
            i <= len,
            store@ == st,
            store.limit() == old(store).limit(),
            forall|j: int| 0 <= j < i ==> (#[trigger] block[j]).key != *key,
        decreases len - i,
    {
        let e = store.get_entry(offset(entries_start, i));
        let found = e.key == *key;
        let removed_contrib = entry_adhash(e.hash, hash_one(&e.value));
        assert(*e == block[i as int]);
        let ghost gone = *e;
        if found {
            let removed_value = e.value.clone();
            if len == 2 {
                let other = 1 - i;
                let remaining = clone_entry(store, offset(entries_start, other));
                assert(remaining == block[other as int]);
                let remaining_contrib = entry_adhash(
                    remaining.hash,
                    hash_one(&remaining.value),
                );
                let frag = fragment(remaining.hash, 0);
                let bit = mask(frag);
                let mut single = Vec::new();
                single.push(remaining);
                let data_start = store.alloc_entries(single).unwrap();
                let new_node = store.alloc_node(
                    Node::Inner {
                        data_map: bit,
                        node_map: 0,
                        data_start,
                        children_start: 0,
                        adhash: remaining_contrib,
                    },
                );
                let out = RemoveOutcome::Removed {
                    node: Some(new_node),
                    adhash_delta: removed_contrib,
                    removed_value,
                };
                proof {
                    lemma_collision_promote(
                        st,
                        store@,
                        node_idx,
                        new_node,
                        data_start,
                        i as int,
                        out,
                        gone,
                    );
                }
                return out;
            }
            let entries = build_entries_removing(store, entries_start, len, i);
            let new_start = store.alloc_entries(entries).unwrap();
            let new_node = store.alloc_node(
                Node::Collision {
                    hash: node_hash,
                    entries_start: new_start,
                    entries_len: entries_len - 1,
                    adhash: adhash.wrapping_sub(removed_contrib),
                },
            );
            let out = RemoveOutcome::Removed {
                node: Some(new_node),
                adhash_delta: removed_contrib,
                removed_value,
            };
            proof {
                let later = store@;
                assert(block_of(later, new_start, (entries_len - 1) as nat) =~= block.remove(
                    i as int,
                ));
                lemma_collision_shrink(
                    st,
                    later,
                    node_idx,
                    new_node,
                    new_start,
                    i as int,
                    out,
                    gone,
                );
            }
            return out;
        }
        i += 1;
    }
    proof {
        assert(!block_has(block, *key));
        lemma_not_found::<K, V>(st, node_idx, 13, hash, *key);
    }
    RemoveOutcome::NotFound
}

} // verus!
