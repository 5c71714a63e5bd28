//! Insertion by path copy: every node on the way down is rebuilt with the
//! edit applied, and the change of the structural hash is handed up.
use crate::adhash::{entry_adhash, hash_one, lemma_wrap64, wrap64, StableHash};
use crate::node::{
    fragment, index, lemma_bit_edits, lemma_index_is_rank, lemma_kept_insert, lemma_kept_remove,
    mask, offset, popcount, BITS_PER_LEVEL, Entry, MAX_SHIFT, Node,
};
use crate::ops::blocks::{
    alloc_or_sentinel, build_children_inserting, build_children_replacing, build_entries_inserting,
    build_entries_removing, build_entries_replacing, clone_entry, exact_clone,
};
use crate::ops::insert_lemmas::{
    lemma_collision_append, lemma_collision_replace, lemma_inner_add, lemma_inner_descend,
    lemma_inner_split, lemma_inner_update, lemma_pair_chain, lemma_pair_collision, lemma_pair_kept,
    lemma_pair_split,
};
use crate::store::{ChampStore, Growth, StoreView};
use crate::trie::{
    block_has, block_of, data_block, frag_at, hash_run, kid_block, lemma_on_route, lookup,
    phi_weight, route, run_of_one, run_put, singleton_node, slot_of, slot_ok, subtree_total,
    wf_subtree, Slot,
};
use vstd::laws_eq::obeys_concrete_eq;
use vstd::prelude::*;

verus! {

/// What the map asks of its key and value types: `==` on keys is equality,
/// and a clone equals the value it was made from.
pub open spec fn type_model<K: PartialEq + Clone, V: Clone>() -> bool {
    &&& obeys_concrete_eq::<K>()
    &&& exact_clone::<K>()
    &&& exact_clone::<V>()
}

/// Most items that an operation on a subtree at `shift` adds to any one
/// arena.
pub open spec fn alloc_bound(shift: u32) -> nat {
    (256 + 16 * (70 - shift)) as nat
}

/// Outcome of a recursive insert.
pub struct InsertOutcome<V> {
    /// Index of the new root of the modified subtree.
    pub node: usize,
    /// What to add, wrapping, to the structural hash of every ancestor.
    pub adhash_delta: u64,
    /// `true` if a new key was inserted, `false` if a value was replaced.
    pub inserted: bool,
    /// The value that was replaced, if any.
    pub old_value: Option<V>,
}

/// The weight of the entry that an insert of `entry` replaces.
pub open spec fn replaced_weight<K, V>(
    entry: Entry<K, V>,
    old: Option<V>,
    w: spec_fn(Entry<K, V>) -> int,
) -> int {
    match old {
        Some(v) => w(Entry { hash: entry.hash, key: entry.key, value: v }),
        None => 0,
    }
}

/// Whether an insert into a subtree at `level` stays clear of a collision
/// node that is full: such a node holds 255 entries and takes no new key.
pub open spec fn insert_fits<K, V>(
    st: StoreView<K, V>,
    idx: usize,
    level: nat,
    hash: u64,
    key: K,
) -> bool
    decreases 14 - level,
{
    if idx >= st.nodes.len() {
        true
    } else {
        match st.nodes[idx as int] {
            Node::Inner { .. } => {
                if level > 12 {
                    true
                } else {
                    match slot_of(st, st.nodes[idx as int], frag_at(hash, level)) {
                        Slot::Child(c) => insert_fits(st, c, level + 1, hash, key),
                        _ => true,
                    }
                }
            },
            Node::Collision { entries_start, entries_len, .. } => entries_len < 255 || block_has(
                block_of(st, entries_start, entries_len as nat),
                key,
            ),
        }
    }
}

/// What the subtree for two entries with the hashes `h1` and `h2`, made at
/// `level`, adds to the arenas: a node with one child slot for every level
/// on which the hashes share their fragment, then a node with the two
/// entries.
pub open spec fn create_growth(h1: u64, h2: u64, level: nat) -> Growth
    decreases 14 - level,
{
    if level <= 12 && frag_at(h1, level) == frag_at(h2, level) {
        create_growth(h1, h2, level + 1).plus(Growth::node(0, 1))
    } else {
        Growth::node(2, 0)
    }
}

/// What an insert of `(hash, key)` into the subtree at `idx` adds to the
/// arenas: on every level of the way down one node, with the block that the
/// edit rebuilds, in full.
pub open spec fn insert_growth<K, V>(
    st: StoreView<K, V>,
    idx: usize,
    level: nat,
    hash: u64,
    key: K,
) -> Growth
    decreases 14 - level,
{
    if idx >= st.nodes.len() {
        Growth::none()
    } else {
        match st.nodes[idx as int] {
            Node::Inner { data_map, node_map, .. } => {
                if level > 12 {
                    Growth::none()
                } else {
                    match slot_of(st, st.nodes[idx as int], frag_at(hash, level)) {
                        Slot::Data(e) => if e.hash == hash && e.key == key {
                            Growth::node(popcount(data_map), 0)
                        } else {
                            create_growth(e.hash, hash, level + 1).plus(
                                Growth::node(
                                    (popcount(data_map) - 1) as nat,
                                    popcount(node_map) + 1,
                                ),
                            )
                        },
                        Slot::Child(c) => insert_growth(st, c, level + 1, hash, key).plus(
                            Growth::node(0, popcount(node_map)),
                        ),
                        Slot::Empty => Growth::node(popcount(data_map) + 1, 0),
                    }
                }
            },
            Node::Collision { entries_start, entries_len, .. } => if block_has(
                block_of(st, entries_start, entries_len as nat),
                key,
            ) {
                Growth::node(entries_len as nat, 0)
            } else {
                Growth::node(entries_len as nat + 1, 0)
            },
        }
    }
}

/// What an insert of `entry` into the subtree at `idx` of `st` leaves at
/// `out.node` of `later`: a well-formed subtree in which the key of `entry`
/// leads to its value and every other key to what it led to before; the
/// value that was replaced, if there was one; totals, of the structural
/// hash too, that moved by the new entry less the replaced one; and, among
/// the entries that share the hash of `entry`, the entry in the place of the
/// one it replaced or, where its key is new, after all the others.
#[verifier::opaque]
pub open spec fn inserted_into<K: StableHash, V: StableHash>(
    st: StoreView<K, V>,
    idx: usize,
    later: StoreView<K, V>,
    out: InsertOutcome<V>,
    level: nat,
    entry: Entry<K, V>,
) -> bool {
    let old = lookup(st, idx, level, entry.hash, entry.key);
    &&& wf_subtree(later, out.node, route(entry.hash, level))
    &&& out.old_value == old
    &&& out.inserted == old.is_none()
    &&& forall|hash: u64, key: K| #[trigger]
        lookup(later, out.node, level, hash, key) == if hash == entry.hash && key == entry.key {
            Some(entry.value)
        } else {
            lookup(st, idx, level, hash, key)
        }
    &&& forall|w: spec_fn(Entry<K, V>) -> int| #[trigger]
        subtree_total(later, out.node, level, w) == subtree_total(st, idx, level, w) + w(entry)
            - replaced_weight(entry, old, w)
    &&& out.adhash_delta == wrap64(
        phi_weight::<K, V>()(entry) - replaced_weight(entry, old, phi_weight()),
    )
    &&& (singleton_node(later.nodes[out.node as int]) ==> singleton_node(st.nodes[idx as int]))
    &&& forall|hash: u64| #[trigger]
        hash_run(later, out.node, level, hash) == if hash == entry.hash {
            run_put(hash_run(st, idx, level, hash), entry)
        } else {
            hash_run(st, idx, level, hash)
        }
}

/// The contribution of an entry to the structural hash.
pub open spec fn contribution_of<K, V: StableHash>(entry: Entry<K, V>) -> u64 {
    crate::adhash::contribution(entry.hash, entry.value.hash_spec())
}

/// A subtree that holds exactly the two entries, the first before the
/// second where they share their hash.
#[verifier::opaque]
pub open spec fn holds_pair<K: StableHash, V: StableHash>(
    st: StoreView<K, V>,
    idx: usize,
    level: nat,
    e1: Entry<K, V>,
    e2: Entry<K, V>,
) -> bool {
    &&& wf_subtree(st, idx, route(e1.hash, level))
    &&& !singleton_node(st.nodes[idx as int])
    &&& forall|hash: u64, key: K| #[trigger]
        lookup(st, idx, level, hash, key) == if hash == e1.hash && key == e1.key {
            Some(e1.value)
        } else if hash == e2.hash && key == e2.key {
            Some(e2.value)
        } else {
            None
        }
    &&& forall|w: spec_fn(Entry<K, V>) -> int| #[trigger]
        subtree_total(st, idx, level, w) == w(e1) + w(e2)
    &&& forall|hash: u64| #[trigger]
        hash_run(st, idx, level, hash) == run_of_one(e1, hash) + run_of_one(e2, hash)
}

/// Inserts `entry` into the subtree rooted at `node_idx`, which sits at
/// depth `shift / 5`, and returns the root of the rebuilt subtree.
pub fn insert_recursive<K, V, S>(
    store: &mut S,
    node_idx: usize,
    entry: Entry<K, V>,
    shift: u32,
) -> (out: InsertOutcome<V>) where
    K: StableHash + Eq + Clone,
    V: StableHash + Clone,
    S: ChampStore<K, V>,

    requires
        type_model::<K, V>(),
        shift % 5 == 0,
        shift <= 65,
        entry.hash == entry.key.hash_spec(),
        wf_subtree(old(store)@, node_idx, route(entry.hash, (shift / 5) as nat)),
        insert_fits(old(store)@, node_idx, (shift / 5) as nat, entry.hash, entry.key),
        old(store)@.has_room(old(store).limit(), alloc_bound(shift)),
        old(store).limit() <= usize::MAX,
    ensures
        old(store)@.extended_by(final(store)@),
        old(store)@.grown_within(final(store)@, alloc_bound(shift)),
        old(store)@.grown_by(
            final(store)@,
            insert_growth(old(store)@, node_idx, (shift / 5) as nat, entry.hash, entry.key),
        ),
        final(store).limit() == old(store).limit(),
        out.node < final(store)@.nodes.len(),
        inserted_into(old(store)@, node_idx, final(store)@, out, (shift / 5) as nat, entry),
    decreases 70 - shift, 1nat,
{
    let node = *store.get_node(node_idx);
    match node {
        Node::Inner { data_map, node_map, data_start, children_start, adhash } => {
            insert_into_inner(
                store,
                node_idx,
                data_map,
                node_map,
                data_start,
                children_start,
                adhash,
                entry,
                shift,
            )
        },
        Node::Collision { hash: node_hash, entries_start, entries_len, adhash } => {
            insert_into_collision(
                store,
                node_idx,
                node_hash,
                entries_start,
                entries_len,
                adhash,
                entry,
            )
        },
    }
}

/// Inserts `entry` into the inner node at `node_idx`, whose fields are the
/// other arguments.
#[verifier::rlimit(100)]
#[verifier::spinoff_prover]
fn insert_into_inner<K, V, S>(
    store: &mut S,
    node_idx: usize,
    data_map: u32,
    node_map: u32,
    data_start: usize,
    children_start: usize,
    adhash: u64,
    entry: Entry<K, V>,
    shift: u32,
) -> (out: InsertOutcome<V>) where
    K: StableHash + Eq + Clone,
    V: StableHash + Clone,
    S: ChampStore<K, V>,

    requires
        type_model::<K, V>(),
        shift % 5 == 0,
        shift <= 65,
        entry.hash == entry.key.hash_spec(),
        wf_subtree(old(store)@, node_idx, route(entry.hash, (shift / 5) as nat)),
        insert_fits(old(store)@, node_idx, (shift / 5) as nat, entry.hash, entry.key),
        old(store)@.has_room(old(store).limit(), alloc_bound(shift)),
        old(store).limit() <= usize::MAX,
        old(store)@.nodes[node_idx as int] == (Node::Inner {
            data_map,
            node_map,
            data_start,
            children_start,
            adhash,
        }),
    ensures
        old(store)@.extended_by(final(store)@),
        old(store)@.grown_within(final(store)@, alloc_bound(shift)),
        old(store)@.grown_by(
            final(store)@,
            insert_growth(old(store)@, node_idx, (shift / 5) as nat, entry.hash, entry.key),
        ),
        final(store).limit() == old(store).limit(),
        out.node < final(store)@.nodes.len(),
        inserted_into(old(store)@, node_idx, final(store)@, out, (shift / 5) as nat, entry),
    decreases 70 - shift, 0nat,
{
    let ghost level = (shift / 5) as nat;
    let ghost st = store@;
    let ghost node = st.nodes[node_idx as int];
    let ghost ge = entry;
    let frag = fragment(entry.hash, shift);
    let bit = mask(frag);
    proof {
        reveal(obeys_concrete_eq);
        lemma_bit_edits(data_map, frag, frag);
        lemma_bit_edits(node_map, frag, frag);
        lemma_index_is_rank(data_map, frag);
        lemma_index_is_rank(node_map, frag);
        crate::node::lemma_rank_bound(data_map, 32);
        crate::node::lemma_rank_bound(node_map, 32);
        lemma_on_route(entry.hash, entry.hash, level);
        assert(slot_ok(st, slot_of(st, node, frag), route(entry.hash, level), frag));
    }
    let data_len = data_map.count_ones() as usize;
    let children_len = node_map.count_ones() as usize;

    if data_map & bit != 0 {
        let pos = index(data_map, bit);
        let existing = store.get_entry(offset(data_start, pos));
        let existing_key_eq = existing.hash == entry.hash && existing.key == entry.key;
        let old_contrib = entry_adhash(existing.hash, hash_one(&existing.value));
        let ghost e = *existing;
        if existing_key_eq {
            let old_value = existing.value.clone();
            let new_contrib = entry_adhash(entry.hash, hash_one(&entry.value));
            let delta = new_contrib.wrapping_sub(old_contrib);
            let entries = build_entries_replacing(store, data_start, data_len, pos, entry);
            let new_data = store.alloc_entries(entries).unwrap();
            let new_node = store.alloc_node(
                Node::Inner {
                    data_map,
                    node_map,
                    data_start: new_data,
                    children_start,
                    adhash: adhash.wrapping_add(delta),
                },
            );
            let out = InsertOutcome {
                node: new_node,
                adhash_delta: delta,
                inserted: false,
                old_value: Some(old_value),
            };
            proof {
                let later = store@;
                assert(data_block(later, later.nodes[new_node as int]) =~= data_block(
                    st,
                    node,
                ).update(pos as int, ge));
                lemma_inner_update(st, later, node_idx, out, level, ge, e);
            }
            out
        } else {
            let existing_cloned = clone_entry(store, offset(data_start, pos));
            let new_contrib = entry_adhash(entry.hash, hash_one(&entry.value));
            proof {
                lemma_on_route(e.hash, ge.hash, level);
                lemma_on_route(e.hash, e.hash, level);
            }
            let subtree = create_subtree(store, existing_cloned, entry, shift + BITS_PER_LEVEL);
            let ghost mid = store@;
            let new_data_map = data_map & !bit;
            let new_node_map = node_map | bit;
            let child_pos = index(new_node_map, bit);
            proof {
                crate::node::lemma_disjoint_edits(data_map, node_map, frag);
                lemma_kept_insert(node_map, kid_block(st, node), frag, subtree);
                lemma_kept_remove(data_map, data_block(st, node), frag);
                lemma_index_is_rank(new_node_map, frag);
            }
            let entries = build_entries_removing(store, data_start, data_len, pos);
            let children = build_children_inserting(
                store,
                children_start,
                children_len,
                child_pos,
                subtree,
            );
            let new_data = alloc_or_sentinel(store.alloc_entries(entries));
            let new_children = store.alloc_children(children).unwrap();
            let new_node = store.alloc_node(
                Node::Inner {
                    data_map: new_data_map,
                    node_map: new_node_map,
                    data_start: new_data,
                    children_start: new_children,
                    adhash: adhash.wrapping_add(new_contrib),
                },
            );
            let out = InsertOutcome {
                node: new_node,
                adhash_delta: new_contrib,
                inserted: true,
                old_value: None,
            };
            proof {
                let later = store@;
                assert(crate::ops::blocks::entry_block(mid.entries, data_start, data_len)
                    =~= data_block(st, node));
                assert(crate::ops::blocks::child_block(mid.children, children_start, children_len)
                    =~= kid_block(st, node));
                assert(data_block(later, later.nodes[new_node as int]) =~= data_block(
                    st,
                    node,
                ).remove(pos as int));
                assert(kid_block(later, later.nodes[new_node as int]) =~= kid_block(
                    st,
                    node,
                ).insert(child_pos as int, subtree));
                lemma_inner_split(st, mid, later, node_idx, subtree, out, level, ge, e);
            }
            out
        }
    } else if node_map & bit != 0 {
        let child_pos = index(node_map, bit);
        let old_child = store.get_child(offset(children_start, child_pos));
        let child_out = insert_recursive(store, old_child, entry, shift + BITS_PER_LEVEL);
        let ghost mid = store@;
        let children = build_children_replacing(
            store,
            children_start,
            children_len,
            child_pos,
            child_out.node,
        );
        let new_children = store.alloc_children(children).unwrap();
        let new_node = store.alloc_node(
            Node::Inner {
                data_map,
                node_map,
                data_start,
                children_start: new_children,
                adhash: adhash.wrapping_add(child_out.adhash_delta),
            },
        );
        let ghost child_ghost = child_out;
        let out = InsertOutcome {
            node: new_node,
            adhash_delta: child_out.adhash_delta,
            inserted: child_out.inserted,
            old_value: child_out.old_value,
        };
        proof {
            let later = store@;
            assert(crate::ops::blocks::child_block(mid.children, children_start, children_len)
                =~= kid_block(st, node));
            assert(kid_block(later, later.nodes[new_node as int]) =~= kid_block(st, node).update(
                child_pos as int,
                child_ghost.node,
            ));
            lemma_inner_descend(
                st,
                mid,
                later,
                node_idx,
                old_child,
                child_ghost,
                out,
                level,
                ge,
            );
        }
        out
    } else {
        let new_data_map = data_map | bit;
        let insert_at = index(new_data_map, bit);
        let new_contrib = entry_adhash(entry.hash, hash_one(&entry.value));
        proof {
            lemma_kept_insert(data_map, data_block(st, node), frag, ge);
            lemma_index_is_rank(new_data_map, frag);
        }
        let entries = build_entries_inserting(store, data_start, data_len, insert_at, entry);
        let new_data = store.alloc_entries(entries).unwrap();
        let new_node = store.alloc_node(
            Node::Inner {
                data_map: new_data_map,
                node_map,
                data_start: new_data,
                children_start,
                adhash: adhash.wrapping_add(new_contrib),
            },
        );
        let out = InsertOutcome {
            node: new_node,
            adhash_delta: new_contrib,
            inserted: true,
            old_value: None,
        };
        proof {
            let later = store@;
            assert(data_block(later, later.nodes[new_node as int]) =~= data_block(st, node).insert(
                insert_at as int,
                ge,
            ));
            lemma_wrap64(new_contrib as int, 0);
            lemma_inner_add(st, later, node_idx, out, level, ge);
        }
        out
    }
}

/// Inserts `entry` into the collision node at `node_idx`, whose fields are
/// the other arguments.
#[verifier::loop_isolation(false)]
fn insert_into_collision<K, V, S>(
    store: &mut S,
    node_idx: usize,
    node_hash: u64,
    entries_start: usize,
    entries_len: u8,
    adhash: u64,
    entry: Entry<K, V>,
) -> (out: InsertOutcome<V>) where
    K: StableHash + Eq + Clone,
    V: StableHash + Clone,
    S: ChampStore<K, V>,

    requires
        type_model::<K, V>(),
        entry.hash == entry.key.hash_spec(),
        wf_subtree(old(store)@, node_idx, route(entry.hash, 13)),
        insert_fits(old(store)@, node_idx, 13, entry.hash, entry.key),
        old(store)@.has_room(old(store).limit(), alloc_bound(65)),
        old(store).limit() <= usize::MAX,
        old(store)@.nodes[node_idx as int] == (Node::Collision {
            hash: node_hash,
            entries_start,
            entries_len,
            adhash,
        }),
    ensures
        old(store)@.extended_by(final(store)@),
        old(store)@.grown_within(final(store)@, alloc_bound(65)),
        old(store)@.grown_by(
            final(store)@,
            insert_growth(old(store)@, node_idx, 13, entry.hash, entry.key),
        ),
        final(store).limit() == old(store).limit(),
        out.node < final(store)@.nodes.len(),
        inserted_into(old(store)@, node_idx, final(store)@, out, 13, entry),
{
    let ghost st = store@;
    let ghost ge = entry;
    let ghost block = block_of(st, entries_start, entries_len as nat);
    let len = entries_len as usize;
    proof {
        reveal(obeys_concrete_eq);
    }
    let mut i: usize = 0;
    while i < len
        invariant
            i <= len,
            store@ == st,
            store.limit() == old(store).limit(),
            forall|j: int| 0 <= j < i ==> (#[trigger] block[j]).key != ge.key,
        decreases len - i,
    {
        let e = store.get_entry(offset(entries_start, i));
        let key_eq = e.key == entry.key;
        let old_contrib = entry_adhash(e.hash, hash_one(&e.value));
        assert(*e == block[i as int]);
        if key_eq {
            let old_value = e.value.clone();
            let new_contrib = entry_adhash(entry.hash, hash_one(&entry.value));
            let delta = new_contrib.wrapping_sub(old_contrib);
            let entries = build_entries_replacing(store, entries_start, len, i, entry);
            let new_start = store.alloc_entries(entries).unwrap();
            let new_node = store.alloc_node(
                Node::Collision {
                    hash: node_hash,
                    entries_start: new_start,
                    entries_len,
                    adhash: adhash.wrapping_add(delta),
                },
            );
            let out = InsertOutcome {
                node: new_node,
                adhash_delta: delta,
                inserted: false,
                old_value: Some(old_value),
            };
            proof {
                let later = store@;
                assert(block_of(later, new_start, entries_len as nat) =~= block.update(
                    i as int,
                    ge,
                ));
                lemma_collision_replace(st, later, node_idx, out, ge, i as int, new_start);
            }
            return out;
        }
        i += 1;
    }
    assert(!block_has(block, ge.key));
    let new_contrib = entry_adhash(entry.hash, hash_one(&entry.value));
    let new_len = entries_len.checked_add(1).unwrap();
    let entries = build_entries_inserting(store, entries_start, len, len, entry);
    let new_start = store.alloc_entries(entries).unwrap();
    let new_node = store.alloc_node(
        Node::Collision {
            hash: node_hash,
            entries_start: new_start,
            entries_len: new_len,
            adhash: adhash.wrapping_add(new_contrib),
        },
    );
    let out = InsertOutcome {
        node: new_node,
        adhash_delta: new_contrib,
        inserted: true,
        old_value: None,
    };
    proof {
        let later = store@;
        assert(block_of(later, new_start, (entries_len + 1) as nat) =~= block.push(ge));
        lemma_collision_append(st, later, node_idx, out, ge, new_start);
    }
    out
}

/// Creates the subtree for two entries that share every fragment above
/// `shift`: a chain of single-child nodes down to the level where their
/// fragments part, or a collision node below the last level.
#[verifier::rlimit(100)]
#[verifier::spinoff_prover]
pub fn create_subtree<K, V, S>(store: &mut S, e1: Entry<K, V>, e2: Entry<K, V>, shift: u32) -> (idx:
    usize) where K: StableHash + Eq + Clone, V: StableHash + Clone, S: ChampStore<K, V>
    requires
        type_model::<K, V>(),
        shift % 5 == 0,
        5 <= shift <= 65,
        e1.hash == e1.key.hash_spec(),
        e2.hash == e2.key.hash_spec(),
        e1.key != e2.key,
        route(e1.hash, (shift / 5) as nat) == route(e2.hash, (shift / 5) as nat),
        old(store)@.has_room(old(store).limit(), (70 - shift) as nat),
        old(store).limit() <= usize::MAX,
    ensures
        old(store)@.extended_by(final(store)@),
        old(store)@.grown_within(final(store)@, (70 - shift) as nat),
        old(store)@.grown_by(final(store)@, create_growth(e1.hash, e2.hash, (shift / 5) as nat)),
        final(store).limit() == old(store).limit(),
        idx < final(store)@.nodes.len(),
        holds_pair(final(store)@, idx, (shift / 5) as nat, e1, e2),
    decreases 70 - shift,
{
    let ghost level = (shift / 5) as nat;
    let ghost g1 = e1;
    let ghost g2 = e2;
    if shift > MAX_SHIFT {
        let hash = e1.hash;
        let c1 = entry_adhash(e1.hash, hash_one(&e1.value));
        let c2 = entry_adhash(e2.hash, hash_one(&e2.value));
        let mut pair = Vec::new();
        pair.push(e1);
        pair.push(e2);
        let start = store.alloc_entries(pair).unwrap();
        let idx = store.alloc_node(
            Node::Collision {
                hash,
                entries_start: start,
                entries_len: 2,
                adhash: c1.wrapping_add(c2),
            },
        );
        proof {
            lemma_wrap64(c1 as int, c2);
            lemma_pair_collision(store@, idx, start, g1, g2);
        }
        return idx;
    }
    let f1 = fragment(e1.hash, shift);
    let f2 = fragment(e2.hash, shift);
    if f1 == f2 {
        proof {
            lemma_on_route(e1.hash, e1.hash, level);
            lemma_on_route(e2.hash, e2.hash, level);
        }
        let child = create_subtree(store, e1, e2, shift + BITS_PER_LEVEL);
        let child_adhash = store.get_node(child).adhash();
        let ghost st1 = store@;
        let mut kids = Vec::new();
        kids.push(child);
        let children_start = store.alloc_children(kids).unwrap();
        let bit = mask(f1);
        let idx = store.alloc_node(
            Node::Inner {
                data_map: 0,
                node_map: bit,
                data_start: 0,
                children_start,
                adhash: child_adhash,
            },
        );
        proof {
            lemma_pair_kept(st1, store@, child, level + 1, g1, g2);
            lemma_pair_chain(store@, idx, child, level, g1, g2, f1);
        }
        idx
    } else {
        let c1 = entry_adhash(e1.hash, hash_one(&e1.value));
        let c2 = entry_adhash(e2.hash, hash_one(&e2.value));
        let mut pair = Vec::new();
        if f1 < f2 {
            pair.push(e1);
            pair.push(e2);
        } else {
            pair.push(e2);
            pair.push(e1);
        }
        let data_start = store.alloc_entries(pair).unwrap();
        let bit1 = mask(f1);
        let bit2 = mask(f2);
        let idx = store.alloc_node(
            Node::Inner {
                data_map: bit1 | bit2,
                node_map: 0,
                data_start,
                children_start: 0,
                adhash: c1.wrapping_add(c2),
            },
        );
        proof {
            lemma_wrap64(c1 as int, c2);
            lemma_pair_split(store@, idx, level, g1, g2);
        }
        idx
    }
}

/// Tells whether an insert of `key`, whose hash is `hash`, into the subtree
/// rooted at `node_idx` stays clear of a full collision node.
#[verifier::loop_isolation(false)]
pub fn insert_fits_recursive<K, V, S>(
    store: &S,
    node_idx: usize,
    hash: u64,
    key: &K,
    shift: u32,
) -> (fits: bool) where K: StableHash + Eq, V: StableHash, S: ChampStore<K, V>
    requires
        obeys_concrete_eq::<K>(),
        shift % 5 == 0,
        shift <= 65,
        store@.fits(),
        wf_subtree(store@, node_idx, route(hash, (shift / 5) as nat)),
    ensures
        fits == insert_fits(store@, node_idx, (shift / 5) as nat, hash, *key),
    decreases 70 - shift,
{
    proof {
        reveal(obeys_concrete_eq);
    }
    let ghost level = (shift / 5) as nat;
    let ghost st = store@;
    match *store.get_node(node_idx) {
        Node::Inner { data_map, node_map, children_start, .. } => {
            let frag = fragment(hash, shift);
            let bit = mask(frag);
            proof {
                lemma_bit_edits(data_map, frag, frag);
                lemma_bit_edits(node_map, frag, frag);
                lemma_index_is_rank(node_map, frag);
                lemma_on_route(hash, hash, level);
                assert(slot_ok(
                    st,
                    slot_of(st, st.nodes[node_idx as int], frag),
                    route(hash, level),
                    frag,
                ));
            }
            if data_map & bit != 0 {
                true
            } else if node_map & bit != 0 {
                let pos = index(node_map, bit);
                let child_idx = store.get_child(offset(children_start, pos));
                insert_fits_recursive(store, child_idx, hash, key, shift + BITS_PER_LEVEL)
            } else {
                true
            }
        },
        Node::Collision { entries_start, entries_len, .. } => {
            if entries_len < 255 {
                return true;
            }
            let ghost block = block_of(st, entries_start, entries_len as nat);
            let len = entries_len as usize;
            let mut i: usize = 0;
            while i < len
                invariant
                    i <= len,
                    forall|j: int| 0 <= j < i ==> (#[trigger] block[j]).key != *key,
                decreases len - i,
            {
                let entry = store.get_entry(offset(entries_start, i));
                assert(*entry == block[i as int]);
                if entry.key == *key {
                    assert(block_has(block, *key));
                    return true;
                }
                i += 1;
            }
            assert(!block_has(block, *key));
            false
        },
    }
}

} // verus!
