//! The map as a whole: a store, a root, a size and a structural hash, and
//! what its operations do to the finite map that it stands for.
use crate::adhash::{
    lemma_map_sum_insert, lemma_map_sum_remove, lemma_map_total_insert, lemma_map_total_remove,
    lemma_map_total_zero, lemma_wrap64, lemma_wrap64_sum, map_phi, map_sum, map_total, pair_weight,
    wrap64, StableHash,
};
use crate::canon::{found, lemma_canonical, lemma_some_key};
use crate::collide::{crowd, lemma_fits, same_hash_keys};
use crate::iter::{is_pair, lemma_pairs_total, occurrences, on_entries, trie_pairs};
use crate::node::{Entry, Node};
use crate::ops::insert::{contribution_of, inserted_into, replaced_weight, InsertOutcome};
use crate::ops::insert::{insert_fits, insert_growth};
use crate::ops::remove::{remainder, removed_from, RemoveOutcome};
use crate::ops::remove::remove_growth;
use crate::store::{Growth, StoreView};
use crate::trie::{
    hash_run, lemma_fresh_inner, lemma_on_route, lookup, phi_weight, route, run_put, run_take,
    slot_of, subtree_total, unit_weight, wf_subtree, Slot,
};
use vstd::prelude::*;

verus! {

/// What a lookup of `key` from the root finds.
pub open spec fn trie_lookup<K: StableHash, V>(
    st: StoreView<K, V>,
    root: Option<usize>,
    key: K,
) -> Option<V> {
    match root {
        None => None,
        Some(r) => lookup(st, r, 0, key.hash_spec(), key),
    }
}

/// The finite map that a trie stands for.
pub open spec fn trie_view<K: StableHash, V>(st: StoreView<K, V>, root: Option<usize>) -> Map<
    K,
    V,
> {
    Map::new(
        |k: K| trie_lookup(st, root, k).is_some(),
        |k: K| trie_lookup(st, root, k).unwrap(),
    )
}

/// A weight on entries as a weight on the pairs of a map.
pub open spec fn entry_weight<K: StableHash, V>(w: spec_fn(Entry<K, V>) -> int) -> spec_fn(
    K,
    V,
) -> int {
    |k: K, v: V| w(Entry { hash: k.hash_spec(), key: k, value: v })
}

/// Whether store, root, size and hash make up a map in good order: the trie
/// below the root is well-formed; every total over its entries is the total
/// over the pairs of the map it stands for; the size is the number of its
/// entries and the number of keys of that map; the hash is that of the root
/// and the wrapping sum of the contributions of the map's pairs.
pub open spec fn trie_wf<K: StableHash, V: StableHash>(
    st: StoreView<K, V>,
    root: Option<usize>,
    size: usize,
    adhash: u64,
) -> bool {
    &&& st.fits()
    &&& match root {
        None => size == 0 && adhash == 0,
        Some(r) => {
            &&& wf_subtree(st, r, Seq::<u32>::empty())
            &&& size == subtree_total(st, r, 0, unit_weight())
            &&& adhash == st.nodes[r as int].adhash_spec()
            &&& forall|w: spec_fn(Entry<K, V>) -> int| #[trigger]
                subtree_total(st, r, 0, w) == map_total(trie_view(st, root), entry_weight(w))
        },
    }
    &&& trie_view(st, root).dom().finite()
    &&& size == trie_view(st, root).dom().len()
    &&& adhash == map_phi(trie_view(st, root))
}

/// What an insert of `key` adds to the arenas of a map: for the first key
/// one entry and the root that holds it; after that, what the insert below
/// the root adds.
pub open spec fn trie_insert_growth<K: StableHash, V>(
    st: StoreView<K, V>,
    root: Option<usize>,
    key: K,
) -> Growth {
    match root {
        None => Growth::node(1, 0),
        Some(r) => insert_growth(st, r, 0, key.hash_spec(), key),
    }
}

/// What a removal of `key` adds to the arenas of a map: nothing, where the
/// key is not there or is the last one; otherwise what the removal below the
/// root adds.
pub open spec fn trie_remove_growth<K: StableHash, V>(
    st: StoreView<K, V>,
    root: Option<usize>,
    key: K,
) -> Growth {
    match root {
        None => Growth::none(),
        Some(r) => remove_growth(st, r, 0, key.hash_spec(), key),
    }
}

/// The empty trie stands for the empty map.
pub proof fn lemma_state_empty<K: StableHash, V: StableHash>(st: StoreView<K, V>)
    requires
        st.fits(),
    ensures
        trie_wf(st, None, 0, 0),
        trie_view(st, None) == Map::<K, V>::empty(),
{
    assert(trie_view(st, None) =~= Map::<K, V>::empty());
}

/// The state after an insert below the root.
pub proof fn lemma_state_insert<K: StableHash, V: StableHash>(
    st: StoreView<K, V>,
    root: usize,
    size: usize,
    adhash: u64,
    later: StoreView<K, V>,
    out: InsertOutcome<V>,
    entry: Entry<K, V>,
)
    requires
        trie_wf(st, Some(root), size, adhash),
        inserted_into(st, root, later, out, 0, entry),
        entry.hash == entry.key.hash_spec(),
        later.fits(),
        size < usize::MAX,
    ensures
        out.old_value == trie_view(st, Some(root)).get(entry.key),
        out.inserted == !trie_view(st, Some(root)).contains_key(entry.key),
        trie_view(later, Some(out.node)) == trie_view(st, Some(root)).insert(
            entry.key,
            entry.value,
        ),
        trie_wf(
            later,
            Some(out.node),
            if out.inserted {
                (size + 1) as usize
            } else {
                size
            },
            vstd::wrapping::u64_specs::wrapping_add(adhash, out.adhash_delta),
        ),
        out.adhash_delta == wrap64(
            pair_weight(entry.key, entry.value) - match out.old_value {
                Some(v) => pair_weight(entry.key, v),
                None => 0,
            },
        ),
{
    reveal(inserted_into);
    let before = trie_view(st, Some(root));
    let after = trie_view(later, Some(out.node));
    let old = lookup(st, root, 0, entry.hash, entry.key);
    assert(route(entry.hash, 0) =~= Seq::<u32>::empty());
    assert forall|k: K| trie_lookup(later, Some(out.node), k) == if k == entry.key {
        Some(entry.value)
    } else {
        trie_lookup(st, Some(root), k)
    } by {
        assert(lookup(later, out.node, 0, k.hash_spec(), k) == if k.hash_spec() == entry.hash && k
            == entry.key {
            Some(entry.value)
        } else {
            lookup(st, root, 0, k.hash_spec(), k)
        });
    }
    assert(after =~= before.insert(entry.key, entry.value));
    lemma_map_sum_insert(before, entry.key, entry.value);
    assert(subtree_total(later, out.node, 0, unit_weight()) == subtree_total(
        st,
        root,
        0,
        unit_weight(),
    ) + unit_weight::<K, V>()(entry) - replaced_weight(entry, old, unit_weight()));
    assert(subtree_total(later, out.node, 0, phi_weight()) == subtree_total(
        st,
        root,
        0,
        phi_weight(),
    ) + phi_weight::<K, V>()(entry) - replaced_weight(entry, old, phi_weight()));
    assert(entry == Entry { hash: entry.key.hash_spec(), key: entry.key, value: entry.value });
    assert forall|w: spec_fn(Entry<K, V>) -> int| #[trigger]
        subtree_total(later, out.node, 0, w) == map_total(after, entry_weight(w)) by {
        lemma_map_total_insert(before, entry.key, entry.value, entry_weight(w));
        assert(subtree_total(st, root, 0, w) == map_total(before, entry_weight(w)));
    }
    lemma_wrap64(map_sum(before), out.adhash_delta);
    lemma_wrap64_sum(
        map_sum(before),
        phi_weight::<K, V>()(entry) - replaced_weight(entry, old, phi_weight()),
    );
    lemma_wrap64(subtree_total(st, root, 0, phi_weight()), out.adhash_delta);
    lemma_wrap64_sum(
        subtree_total(st, root, 0, phi_weight()),
        phi_weight::<K, V>()(entry) - replaced_weight(entry, old, phi_weight()),
    );
}

/// The state after the first insert: a root with one entry.
pub proof fn lemma_state_first<K: StableHash, V: StableHash>(
    st: StoreView<K, V>,
    idx: usize,
    entry: Entry<K, V>,
)
    requires
        st.fits(),
        entry.hash == entry.key.hash_spec(),
        idx < st.nodes.len(),
        st.nodes[idx as int] matches Node::Inner {
            data_map,
            node_map,
            data_start,
            children_start,
            adhash,
        } && data_map == 1u32 << crate::trie::frag_at(entry.hash, 0) && node_map == 0
            && data_start < st.entries.len() && st.entries[data_start as int] == entry
            && children_start <= st.children.len() && adhash == contribution_of(entry),
    ensures
        trie_wf(st, Some(idx), 1, contribution_of(entry)),
        trie_view(st, Some(idx)) == Map::<K, V>::empty().insert(entry.key, entry.value),
{
    let node = st.nodes[idx as int];
    let f = crate::trie::frag_at(entry.hash, 0);
    let path = Seq::<u32>::empty();
    crate::node::lemma_fragment_bound(entry.hash, 0);
    crate::node::lemma_one_slot(f);
    crate::node::lemma_popcount_zero(0);
    assert((1u32 << f) & 0 == 0) by (bit_vector);
    assert(route(entry.hash, 0) =~= path);
    lemma_on_route(entry.hash, entry.hash, 0);
    assert forall|g: u32| g != f implies #[trigger] slot_of(st, node, g) == Slot::<K, V>::Empty by {
        crate::node::lemma_bit_edits(0, 0, g);
    }
    crate::node::lemma_bit_edits(0, 0, f);
    assert(slot_of(st, node, f) == Slot::Data(entry));
    lemma_wrap64(contribution_of(entry) as int, 0);
    lemma_fresh_inner(st, idx, path, f, f);
    let view = trie_view(st, Some(idx));
    assert forall|k: K| trie_lookup(st, Some(idx), k) == if k == entry.key {
        Some(entry.value)
    } else {
        None
    } by {
        let l = lookup(st, idx, path.len(), k.hash_spec(), k);
        if crate::trie::frag_at(k.hash_spec(), 0) != f {
            assert(l.is_none());
        }
    }
    assert(view =~= Map::<K, V>::empty().insert(entry.key, entry.value));
    lemma_map_sum_insert(Map::<K, V>::empty(), entry.key, entry.value);
    assert(subtree_total(st, idx, path.len(), unit_weight()) == 1);
    assert(entry == Entry { hash: entry.key.hash_spec(), key: entry.key, value: entry.value });
    assert forall|w: spec_fn(Entry<K, V>) -> int| #[trigger]
        subtree_total(st, idx, 0, w) == map_total(view, entry_weight(w)) by {
        lemma_map_total_insert(Map::<K, V>::empty(), entry.key, entry.value, entry_weight(w));
        assert(subtree_total(st, idx, path.len(), w) == w(entry));
    }
}

/// The state after a removal below the root.
pub proof fn lemma_state_remove<K: StableHash, V: StableHash>(
    st: StoreView<K, V>,
    root: usize,
    size: usize,
    adhash: u64,
    later: StoreView<K, V>,
    out: RemoveOutcome<V>,
    key: K,
)
    requires
        trie_wf(st, Some(root), size, adhash),
        removed_from(st, root, later, out, 0, key.hash_spec(), key),
        later.fits(),
    ensures
        match out {
            RemoveOutcome::NotFound => !trie_view(st, Some(root)).contains_key(key) && later == st,
            RemoveOutcome::Removed { node, adhash_delta, removed_value } => {
                &&& trie_view(st, Some(root)).contains_key(key)
                &&& trie_view(st, Some(root))[key] == removed_value
                &&& size >= 1
                &&& adhash_delta == pair_weight(key, removed_value)
                &&& trie_view(later, node) == trie_view(st, Some(root)).remove(key)
                &&& trie_wf(
                    later,
                    node,
                    (size - 1) as usize,
                    vstd::wrapping::u64_specs::wrapping_sub(adhash, adhash_delta),
                )
            },
        },
{
    reveal(removed_from);
    let before = trie_view(st, Some(root));
    assert(route(key.hash_spec(), 0) =~= Seq::<u32>::empty());
    match out {
        RemoveOutcome::NotFound => {},
        RemoveOutcome::Removed { node, adhash_delta, removed_value } => {
            let gone = Entry { hash: key.hash_spec(), key, value: removed_value };
            let after = trie_view(later, node);
            assert(trie_lookup(st, Some(root), key) == Some(removed_value));
            assert(before.contains_key(key));
            lemma_map_sum_remove(before, key);
            lemma_wrap64(map_sum(before), adhash_delta);
            lemma_wrap64(subtree_total(st, root, 0, phi_weight()), adhash_delta);
            vstd::set_lib::lemma_set_empty_equivalency_len(before.dom());
            match node {
                None => {
                    assert forall|k: K| trie_lookup(st, Some(root), k) == if k == key {
                        Some(removed_value)
                    } else {
                        None
                    } by {
                        assert(lookup(st, root, 0, k.hash_spec(), k) == if k.hash_spec()
                            == gone.hash && k == gone.key {
                            Some(gone.value)
                        } else {
                            None
                        });
                    }
                    assert(after =~= before.remove(key));
                    assert(before.remove(key) =~= Map::<K, V>::empty());
                    assert(subtree_total(st, root, 0, unit_weight()) == unit_weight::<K, V>()(
                        gone,
                    ));
                    assert(subtree_total(st, root, 0, phi_weight()) == phi_weight::<K, V>()(gone));
                },
                Some(n) => {
                    assert(remainder(st, root, later, n, 0, gone));
                    assert forall|k: K| trie_lookup(later, node, k) == if k == key {
                        None
                    } else {
                        trie_lookup(st, Some(root), k)
                    } by {
                        assert(lookup(later, n, 0, k.hash_spec(), k) == if k.hash_spec()
                            == gone.hash && k == gone.key {
                            None
                        } else {
                            lookup(st, root, 0, k.hash_spec(), k)
                        });
                    }
                    assert(after =~= before.remove(key));
                    assert forall|w: spec_fn(Entry<K, V>) -> int| #[trigger]
                        subtree_total(later, n, 0, w) == map_total(after, entry_weight(w)) by {
                        lemma_map_total_remove(before, key, entry_weight(w));
                        assert(subtree_total(st, root, 0, w) == map_total(
                            before,
                            entry_weight(w),
                        ));
                    }
                    assert(subtree_total(later, n, 0, unit_weight()) == subtree_total(
                        st,
                        root,
                        0,
                        unit_weight(),
                    ) - unit_weight::<K, V>()(gone));
                    assert(subtree_total(later, n, 0, phi_weight()) == subtree_total(
                        st,
                        root,
                        0,
                        phi_weight(),
                    ) - phi_weight::<K, V>()(gone));
                },
            }
        },
    }
}

/// The traversal of a map in good order holds every pair of the map once,
/// and no other pair.
pub proof fn lemma_state_pairs<K: StableHash, V: StableHash>(
    st: StoreView<K, V>,
    root: Option<usize>,
    size: usize,
    adhash: u64,
    key: K,
    value: V,
)
    requires
        trie_wf(st, root, size, adhash),
    ensures
        occurrences(trie_pairs(st, root), (key, value)) == if trie_view(st, root).contains_key(
            key,
        ) && trie_view(st, root)[key] == value {
            1int
        } else {
            0int
        },
{
    let view = trie_view(st, root);
    let w = is_pair((key, value));
    match root {
        None => {},
        Some(r) => {
            lemma_pairs_total(st, r, Seq::<u32>::empty(), w);
            let on_map = entry_weight(on_entries(w));
            assert(subtree_total(st, r, 0, on_entries(w)) == map_total(view, on_map));
            if view.contains_key(key) {
                lemma_map_total_remove(view, key, on_map);
                let rest = view.remove(key);
                assert forall|k: K| rest.contains_key(k) implies #[trigger] on_map(k, rest[k])
                    == 0 by {
                }
                lemma_map_total_zero(rest, on_map);
            } else {
                assert forall|k: K| view.contains_key(k) implies #[trigger] on_map(k, view[k])
                    == 0 by {
                }
                lemma_map_total_zero(view, on_map);
            }
        },
    }
}

/// Whether no two keys of a map share a hash.
pub open spec fn hashes_differ<K: StableHash, V>(m: Map<K, V>) -> bool {
    forall|k1: K, k2: K|
        #[trigger] m.contains_key(k1) && #[trigger] m.contains_key(k2) && k1 != k2
            ==> k1.hash_spec() != k2.hash_spec()
}

/// Two maps in good order that stand for the same finite map, none of whose
/// keys share a hash, are traversed in the same order.
pub proof fn lemma_state_canonical<K: StableHash, V: StableHash>(
    st1: StoreView<K, V>,
    root1: Option<usize>,
    size1: usize,
    adhash1: u64,
    st2: StoreView<K, V>,
    root2: Option<usize>,
    size2: usize,
    adhash2: u64,
)
    requires
        trie_wf(st1, root1, size1, adhash1),
        trie_wf(st2, root2, size2, adhash2),
        trie_view(st1, root1) == trie_view(st2, root2),
        hashes_differ(trie_view(st1, root1)),
    ensures
        trie_pairs(st1, root1) == trie_pairs(st2, root2),
{
    let view1 = trie_view(st1, root1);
    let view2 = trie_view(st2, root2);
    let top = Seq::<u32>::empty();
    match (root1, root2) {
        (None, None) => {},
        (Some(r), None) => {
            let k = lemma_some_key(st1, r, top);
            assert(view1.contains_key(k));
            assert(!view2.contains_key(k));
        },
        (None, Some(r)) => {
            let k = lemma_some_key(st2, r, top);
            assert(view2.contains_key(k));
            assert(!view1.contains_key(k));
        },
        (Some(a), Some(b)) => {
            assert forall|k: K| #[trigger]
                lookup(st1, a, 0, k.hash_spec(), k) == lookup(st2, b, 0, k.hash_spec(), k) by {
                assert(view1.contains_key(k) == view2.contains_key(k));
                if view1.contains_key(k) {
                    assert(view1[k] == view2[k]);
                }
            }
            assert forall|k1: K, k2: K|
                #[trigger] found(st1, a, 0, k1) && #[trigger] found(st1, a, 0, k2) && k1
                    != k2 implies k1.hash_spec() != k2.hash_spec() by {
                assert(view1.contains_key(k1) && view1.contains_key(k2));
            }
            lemma_canonical(st1, a, st2, b, top);
        },
    }
}

/// Whether a map can take `key`: it holds the key already, or it holds
/// fewer than 255 keys with the hash of `key`.
pub open spec fn map_takes<K: StableHash, V>(m: Map<K, V>, key: K) -> bool {
    m.contains_key(key) || same_hash_keys(m, key.hash_spec()).len() < 255
}

/// A map can take a key exactly if an insert of the key stays clear of a
/// full collision node.
pub proof fn lemma_state_fits<K: StableHash, V: StableHash>(
    st: StoreView<K, V>,
    root: Option<usize>,
    size: usize,
    adhash: u64,
    key: K,
)
    requires
        trie_wf(st, root, size, adhash),
    ensures
        map_takes(trie_view(st, root), key) <==> match root {
            None => true,
            Some(r) => insert_fits(st, r, 0, key.hash_spec(), key),
        },
{
    let view = trie_view(st, root);
    let hash = key.hash_spec();
    match root {
        None => {
            assert(same_hash_keys(view, hash) =~= Set::<K>::empty());
        },
        Some(r) => {
            lemma_fits(st, r, Seq::<u32>::empty(), key);
            assert(same_hash_keys(view, hash) =~= crowd(st, r, 0, hash));
        },
    }
}

/// The entries of a map whose hash is `hash`, in the order of their
/// storage: the order in which their keys came, where there are several.
pub open spec fn trie_run<K, V>(st: StoreView<K, V>, root: Option<usize>, hash: u64) -> Seq<
    Entry<K, V>,
> {
    match root {
        None => Seq::empty(),
        Some(r) => hash_run(st, r, 0, hash),
    }
}

/// The runs of a map after an insert of `entry`: the entry is in the place
/// of the one with its key or, where its key is new, after all the others
/// with its hash; the runs of other hashes are what they were.
pub open spec fn runs_after_put<K, V>(
    st: StoreView<K, V>,
    root: Option<usize>,
    later: StoreView<K, V>,
    new_root: Option<usize>,
    entry: Entry<K, V>,
) -> bool {
    forall|hash: u64| #[trigger]
        trie_run(later, new_root, hash) == if hash == entry.hash {
            run_put(trie_run(st, root, hash), entry)
        } else {
            trie_run(st, root, hash)
        }
}

/// The runs of a map after the removal of `key`, whose hash is `gone`: the
/// other entries with that hash keep their order; the runs of other hashes
/// are what they were.
pub open spec fn runs_after_take<K, V>(
    st: StoreView<K, V>,
    root: Option<usize>,
    later: StoreView<K, V>,
    new_root: Option<usize>,
    gone: u64,
    key: K,
) -> bool {
    forall|hash: u64| #[trigger]
        trie_run(later, new_root, hash) == if hash == gone {
            run_take(trie_run(st, root, hash), key)
        } else {
            trie_run(st, root, hash)
        }
}

/// The runs after an insert below the root.
pub proof fn lemma_state_insert_runs<K: StableHash, V: StableHash>(
    st: StoreView<K, V>,
    root: usize,
    later: StoreView<K, V>,
    out: InsertOutcome<V>,
    entry: Entry<K, V>,
)
    requires
        inserted_into(st, root, later, out, 0, entry),
    ensures
        runs_after_put(st, Some(root), later, Some(out.node), entry),
{
    reveal(inserted_into);
}

/// The runs after the first insert.
pub proof fn lemma_state_first_runs<K: StableHash, V: StableHash>(
    st: StoreView<K, V>,
    later: StoreView<K, V>,
    idx: usize,
    entry: Entry<K, V>,
)
    requires
        idx < later.nodes.len(),
        later.nodes[idx as int] matches Node::Inner { data_map, node_map, data_start, .. }
            && data_map == 1u32 << crate::trie::frag_at(entry.hash, 0) && node_map == 0
            && data_start < later.entries.len() && later.entries[data_start as int] == entry,
    ensures
        runs_after_put(st, None, later, Some(idx), entry),
{
    let node = later.nodes[idx as int];
    let f = crate::trie::frag_at(entry.hash, 0);
    crate::node::lemma_fragment_bound(entry.hash, 0);
    crate::node::lemma_one_slot(f);
    crate::trie::lemma_short_runs(entry, entry);
    assert forall|hash: u64| #[trigger]
        trie_run(later, Some(idx), hash) == if hash == entry.hash {
            run_put(trie_run(st, None, hash), entry)
        } else {
            trie_run(st, None, hash)
        } by {
        let g = crate::trie::frag_at(hash, 0);
        crate::node::lemma_bit_edits(0, 0, g);
        if g == f {
            assert(slot_of(later, node, f) == Slot::Data(entry));
        } else {
            assert(slot_of(later, node, g) == Slot::<K, V>::Empty);
        }
    }
}

/// The runs after a removal below the root.
pub proof fn lemma_state_remove_runs<K: StableHash, V: StableHash>(
    st: StoreView<K, V>,
    root: usize,
    later: StoreView<K, V>,
    out: RemoveOutcome<V>,
    key: K,
)
    requires
        wf_subtree(st, root, Seq::<u32>::empty()),
        removed_from(st, root, later, out, 0, key.hash_spec(), key),
    ensures
        match out {
            RemoveOutcome::NotFound => runs_after_take(
                st,
                Some(root),
                st,
                Some(root),
                key.hash_spec(),
                key,
            ),
            RemoveOutcome::Removed { node, .. } => runs_after_take(
                st,
                Some(root),
                later,
                node,
                key.hash_spec(),
                key,
            ),
        },
{
    reveal(removed_from);
    match out {
        RemoveOutcome::NotFound => {
            crate::trie::lemma_run_has(st, root, Seq::<u32>::empty(), key.hash_spec(), key);
        },
        RemoveOutcome::Removed { node, adhash_delta, removed_value } => {
            let gone = Entry { hash: key.hash_spec(), key, value: removed_value };
            crate::trie::lemma_short_runs(gone, gone);
            match node {
                None => {
                    assert forall|hash: u64| #[trigger]
                        trie_run(later, node, hash) == if hash == key.hash_spec() {
                            run_take(trie_run(st, Some(root), hash), key)
                        } else {
                            trie_run(st, Some(root), hash)
                        } by {
                        assert(hash_run(st, root, 0, hash) == crate::trie::run_of_one(gone, hash));
                    }
                },
                Some(n) => {
                    assert(remainder(st, root, later, n, 0, gone));
                },
            }
        },
    }
}

/// Two maps in good order that stand for the same finite map and keep the
/// keys that share a hash in the same order are traversed in the same
/// order.
pub proof fn lemma_state_same_order<K: StableHash, V: StableHash>(
    st1: StoreView<K, V>,
    root1: Option<usize>,
    size1: usize,
    adhash1: u64,
    st2: StoreView<K, V>,
    root2: Option<usize>,
    size2: usize,
    adhash2: u64,
)
    requires
        trie_wf(st1, root1, size1, adhash1),
        trie_wf(st2, root2, size2, adhash2),
        trie_view(st1, root1) == trie_view(st2, root2),
        forall|hash: u64| #[trigger] trie_run(st1, root1, hash) == trie_run(st2, root2, hash),
    ensures
        trie_pairs(st1, root1) == trie_pairs(st2, root2),
{
    let view1 = trie_view(st1, root1);
    let view2 = trie_view(st2, root2);
    let top = Seq::<u32>::empty();
    match (root1, root2) {
        (None, None) => {},
        (Some(r), None) => {
            let k = lemma_some_key(st1, r, top);
            assert(view1.contains_key(k));
            assert(!view2.contains_key(k));
        },
        (None, Some(r)) => {
            let k = lemma_some_key(st2, r, top);
            assert(view2.contains_key(k));
            assert(!view1.contains_key(k));
        },
        (Some(a), Some(b)) => {
            assert forall|k: K| #[trigger]
                lookup(st1, a, 0, k.hash_spec(), k) == lookup(st2, b, 0, k.hash_spec(), k) by {
                assert(view1.contains_key(k) == view2.contains_key(k));
                if view1.contains_key(k) {
                    assert(view1[k] == view2[k]);
                }
            }
            assert forall|hash: u64| #[trigger]
                hash_run(st1, a, 0, hash) == hash_run(st2, b, 0, hash) by {
                assert(trie_run(st1, root1, hash) == trie_run(st2, root2, hash));
            }
            crate::order::lemma_same_order(st1, a, st2, b, top);
        },
    }
}

/// What an insert or a removal adds to the arenas of a map is determined by
/// what the map holds: on two maps in good order that stand for the same
/// finite map and keep the keys that share a hash in the same order, the
/// same key gives the same growth.
pub proof fn lemma_state_same_growth<K: StableHash, V: StableHash>(
    st1: StoreView<K, V>,
    root1: Option<usize>,
    size1: usize,
    adhash1: u64,
    st2: StoreView<K, V>,
    root2: Option<usize>,
    size2: usize,
    adhash2: u64,
    key: K,
)
    requires
        trie_wf(st1, root1, size1, adhash1),
        trie_wf(st2, root2, size2, adhash2),
        trie_view(st1, root1) == trie_view(st2, root2),
        forall|hash: u64| #[trigger] trie_run(st1, root1, hash) == trie_run(st2, root2, hash),
    ensures
        trie_insert_growth(st1, root1, key) == trie_insert_growth(st2, root2, key),
        trie_remove_growth(st1, root1, key) == trie_remove_growth(st2, root2, key),
{
    let view1 = trie_view(st1, root1);
    let view2 = trie_view(st2, root2);
    let top = Seq::<u32>::empty();
    match (root1, root2) {
        (None, None) => {},
        (Some(r), None) => {
            let k = lemma_some_key(st1, r, top);
            assert(view1.contains_key(k));
            assert(!view2.contains_key(k));
        },
        (None, Some(r)) => {
            let k = lemma_some_key(st2, r, top);
            assert(view2.contains_key(k));
            assert(!view1.contains_key(k));
        },
        (Some(a), Some(b)) => {
            assert forall|k: K| #[trigger]
                lookup(st1, a, 0, k.hash_spec(), k) == lookup(st2, b, 0, k.hash_spec(), k) by {
                assert(view1.contains_key(k) == view2.contains_key(k));
                if view1.contains_key(k) {
                    assert(view1[k] == view2[k]);
                }
            }
            assert forall|hash: u64| #[trigger]
                hash_run(st1, a, 0, hash) == hash_run(st2, b, 0, hash) by {
                assert(trie_run(st1, root1, hash) == trie_run(st2, root2, hash));
            }
            crate::order::lemma_same_growth(st1, a, st2, b, top, key);
        },
    }
}

} // verus!
