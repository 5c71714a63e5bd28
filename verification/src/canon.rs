//! Canonical form: the trie is determined by the pairs it holds. Two
//! well-formed tries that hold the same pairs have the same shape, node for
//! node, and are traversed in the same order, whatever operations built
//! them. (Keys that share all 64 bits of their hash sit in a collision node
//! in the order of their arrival; the law is stated for maps without such
//! keys.)
use crate::adhash::StableHash;
use crate::iter::{kids_pairs, subtree_pairs};
use crate::node::{
    has_bit, lemma_disjoint_edits, lemma_index_is_rank, lemma_popcount_zero, lemma_same_bits,
    lemma_select, popcount, Node,
};
use crate::store::StoreView;
use crate::trie::{
    block_of, child_at, data_at, data_block, frag_at, kid_block, lemma_block_lookup, lookup,
    on_path, singleton_node, slot_of, slot_ok, wf_subtree, Slot,
};
use vstd::prelude::*;

verus! {

/// Whether `key` is found below the node at `idx`.
pub open spec fn found<K: StableHash, V>(
    st: StoreView<K, V>,
    idx: usize,
    level: nat,
    key: K,
) -> bool {
    lookup(st, idx, level, key.hash_spec(), key).is_some()
}

/// Whether two subtrees, each in its store, hold the same pairs.
pub open spec fn same_content<K: StableHash, V>(
    st1: StoreView<K, V>,
    a: usize,
    st2: StoreView<K, V>,
    b: usize,
    level: nat,
) -> bool {
    forall|k: K| #[trigger]
        lookup(st1, a, level, k.hash_spec(), k) == lookup(st2, b, level, k.hash_spec(), k)
}

/// Whether no two keys below the node at `idx` share a hash.
pub open spec fn hashes_apart<K: StableHash, V>(
    st: StoreView<K, V>,
    idx: usize,
    level: nat,
) -> bool {
    forall|k1: K, k2: K|
        #[trigger] found(st, idx, level, k1) && #[trigger] found(st, idx, level, k2) && k1 != k2
            ==> k1.hash_spec() != k2.hash_spec()
}

/// A hash that is routed along a path is routed along the path less its
/// last step, and its fragment there is that step.
pub proof fn lemma_path_step(hash: u64, path: Seq<u32>, f: u32)
    requires
        on_path(hash, path.push(f)),
    ensures
        on_path(hash, path),
        frag_at(hash, path.len()) == f,
{
    let longer = path.push(f);
    assert forall|l: int| 0 <= l < path.len() implies frag_at(hash, l as nat) == #[trigger] path[l] by {
        assert(longer[l] == path[l]);
    }
    assert(longer[path.len() as int] == f);
}

/// A lookup finds only what is routed to the node it starts from.
pub proof fn lemma_found_route<K: StableHash, V: StableHash>(
    st: StoreView<K, V>,
    idx: usize,
    path: Seq<u32>,
    hash: u64,
    key: K,
)
    requires
        wf_subtree(st, idx, path),
        lookup(st, idx, path.len(), hash, key).is_some(),
    ensures
        on_path(hash, path),
    decreases 14 - path.len(),
{
    let node = st.nodes[idx as int];
    let level = path.len();
    match node {
        Node::Inner { .. } => {
            let f = frag_at(hash, level);
            assert(slot_ok(st, slot_of(st, node, f), path, f));
            match slot_of(st, node, f) {
                Slot::Child(c) => {
                    assert(path.push(f).len() == level + 1);
                    lemma_found_route(st, c, path.push(f), hash, key);
                    lemma_path_step(hash, path, f);
                },
                _ => {},
            }
        },
        Node::Collision { .. } => {},
    }
}

/// What is found below a child is found below its parent.
pub proof fn lemma_found_in_child<K: StableHash, V: StableHash>(
    st: StoreView<K, V>,
    idx: usize,
    path: Seq<u32>,
    f: u32,
    c: usize,
    key: K,
)
    requires
        wf_subtree(st, idx, path),
        st.nodes[idx as int] is Inner,
        slot_of(st, st.nodes[idx as int], f) == Slot::<K, V>::Child(c),
    ensures
        wf_subtree(st, c, path.push(f)),
        path.push(f).len() == path.len() + 1,
        found(st, c, path.len() + 1, key) ==> frag_at(key.hash_spec(), path.len()) == f,
        lookup(st, c, path.len() + 1, key.hash_spec(), key) == if frag_at(
            key.hash_spec(),
            path.len(),
        ) == f {
            lookup(st, idx, path.len(), key.hash_spec(), key)
        } else {
            None
        },
{
    let node = st.nodes[idx as int];
    assert(slot_ok(st, slot_of(st, node, f), path, f));
    assert(path.push(f).len() == path.len() + 1);
    if found(st, c, path.len() + 1, key) {
        lemma_found_route(st, c, path.push(f), key.hash_spec(), key);
        lemma_path_step(key.hash_spec(), path, f);
    }
}

/// A well-formed subtree holds a key.
pub proof fn lemma_some_key<K: StableHash, V: StableHash>(
    st: StoreView<K, V>,
    idx: usize,
    path: Seq<u32>,
) -> (key: K)
    requires
        wf_subtree(st, idx, path),
    ensures
        found(st, idx, path.len(), key),
    decreases 14 - path.len(),
{
    let node = st.nodes[idx as int];
    let level = path.len();
    match node {
        Node::Inner { data_map, node_map, .. } => {
            if data_map != 0 {
                lemma_popcount_zero(data_map);
                let f = choose|g: u32| has_bit(data_map, g);
                assert(slot_ok(st, slot_of(st, node, f), path, f));
                data_at(st, node, f).key
            } else {
                lemma_popcount_zero(node_map);
                let f = choose|g: u32| has_bit(node_map, g);
                lemma_disjoint_edits(data_map, node_map, f);
                let c = child_at(st, node, f);
                assert(slot_of(st, node, f) == Slot::<K, V>::Child(c));
                assert(slot_ok(st, slot_of(st, node, f), path, f));
                let key = lemma_some_key(st, c, path.push(f));
                lemma_found_in_child(st, idx, path, f, c, key);
                key
            }
        },
        Node::Collision { entries_start, entries_len, .. } => {
            let block = block_of(st, entries_start, entries_len as nat);
            lemma_block_lookup(block, 0);
            block[0].key
        },
    }
}

/// A well-formed subtree that is not a lone entry holds two keys.
pub proof fn lemma_two_keys<K: StableHash, V: StableHash>(
    st: StoreView<K, V>,
    idx: usize,
    path: Seq<u32>,
) -> (keys: (K, K))
    requires
        wf_subtree(st, idx, path),
        !singleton_node(st.nodes[idx as int]),
    ensures
        keys.0 != keys.1,
        found(st, idx, path.len(), keys.0),
        found(st, idx, path.len(), keys.1),
        st.nodes[idx as int] is Collision ==> keys.0.hash_spec() == keys.1.hash_spec(),
    decreases 14 - path.len(),
{
    let node = st.nodes[idx as int];
    let level = path.len();
    match node {
        Node::Inner { data_map, node_map, .. } => {
            if node_map != 0 {
                lemma_popcount_zero(node_map);
                let f = choose|g: u32| has_bit(node_map, g);
                lemma_disjoint_edits(data_map, node_map, f);
                let c = child_at(st, node, f);
                assert(slot_of(st, node, f) == Slot::<K, V>::Child(c));
                assert(slot_ok(st, slot_of(st, node, f), path, f));
                let keys = lemma_two_keys(st, c, path.push(f));
                lemma_found_in_child(st, idx, path, f, c, keys.0);
                lemma_found_in_child(st, idx, path, f, c, keys.1);
                keys
            } else {
                lemma_popcount_zero(data_map);
                let f1 = lemma_select(data_map, 0, 32);
                let f2 = lemma_select(data_map, 1, 32);
                lemma_disjoint_edits(data_map, node_map, f1);
                lemma_disjoint_edits(data_map, node_map, f2);
                assert(slot_ok(st, slot_of(st, node, f1), path, f1));
                assert(slot_ok(st, slot_of(st, node, f2), path, f2));
                let e1 = data_at(st, node, f1);
                let e2 = data_at(st, node, f2);
                (e1.key, e2.key)
            }
        },
        Node::Collision { entries_start, entries_len, .. } => {
            let block = block_of(st, entries_start, entries_len as nat);
            lemma_block_lookup(block, 0);
            lemma_block_lookup(block, 1);
            (block[0].key, block[1].key)
        },
    }
}

/// Where one subtree has an inline entry, a subtree with the same pairs has
/// no child.
proof fn lemma_entry_not_child<K: StableHash, V: StableHash>(
    st1: StoreView<K, V>,
    a: usize,
    st2: StoreView<K, V>,
    b: usize,
    path: Seq<u32>,
    f: u32,
)
    requires
        wf_subtree(st1, a, path),
        wf_subtree(st2, b, path),
        st1.nodes[a as int] is Inner,
        st2.nodes[b as int] is Inner,
        same_content(st1, a, st2, b, path.len()),
        slot_of(st1, st1.nodes[a as int], f) is Data,
    ensures
        !(slot_of(st2, st2.nodes[b as int], f) is Child),
{
    let node1 = st1.nodes[a as int];
    let node2 = st2.nodes[b as int];
    let level = path.len();
    match slot_of(st2, node2, f) {
        Slot::Child(c) => {
            assert(slot_ok(st2, slot_of(st2, node2, f), path, f));
            let keys = lemma_two_keys(st2, c, path.push(f));
            lemma_found_in_child(st2, b, path, f, c, keys.0);
            lemma_found_in_child(st2, b, path, f, c, keys.1);
            assert(lookup(st1, a, level, keys.0.hash_spec(), keys.0) == lookup(
                st2,
                b,
                level,
                keys.0.hash_spec(),
                keys.0,
            ));
            assert(lookup(st1, a, level, keys.1.hash_spec(), keys.1) == lookup(
                st2,
                b,
                level,
                keys.1.hash_spec(),
                keys.1,
            ));
        },
        _ => {},
    }
}

/// Two well-formed inner nodes with the same pairs hold the same in every
/// slot: nothing, the same entry, or children with the same pairs.
pub proof fn lemma_same_slots<K: StableHash, V: StableHash>(
    st1: StoreView<K, V>,
    a: usize,
    st2: StoreView<K, V>,
    b: usize,
    path: Seq<u32>,
    f: u32,
)
    requires
        wf_subtree(st1, a, path),
        wf_subtree(st2, b, path),
        st1.nodes[a as int] is Inner,
        st2.nodes[b as int] is Inner,
        same_content(st1, a, st2, b, path.len()),
        same_content(st2, b, st1, a, path.len()),
    ensures
        match slot_of(st1, st1.nodes[a as int], f) {
            Slot::Empty => slot_of(st2, st2.nodes[b as int], f) is Empty,
            Slot::Data(e) => slot_of(st2, st2.nodes[b as int], f) == Slot::Data(e),
            Slot::Child(c1) => slot_of(st2, st2.nodes[b as int], f) matches Slot::Child(c2)
                && same_content(st1, c1, st2, c2, path.len() + 1),
        },
{
    let node1 = st1.nodes[a as int];
    let node2 = st2.nodes[b as int];
    let level = path.len();
    let s1 = slot_of(st1, node1, f);
    let s2 = slot_of(st2, node2, f);
    assert(slot_ok(st1, slot_of(st1, node1, f), path, f));
    assert(slot_ok(st2, slot_of(st2, node2, f), path, f));
    // A key that the second node holds in slot `f`, if it holds any there.
    let k2 = match s2 {
        Slot::Data(e) => e.key,
        Slot::Child(c) => {
            let k = lemma_some_key(st2, c, path.push(f));
            lemma_found_in_child(st2, b, path, f, c, k);
            k
        },
        Slot::Empty => arbitrary(),
    };
    let k1 = match s1 {
        Slot::Data(e) => e.key,
        Slot::Child(c) => {
            let k = lemma_some_key(st1, c, path.push(f));
            lemma_found_in_child(st1, a, path, f, c, k);
            k
        },
        Slot::Empty => arbitrary(),
    };
    assert(lookup(st1, a, level, k1.hash_spec(), k1) == lookup(st2, b, level, k1.hash_spec(), k1));
    assert(lookup(st1, a, level, k2.hash_spec(), k2) == lookup(st2, b, level, k2.hash_spec(), k2));
    match s1 {
        Slot::Empty => {},
        Slot::Data(e) => {
            lemma_entry_not_child(st1, a, st2, b, path, f);
        },
        Slot::Child(c1) => {
            if s2 is Data {
                lemma_entry_not_child(st2, b, st1, a, path, f);
            }
            let c2 = s2->Child_0;
            assert forall|k: K| #[trigger]
                lookup(st1, c1, level + 1, k.hash_spec(), k) == lookup(
                    st2,
                    c2,
                    level + 1,
                    k.hash_spec(),
                    k,
                ) by {
                lemma_found_in_child(st1, a, path, f, c1, k);
                lemma_found_in_child(st2, b, path, f, c2, k);
                assert(lookup(st1, a, level, k.hash_spec(), k) == lookup(
                    st2,
                    b,
                    level,
                    k.hash_spec(),
                    k,
                ));
            }
        },
    }
}

/// Two well-formed subtrees that hold the same pairs, without keys that
/// share a hash, are traversed in the same order.
pub proof fn lemma_canonical<K: StableHash, V: StableHash>(
    st1: StoreView<K, V>,
    a: usize,
    st2: StoreView<K, V>,
    b: usize,
    path: Seq<u32>,
)
    requires
        wf_subtree(st1, a, path),
        wf_subtree(st2, b, path),
        same_content(st1, a, st2, b, path.len()),
        hashes_apart(st1, a, path.len()),
    ensures
        subtree_pairs(st1, a, path.len()) == subtree_pairs(st2, b, path.len()),
        st1.nodes[a as int] matches Node::Inner { data_map, node_map, .. }
            && st2.nodes[b as int] matches Node::Inner { data_map: data_map2, node_map: node_map2, .. }
            && data_map == data_map2 && node_map == node_map2,
    decreases 14 - path.len(), 1nat, 0nat,
{
    let node1 = st1.nodes[a as int];
    let node2 = st2.nodes[b as int];
    let level = path.len();
    lemma_no_collision(st1, a, path);
    assert(same_content(st2, b, st1, a, level)) by {
        assert forall|k: K| #[trigger]
            lookup(st2, b, level, k.hash_spec(), k) == lookup(st1, a, level, k.hash_spec(), k) by {
            assert(lookup(st1, a, level, k.hash_spec(), k) == lookup(
                st2,
                b,
                level,
                k.hash_spec(),
                k,
            ));
        }
    }
    assert(hashes_apart(st2, b, level)) by {
        assert forall|k1: K, k2: K|
            #[trigger] found(st2, b, level, k1) && #[trigger] found(st2, b, level, k2) && k1
                != k2 implies k1.hash_spec() != k2.hash_spec() by {
            assert(lookup(st1, a, level, k1.hash_spec(), k1) == lookup(
                st2,
                b,
                level,
                k1.hash_spec(),
                k1,
            ));
            assert(lookup(st1, a, level, k2.hash_spec(), k2) == lookup(
                st2,
                b,
                level,
                k2.hash_spec(),
                k2,
            ));
            assert(found(st1, a, level, k1) && found(st1, a, level, k2));
        }
    }
    lemma_no_collision(st2, b, path);
    let dm1 = node1->data_map;
    let nm1 = node1->node_map;
    let dm2 = node2->data_map;
    let nm2 = node2->node_map;
    assert forall|g: u32| #[trigger] has_bit(dm1, g) == has_bit(dm2, g) by {
        lemma_same_slots(st1, a, st2, b, path, g);
        if g < 32 {
            lemma_disjoint_edits(dm1, nm1, g);
            lemma_disjoint_edits(dm2, nm2, g);
        }
    }
    assert forall|g: u32| #[trigger] has_bit(nm1, g) == has_bit(nm2, g) by {
        lemma_same_slots(st1, a, st2, b, path, g);
        if g < 32 {
            lemma_disjoint_edits(dm1, nm1, g);
            lemma_disjoint_edits(dm2, nm2, g);
        }
    }
    lemma_same_bits(dm1, dm2);
    lemma_same_bits(nm1, nm2);
    let block1 = data_block(st1, node1);
    let block2 = data_block(st2, node2);
    assert forall|j: int| 0 <= j < popcount(dm1) implies block1[j] == block2[j] by {
        let f = lemma_select(dm1, j as nat, 32);
        lemma_same_slots(st1, a, st2, b, path, f);
        lemma_index_is_rank(dm1, f);
    }
    assert(block1 =~= block2);
    lemma_same_kids(st1, a, st2, b, path, popcount(nm1));
}

/// Without keys that share a hash there is no collision node.
proof fn lemma_no_collision<K: StableHash, V: StableHash>(
    st: StoreView<K, V>,
    idx: usize,
    path: Seq<u32>,
)
    requires
        wf_subtree(st, idx, path),
        hashes_apart(st, idx, path.len()),
    ensures
        st.nodes[idx as int] is Inner,
{
    if st.nodes[idx as int] is Collision {
        let keys = lemma_two_keys(st, idx, path);
        assert(found(st, idx, path.len(), keys.0) && found(st, idx, path.len(), keys.1));
    }
}

/// The children of two inner nodes with the same pairs are traversed in the
/// same order.
proof fn lemma_same_kids<K: StableHash, V: StableHash>(
    st1: StoreView<K, V>,
    a: usize,
    st2: StoreView<K, V>,
    b: usize,
    path: Seq<u32>,
    upto: nat,
)
    requires
        wf_subtree(st1, a, path),
        wf_subtree(st2, b, path),
        st1.nodes[a as int] is Inner,
        st2.nodes[b as int] is Inner,
        st1.nodes[a as int]->node_map == st2.nodes[b as int]->node_map,
        same_content(st1, a, st2, b, path.len()),
        same_content(st2, b, st1, a, path.len()),
        hashes_apart(st1, a, path.len()),
        upto <= popcount(st1.nodes[a as int]->node_map),
    ensures
        kids_pairs(st1, st1.nodes[a as int], path.len(), upto) == kids_pairs(
            st2,
            st2.nodes[b as int],
            path.len(),
            upto,
        ),
    decreases 14 - path.len(), 0nat, upto,
{
    let node1 = st1.nodes[a as int];
    let node2 = st2.nodes[b as int];
    let level = path.len();
    let nm = node1->node_map;
    if upto > 0 {
        let j = (upto - 1) as nat;
        lemma_same_kids(st1, a, st2, b, path, j);
        let f = lemma_select(nm, j, 32);
        lemma_index_is_rank(nm, f);
        lemma_disjoint_edits(node1->data_map, nm, f);
        lemma_disjoint_edits(node2->data_map, nm, f);
        lemma_same_slots(st1, a, st2, b, path, f);
        let c1 = child_at(st1, node1, f);
        let c2 = child_at(st2, node2, f);
        assert(kid_block(st1, node1)[j as int] == c1);
        assert(kid_block(st2, node2)[j as int] == c2);
        assert(slot_ok(st1, slot_of(st1, node1, f), path, f));
        assert(slot_ok(st2, slot_of(st2, node2, f), path, f));
        assert(path.push(f).len() == level + 1);
        assert(hashes_apart(st1, c1, level + 1)) by {
            assert forall|k1: K, k2: K|
                #[trigger] found(st1, c1, level + 1, k1) && #[trigger] found(
                    st1,
                    c1,
                    level + 1,
                    k2,
                ) && k1 != k2 implies k1.hash_spec() != k2.hash_spec() by {
                lemma_found_in_child(st1, a, path, f, c1, k1);
                lemma_found_in_child(st1, a, path, f, c1, k2);
                assert(found(st1, a, level, k1) && found(st1, a, level, k2));
            }
        }
        lemma_canonical(st1, c1, st2, c2, path.push(f));
    }
}

} // verus!
