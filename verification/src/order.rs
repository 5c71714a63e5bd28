//! The order of the traversal among entries that share a hash: it is the
//! order of their run, which is the order in which their keys came.
use crate::adhash::StableHash;
use crate::canon::{lemma_path_step, lemma_same_slots, same_content};
use crate::iter::{block_pairs, kids_pairs, lemma_pairs_len, subtree_pairs};
use crate::node::{
    has_bit, lemma_disjoint_edits, lemma_fragment_bound, lemma_index_is_rank, lemma_same_bits,
    lemma_select, popcount, rank, Entry, Node,
};
use crate::ops::insert::insert_growth;
use crate::ops::remove::remove_growth;
use crate::store::StoreView;
use crate::trie::{
    block_of, child_at, data_at, data_block, frag_at, hash_run, kid_block, lookup, on_path,
    run_of_one, slot_of, slot_ok, wf_subtree, Slot,
};
use vstd::prelude::*;

verus! {

/// The pairs whose key has the hash `hash`, in their order.
pub open spec fn with_hash<K: StableHash, V>(pairs: Seq<(K, V)>, hash: u64) -> Seq<(K, V)>
    decreases pairs.len(),
{
    if pairs.len() == 0 {
        Seq::empty()
    } else if pairs.last().0.hash_spec() == hash {
        with_hash(pairs.drop_last(), hash).push(pairs.last())
    } else {
        with_hash(pairs.drop_last(), hash)
    }
}

/// Whether the hash of every key in a sequence of pairs is routed along
/// `path`.
pub open spec fn all_routed<K: StableHash, V>(pairs: Seq<(K, V)>, path: Seq<u32>) -> bool {
    forall|i: int| 0 <= i < pairs.len() ==> on_path((#[trigger] pairs[i]).0.hash_spec(), path)
}

/// Selecting by hash from two sequences, one after the other.
pub proof fn lemma_with_hash_add<K: StableHash, V>(a: Seq<(K, V)>, b: Seq<(K, V)>, hash: u64)
    ensures
        with_hash(a + b, hash) == with_hash(a, hash) + with_hash(b, hash),
    decreases b.len(),
{
    if b.len() == 0 {
        assert(a + b =~= a);
        assert(with_hash(a, hash) + with_hash(b, hash) =~= with_hash(a, hash));
    } else {
        assert((a + b).drop_last() =~= a + b.drop_last());
        assert((a + b).last() == b.last());
        lemma_with_hash_add(a, b.drop_last(), hash);
        assert(with_hash(a + b, hash) =~= with_hash(a, hash) + with_hash(b, hash));
    }
}

/// Selecting by hash where every key, or no key, has the hash.
pub proof fn lemma_with_hash_uniform<K: StableHash, V>(pairs: Seq<(K, V)>, hash: u64)
    ensures
        (forall|i: int| 0 <= i < pairs.len() ==> (#[trigger] pairs[i]).0.hash_spec() == hash)
            ==> with_hash(pairs, hash) == pairs,
        (forall|i: int| 0 <= i < pairs.len() ==> (#[trigger] pairs[i]).0.hash_spec() != hash)
            ==> with_hash(pairs, hash) == Seq::<(K, V)>::empty(),
    decreases pairs.len(),
{
    if pairs.len() > 0 {
        let rest = pairs.drop_last();
        lemma_with_hash_uniform(rest, hash);
        if forall|i: int| 0 <= i < pairs.len() ==> (#[trigger] pairs[i]).0.hash_spec() == hash {
            assert forall|i: int| 0 <= i < rest.len() implies (#[trigger] rest[i]).0.hash_spec()
                == hash by {
                assert(rest[i] == pairs[i]);
            }
            assert(pairs.last() == pairs[pairs.len() - 1]);
            assert(with_hash(pairs, hash) =~= pairs);
        }
        if forall|i: int| 0 <= i < pairs.len() ==> (#[trigger] pairs[i]).0.hash_spec() != hash {
            assert forall|i: int| 0 <= i < rest.len() implies (#[trigger] rest[i]).0.hash_spec()
                != hash by {
                assert(rest[i] == pairs[i]);
            }
            assert(pairs.last() == pairs[pairs.len() - 1]);
        }
    } else {
        assert(with_hash(pairs, hash) =~= pairs);
    }
}

/// The traversal of a well-formed subtree yields only keys whose hash is
/// routed to the subtree.
pub proof fn lemma_pairs_routed<K: StableHash, V: StableHash>(
    st: StoreView<K, V>,
    idx: usize,
    path: Seq<u32>,
)
    requires
        wf_subtree(st, idx, path),
    ensures
        all_routed(subtree_pairs(st, idx, path.len()), path),
    decreases 14 - path.len(), 1nat, 0nat,
{
    let node = st.nodes[idx as int];
    let level = path.len();
    match node {
        Node::Inner { data_map, node_map, .. } => {
            let block = data_block(st, node);
            let data = block_pairs(block);
            let kids = kids_pairs(st, node, level, popcount(node_map));
            assert forall|j: int| 0 <= j < data.len() implies on_path(
                (#[trigger] data[j]).0.hash_spec(),
                path,
            ) by {
                let f = lemma_select(data_map, j as nat, 32);
                lemma_index_is_rank(data_map, f);
                assert(slot_ok(st, slot_of(st, node, f), path, f));
                assert(block[j] == data_at(st, node, f));
            }
            lemma_kids_routed(st, idx, path, popcount(node_map));
            assert forall|i: int| 0 <= i < (data + kids).len() implies on_path(
                (#[trigger] (data + kids)[i]).0.hash_spec(),
                path,
            ) by {
                if i < data.len() {
                    assert((data + kids)[i] == data[i]);
                } else {
                    assert((data + kids)[i] == kids[i - data.len()]);
                }
            }
        },
        Node::Collision { entries_start, entries_len, .. } => {
            let block = block_of(st, entries_start, entries_len as nat);
            let pairs = block_pairs(block);
            assert forall|j: int| 0 <= j < pairs.len() implies on_path(
                (#[trigger] pairs[j]).0.hash_spec(),
                path,
            ) by {
                assert(block[j].hash == block[j].key.hash_spec());
            }
        },
    }
}

/// The traversal below the first `upto` children of a well-formed inner
/// node yields only keys whose hash is routed to the node.
proof fn lemma_kids_routed<K: StableHash, V: StableHash>(
    st: StoreView<K, V>,
    idx: usize,
    path: Seq<u32>,
    upto: nat,
)
    requires
        wf_subtree(st, idx, path),
        st.nodes[idx as int] is Inner,
        upto <= popcount(st.nodes[idx as int]->node_map),
    ensures
        all_routed(kids_pairs(st, st.nodes[idx as int], path.len(), upto), path),
    decreases 14 - path.len(), 0nat, upto,
{
    let node = st.nodes[idx as int];
    let level = path.len();
    if upto > 0 {
        let j = (upto - 1) as nat;
        lemma_kids_routed(st, idx, path, j);
        let f = lemma_select(node->node_map, j, 32);
        lemma_index_is_rank(node->node_map, f);
        lemma_disjoint_edits(node->data_map, node->node_map, f);
        let c = child_at(st, node, f);
        assert(slot_of(st, node, f) == Slot::<K, V>::Child(c));
        assert(slot_ok(st, slot_of(st, node, f), path, f));
        assert(kid_block(st, node)[j as int] == c);
        assert(path.push(f).len() == level + 1);
        lemma_pairs_routed(st, c, path.push(f));
        let before = kids_pairs(st, node, level, j);
        let below = subtree_pairs(st, c, level + 1);
        assert forall|i: int| 0 <= i < (before + below).len() implies on_path(
            (#[trigger] (before + below)[i]).0.hash_spec(),
            path,
        ) by {
            if i < before.len() {
                assert((before + below)[i] == before[i]);
            } else {
                assert((before + below)[i] == below[i - before.len()]);
                lemma_path_step(below[i - before.len()].0.hash_spec(), path, f);
            }
        }
    }
}

/// Among the inline entries of a well-formed inner node, in the slots below
/// `upto`, the one with the hash `hash` is the entry in the slot of the
/// hash, if it has that hash.
proof fn lemma_data_with_hash<K: StableHash, V: StableHash>(
    st: StoreView<K, V>,
    idx: usize,
    path: Seq<u32>,
    hash: u64,
    upto: u32,
)
    requires
        wf_subtree(st, idx, path),
        st.nodes[idx as int] is Inner,
        upto <= 32,
    ensures
        with_hash(
            block_pairs(
                data_block(st, st.nodes[idx as int]).take(
                    rank(st.nodes[idx as int]->data_map, upto) as int,
                ),
            ),
            hash,
        ) == if frag_at(hash, path.len()) < upto {
            match slot_of(st, st.nodes[idx as int], frag_at(hash, path.len())) {
                Slot::Data(e) => block_pairs(run_of_one(e, hash)),
                _ => Seq::<(K, V)>::empty(),
            }
        } else {
            Seq::<(K, V)>::empty()
        },
    decreases upto,
{
    let node = st.nodes[idx as int];
    let level = path.len();
    let block = data_block(st, node);
    let f = frag_at(hash, level);
    if upto > 0 {
        let g = (upto - 1) as u32;
        lemma_data_with_hash(st, idx, path, hash, g);
        if has_bit(node->data_map, g) {
            let r = rank(node->data_map, g);
            lemma_index_is_rank(node->data_map, g);
            let e = data_at(st, node, g);
            assert(block[r as int] == e);
            assert(slot_ok(st, slot_of(st, node, g), path, g));
            let now = block_pairs(block.take((r + 1) as int));
            assert(now.drop_last() =~= block_pairs(block.take(r as int)));
            assert(now.last() == (e.key, e.value));
            if g == f && e.hash == hash {
                assert(block_pairs(run_of_one(e, hash)) =~= Seq::<(K, V)>::empty().push(
                    (e.key, e.value),
                ));
            } else if g == f {
                assert(block_pairs(run_of_one(e, hash)) =~= Seq::<(K, V)>::empty());
            }
        }
    } else {
        assert(block_pairs(block.take(0)) =~= Seq::<(K, V)>::empty());
    }
}

/// Among the pairs below the children of a well-formed inner node, in the
/// slots below `upto`, those with the hash `hash` are those below the child
/// in the slot of the hash.
proof fn lemma_kids_with_hash<K: StableHash, V: StableHash>(
    st: StoreView<K, V>,
    idx: usize,
    path: Seq<u32>,
    hash: u64,
    upto: u32,
)
    requires
        wf_subtree(st, idx, path),
        st.nodes[idx as int] is Inner,
        upto <= 32,
    ensures
        with_hash(
            kids_pairs(
                st,
                st.nodes[idx as int],
                path.len(),
                rank(st.nodes[idx as int]->node_map, upto),
            ),
            hash,
        ) == if frag_at(hash, path.len()) < upto {
            match slot_of(st, st.nodes[idx as int], frag_at(hash, path.len())) {
                Slot::Child(c) => with_hash(subtree_pairs(st, c, path.len() + 1), hash),
                _ => Seq::<(K, V)>::empty(),
            }
        } else {
            Seq::<(K, V)>::empty()
        },
    decreases upto,
{
    let node = st.nodes[idx as int];
    let level = path.len();
    let f = frag_at(hash, level);
    if upto > 0 {
        let g = (upto - 1) as u32;
        lemma_kids_with_hash(st, idx, path, hash, g);
        lemma_disjoint_edits(node->data_map, node->node_map, g);
        if has_bit(node->node_map, g) {
            let r = rank(node->node_map, g);
            lemma_index_is_rank(node->node_map, g);
            let c = child_at(st, node, g);
            assert(kid_block(st, node)[r as int] == c);
            assert(slot_of(st, node, g) == Slot::<K, V>::Child(c));
            assert(slot_ok(st, slot_of(st, node, g), path, g));
            assert(path.push(g).len() == level + 1);
            let before = kids_pairs(st, node, level, r);
            let below = subtree_pairs(st, c, level + 1);
            assert(kids_pairs(st, node, level, r + 1) == before + below);
            lemma_with_hash_add(before, below, hash);
            if g != f {
                lemma_pairs_routed(st, c, path.push(g));
                assert forall|i: int| 0 <= i < below.len() implies (#[trigger] below[i]).0.hash_spec()
                    != hash by {
                    lemma_path_step(below[i].0.hash_spec(), path, g);
                }
                lemma_with_hash_uniform(below, hash);
                assert(with_hash(before, hash) + Seq::<(K, V)>::empty() =~= with_hash(
                    before,
                    hash,
                ));
            } else {
                assert(Seq::<(K, V)>::empty() + with_hash(below, hash) =~= with_hash(below, hash));
            }
        }
    }
}

/// In the traversal of a well-formed subtree, the pairs whose key has the
/// hash `hash` are the entries of the run of that hash, in its order.
pub proof fn lemma_run_in_order<K: StableHash, V: StableHash>(
    st: StoreView<K, V>,
    idx: usize,
    path: Seq<u32>,
    hash: u64,
)
    requires
        wf_subtree(st, idx, path),
    ensures
        with_hash(subtree_pairs(st, idx, path.len()), hash) == block_pairs(
            hash_run(st, idx, path.len(), hash),
        ),
    decreases 14 - path.len(),
{
    let node = st.nodes[idx as int];
    let level = path.len();
    match node {
        Node::Inner { data_map, node_map, .. } => {
            let f = frag_at(hash, level);
            lemma_fragment_bound(hash, (5 * level) as u32);
            let block = data_block(st, node);
            let data = block_pairs(block);
            let kids = kids_pairs(st, node, level, popcount(node_map));
            lemma_data_with_hash(st, idx, path, hash, 32);
            lemma_kids_with_hash(st, idx, path, hash, 32);
            assert(block.take(popcount(data_map) as int) =~= block);
            lemma_with_hash_add(data, kids, hash);
            assert(slot_ok(st, slot_of(st, node, f), path, f));
            match slot_of(st, node, f) {
                Slot::Child(c) => {
                    assert(path.push(f).len() == level + 1);
                    lemma_run_in_order(st, c, path.push(f), hash);
                    assert(Seq::<(K, V)>::empty() + with_hash(
                        subtree_pairs(st, c, level + 1),
                        hash,
                    ) =~= with_hash(subtree_pairs(st, c, level + 1), hash));
                },
                Slot::Data(e) => {
                    assert(block_pairs(run_of_one(e, hash)) + Seq::<(K, V)>::empty()
                        =~= block_pairs(run_of_one(e, hash)));
                },
                Slot::Empty => {
                    assert(Seq::<(K, V)>::empty() + Seq::<(K, V)>::empty() =~= block_pairs(
                        Seq::<Entry<K, V>>::empty(),
                    ));
                },
            }
        },
        Node::Collision { hash: shared, entries_start, entries_len, .. } => {
            let block = block_of(st, entries_start, entries_len as nat);
            let pairs = block_pairs(block);
            assert forall|j: int| 0 <= j < pairs.len() implies (#[trigger] pairs[j]).0.hash_spec()
                == shared by {
                assert(block[j].hash == shared);
            }
            lemma_with_hash_uniform(pairs, hash);
            if shared != hash {
                assert(block_pairs(Seq::<Entry<K, V>>::empty()) =~= Seq::<(K, V)>::empty());
            }
        },
    }
}

/// Whether two subtrees, each in its store, have the same run for every
/// hash.
pub open spec fn same_runs<K, V>(
    st1: StoreView<K, V>,
    a: usize,
    st2: StoreView<K, V>,
    b: usize,
    level: nat,
) -> bool {
    forall|hash: u64| #[trigger] hash_run(st1, a, level, hash) == hash_run(st2, b, level, hash)
}

/// A hash that is not routed to a well-formed subtree has no run there.
pub proof fn lemma_run_routed<K: StableHash, V: StableHash>(
    st: StoreView<K, V>,
    idx: usize,
    path: Seq<u32>,
    hash: u64,
)
    requires
        wf_subtree(st, idx, path),
        !on_path(hash, path),
    ensures
        hash_run(st, idx, path.len(), hash) == Seq::<Entry<K, V>>::empty(),
    decreases 14 - path.len(),
{
    let node = st.nodes[idx as int];
    let level = path.len();
    match node {
        Node::Inner { .. } => {
            let f = frag_at(hash, level);
            assert(slot_ok(st, slot_of(st, node, f), path, f));
            match slot_of(st, node, f) {
                Slot::Child(c) => {
                    assert(path.push(f).len() == level + 1);
                    if on_path(hash, path.push(f)) {
                        lemma_path_step(hash, path, f);
                    }
                    lemma_run_routed(st, c, path.push(f), hash);
                },
                _ => {},
            }
        },
        Node::Collision { .. } => {},
    }
}

/// The trie is determined by what it holds: two well-formed subtrees that
/// hold the same pairs, with the keys that share a hash in the same order,
/// are traversed in the same order; inner nodes have the same bitmaps.
pub proof fn lemma_same_order<K: StableHash, V: StableHash>(
    st1: StoreView<K, V>,
    a: usize,
    st2: StoreView<K, V>,
    b: usize,
    path: Seq<u32>,
)
    requires
        wf_subtree(st1, a, path),
        wf_subtree(st2, b, path),
        same_content(st1, a, st2, b, path.len()),
        same_runs(st1, a, st2, b, path.len()),
    ensures
        subtree_pairs(st1, a, path.len()) == subtree_pairs(st2, b, path.len()),
        st1.nodes[a as int] is Inner <==> st2.nodes[b as int] is Inner,
        st1.nodes[a as int] is Inner ==> st1.nodes[a as int]->data_map
            == st2.nodes[b as int]->data_map && st1.nodes[a as int]->node_map
            == st2.nodes[b as int]->node_map,
    decreases 14 - path.len(), 1nat, 0nat,
{
    let node1 = st1.nodes[a as int];
    let node2 = st2.nodes[b as int];
    let level = path.len();
    match node1 {
        Node::Collision { hash: shared, entries_start, entries_len, .. } => {
            let block1 = block_of(st1, entries_start, entries_len as nat);
            assert(hash_run(st1, a, level, shared) == block1);
            assert(hash_run(st2, b, level, shared) == block1);
        },
        Node::Inner { .. } => {
            assert(same_content(st2, b, st1, a, level)) by {
                assert forall|k: K| #[trigger]
                    lookup(st2, b, level, k.hash_spec(), k) == lookup(
                        st1,
                        a,
                        level,
                        k.hash_spec(),
                        k,
                    ) by {
                    assert(lookup(st1, a, level, k.hash_spec(), k) == lookup(
                        st2,
                        b,
                        level,
                        k.hash_spec(),
                        k,
                    ));
                }
            }
            let dm1 = node1->data_map;
            let nm1 = node1->node_map;
            let dm2 = node2->data_map;
            let nm2 = node2->node_map;
            assert forall|g: u32| #[trigger] has_bit(dm1, g) == has_bit(dm2, g) by {
                lemma_same_slots(st1, a, st2, b, path, g);
                if g < 32 {
                    lemma_disjoint_edits(dm1, nm1, g);
                    lemma_disjoint_edits(dm2, nm2, g);
                }
            }
            assert forall|g: u32| #[trigger] has_bit(nm1, g) == has_bit(nm2, g) by {
                lemma_same_slots(st1, a, st2, b, path, g);
                if g < 32 {
                    lemma_disjoint_edits(dm1, nm1, g);
                    lemma_disjoint_edits(dm2, nm2, g);
                }
            }
            lemma_same_bits(dm1, dm2);
            lemma_same_bits(nm1, nm2);
            let block1 = data_block(st1, node1);
            let block2 = data_block(st2, node2);
            assert forall|j: int| 0 <= j < popcount(dm1) implies block1[j] == block2[j] by {
                let f = lemma_select(dm1, j as nat, 32);
                lemma_same_slots(st1, a, st2, b, path, f);
                lemma_index_is_rank(dm1, f);
            }
            assert(block1 =~= block2);
            lemma_same_order_kids(st1, a, st2, b, path, popcount(nm1));
        },
    }
}

/// The children of two inner nodes that hold the same, in the same order,
/// are traversed in the same order.
proof fn lemma_same_order_kids<K: StableHash, V: StableHash>(
    st1: StoreView<K, V>,
    a: usize,
    st2: StoreView<K, V>,
    b: usize,
    path: Seq<u32>,
    upto: nat,
)
    requires
        wf_subtree(st1, a, path),
        wf_subtree(st2, b, path),
        st1.nodes[a as int] is Inner,
        st2.nodes[b as int] is Inner,
        st1.nodes[a as int]->node_map == st2.nodes[b as int]->node_map,
        same_content(st1, a, st2, b, path.len()),
        same_content(st2, b, st1, a, path.len()),
        same_runs(st1, a, st2, b, path.len()),
        upto <= popcount(st1.nodes[a as int]->node_map),
    ensures
        kids_pairs(st1, st1.nodes[a as int], path.len(), upto) == kids_pairs(
            st2,
            st2.nodes[b as int],
            path.len(),
            upto,
        ),
    decreases 14 - path.len(), 0nat, upto,
{
    let node1 = st1.nodes[a as int];
    let node2 = st2.nodes[b as int];
    let level = path.len();
    let nm = node1->node_map;
    if upto > 0 {
        let j = (upto - 1) as nat;
        lemma_same_order_kids(st1, a, st2, b, path, j);
        let f = lemma_select(nm, j, 32);
        lemma_index_is_rank(nm, f);
        lemma_disjoint_edits(node1->data_map, nm, f);
        lemma_disjoint_edits(node2->data_map, nm, f);
        lemma_same_slots(st1, a, st2, b, path, f);
        let c1 = child_at(st1, node1, f);
        let c2 = child_at(st2, node2, f);
        assert(kid_block(st1, node1)[j as int] == c1);
        assert(kid_block(st2, node2)[j as int] == c2);
        assert(slot_ok(st1, slot_of(st1, node1, f), path, f));
        assert(slot_ok(st2, slot_of(st2, node2, f), path, f));
        assert(path.push(f).len() == level + 1);
        assert forall|hash: u64| #[trigger]
            hash_run(st1, c1, level + 1, hash) == hash_run(st2, c2, level + 1, hash) by {
            if on_path(hash, path.push(f)) {
                lemma_path_step(hash, path, f);
                assert(hash_run(st1, a, level, hash) == hash_run(st2, b, level, hash));
            } else {
                lemma_run_routed(st1, c1, path.push(f), hash);
                lemma_run_routed(st2, c2, path.push(f), hash);
            }
        }
        lemma_same_order(st1, c1, st2, c2, path.push(f));
    }
}

/// The children in one slot of two inner nodes that hold the same, in the
/// same order, hold the same, in the same order.
proof fn lemma_same_child<K: StableHash, V: StableHash>(
    st1: StoreView<K, V>,
    a: usize,
    st2: StoreView<K, V>,
    b: usize,
    path: Seq<u32>,
    f: u32,
)
    requires
        wf_subtree(st1, a, path),
        wf_subtree(st2, b, path),
        st1.nodes[a as int] is Inner,
        st2.nodes[b as int] is Inner,
        same_content(st1, a, st2, b, path.len()),
        same_content(st2, b, st1, a, path.len()),
        same_runs(st1, a, st2, b, path.len()),
        slot_of(st1, st1.nodes[a as int], f) is Child,
    ensures
        slot_of(st2, st2.nodes[b as int], f) is Child,
        path.push(f).len() == path.len() + 1,
        wf_subtree(st1, slot_of(st1, st1.nodes[a as int], f)->Child_0, path.push(f)),
        wf_subtree(st2, slot_of(st2, st2.nodes[b as int], f)->Child_0, path.push(f)),
        same_content(
            st1,
            slot_of(st1, st1.nodes[a as int], f)->Child_0,
            st2,
            slot_of(st2, st2.nodes[b as int], f)->Child_0,
            path.len() + 1,
        ),
        same_runs(
            st1,
            slot_of(st1, st1.nodes[a as int], f)->Child_0,
            st2,
            slot_of(st2, st2.nodes[b as int], f)->Child_0,
            path.len() + 1,
        ),
{
    let node1 = st1.nodes[a as int];
    let node2 = st2.nodes[b as int];
    let level = path.len();
    lemma_same_slots(st1, a, st2, b, path, f);
    let c1 = slot_of(st1, node1, f)->Child_0;
    let c2 = slot_of(st2, node2, f)->Child_0;
    assert(slot_ok(st1, slot_of(st1, node1, f), path, f));
    assert(slot_ok(st2, slot_of(st2, node2, f), path, f));
    assert(path.push(f).len() == level + 1);
    assert forall|hash: u64| #[trigger]
        hash_run(st1, c1, level + 1, hash) == hash_run(st2, c2, level + 1, hash) by {
        if on_path(hash, path.push(f)) {
            lemma_path_step(hash, path, f);
            assert(hash_run(st1, a, level, hash) == hash_run(st2, b, level, hash));
        } else {
            lemma_run_routed(st1, c1, path.push(f), hash);
            lemma_run_routed(st2, c2, path.push(f), hash);
        }
    }
}

/// What an insert or a removal adds to the arenas is determined by what the
/// trie holds: on two well-formed subtrees that hold the same pairs, with
/// the keys that share a hash in the same order, the same key gives the same
/// growth.
pub proof fn lemma_same_growth<K: StableHash, V: StableHash>(
    st1: StoreView<K, V>,
    a: usize,
    st2: StoreView<K, V>,
    b: usize,
    path: Seq<u32>,
    key: K,
)
    requires
        wf_subtree(st1, a, path),
        wf_subtree(st2, b, path),
        same_content(st1, a, st2, b, path.len()),
        same_runs(st1, a, st2, b, path.len()),
    ensures
        insert_growth(st1, a, path.len(), key.hash_spec(), key) == insert_growth(
            st2,
            b,
            path.len(),
            key.hash_spec(),
            key,
        ),
        remove_growth(st1, a, path.len(), key.hash_spec(), key) == remove_growth(
            st2,
            b,
            path.len(),
            key.hash_spec(),
            key,
        ),
    decreases 14 - path.len(),
{
    let node1 = st1.nodes[a as int];
    let node2 = st2.nodes[b as int];
    let level = path.len();
    let hash = key.hash_spec();
    lemma_same_order(st1, a, st2, b, path);
    assert(lookup(st1, a, level, hash, key) == lookup(st2, b, level, hash, key));
    match node1 {
        Node::Collision { hash: shared, entries_start, entries_len, .. } => {
            let block1 = block_of(st1, entries_start, entries_len as nat);
            assert(hash_run(st1, a, level, shared) == block1);
            assert(hash_run(st2, b, level, shared) == block1);
            assert(block1.len() == entries_len);
        },
        Node::Inner { .. } => {
            assert(same_content(st2, b, st1, a, level)) by {
                assert forall|k: K| #[trigger]
                    lookup(st2, b, level, k.hash_spec(), k) == lookup(
                        st1,
                        a,
                        level,
                        k.hash_spec(),
                        k,
                    ) by {
                    assert(lookup(st1, a, level, k.hash_spec(), k) == lookup(
                        st2,
                        b,
                        level,
                        k.hash_spec(),
                        k,
                    ));
                }
            }
            let f = frag_at(hash, level);
            lemma_same_slots(st1, a, st2, b, path, f);
            match slot_of(st1, node1, f) {
                Slot::Child(c1) => {
                    lemma_same_child(st1, a, st2, b, path, f);
                    let c2 = slot_of(st2, node2, f)->Child_0;
                    lemma_same_growth(st1, c1, st2, c2, path.push(f), key);
                    lemma_same_order(st1, c1, st2, c2, path.push(f));
                    lemma_pairs_len(st1, c1, path.push(f));
                    lemma_pairs_len(st2, c2, path.push(f));
                },
                _ => {},
            }
        },
    }
}

} // verus!
