//! The trie as a mathematical object: which stores hold a well-formed
//! subtree, what a lookup in it finds, and what its entries add up to.
use crate::adhash::{contribution, wrap64, StableHash};
use crate::node::{fragment_spec, has_bit, kept_slots, popcount, rank, Entry, Node};
use crate::store::StoreView;
use vstd::prelude::*;

verus! {

/// The fragment of `hash` that routes at depth `level`.
pub open spec fn frag_at(hash: u64, level: nat) -> u32 {
    fragment_spec(hash, (5 * level) as u32)
}

/// The fragments of `hash` at the first `level` depths.
pub open spec fn route(hash: u64, level: nat) -> Seq<u32> {
    Seq::new(level, |l: int| frag_at(hash, l as nat))
}

/// Whether `hash` is routed along `path`.
pub open spec fn on_path(hash: u64, path: Seq<u32>) -> bool {
    forall|l: int| 0 <= l < path.len() ==> frag_at(hash, l as nat) == #[trigger] path[l]
}

/// Whether an entry may sit in slot `f` of a node reached by `path`.
pub open spec fn entry_fits<K: StableHash, V>(e: Entry<K, V>, path: Seq<u32>, f: u32) -> bool {
    &&& e.hash == e.key.hash_spec()
    &&& on_path(e.hash, path)
    &&& frag_at(e.hash, path.len()) == f
}

/// The inline entry in slot `f` of an inner node.
pub open spec fn data_at<K, V>(st: StoreView<K, V>, node: Node, f: u32) -> Entry<K, V> {
    match node {
        Node::Inner { data_map, data_start, .. } => st.entries[data_start + rank(data_map, f)],
        Node::Collision { entries_start, .. } => st.entries[entries_start as int],
    }
}

/// The child index in slot `f` of an inner node.
pub open spec fn child_at<K, V>(st: StoreView<K, V>, node: Node, f: u32) -> usize {
    match node {
        Node::Inner { node_map, children_start, .. } => st.children[children_start + rank(
            node_map,
            f,
        )],
        Node::Collision { .. } => 0,
    }
}

/// What one of the 32 slots of an inner node holds.
pub enum Slot<K, V> {
    /// Nothing.
    Empty,
    /// An inline entry.
    Data(Entry<K, V>),
    /// The index of a child node.
    Child(usize),
}

/// What slot `f` of `node` holds.
pub open spec fn slot_of<K, V>(st: StoreView<K, V>, node: Node, f: u32) -> Slot<K, V> {
    match node {
        Node::Inner { data_map, node_map, .. } => {
            if has_bit(data_map, f) {
                Slot::Data(data_at(st, node, f))
            } else if has_bit(node_map, f) {
                Slot::Child(child_at(st, node, f))
            } else {
                Slot::Empty
            }
        },
        Node::Collision { .. } => Slot::Empty,
    }
}

/// The entries of a collision node.
pub open spec fn block_of<K, V>(st: StoreView<K, V>, start: usize, len: nat) -> Seq<Entry<K, V>> {
    st.entries.subrange(start as int, start + len)
}

/// An inner node with one inline entry and no child.
pub open spec fn singleton_node(node: Node) -> bool {
    match node {
        Node::Inner { data_map, node_map, .. } => popcount(data_map) == 1 && node_map == 0,
        Node::Collision { .. } => false,
    }
}

/// Whether a key occurs in a block of entries.
pub open spec fn block_has<K, V>(block: Seq<Entry<K, V>>, key: K) -> bool {
    exists|i: int| 0 <= i < block.len() && (#[trigger] block[i]).key == key
}

/// A position of `key` in a block that holds it.
pub open spec fn block_pos<K, V>(block: Seq<Entry<K, V>>, key: K) -> int {
    choose|i: int| 0 <= i < block.len() && (#[trigger] block[i]).key == key
}

/// The value stored under `key` in a block of entries.
pub open spec fn block_lookup<K, V>(block: Seq<Entry<K, V>>, key: K) -> Option<V> {
    if block_has(block, key) {
        Some(block[block_pos(block, key)].value)
    } else {
        None
    }
}

/// Whether no key occurs twice in a block.
pub open spec fn distinct_keys<K, V>(block: Seq<Entry<K, V>>) -> bool {
    forall|i: int, j: int|
        0 <= i < block.len() && 0 <= j < block.len() && i != j ==> (#[trigger] block[i]).key != (
        #[trigger] block[j]).key
}

/// What a lookup of `(hash, key)` finds in the subtree at `idx`, which sits
/// at depth `level`.
pub open spec fn lookup<K, V>(
    st: StoreView<K, V>,
    idx: usize,
    level: nat,
    hash: u64,
    key: K,
) -> Option<V>
    decreases 14 - level,
{
    if idx >= st.nodes.len() {
        None
    } else {
        match st.nodes[idx as int] {
            Node::Inner { .. } => {
                if level > 12 {
                    None
                } else {
                    match slot_of(st, st.nodes[idx as int], frag_at(hash, level)) {
                        Slot::Data(e) => if e.hash == hash && e.key == key {
                            Some(e.value)
                        } else {
                            None
                        },
                        Slot::Child(c) => lookup(st, c, level + 1, hash, key),
                        Slot::Empty => None,
                    }
                }
            },
            Node::Collision { hash: shared, entries_start, entries_len, .. } => {
                if hash != shared {
                    None
                } else {
                    block_lookup(block_of(st, entries_start, entries_len as nat), key)
                }
            },
        }
    }
}

/// Sum of a weight over a block of entries.
pub open spec fn block_total<K, V>(block: Seq<Entry<K, V>>, w: spec_fn(Entry<K, V>) -> int) -> int
    decreases block.len(),
{
    if block.len() == 0 {
        0
    } else {
        block_total(block.drop_last(), w) + w(block.last())
    }
}

/// Sum of a weight over the entries of the subtree at `idx`.
pub open spec fn subtree_total<K, V>(
    st: StoreView<K, V>,
    idx: usize,
    level: nat,
    w: spec_fn(Entry<K, V>) -> int,
) -> int
    decreases 14 - level, 34nat,
{
    if idx >= st.nodes.len() {
        0
    } else {
        match st.nodes[idx as int] {
            Node::Inner { .. } => {
                if level > 12 {
                    0
                } else {
                    slots_total(st, st.nodes[idx as int], level, 32, w)
                }
            },
            Node::Collision { entries_start, entries_len, .. } => block_total(
                block_of(st, entries_start, entries_len as nat),
                w,
            ),
        }
    }
}

/// Sum of a weight over what the slots below `upto` of an inner node hold.
pub open spec fn slots_total<K, V>(
    st: StoreView<K, V>,
    node: Node,
    level: nat,
    upto: u32,
    w: spec_fn(Entry<K, V>) -> int,
) -> int
    decreases 14 - level, upto + 1,
{
    if upto == 0 || level > 12 {
        0
    } else {
        slots_total(st, node, level, (upto - 1) as u32, w) + slot_total(
            st,
            node,
            level,
            (upto - 1) as u32,
            w,
        )
    }
}

/// Sum of a weight over what slot `f` of an inner node holds: one entry, a
/// subtree, or nothing.
pub open spec fn slot_total<K, V>(
    st: StoreView<K, V>,
    node: Node,
    level: nat,
    f: u32,
    w: spec_fn(Entry<K, V>) -> int,
) -> int
    decreases 14 - level, 0nat,
{
    match slot_of(st, node, f) {
        Slot::Data(e) => w(e),
        Slot::Child(c) => if level <= 12 {
            subtree_total(st, c, level + 1, w)
        } else {
            0
        },
        Slot::Empty => 0,
    }
}

/// The weight whose total is the structural hash before reduction.
pub open spec fn phi_weight<K, V: StableHash>() -> spec_fn(Entry<K, V>) -> int {
    |e: Entry<K, V>| contribution(e.hash, e.value.hash_spec()) as int
}

/// The weight whose total is the number of entries.
pub open spec fn unit_weight<K, V>() -> spec_fn(Entry<K, V>) -> int {
    |e: Entry<K, V>| 1int
}

/// The inline entries of an inner node, in slot order.
pub open spec fn data_block<K, V>(st: StoreView<K, V>, node: Node) -> Seq<Entry<K, V>> {
    match node {
        Node::Inner { data_map, data_start, .. } => st.entries.subrange(
            data_start as int,
            data_start + popcount(data_map),
        ),
        Node::Collision { .. } => Seq::empty(),
    }
}

/// The child indices of an inner node, in slot order.
pub open spec fn kid_block<K, V>(st: StoreView<K, V>, node: Node) -> Seq<usize> {
    match node {
        Node::Inner { node_map, children_start, .. } => st.children.subrange(
            children_start as int,
            children_start + popcount(node_map),
        ),
        Node::Collision { .. } => Seq::empty(),
    }
}

/// Two inner nodes whose blocks agree outside slot `f0` hold the same in
/// every other slot.
pub proof fn lemma_slots_kept<K, V>(
    st: StoreView<K, V>,
    later: StoreView<K, V>,
    node: Node,
    new_node: Node,
    f0: u32,
)
    requires
        inner_shape(st, node),
        inner_shape(later, new_node),
        kept_slots(
            node->data_map,
            data_block(st, node),
            new_node->data_map,
            data_block(later, new_node),
            f0,
        ),
        kept_slots(
            node->node_map,
            kid_block(st, node),
            new_node->node_map,
            kid_block(later, new_node),
            f0,
        ),
    ensures
        forall|g: u32| g != f0 ==> #[trigger] slot_of(later, new_node, g) == slot_of(st, node, g),
{
    assert forall|g: u32| g != f0 implies #[trigger] slot_of(later, new_node, g) == slot_of(
        st,
        node,
        g,
    ) by {
        assert(has_bit(new_node->data_map, g) == has_bit(node->data_map, g));
        assert(has_bit(new_node->node_map, g) == has_bit(node->node_map, g));
        if g < 32 {
            crate::node::lemma_index_is_rank(node->data_map, g);
            crate::node::lemma_index_is_rank(node->node_map, g);
            crate::node::lemma_index_is_rank(new_node->data_map, g);
            crate::node::lemma_index_is_rank(new_node->node_map, g);
        }
    }
}

/// The blocks of a node read the same after the store has grown.
pub proof fn lemma_blocks_same<K, V>(st: StoreView<K, V>, later: StoreView<K, V>, node: Node)
    requires
        inner_shape(st, node),
        st.extended_by(later),
    ensures
        data_block(later, node) == data_block(st, node),
        kid_block(later, node) == kid_block(st, node),
        inner_shape(later, node),
{
    assert(data_block(later, node) =~= data_block(st, node));
    assert(kid_block(later, node) =~= kid_block(st, node));
}

/// A block compressed by a bitmap keeps every slot when nothing is edited.
pub proof fn lemma_kept_same<T>(bitmap: u32, block: Seq<T>, f0: u32)
    ensures
        kept_slots(bitmap, block, bitmap, block, f0),
{
}

/// In a block without repeated keys, a key leads to the value beside it.
pub proof fn lemma_block_lookup<K, V>(block: Seq<Entry<K, V>>, j: int)
    requires
        distinct_keys(block),
        0 <= j < block.len(),
    ensures
        block_has(block, block[j].key),
        block_pos(block, block[j].key) == j,
        block_lookup(block, block[j].key) == Some(block[j].value),
{
    assert(block_has(block, block[j].key));
    let p = block_pos(block, block[j].key);
    assert(0 <= p < block.len() && block[p].key == block[j].key);
}

/// Total of a block with one more entry at the end.
pub proof fn lemma_block_total_push<K, V>(
    block: Seq<Entry<K, V>>,
    x: Entry<K, V>,
    w: spec_fn(Entry<K, V>) -> int,
)
    ensures
        block_total(block.push(x), w) == block_total(block, w) + w(x),
{
    assert(block.push(x).drop_last() =~= block);
}

/// Total of a block with one entry replaced.
pub proof fn lemma_block_total_update<K, V>(
    block: Seq<Entry<K, V>>,
    i: int,
    x: Entry<K, V>,
    w: spec_fn(Entry<K, V>) -> int,
)
    requires
        0 <= i < block.len(),
    ensures
        block_total(block.update(i, x), w) == block_total(block, w) - w(block[i]) + w(x),
    decreases block.len(),
{
    if i == block.len() - 1 {
        assert(block.update(i, x).drop_last() =~= block.drop_last());
    } else {
        assert(block.update(i, x).drop_last() =~= block.drop_last().update(i, x));
        lemma_block_total_update(block.drop_last(), i, x, w);
    }
}

/// Total of a block with one entry taken out.
pub proof fn lemma_block_total_remove<K, V>(
    block: Seq<Entry<K, V>>,
    i: int,
    w: spec_fn(Entry<K, V>) -> int,
)
    requires
        0 <= i < block.len(),
    ensures
        block_total(block.remove(i), w) == block_total(block, w) - w(block[i]),
    decreases block.len(),
{
    if i == block.len() - 1 {
        assert(block.remove(i) =~= block.drop_last());
    } else {
        assert(block.remove(i).drop_last() =~= block.drop_last().remove(i));
        assert(block.remove(i).last() == block.last());
        lemma_block_total_remove(block.drop_last(), i, w);
    }
}

/// Whether what a slot holds is in order: an entry carries the hash of its
/// key and sits in the slot of its fragment; a child is well-formed one level
/// down and is not a lone entry.
pub open spec fn slot_ok<K: StableHash, V: StableHash>(
    st: StoreView<K, V>,
    slot: Slot<K, V>,
    path: Seq<u32>,
    f: u32,
) -> bool
    decreases 14 - path.len(), 0nat,
{
    match slot {
        Slot::Data(e) => entry_fits(e, path, f),
        Slot::Child(c) => {
            &&& path.len() <= 12
            &&& wf_subtree(st, c, path.push(f))
            &&& !singleton_node(st.nodes[c as int])
        },
        Slot::Empty => true,
    }
}

/// Whether the bitmaps and block bounds of an inner node are in order.
pub open spec fn inner_shape<K, V>(st: StoreView<K, V>, node: Node) -> bool {
    match node {
        Node::Inner { data_map, node_map, data_start, children_start, .. } => {
            &&& data_map & node_map == 0
            &&& (data_map != 0 || node_map != 0)
            &&& data_start + popcount(data_map) <= st.entries.len()
            &&& children_start + popcount(node_map) <= st.children.len()
        },
        Node::Collision { .. } => false,
    }
}

/// Whether the node at `idx` roots a well-formed subtree for the hashes
/// routed along `path`.
///
/// An inner node has disjoint bitmaps, of which one is not empty; its blocks
/// lie inside the store; each of its slots is in order; and its hash field
/// is the sum of the contributions below it. A collision node sits below the
/// last level and holds two or more entries with distinct keys and one hash.
pub open spec fn wf_subtree<K: StableHash, V: StableHash>(
    st: StoreView<K, V>,
    idx: usize,
    path: Seq<u32>,
) -> bool
    decreases 14 - path.len(), 1nat,
{
    &&& idx < st.nodes.len()
    &&& match st.nodes[idx as int] {
        Node::Inner { adhash, .. } => {
            &&& path.len() <= 12
            &&& inner_shape(st, st.nodes[idx as int])
            &&& forall|f: u32|
                slot_ok(st, #[trigger] slot_of(st, st.nodes[idx as int], f), path, f)
            &&& adhash == wrap64(subtree_total(st, idx, path.len(), phi_weight()))
        },
        Node::Collision { hash, entries_start, entries_len, adhash } => {
            let block = block_of(st, entries_start, entries_len as nat);
            &&& path.len() == 13
            &&& entries_len >= 2
            &&& entries_start + entries_len <= st.entries.len()
            &&& on_path(hash, path)
            &&& forall|j: int|
                0 <= j < block.len() ==> (#[trigger] block[j]).hash == hash && hash
                    == block[j].key.hash_spec()
            &&& distinct_keys(block)
            &&& adhash == wrap64(block_total(block, phi_weight()))
        },
    }
}

/// The subtree at `idx` reads the same in `later` as in `st`.
pub open spec fn same_subtree<K: StableHash, V: StableHash>(
    st: StoreView<K, V>,
    later: StoreView<K, V>,
    idx: usize,
    path: Seq<u32>,
) -> bool {
    &&& wf_subtree(later, idx, path)
    &&& later.nodes[idx as int] == st.nodes[idx as int]
    &&& forall|hash: u64, key: K| #[trigger]
        lookup(later, idx, path.len(), hash, key) == lookup(st, idx, path.len(), hash, key)
    &&& forall|w: spec_fn(Entry<K, V>) -> int| #[trigger]
        subtree_total(later, idx, path.len(), w) == subtree_total(st, idx, path.len(), w)
}

/// A slot of a well-formed node reads the same after the store has grown.
pub proof fn lemma_frame_slot<K: StableHash, V: StableHash>(
    st: StoreView<K, V>,
    later: StoreView<K, V>,
    node: Node,
    f: u32,
)
    requires
        inner_shape(st, node),
        st.extended_by(later),
    ensures
        slot_of(later, node, f) == slot_of(st, node, f),
        inner_shape(later, node),
{
    if f < 32 {
        crate::node::lemma_index_is_rank(node->data_map, f);
        crate::node::lemma_index_is_rank(node->node_map, f);
    }
}

/// Appending to a store changes nothing below a node that was well-formed
/// before.
pub proof fn lemma_frame<K: StableHash, V: StableHash>(
    st: StoreView<K, V>,
    later: StoreView<K, V>,
    idx: usize,
    path: Seq<u32>,
)
    requires
        wf_subtree(st, idx, path),
        st.extended_by(later),
    ensures
        same_subtree(st, later, idx, path),
    decreases 14 - path.len(), 1nat,
{
    let node = st.nodes[idx as int];
    assert(later.nodes[idx as int] == node);
    match node {
        Node::Inner { .. } => {
            assert forall|g: u32| #[trigger] slot_of(later, node, g) == slot_of(st, node, g) by {
                lemma_frame_slot(st, later, node, g);
            }
            lemma_frame_slot(st, later, node, 0);
            assert(slot_of(st, node, 32) == Slot::<K, V>::Empty);
            lemma_edit_inner(st, later, idx, idx, path, 32);
            assert forall|hash: u64, key: K| #[trigger]
                lookup(later, idx, path.len(), hash, key) == lookup(
                    st,
                    idx,
                    path.len(),
                    hash,
                    key,
                ) by {
                crate::node::lemma_fragment_bound(hash, (5 * path.len()) as u32);
            }
        },
        Node::Collision { hash, entries_start, entries_len, adhash } => {
            assert(block_of(later, entries_start, entries_len as nat) =~= block_of(
                st,
                entries_start,
                entries_len as nat,
            ));
        },
    }
}

/// The entries of a route are the fragments of its hash.
pub proof fn lemma_route_at(hash: u64, level: nat, l: int)
    requires
        0 <= l < level,
    ensures
        route(hash, level)[l] == frag_at(hash, l as nat),
        route(hash, level).len() == level,
{
}

/// A hash is determined by its fragments at the thirteen levels.
pub proof fn lemma_route_full(a: u64, b: u64)
    requires
        route(a, 13) == route(b, 13),
    ensures
        a == b,
{
    lemma_route_at(a, 13, 0);
    lemma_route_at(b, 13, 0);
    lemma_route_at(a, 13, 1);
    lemma_route_at(b, 13, 1);
    lemma_route_at(a, 13, 2);
    lemma_route_at(b, 13, 2);
    lemma_route_at(a, 13, 3);
    lemma_route_at(b, 13, 3);
    lemma_route_at(a, 13, 4);
    lemma_route_at(b, 13, 4);
    lemma_route_at(a, 13, 5);
    lemma_route_at(b, 13, 5);
    lemma_route_at(a, 13, 6);
    lemma_route_at(b, 13, 6);
    lemma_route_at(a, 13, 7);
    lemma_route_at(b, 13, 7);
    lemma_route_at(a, 13, 8);
    lemma_route_at(b, 13, 8);
    lemma_route_at(a, 13, 9);
    lemma_route_at(b, 13, 9);
    lemma_route_at(a, 13, 10);
    lemma_route_at(b, 13, 10);
    lemma_route_at(a, 13, 11);
    lemma_route_at(b, 13, 11);
    lemma_route_at(a, 13, 12);
    lemma_route_at(b, 13, 12);
    assert(frag_at(a, 0) == frag_at(b, 0) && frag_at(a, 1) == frag_at(b, 1));
    assert(frag_at(a, 2) == frag_at(b, 2) && frag_at(a, 3) == frag_at(b, 3));
    assert(frag_at(a, 4) == frag_at(b, 4) && frag_at(a, 5) == frag_at(b, 5));
    assert(frag_at(a, 6) == frag_at(b, 6) && frag_at(a, 7) == frag_at(b, 7));
    assert(frag_at(a, 8) == frag_at(b, 8) && frag_at(a, 9) == frag_at(b, 9));
    assert(frag_at(a, 10) == frag_at(b, 10) && frag_at(a, 11) == frag_at(b, 11));
    assert(frag_at(a, 12) == frag_at(b, 12));
    assert(a == b) by (bit_vector)
        requires
            fragment_spec(a, 0) == fragment_spec(b, 0),
            fragment_spec(a, 5) == fragment_spec(b, 5),
            fragment_spec(a, 10) == fragment_spec(b, 10),
            fragment_spec(a, 15) == fragment_spec(b, 15),
            fragment_spec(a, 20) == fragment_spec(b, 20),
            fragment_spec(a, 25) == fragment_spec(b, 25),
            fragment_spec(a, 30) == fragment_spec(b, 30),
            fragment_spec(a, 35) == fragment_spec(b, 35),
            fragment_spec(a, 40) == fragment_spec(b, 40),
            fragment_spec(a, 45) == fragment_spec(b, 45),
            fragment_spec(a, 50) == fragment_spec(b, 50),
            fragment_spec(a, 55) == fragment_spec(b, 55),
            fragment_spec(a, 60) == fragment_spec(b, 60),
    ;
}

/// A hash that is routed along the route of another shares that route.
pub proof fn lemma_on_route(hash: u64, other: u64, level: nat)
    ensures
        on_path(hash, route(other, level)) <==> route(hash, level) == route(other, level),
        on_path(hash, route(hash, level)),
        route(hash, level).len() == level,
        route(hash, level).push(frag_at(hash, level)) == route(hash, level + 1),
{
    if on_path(hash, route(other, level)) {
        assert forall|l: int| 0 <= l < level implies route(hash, level)[l] == route(
            other,
            level,
        )[l] by {
            assert(frag_at(hash, l as nat) == route(other, level)[l]);
        }
        assert(route(hash, level) =~= route(other, level));
    }
    assert(route(hash, level).push(frag_at(hash, level)) =~= route(hash, level + 1));
}

/// Hashes that share a route share every shorter route.
pub proof fn lemma_route_prefix(a: u64, b: u64, level: nat)
    requires
        route(a, level + 1) == route(b, level + 1),
    ensures
        route(a, level) == route(b, level),
        frag_at(a, level) == frag_at(b, level),
{
    assert forall|l: int| 0 <= l < level implies route(a, level)[l] == route(b, level)[l] by {
        lemma_route_at(a, level + 1, l);
        lemma_route_at(b, level + 1, l);
        lemma_route_at(a, level, l);
        lemma_route_at(b, level, l);
    }
    assert(route(a, level) =~= route(b, level));
    lemma_route_at(a, level + 1, level as int);
    lemma_route_at(b, level + 1, level as int);
}

/// What an inner node that is empty but in slots `f1` and `f2` holds:
/// lookups routed through other slots find nothing, and every total is the
/// sum over the two slots.
pub proof fn lemma_sparse_inner<K, V>(
    st: StoreView<K, V>,
    idx: usize,
    level: nat,
    f1: u32,
    f2: u32,
)
    requires
        idx < st.nodes.len(),
        level <= 12,
        st.nodes[idx as int] is Inner,
        forall|g: u32|
            g != f1 && g != f2 ==> #[trigger] slot_of(st, st.nodes[idx as int], g) == Slot::<
                K,
                V,
            >::Empty,
    ensures
        forall|hash: u64, key: K|
            frag_at(hash, level) != f1 && frag_at(hash, level) != f2 ==> (#[trigger] lookup(
                st,
                idx,
                level,
                hash,
                key,
            )).is_none(),
        forall|w: spec_fn(Entry<K, V>) -> int| #[trigger]
            subtree_total(st, idx, level, w) == slot_total(st, st.nodes[idx as int], level, f1, w)
                + if f2 != f1 {
                slot_total(st, st.nodes[idx as int], level, f2, w)
            } else {
                0
            },
{
    let node = st.nodes[idx as int];
    assert forall|w: spec_fn(Entry<K, V>) -> int| #[trigger]
        subtree_total(st, idx, level, w) == slot_total(st, node, level, f1, w) + if f2 != f1 {
            slot_total(st, node, level, f2, w)
        } else {
            0
        } by {
        lemma_slots_sparse(st, node, level, f1, f2, 32, w);
        assert(slot_of(st, node, 32) == Slot::<K, V>::Empty);
        assert(f1 >= 32 ==> slot_total(st, node, level, f1, w) == 0) by {
            assert(!has_bit(node->data_map, f1) || f1 < 32);
        }
        assert(f2 >= 32 ==> slot_total(st, node, level, f2, w) == 0);
    }
}

/// What holds of a new inner node that is empty but in slots `f1` and `f2`:
/// it is well-formed if those slots are in order and its hash field is the
/// sum of what they hold; lookups routed through other slots find nothing.
pub proof fn lemma_fresh_inner<K: StableHash, V: StableHash>(
    st: StoreView<K, V>,
    idx: usize,
    path: Seq<u32>,
    f1: u32,
    f2: u32,
)
    requires
        idx < st.nodes.len(),
        path.len() <= 12,
        inner_shape(st, st.nodes[idx as int]),
        forall|g: u32|
            g != f1 && g != f2 ==> #[trigger] slot_of(st, st.nodes[idx as int], g) == Slot::<
                K,
                V,
            >::Empty,
        slot_ok(st, slot_of(st, st.nodes[idx as int], f1), path, f1),
        slot_ok(st, slot_of(st, st.nodes[idx as int], f2), path, f2),
        st.nodes[idx as int].adhash_spec() == wrap64(
            slot_total(st, st.nodes[idx as int], path.len(), f1, phi_weight()) + if f2 != f1 {
                slot_total(st, st.nodes[idx as int], path.len(), f2, phi_weight())
            } else {
                0
            },
        ),
    ensures
        wf_subtree(st, idx, path),
        forall|hash: u64, key: K|
            frag_at(hash, path.len()) != f1 && frag_at(hash, path.len()) != f2 ==> (#[trigger] lookup(
                st,
                idx,
                path.len(),
                hash,
                key,
            )).is_none(),
        forall|w: spec_fn(Entry<K, V>) -> int| #[trigger]
            subtree_total(st, idx, path.len(), w) == slot_total(
                st,
                st.nodes[idx as int],
                path.len(),
                f1,
                w,
            ) + if f2 != f1 {
                slot_total(st, st.nodes[idx as int], path.len(), f2, w)
            } else {
                0
            },
{
    let node = st.nodes[idx as int];
    lemma_sparse_inner(st, idx, path.len(), f1, f2);
    assert forall|f: u32| slot_ok(st, #[trigger] slot_of(st, node, f), path, f) by {
    }
}

/// The slot totals of an inner node that is empty but in slots `f1`, `f2`.
proof fn lemma_slots_sparse<K, V>(
    st: StoreView<K, V>,
    node: Node,
    level: nat,
    f1: u32,
    f2: u32,
    upto: u32,
    w: spec_fn(Entry<K, V>) -> int,
)
    requires
        upto <= 32,
        level <= 12,
        forall|g: u32|
            g != f1 && g != f2 ==> #[trigger] slot_of(st, node, g) == Slot::<K, V>::Empty,
    ensures
        slots_total(st, node, level, upto, w) == (if f1 < upto {
            slot_total(st, node, level, f1, w)
        } else {
            0
        }) + if f2 != f1 && f2 < upto {
            slot_total(st, node, level, f2, w)
        } else {
            0
        },
    decreases upto,
{
    if upto > 0 {
        let g = (upto - 1) as u32;
        lemma_slots_sparse(st, node, level, f1, f2, g, w);
        if g != f1 && g != f2 {
            assert(slot_of(st, node, g) == Slot::<K, V>::Empty);
            assert(slot_total(st, node, level, g, w) == 0);
        }
    }
}

/// What holds of a new inner node that differs from a well-formed one in at
/// most slot `f0`, in a store that has grown since: it is well-formed if the
/// new slot is in order and its hash field accounts for the change; lookups
/// routed through other slots find what they found; and every total moves by
/// the difference in slot `f0`.
pub proof fn lemma_edit_inner<K: StableHash, V: StableHash>(
    st: StoreView<K, V>,
    later: StoreView<K, V>,
    idx: usize,
    new_idx: usize,
    path: Seq<u32>,
    f0: u32,
)
    requires
        wf_subtree(st, idx, path),
        st.extended_by(later),
        st.nodes[idx as int] is Inner,
        new_idx < later.nodes.len(),
        inner_shape(later, later.nodes[new_idx as int]),
        forall|g: u32|
            g != f0 ==> #[trigger] slot_of(later, later.nodes[new_idx as int], g) == slot_of(
                st,
                st.nodes[idx as int],
                g,
            ),
        slot_ok(later, slot_of(later, later.nodes[new_idx as int], f0), path, f0),
        later.nodes[new_idx as int].adhash_spec() == wrap64(
            subtree_total(st, idx, path.len(), phi_weight()) - slot_total(
                st,
                st.nodes[idx as int],
                path.len(),
                f0,
                phi_weight(),
            ) + slot_total(later, later.nodes[new_idx as int], path.len(), f0, phi_weight()),
        ),
    ensures
        wf_subtree(later, new_idx, path),
        forall|hash: u64, key: K|
            frag_at(hash, path.len()) != f0 ==> #[trigger] lookup(
                later,
                new_idx,
                path.len(),
                hash,
                key,
            ) == lookup(st, idx, path.len(), hash, key),
        forall|w: spec_fn(Entry<K, V>) -> int| #[trigger]
            subtree_total(later, new_idx, path.len(), w) == subtree_total(st, idx, path.len(), w)
                - slot_total(st, st.nodes[idx as int], path.len(), f0, w) + slot_total(
                later,
                later.nodes[new_idx as int],
                path.len(),
                f0,
                w,
            ),
    decreases 14 - path.len(), 0nat,
{
    let node = st.nodes[idx as int];
    let new_node = later.nodes[new_idx as int];
    let level = path.len();
    assert forall|g: u32| g != f0 implies same_slot(st, later, node, new_node, path, g) by {
        let slot = slot_of(st, node, g);
        assert(slot_of(later, new_node, g) == slot);
        assert(slot_ok(st, slot_of(st, st.nodes[idx as int], g), path, g));
        match slot {
            Slot::Child(c) => {
                lemma_frame(st, later, c, path.push(g));
            },
            _ => {},
        }
    }
    assert forall|w: spec_fn(Entry<K, V>) -> int| #[trigger]
        subtree_total(later, new_idx, level, w) == subtree_total(st, idx, level, w) - slot_total(
            st,
            node,
            level,
            f0,
            w,
        ) + slot_total(later, new_node, level, f0, w) by {
        lemma_slots_point(st, later, node, new_node, path, f0, 32, w);
    }
    assert forall|hash: u64, key: K| frag_at(hash, level) != f0 implies #[trigger] lookup(
        later,
        new_idx,
        level,
        hash,
        key,
    ) == lookup(st, idx, level, hash, key) by {
        let g = frag_at(hash, level);
        assert(same_slot(st, later, node, new_node, path, g));
        match slot_of(st, node, g) {
            Slot::Child(c) => {
                assert(same_subtree(st, later, c, path.push(g)));
                assert(path.push(g).len() == level + 1);
                assert(lookup(later, c, path.push(g).len(), hash, key) == lookup(
                    st,
                    c,
                    path.push(g).len(),
                    hash,
                    key,
                ));
            },
            _ => {},
        }
    }
    assert forall|f: u32| slot_ok(later, #[trigger] slot_of(later, new_node, f), path, f) by {
        if f != f0 {
            assert(same_slot(st, later, node, new_node, path, f));
        }
    }
}

/// Slot `g` holds the same in both nodes, and what it holds reads the same
/// in both stores.
pub open spec fn same_slot<K: StableHash, V: StableHash>(
    st: StoreView<K, V>,
    later: StoreView<K, V>,
    node: Node,
    new_node: Node,
    path: Seq<u32>,
    g: u32,
) -> bool {
    &&& slot_of(later, new_node, g) == slot_of(st, node, g)
    &&& slot_ok(later, slot_of(later, new_node, g), path, g)
    &&& match slot_of(st, node, g) {
        Slot::Child(c) => same_subtree(st, later, c, path.push(g)),
        _ => true,
    }
}

/// The slot totals of two inner nodes that hold the same but in slot `f0`.
proof fn lemma_slots_point<K: StableHash, V: StableHash>(
    st: StoreView<K, V>,
    later: StoreView<K, V>,
    node: Node,
    new_node: Node,
    path: Seq<u32>,
    f0: u32,
    upto: u32,
    w: spec_fn(Entry<K, V>) -> int,
)
    requires
        upto <= 32,
        path.len() <= 12,
        forall|g: u32| g != f0 ==> same_slot(st, later, node, new_node, path, g),
    ensures
        slots_total(later, new_node, path.len(), upto, w) == slots_total(
            st,
            node,
            path.len(),
            upto,
            w,
        ) + if f0 < upto {
            slot_total(later, new_node, path.len(), f0, w) - slot_total(
                st,
                node,
                path.len(),
                f0,
                w,
            )
        } else {
            0
        },
    decreases upto,
{
    if upto > 0 {
        let g = (upto - 1) as u32;
        lemma_slots_point(st, later, node, new_node, path, f0, g, w);
        if g != f0 {
            assert(same_slot(st, later, node, new_node, path, g));
            match slot_of(st, node, g) {
                Slot::Child(c) => {
                    assert(path.push(g).len() == path.len() + 1);
                    assert(subtree_total(later, c, path.push(g).len(), w) == subtree_total(
                        st,
                        c,
                        path.push(g).len(),
                        w,
                    ));
                },
                _ => {},
            }
            assert(slot_total(later, new_node, path.len(), g, w) == slot_total(
                st,
                node,
                path.len(),
                g,
                w,
            ));
        }
    }
}

/// The node reached from `root` by taking the child in slot `steps[0]`,
/// then in slot `steps[1]` of that child, and so on: the live nodes of a
/// trie are those that some sequence of steps reaches.
pub open spec fn node_at<K, V>(st: StoreView<K, V>, root: usize, steps: Seq<u32>) -> Option<usize>
    decreases steps.len(),
{
    if steps.len() == 0 {
        Some(root)
    } else {
        match node_at(st, root, steps.drop_last()) {
            Some(parent) => match slot_of(st, st.nodes[parent as int], steps.last()) {
                Slot::Child(c) => Some(c),
                _ => None,
            },
            None => None,
        }
    }
}

/// Every live node of a well-formed trie roots a well-formed subtree, and
/// none but the root is an inner node with one entry and no child.
pub proof fn lemma_live_node<K: StableHash, V: StableHash>(
    st: StoreView<K, V>,
    root: usize,
    steps: Seq<u32>,
)
    requires
        wf_subtree(st, root, Seq::<u32>::empty()),
        node_at(st, root, steps).is_some(),
    ensures
        wf_subtree(st, node_at(st, root, steps).unwrap(), steps),
        steps.len() > 0 ==> !singleton_node(st.nodes[node_at(st, root, steps).unwrap() as int]),
    decreases steps.len(),
{
    if steps.len() > 0 {
        let up = steps.drop_last();
        lemma_live_node(st, root, up);
        let parent = node_at(st, root, up).unwrap();
        let f = steps.last();
        assert(slot_ok(st, slot_of(st, st.nodes[parent as int], f), up, f));
        assert(up.push(f) =~= steps);
    } else {
        assert(steps =~= Seq::<u32>::empty());
    }
}

/// The hash field of a well-formed node is the wrapping sum of the
/// contributions of the entries below it.
pub proof fn lemma_node_hash<K: StableHash, V: StableHash>(
    st: StoreView<K, V>,
    idx: usize,
    path: Seq<u32>,
)
    requires
        wf_subtree(st, idx, path),
    ensures
        st.nodes[idx as int].adhash_spec() == wrap64(
            subtree_total(st, idx, path.len(), phi_weight()),
        ),
{
}

/// The bitmaps of a well-formed inner node are disjoint and not both empty.
pub proof fn lemma_inner_bitmaps<K: StableHash, V: StableHash>(
    st: StoreView<K, V>,
    idx: usize,
    path: Seq<u32>,
)
    requires
        wf_subtree(st, idx, path),
        st.nodes[idx as int] is Inner,
    ensures
        st.nodes[idx as int]->data_map & st.nodes[idx as int]->node_map == 0,
        st.nodes[idx as int]->data_map != 0 || st.nodes[idx as int]->node_map != 0,
        path.len() <= 12,
{
}

/// A well-formed collision node holds two or more entries, all with the
/// hash of the node and with keys that differ, and sits below the last
/// level.
pub proof fn lemma_collision_entries<K: StableHash, V: StableHash>(
    st: StoreView<K, V>,
    idx: usize,
    path: Seq<u32>,
)
    requires
        wf_subtree(st, idx, path),
        st.nodes[idx as int] is Collision,
    ensures
        st.nodes[idx as int]->entries_len >= 2,
        path.len() == 13,
        forall|j: int|
            0 <= j < st.nodes[idx as int]->entries_len ==> (#[trigger] st.entries[st.nodes[idx as int]->entries_start
                + j]).hash == st.nodes[idx as int]->hash,
        distinct_keys(
            block_of(
                st,
                st.nodes[idx as int]->entries_start,
                st.nodes[idx as int]->entries_len as nat,
            ),
        ),
{
    let node = st.nodes[idx as int];
    let block = block_of(st, node->entries_start, node->entries_len as nat);
    assert forall|j: int| 0 <= j < node->entries_len implies (#[trigger] st.entries[node->entries_start
        + j]).hash == node->hash by {
        assert(block[j] == st.entries[node->entries_start + j]);
    }
}

/// The entries below the node at `idx` whose hash is `hash`, in the order
/// of their storage: the one inline entry that the hash leads to, or the
/// entries of the collision node that it leads to, or none.
pub open spec fn hash_run<K, V>(st: StoreView<K, V>, idx: usize, level: nat, hash: u64) -> Seq<
    Entry<K, V>,
>
    decreases 14 - level,
{
    if idx >= st.nodes.len() {
        Seq::empty()
    } else {
        match st.nodes[idx as int] {
            Node::Inner { .. } => {
                if level > 12 {
                    Seq::empty()
                } else {
                    slot_run(st, slot_of(st, st.nodes[idx as int], frag_at(hash, level)), level, hash)
                }
            },
            Node::Collision { hash: shared, entries_start, entries_len, .. } => {
                if shared == hash {
                    block_of(st, entries_start, entries_len as nat)
                } else {
                    Seq::empty()
                }
            },
        }
    }
}

/// The entries with the hash `hash` in or below a slot of a node at `level`.
pub open spec fn slot_run<K, V>(st: StoreView<K, V>, slot: Slot<K, V>, level: nat, hash: u64) -> Seq<
    Entry<K, V>,
>
    decreases 14 - level, 0nat,
{
    match slot {
        Slot::Data(e) => run_of_one(e, hash),
        Slot::Child(c) => if level <= 12 {
            hash_run(st, c, level + 1, hash)
        } else {
            Seq::empty()
        },
        Slot::Empty => Seq::empty(),
    }
}

/// The entry alone, if its hash is `hash`; nothing otherwise.
pub open spec fn run_of_one<K, V>(e: Entry<K, V>, hash: u64) -> Seq<Entry<K, V>> {
    if e.hash == hash {
        seq![e]
    } else {
        Seq::empty()
    }
}

/// A run of entries after an insert of `entry`: the entry in the place of
/// the one with its key, or, where the key is new, after all the others.
pub open spec fn run_put<K, V>(run: Seq<Entry<K, V>>, entry: Entry<K, V>) -> Seq<Entry<K, V>> {
    if block_has(run, entry.key) {
        run.update(block_pos(run, entry.key), entry)
    } else {
        run.push(entry)
    }
}

/// A run of entries after the removal of `key`: the others, in their order.
pub open spec fn run_take<K, V>(run: Seq<Entry<K, V>>, key: K) -> Seq<Entry<K, V>> {
    if block_has(run, key) {
        run.remove(block_pos(run, key))
    } else {
        run
    }
}

/// Putting into and taking from a run of one entry or none.
pub proof fn lemma_short_runs<K, V>(e: Entry<K, V>, entry: Entry<K, V>)
    ensures
        run_put(Seq::<Entry<K, V>>::empty(), entry) == seq![entry],
        e.key == entry.key ==> run_put(seq![e], entry) == seq![entry],
        e.key != entry.key ==> run_put(seq![e], entry) == seq![e, entry],
        run_take(seq![e], e.key) == Seq::<Entry<K, V>>::empty(),
        e.key != entry.key ==> run_take(seq![e], entry.key) == seq![e],
        run_take(Seq::<Entry<K, V>>::empty(), entry.key) == Seq::<Entry<K, V>>::empty(),
        e.key != entry.key ==> run_take(seq![e, entry], e.key) == seq![entry] && run_take(
            seq![e, entry],
            entry.key,
        ) == seq![e],
{
    let one = seq![e];
    let two = seq![e, entry];
    assert(!block_has(Seq::<Entry<K, V>>::empty(), entry.key));
    assert(run_put(Seq::<Entry<K, V>>::empty(), entry) =~= seq![entry]);
    assert(one[0].key == e.key);
    assert(block_has(one, e.key));
    assert(block_pos(one, e.key) == 0);
    assert(run_take(one, e.key) =~= Seq::<Entry<K, V>>::empty());
    if e.key == entry.key {
        assert(run_put(one, entry) =~= seq![entry]);
    } else {
        assert(!block_has(one, entry.key));
        assert(run_put(one, entry) =~= seq![e, entry]);
        assert(two[0].key == e.key && two[1].key == entry.key);
        assert(block_has(two, e.key) && block_has(two, entry.key));
        assert(block_pos(two, e.key) == 0);
        assert(block_pos(two, entry.key) == 1);
        assert(run_take(two, e.key) =~= seq![entry]);
        assert(run_take(two, entry.key) =~= seq![e]);
    }
}

/// The run of a hash below a well-formed node reads the same after the
/// store has grown.
pub proof fn lemma_frame_run<K: StableHash, V: StableHash>(
    st: StoreView<K, V>,
    later: StoreView<K, V>,
    idx: usize,
    path: Seq<u32>,
    hash: u64,
)
    requires
        wf_subtree(st, idx, path),
        st.extended_by(later),
    ensures
        hash_run(later, idx, path.len(), hash) == hash_run(st, idx, path.len(), hash),
    decreases 14 - path.len(),
{
    let node = st.nodes[idx as int];
    let level = path.len();
    assert(later.nodes[idx as int] == node);
    match node {
        Node::Inner { .. } => {
            let f = frag_at(hash, level);
            lemma_frame_slot(st, later, node, f);
            assert(slot_ok(st, slot_of(st, node, f), path, f));
            match slot_of(st, node, f) {
                Slot::Child(c) => {
                    assert(path.push(f).len() == level + 1);
                    lemma_frame_run(st, later, c, path.push(f), hash);
                },
                _ => {},
            }
        },
        Node::Collision { hash: shared, entries_start, entries_len, .. } => {
            assert(block_of(later, entries_start, entries_len as nat) =~= block_of(
                st,
                entries_start,
                entries_len as nat,
            ));
        },
    }
}

/// The runs below a new inner node that differs from a well-formed one in at
/// most slot `f0`: those of the hashes that other slots take are what they
/// were.
pub proof fn lemma_edit_run<K: StableHash, V: StableHash>(
    st: StoreView<K, V>,
    later: StoreView<K, V>,
    idx: usize,
    new_idx: usize,
    path: Seq<u32>,
    f0: u32,
)
    requires
        wf_subtree(st, idx, path),
        st.extended_by(later),
        st.nodes[idx as int] is Inner,
        new_idx < later.nodes.len(),
        later.nodes[new_idx as int] is Inner,
        forall|g: u32|
            g != f0 ==> #[trigger] slot_of(later, later.nodes[new_idx as int], g) == slot_of(
                st,
                st.nodes[idx as int],
                g,
            ),
    ensures
        path.len() <= 12,
        forall|hash: u64| #[trigger]
            hash_run(later, new_idx, path.len(), hash) == if frag_at(hash, path.len()) == f0 {
                slot_run(later, slot_of(later, later.nodes[new_idx as int], f0), path.len(), hash)
            } else {
                hash_run(st, idx, path.len(), hash)
            },
        forall|hash: u64| #[trigger]
            hash_run(st, idx, path.len(), hash) == slot_run(
                st,
                slot_of(st, st.nodes[idx as int], frag_at(hash, path.len())),
                path.len(),
                hash,
            ),
{
    let node = st.nodes[idx as int];
    let new_node = later.nodes[new_idx as int];
    let level = path.len();
    assert forall|hash: u64| #[trigger]
        hash_run(later, new_idx, level, hash) == if frag_at(hash, level) == f0 {
            slot_run(later, slot_of(later, new_node, f0), level, hash)
        } else {
            hash_run(st, idx, level, hash)
        } by {
        let g = frag_at(hash, level);
        if g != f0 {
            assert(slot_of(later, new_node, g) == slot_of(st, node, g));
            assert(slot_ok(st, slot_of(st, node, g), path, g));
            match slot_of(st, node, g) {
                Slot::Child(c) => {
                    assert(path.push(g).len() == level + 1);
                    lemma_frame_run(st, later, c, path.push(g), hash);
                },
                _ => {},
            }
        }
    }
}

/// A key is in the run of a hash exactly if the lookup of hash and key
/// finds it.
pub proof fn lemma_run_has<K: StableHash, V: StableHash>(
    st: StoreView<K, V>,
    idx: usize,
    path: Seq<u32>,
    hash: u64,
    key: K,
)
    requires
        wf_subtree(st, idx, path),
    ensures
        block_has(hash_run(st, idx, path.len(), hash), key) <==> lookup(
            st,
            idx,
            path.len(),
            hash,
            key,
        ).is_some(),
    decreases 14 - path.len(),
{
    let node = st.nodes[idx as int];
    let level = path.len();
    match node {
        Node::Inner { .. } => {
            let f = frag_at(hash, level);
            assert(slot_ok(st, slot_of(st, node, f), path, f));
            match slot_of(st, node, f) {
                Slot::Child(c) => {
                    assert(path.push(f).len() == level + 1);
                    lemma_run_has(st, c, path.push(f), hash, key);
                },
                Slot::Data(e) => {
                    let run = run_of_one(e, hash);
                    if e.hash == hash {
                        assert(run[0] == e);
                        if e.key == key {
                            assert(block_has(run, key));
                        }
                    }
                },
                Slot::Empty => {},
            }
        },
        Node::Collision { .. } => {},
    }
}

} // verus!
