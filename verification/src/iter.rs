//! Traversal of the live entries: depth first, the inline entries of a node
//! before its children, both in slot order.
use crate::adhash::StableHash;
use crate::node::{has_bit, lemma_index_is_rank, lemma_select, offset, popcount, rank, Entry, Node};
use crate::store::{ChampStore, StoreView};
use crate::trie::{
    block_of, child_at, data_block, kid_block, slot_of, slot_ok, slots_total, subtree_total,
    unit_weight, wf_subtree, Slot,
};
use vstd::prelude::*;

verus! {

/// The pairs of a block of entries, in order.
pub open spec fn block_pairs<K, V>(block: Seq<Entry<K, V>>) -> Seq<(K, V)> {
    block.map_values(|e: Entry<K, V>| (e.key, e.value))
}

/// The pairs below the node at `idx`, in traversal order.
pub open spec fn subtree_pairs<K, V>(st: StoreView<K, V>, idx: usize, level: nat) -> Seq<(K, V)>
    decreases 14 - level, 1nat, 0nat,
{
    if idx >= st.nodes.len() {
        Seq::empty()
    } else {
        match st.nodes[idx as int] {
            Node::Inner { node_map, .. } => {
                if level > 12 {
                    Seq::empty()
                } else {
                    block_pairs(data_block(st, st.nodes[idx as int])) + kids_pairs(
                        st,
                        st.nodes[idx as int],
                        level,
                        popcount(node_map),
                    )
                }
            },
            Node::Collision { entries_start, entries_len, .. } => block_pairs(
                block_of(st, entries_start, entries_len as nat),
            ),
        }
    }
}

/// The pairs below the first `upto` children of an inner node.
pub open spec fn kids_pairs<K, V>(st: StoreView<K, V>, node: Node, level: nat, upto: nat) -> Seq<
    (K, V),
>
    decreases 14 - level, 0nat, upto,
{
    if upto == 0 || level > 12 {
        Seq::empty()
    } else {
        kids_pairs(st, node, level, (upto - 1) as nat) + subtree_pairs(
            st,
            kid_block(st, node)[upto - 1],
            level + 1,
        )
    }
}

/// The pairs of the whole trie, in traversal order.
pub open spec fn trie_pairs<K, V>(st: StoreView<K, V>, root: Option<usize>) -> Seq<(K, V)> {
    match root {
        None => Seq::empty(),
        Some(r) => subtree_pairs(st, r, 0),
    }
}

/// The pairs that a sequence of borrowed pairs refers to.
pub open spec fn pairs_of<K, V>(refs: Seq<(&K, &V)>) -> Seq<(K, V)> {
    refs.map_values(|p: (&K, &V)| (*p.0, *p.1))
}

/// Sum of a weight over a sequence of pairs.
pub open spec fn seq_total<K, V>(pairs: Seq<(K, V)>, w: spec_fn((K, V)) -> int) -> int
    decreases pairs.len(),
{
    if pairs.len() == 0 {
        0
    } else {
        seq_total(pairs.drop_last(), w) + w(pairs.last())
    }
}

/// How often a pair occurs in a sequence of pairs.
pub open spec fn occurrences<K, V>(pairs: Seq<(K, V)>, pair: (K, V)) -> int {
    seq_total(pairs, is_pair(pair))
}

/// The weight that is one on `pair` and zero on every other pair.
pub open spec fn is_pair<K, V>(pair: (K, V)) -> spec_fn((K, V)) -> int {
    |p: (K, V)|
        if p == pair {
            1int
        } else {
            0int
        }
}

/// A weight on pairs as a weight on entries.
pub open spec fn on_entries<K, V>(w: spec_fn((K, V)) -> int) -> spec_fn(Entry<K, V>) -> int {
    |e: Entry<K, V>| w((e.key, e.value))
}

/// The total over two sequences, one after the other.
pub proof fn lemma_seq_total_add<K, V>(a: Seq<(K, V)>, b: Seq<(K, V)>, w: spec_fn((K, V)) -> int)
    ensures
        seq_total(a + b, w) == seq_total(a, w) + seq_total(b, w),
    decreases b.len(),
{
    if b.len() == 0 {
        assert(a + b =~= a);
    } else {
        assert((a + b).drop_last() =~= a + b.drop_last());
        lemma_seq_total_add(a, b.drop_last(), w);
    }
}

/// The total over the pairs of a block is the total over its entries.
pub proof fn lemma_block_pairs_total<K, V>(block: Seq<Entry<K, V>>, w: spec_fn((K, V)) -> int)
    ensures
        seq_total(block_pairs(block), w) == crate::trie::block_total(block, on_entries(w)),
    decreases block.len(),
{
    if block.len() > 0 {
        assert(block_pairs(block).drop_last() =~= block_pairs(block.drop_last()));
        lemma_block_pairs_total(block.drop_last(), w);
    }
}

/// The unit weight counts the pairs.
pub proof fn lemma_seq_total_len<K, V>(pairs: Seq<(K, V)>)
    ensures
        seq_total(pairs, |p: (K, V)| 1int) == pairs.len(),
    decreases pairs.len(),
{
    if pairs.len() > 0 {
        lemma_seq_total_len(pairs.drop_last());
    }
}

/// Every total over the traversal of a well-formed subtree is the total
/// over the entries of the subtree: the traversal visits each entry once.
pub proof fn lemma_pairs_total<K: StableHash, V: StableHash>(
    st: StoreView<K, V>,
    idx: usize,
    path: Seq<u32>,
    w: spec_fn((K, V)) -> int,
)
    requires
        wf_subtree(st, idx, path),
    ensures
        seq_total(subtree_pairs(st, idx, path.len()), w) == subtree_total(
            st,
            idx,
            path.len(),
            on_entries(w),
        ),
    decreases 14 - path.len(), 34nat,
{
    let node = st.nodes[idx as int];
    match node {
        Node::Inner { data_map, node_map, .. } => {
            lemma_slots_pairs(st, idx, path, 32, w);
            assert(data_block(st, node).take(popcount(data_map) as int) =~= data_block(st, node));
            lemma_seq_total_add(
                block_pairs(data_block(st, node)),
                kids_pairs(st, node, path.len(), popcount(node_map)),
                w,
            );
        },
        Node::Collision { entries_start, entries_len, .. } => {
            lemma_block_pairs_total(block_of(st, entries_start, entries_len as nat), w);
        },
    }
}

/// Up to slot `upto`, the total over the entries of an inner node is the
/// total over its inline entries and the pairs below its children so far.
proof fn lemma_slots_pairs<K: StableHash, V: StableHash>(
    st: StoreView<K, V>,
    idx: usize,
    path: Seq<u32>,
    upto: u32,
    w: spec_fn((K, V)) -> int,
)
    requires
        wf_subtree(st, idx, path),
        st.nodes[idx as int] is Inner,
        upto <= 32,
    ensures
        slots_total(st, st.nodes[idx as int], path.len(), upto, on_entries(w)) == seq_total(
            block_pairs(
                data_block(st, st.nodes[idx as int]).take(
                    rank(st.nodes[idx as int]->data_map, upto) as int,
                ),
            ),
            w,
        ) + seq_total(
            kids_pairs(
                st,
                st.nodes[idx as int],
                path.len(),
                rank(st.nodes[idx as int]->node_map, upto),
            ),
            w,
        ),
    decreases 14 - path.len(), upto,
{
    let node = st.nodes[idx as int];
    let block = data_block(st, node);
    let level = path.len();
    let we = on_entries(w);
    if upto > 0 {
        let f = (upto - 1) as u32;
        lemma_slots_pairs(st, idx, path, f, w);
        crate::node::lemma_disjoint_edits(node->data_map, node->node_map, f);
        assert(slot_ok(st, slot_of(st, node, f), path, f));
        if has_bit(node->node_map, f) {
            let c = child_at(st, node, f);
            let r = rank(node->node_map, f);
            lemma_index_is_rank(node->node_map, f);
            assert(kid_block(st, node)[r as int] == c);
            lemma_pairs_total(st, c, path.push(f), w);
            assert(path.push(f).len() == level + 1);
            assert(slot_of(st, node, f) == Slot::<K, V>::Child(c));
            assert(crate::trie::slot_total(st, node, level, f, we) == subtree_total(
                st,
                c,
                level + 1,
                we,
            ));
            assert(rank(node->node_map, upto) == r + 1);
            assert(kids_pairs(st, node, level, r + 1) == kids_pairs(st, node, level, r)
                + subtree_pairs(st, c, level + 1));
            lemma_seq_total_add(
                kids_pairs(st, node, level, r),
                subtree_pairs(st, c, level + 1),
                w,
            );
        } else if has_bit(node->data_map, f) {
            let r = rank(node->data_map, f);
            lemma_index_is_rank(node->data_map, f);
            let e = crate::trie::data_at(st, node, f);
            assert(block[r as int] == e);
            assert(crate::trie::slot_total(st, node, level, f, we) == w((e.key, e.value)));
            assert(block_pairs(block.take((r + 1) as int)).drop_last() =~= block_pairs(
                block.take(r as int),
            ));
            assert(block_pairs(block.take((r + 1) as int)).last() == (e.key, e.value));
        } else {
            assert(crate::trie::slot_total(st, node, level, f, we) == 0);
        }
    } else {
        assert(block_pairs(block.take(0)) =~= Seq::<(K, V)>::empty());
    }
}

/// The traversal of a well-formed subtree has as many pairs as the subtree
/// has entries.
pub proof fn lemma_pairs_len<K: StableHash, V: StableHash>(
    st: StoreView<K, V>,
    idx: usize,
    path: Seq<u32>,
)
    requires
        wf_subtree(st, idx, path),
    ensures
        subtree_pairs(st, idx, path.len()).len() == subtree_total(
            st,
            idx,
            path.len(),
            unit_weight(),
        ),
{
    let one = |p: (K, V)| 1int;
    lemma_pairs_total(st, idx, path, one);
    lemma_seq_total_len(subtree_pairs(st, idx, path.len()));
    lemma_same_weight(st, idx, path.len(), on_entries(one), unit_weight());
}

/// A well-formed subtree that is not a lone entry holds two entries or
/// more.
pub proof fn lemma_at_least_two<K: StableHash, V: StableHash>(
    st: StoreView<K, V>,
    idx: usize,
    path: Seq<u32>,
)
    requires
        wf_subtree(st, idx, path),
        !crate::trie::singleton_node(st.nodes[idx as int]),
    ensures
        subtree_total(st, idx, path.len(), unit_weight()) >= 2,
    decreases 14 - path.len(),
{
    let node = st.nodes[idx as int];
    let level = path.len();
    lemma_pairs_len(st, idx, path);
    match node {
        Node::Inner { data_map, node_map, .. } => {
            crate::node::lemma_popcount_zero(data_map);
            crate::node::lemma_popcount_zero(node_map);
            if node_map != 0 {
                let last = (popcount(node_map) - 1) as nat;
                let f = lemma_select(node_map, last, 32);
                let c = child_at(st, node, f);
                lemma_index_is_rank(node_map, f);
                crate::node::lemma_disjoint_edits(data_map, node_map, f);
                assert(slot_of(st, node, f) == Slot::<K, V>::Child(c));
                assert(slot_ok(st, slot_of(st, node, f), path, f));
                assert(kid_block(st, node)[last as int] == c);
                assert(path.push(f).len() == level + 1);
                lemma_at_least_two(st, c, path.push(f));
                lemma_pairs_len(st, c, path.push(f));
                assert(kids_pairs(st, node, level, popcount(node_map)) == kids_pairs(
                    st,
                    node,
                    level,
                    last,
                ) + subtree_pairs(st, c, level + 1));
            }
        },
        Node::Collision { .. } => {},
    }
}

/// Weights that agree on every entry have the same totals.
pub proof fn lemma_same_weight<K, V>(
    st: StoreView<K, V>,
    idx: usize,
    level: nat,
    w1: spec_fn(Entry<K, V>) -> int,
    w2: spec_fn(Entry<K, V>) -> int,
)
    requires
        forall|e: Entry<K, V>| #[trigger] w1(e) == w2(e),
    ensures
        subtree_total(st, idx, level, w1) == subtree_total(st, idx, level, w2),
{
    assert(w1 =~= w2);
}

/// Iterator over the pairs of a map: it holds them all from the start, in
/// traversal order, and hands them out one by one.
pub struct Iter<'a, K, V> {
    entries: Vec<(&'a K, &'a V)>,
    pos: usize,
}

impl<'a, K, V> Iter<'a, K, V> {
    /// The pairs not yet handed out.
    pub closed spec fn remaining(&self) -> Seq<(K, V)> {
        pairs_of(self.entries@).skip(self.pos as int)
    }

    /// Whether the position lies within the pairs.
    pub closed spec fn wf(&self) -> bool {
        self.pos <= self.entries@.len()
    }

    /// Creates an iterator over the pairs of the trie below `root`.
    pub fn new<S: ChampStore<K, V>>(store: &'a S, root: Option<usize>) -> (iter: Self) where
        K: StableHash,
        V: StableHash,

        requires
            store@.fits(),
            root matches Some(r) ==> wf_subtree(store@, r, Seq::<u32>::empty()),
        ensures
            iter.wf(),
            iter.remaining() == trie_pairs(store@, root),
    {
        let mut entries = Vec::new();
        if let Some(idx) = root {
            collect(store, idx, &mut entries, Ghost(Seq::empty()));
        }
        proof {
            assert(pairs_of(Seq::<(&K, &V)>::empty()) =~= Seq::<(K, V)>::empty());
            assert(pairs_of(entries@).skip(0) =~= pairs_of(entries@));
        }
        Iter { entries, pos: 0 }
    }

    /// Hands out the next pair, or `None` when all have been handed out.
    pub fn next(&mut self) -> (item: Option<(&'a K, &'a V)>)
        requires
            old(self).wf(),
        ensures
            final(self).wf(),
            match item {
                Some(p) => old(self).remaining().len() > 0 && (*p.0, *p.1) == old(
                    self,
                ).remaining()[0] && final(self).remaining() == old(self).remaining().skip(1),
                None => old(self).remaining().len() == 0 && final(self).remaining() == old(
                    self,
                ).remaining(),
            },
    {
        if self.pos < self.entries.len() {
            let item = self.entries[self.pos];
            self.pos += 1;
            proof {
                assert(final(self).remaining() =~= old(self).remaining().skip(1));
            }
            Some(item)
        } else {
            None
        }
    }

    /// The number of pairs not yet handed out, as lower and upper bound.
    pub fn size_hint(&self) -> (bounds: (usize, Option<usize>))
        requires
            self.wf(),
        ensures
            bounds.0 == self.remaining().len(),
            bounds.1 == Some(bounds.0),
    {
        let remaining = self.entries.len() - self.pos;
        (remaining, Some(remaining))
    }
}

/// Appends the pairs below `node_idx`, in traversal order, to `out`.
#[verifier::loop_isolation(false)]
fn collect<'a, K, V, S: ChampStore<K, V>>(
    store: &'a S,
    node_idx: usize,
    out: &mut Vec<(&'a K, &'a V)>,
    Ghost(path): Ghost<Seq<u32>>,
) where K: StableHash, V: StableHash
    requires
        store@.fits(),
        wf_subtree(store@, node_idx, path),
    ensures
        pairs_of(final(out)@) == pairs_of(old(out)@) + subtree_pairs(
            store@,
            node_idx,
            path.len(),
        ),
    decreases 14 - path.len(),
{
    let ghost st = store@;
    let ghost node = st.nodes[node_idx as int];
    let ghost level = path.len();
    let ghost before = pairs_of(out@);
    match *store.get_node(node_idx) {
        Node::Inner { data_map, node_map, data_start, children_start, .. } => {
            proof {
                crate::node::lemma_rank_bound(data_map, 32);
                crate::node::lemma_rank_bound(node_map, 32);
            }
            let data_len = data_map.count_ones() as usize;
            let children_len = node_map.count_ones() as usize;
            let ghost block = data_block(st, node);
            let mut i: usize = 0;
            while i < data_len
                invariant
                    i <= data_len,
                    pairs_of(out@) == before + block_pairs(block.take(i as int)),
                decreases data_len - i,
            {
                let e = store.get_entry(offset(data_start, i));
                let ghost prev = out@;
                out.push((&e.key, &e.value));
                proof {
                    assert(*e == block[i as int]);
                    assert(pairs_of(out@) =~= pairs_of(prev).push((e.key, e.value)));
                    assert(block_pairs(block.take(i + 1)) =~= block_pairs(
                        block.take(i as int),
                    ).push((e.key, e.value)));
                }
                i += 1;
            }
            proof {
                assert(block.take(data_len as int) =~= block);
            }
            let mut j: usize = 0;
            while j < children_len
                invariant
                    j <= children_len,
                    pairs_of(out@) == before + block_pairs(block) + kids_pairs(
                        st,
                        node,
                        level,
                        j as nat,
                    ),
                decreases children_len - j,
            {
                let child = store.get_child(offset(children_start, j));
                let ghost f = lemma_select(node_map, j as nat, 32);
                proof {
                    assert(slot_ok(st, slot_of(st, node, f), path, f));
                    crate::node::lemma_disjoint_edits(data_map, node_map, f);
                    assert(child == child_at(st, node, f));
                    assert(child == kid_block(st, node)[j as int]);
                    assert(path.push(f).len() == level + 1);
                }
                let ghost mid = pairs_of(out@);
                collect(store, child, out, Ghost(path.push(f)));
                proof {
                    assert(pairs_of(out@) =~= before + block_pairs(block) + kids_pairs(
                        st,
                        node,
                        level,
                        (j + 1) as nat,
                    ));
                }
                j += 1;
            }
            proof {
                assert(pairs_of(out@) =~= before + subtree_pairs(st, node_idx, level));
            }
        },
        Node::Collision { entries_start, entries_len, .. } => {
            let len = entries_len as usize;
            let ghost block = block_of(st, entries_start, entries_len as nat);
            let mut i: usize = 0;
            while i < len
                invariant
                    i <= len,
                    pairs_of(out@) == before + block_pairs(block.take(i as int)),
                decreases len - i,
            {
                let e = store.get_entry(offset(entries_start, i));
                let ghost prev = out@;
                out.push((&e.key, &e.value));
                proof {
                    assert(*e == block[i as int]);
                    assert(pairs_of(out@) =~= pairs_of(prev).push((e.key, e.value)));
                    assert(block_pairs(block.take(i + 1)) =~= block_pairs(
                        block.take(i as int),
                    ).push((e.key, e.value)));
                }
                i += 1;
            }
            proof {
                assert(block.take(len as int) =~= block);
            }
        },
    }
}

} // verus!
