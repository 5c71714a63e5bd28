//! The map for a single writer.
use crate::ChampCheckpoint;
use crate::adhash::{entry_adhash, hash_one, map_phi, StableHash};
use crate::arena::ChampArena;
use crate::iter::{lemma_pairs_len, occurrences, trie_pairs, Iter};
use crate::node::{fragment, mask, Entry, Node};
use crate::ops::get::{get_recursive, same_value};
use crate::ops::insert::{alloc_bound, insert_fits_recursive, insert_recursive, type_model};
use crate::ops::remove::{remove_recursive, RemoveOutcome};
use crate::state::{
    hashes_differ, lemma_state_canonical, lemma_state_empty, lemma_state_first,
    lemma_state_first_runs, lemma_state_fits, lemma_state_insert, lemma_state_insert_runs,
    lemma_state_pairs, lemma_state_remove, lemma_state_remove_runs, map_takes, runs_after_put,
    runs_after_take, trie_insert_growth, trie_remove_growth, trie_run, trie_view, trie_wf,
};
use crate::store::{ChampStore, Growth, StoreView};
use vstd::prelude::*;

verus! {

/// Most items that one mutation adds to any one arena.
pub const MUTATION_ROOM: usize = 1376;

/// The map `m` after inserting `pairs` in order.
pub open spec fn insert_all<K, V>(m: Map<K, V>, pairs: Seq<(K, V)>) -> Map<K, V>
    decreases pairs.len(),
{
    if pairs.len() == 0 {
        m
    } else {
        insert_all(m, pairs.drop_last()).insert(pairs.last().0, pairs.last().1)
    }
}

/// Persistent hash map on a CHAMP trie, for a single writer.
///
/// The same set of key-value pairs always gives the same trie, whatever the
/// order of the operations that built it, and with it the same structural
/// hash.
pub struct ChampMap<K, V> {
    store: ChampArena<K, V>,
    root: Option<usize>,
    size: usize,
    adhash: u64,
}

impl<K: StableHash, V> View for ChampMap<K, V> {
    type V = Map<K, V>;

    /// The finite map that the trie stands for.
    open spec fn view(&self) -> Map<K, V> {
        trie_view(self.arena(), self.root_spec())
    }
}

impl<K, V> ChampMap<K, V> {
    /// The contents of the arenas, dead copies included.
    pub closed spec fn arena(&self) -> StoreView<K, V> {
        self.store@
    }

    /// The index of the root node, if the map is not empty.
    pub closed spec fn root_spec(&self) -> Option<usize> {
        self.root
    }

    /// The number of pairs.
    pub closed spec fn len_spec(&self) -> usize {
        self.size
    }

    /// The structural hash.
    pub closed spec fn adhash_spec(&self) -> u64 {
        self.adhash
    }

    /// Most items that each arena can hold.
    pub closed spec fn limit_spec(&self) -> nat {
        self.store.limit()
    }
}

impl<K: StableHash, V: StableHash> ChampMap<K, V> {
    /// Whether the map is in good order; every operation keeps it so.
    pub open spec fn wf(&self) -> bool {
        &&& trie_wf(self.arena(), self.root_spec(), self.len_spec(), self.adhash_spec())
        &&& self.limit_spec() == usize::MAX
    }

    /// The checkpoint that would be taken now.
    pub open spec fn mark(&self) -> ChampCheckpoint {
        ChampCheckpoint {
            store: self.arena().mark(),
            root: self.root_spec(),
            size: self.len_spec(),
            adhash: self.adhash_spec(),
        }
    }

    /// Whether the arenas can take what one mutation allocates, and the size
    /// one more pair.
    pub open spec fn has_room(&self) -> bool {
        &&& self.arena().has_room(self.limit_spec(), alloc_bound(0))
        &&& self.len_spec() < usize::MAX
    }

    /// Whether `key` can be inserted: the map holds it already, or holds
    /// fewer than 255 keys that share all 64 bits of its hash.
    pub open spec fn takes(&self, key: K) -> bool {
        map_takes(self@, key)
    }

    /// The entries whose hash is `hash`, in the order of their storage: where
    /// several keys share all 64 bits of a hash, the order in which they
    /// came, which is the order in which the traversal yields them.
    pub open spec fn same_hash_run(&self, hash: u64) -> Seq<Entry<K, V>> {
        trie_run(self.arena(), self.root_spec(), hash)
    }

    /// What an insert of `key` adds to the arenas.
    pub open spec fn insert_growth(&self, key: K) -> Growth {
        trie_insert_growth(self.arena(), self.root_spec(), key)
    }

    /// What a removal of `key` adds to the arenas.
    pub open spec fn remove_growth(&self, key: K) -> Growth {
        trie_remove_growth(self.arena(), self.root_spec(), key)
    }

    /// Whether `cp` was taken from this map, or from an earlier state of it
    /// that it has only grown from: cut back to `cp`, the map is in good
    /// order.
    pub open spec fn admits(&self, cp: ChampCheckpoint) -> bool {
        &&& self.arena().covers(cp.store)
        &&& trie_wf(self.arena().truncated(cp.store), cp.root, cp.size, cp.adhash)
    }

    /// The pairs of the map in the order of traversal: depth first, the
    /// inline entries of a node before its children, both in slot order.
    pub open spec fn pairs(&self) -> Seq<(K, V)> {
        trie_pairs(self.arena(), self.root_spec())
    }

    /// The traversal has as many pairs as the map.
    pub proof fn lemma_pairs(&self)
        requires
            self.wf(),
        ensures
            self.pairs().len() == self@.len(),
    {
        match self.root {
            None => {},
            Some(r) => {
                lemma_pairs_len(self.store@, r, Seq::<u32>::empty());
            },
        }
    }

    /// Among the pairs of the traversal, those whose key has the hash `hash`
    /// are the entries of the run of that hash, in its order: keys that
    /// share a hash are traversed in the order in which they came.
    pub proof fn lemma_run_in_traversal(&self, hash: u64)
        requires
            self.wf(),
        ensures
            crate::order::with_hash(self.pairs(), hash) == crate::iter::block_pairs(
                self.same_hash_run(hash),
            ),
    {
        match self.root {
            None => {
                assert(crate::iter::block_pairs(Seq::<Entry<K, V>>::empty()) =~= Seq::<
                    (K, V),
                >::empty());
            },
            Some(r) => {
                crate::order::lemma_run_in_order(self.store@, r, Seq::<u32>::empty(), hash);
            },
        }
    }

    /// The traversal holds every pair of the map once, and no other pair.
    pub proof fn lemma_each_pair_once(&self, key: K, value: V)
        requires
            self.wf(),
        ensures
            occurrences(self.pairs(), (key, value)) == if self@.contains_key(key) && self@[key]
                == value {
                1int
            } else {
                0int
            },
    {
        lemma_state_pairs(self.store@, self.root, self.size, self.adhash, key, value);
    }

    /// A map in good order has the length of the map it stands for and the
    /// structural hash of its pairs.
    pub proof fn lemma_wf(&self)
        requires
            self.wf(),
        ensures
            self@.dom().finite(),
            self.len_spec() == self@.len(),
            self.adhash_spec() == map_phi(self@),
    {
    }

    /// Creates an empty map.
    pub fn new() -> (map: Self)
        ensures
            map.wf(),
            map@ == Map::<K, V>::empty(),
            map.len_spec() == 0,
            map.adhash_spec() == 0,
            map.root_spec().is_none(),
            map.arena().nodes.len() == 0,
            map.arena().entries.len() == 0,
            map.arena().children.len() == 0,
    {
        let map = ChampMap { store: ChampArena::new(), root: None, size: 0, adhash: 0 };
        proof {
            lemma_state_empty(map.store@);
        }
        map
    }

    /// Returns the number of key-value pairs.
    pub fn len(&self) -> (n: usize)
        requires
            self.wf(),
        ensures
            n == self@.len(),
            n == self.len_spec(),
    {
        self.size
    }

    /// Returns `true` if the map holds no pair.
    pub fn is_empty(&self) -> (empty: bool)
        requires
            self.wf(),
        ensures
            empty == (self@.len() == 0),
    {
        self.size == 0
    }

    /// Returns the structural hash: the wrapping sum of the contributions of
    /// the pairs.
    pub fn adhash(&self) -> (h: u64)
        requires
            self.wf(),
        ensures
            h == map_phi(self@),
            h == self.adhash_spec(),
    {
        self.adhash
    }

    /// Saves the current map state for a later rollback.
    pub fn checkpoint(&self) -> (cp: ChampCheckpoint)
        requires
            self.wf(),
        ensures
            cp == self.mark(),
            self.admits(cp),
    {
        let cp = ChampCheckpoint {
            store: self.store.checkpoint(),
            root: self.root,
            size: self.size,
            adhash: self.adhash,
        };
        proof {
            let st = self.store@;
            assert(st.truncated(cp.store).nodes =~= st.nodes);
            assert(st.truncated(cp.store).entries =~= st.entries);
            assert(st.truncated(cp.store).children =~= st.children);
        }
        cp
    }

    /// Returns the number of items in each arena: `(nodes, entries,
    /// children)`. Copies that no live node refers to are counted.
    pub fn arena_len(&self) -> (lens: (usize, usize, usize))
        ensures
            lens.0 == self.arena().nodes.len(),
            lens.1 == self.arena().entries.len(),
            lens.2 == self.arena().children.len(),
    {
        self.store.arena_len()
    }

    /// A line of text for logs: the name of the type, the length, and the
    /// structural hash in hexadecimal. The pairs are not shown.
    pub fn debug_string(&self) -> (text: String)
        ensures
            text@ == crate::text::debug_text(
                "ChampMap"@,
                self.len_spec() as nat,
                self.adhash_spec(),
            ),
    {
        crate::text::describe("ChampMap", self.size, self.adhash)
    }

    /// Returns an iterator over the pairs of the map.
    pub fn iter(&self) -> (iter: Iter<'_, K, V>)
        requires
            self.wf(),
        ensures
            iter.wf(),
            iter.remaining() == self.pairs(),
            iter.remaining().len() == self@.len(),
    {
        proof {
            self.lemma_pairs();
        }
        Iter::new(&self.store, self.root)
    }

    /// Restores the map to a checkpoint; what was allocated after it is
    /// dropped.
    pub fn rollback(&mut self, cp: ChampCheckpoint)
        requires
            old(self).wf(),
            old(self).admits(cp),
        ensures
            final(self).wf(),
            final(self).mark() == cp,
            final(self).arena() == old(self).arena().truncated(cp.store),
            final(self)@ == trie_view(old(self).arena().truncated(cp.store), cp.root),
    {
        self.store.rollback(cp.store);
        self.root = cp.root;
        self.size = cp.size;
        self.adhash = cp.adhash;
    }
}

impl<K: StableHash, V: StableHash> ChampMap<K, V> {
    /// Two maps that hold the same pairs have the same structural hash and
    /// the same length, whatever operations built them, and in whatever
    /// order.
    pub proof fn lemma_same_pairs(&self, other: &Self)
        requires
            self.wf(),
            other.wf(),
            self@ == other@,
        ensures
            self.adhash_spec() == other.adhash_spec(),
            self.len_spec() == other.len_spec(),
    {
    }

    /// Canonical form: two maps that hold the same pairs are traversed in
    /// the same order, whatever operations built them, where no two keys
    /// share all 64 bits of their hash. (Keys that do are traversed in the
    /// order in which they came.)
    pub proof fn lemma_same_traversal(&self, other: &Self)
        requires
            self.wf(),
            other.wf(),
            self@ == other@,
            hashes_differ(self@),
        ensures
            self.pairs() == other.pairs(),
    {
        lemma_state_canonical(
            self.store@,
            self.root,
            self.size,
            self.adhash,
            other.store@,
            other.root,
            other.size,
            other.adhash,
        );
    }

    /// The trie is determined by what it holds: two maps that hold the same
    /// pairs, with the keys that share a hash in the same order, are
    /// traversed in the same order, whatever operations built them.
    pub proof fn lemma_same_order(&self, other: &Self)
        requires
            self.wf(),
            other.wf(),
            self@ == other@,
            forall|hash: u64| #[trigger] self.same_hash_run(hash) == other.same_hash_run(hash),
        ensures
            self.pairs() == other.pairs(),
    {
        assert forall|hash: u64| #[trigger]
            trie_run(self.store@, self.root, hash) == trie_run(
                other.store@,
                other.root,
                hash,
            ) by {
            assert(self.same_hash_run(hash) == other.same_hash_run(hash));
        }
        crate::state::lemma_state_same_order(
            self.store@,
            self.root,
            self.size,
            self.adhash,
            other.store@,
            other.root,
            other.size,
            other.adhash,
        );
    }

    /// What an insert or a removal adds to the arenas is determined by what
    /// the map holds: on two maps that hold the same pairs, with the keys
    /// that share a hash in the same order, the same key gives the same
    /// growth.
    pub proof fn lemma_same_growth(&self, other: &Self, key: K)
        requires
            self.wf(),
            other.wf(),
            self@ == other@,
            forall|hash: u64| #[trigger] self.same_hash_run(hash) == other.same_hash_run(hash),
        ensures
            self.insert_growth(key) == other.insert_growth(key),
            self.remove_growth(key) == other.remove_growth(key),
    {
        assert forall|hash: u64| #[trigger]
            trie_run(self.store@, self.root, hash) == trie_run(
                other.store@,
                other.root,
                hash,
            ) by {
            assert(self.same_hash_run(hash) == other.same_hash_run(hash));
        }
        crate::state::lemma_state_same_growth(
            self.store@,
            self.root,
            self.size,
            self.adhash,
            other.store@,
            other.root,
            other.size,
            other.adhash,
            key,
        );
    }

    /// A map that holds no pair has the structural hash zero, whatever was
    /// inserted into it and removed again.
    pub proof fn lemma_empty_again(&self)
        requires
            self.wf(),
            self@ == Map::<K, V>::empty(),
        ensures
            self.adhash_spec() == 0,
            self.len_spec() == 0,
    {
    }

    /// Mutations only add to the arenas, one after another.
    pub proof fn lemma_growth_adds_up(&self, then: &Self, later: &Self)
        requires
            self.arena().extended_by(then.arena()),
            then.arena().extended_by(later.arena()),
        ensures
            self.arena().extended_by(later.arena()),
    {
    }

    /// A checkpoint of a map is admitted by every state that the map has
    /// grown into since.
    pub proof fn lemma_checkpoint_admitted(&self, later: &Self)
        requires
            self.wf(),
            self.arena().extended_by(later.arena()),
        ensures
            later.admits(self.mark()),
    {
        let st = self.store@;
        let cut = later.store@.truncated(self.mark().store);
        assert(cut.nodes =~= st.nodes);
        assert(cut.entries =~= st.entries);
        assert(cut.children =~= st.children);
    }

    /// The state that a rollback to a checkpoint leaves is the one that the
    /// checkpoint was taken from: the same arenas, root, length and
    /// structural hash, and the same pairs.
    pub proof fn lemma_rollback_restores(&self, later: &Self, after: &Self)
        requires
            self.wf(),
            self.arena().extended_by(later.arena()),
            after.arena() == later.arena().truncated(self.mark().store),
            after.mark() == self.mark(),
        ensures
            after.arena() == self.arena(),
            after@ == self@,
            after.len_spec() == self.len_spec(),
            after.adhash_spec() == self.adhash_spec(),
            after.pairs() == self.pairs(),
    {
        let st = self.store@;
        let cut = later.store@.truncated(self.mark().store);
        assert(cut.nodes =~= st.nodes);
        assert(cut.entries =~= st.entries);
        assert(cut.children =~= st.children);
    }
}

impl<K: StableHash, V: StableHash> Default for ChampMap<K, V> {
    fn default() -> (map: Self)
        ensures
            map.wf(),
            map@ == Map::<K, V>::empty(),
            map.len_spec() == 0,
            map.adhash_spec() == 0,
            map.root_spec().is_none(),
            map.arena().nodes.len() == 0,
            map.arena().entries.len() == 0,
            map.arena().children.len() == 0,
    {
        ChampMap::new()
    }
}

impl<K: StableHash + Eq, V: StableHash> ChampMap<K, V> {
    /// Returns a reference to the value associated with `key`.
    pub fn get(&self, key: &K) -> (found: Option<&V>)
        requires
            self.wf(),
            vstd::laws_eq::obeys_concrete_eq::<K>(),
        ensures
            same_value(found, self@.get(*key)),
    {
        match self.root {
            None => None,
            Some(root) => {
                let hash = hash_one(key);
                proof {
                    assert(crate::trie::route(hash, 0) =~= Seq::<u32>::empty());
                }
                get_recursive(&self.store, root, hash, key, 0)
            },
        }
    }

    /// Returns the value associated with a key that the map contains.
    pub fn index(&self, key: &K) -> (value: &V)
        requires
            self.wf(),
            vstd::laws_eq::obeys_concrete_eq::<K>(),
            self@.contains_key(*key),
        ensures
            *value == self@[*key],
    {
        self.get(key).unwrap()
    }

    /// Tells whether the map can take a mutation: whether the arenas have
    /// room for what one mutation allocates, and the size for one more pair.
    pub fn can_mutate(&self) -> (ok: bool)
        requires
            self.wf(),
        ensures
            ok == self.has_room(),
    {
        let (nodes, entries, children) = self.store.arena_len();
        nodes <= usize::MAX - MUTATION_ROOM && entries <= usize::MAX - MUTATION_ROOM && children
            <= usize::MAX - MUTATION_ROOM && self.size < usize::MAX
    }

    /// Tells whether `insert` can be called with `key`.
    pub fn can_insert(&self, key: &K) -> (ok: bool)
        requires
            self.wf(),
            vstd::laws_eq::obeys_concrete_eq::<K>(),
        ensures
            ok == (self.has_room() && self.takes(*key)),
    {
        proof {
            lemma_state_fits(self.store@, self.root, self.size, self.adhash, *key);
        }
        if !self.can_mutate() {
            return false;
        }
        match self.root {
            None => true,
            Some(root) => {
                let hash = hash_one(key);
                proof {
                    assert(crate::trie::route(hash, 0) =~= Seq::<u32>::empty());
                }
                insert_fits_recursive(&self.store, root, hash, key, 0)
            },
        }
    }

    /// Returns `true` if the map contains the given key.
    pub fn contains_key(&self, key: &K) -> (found: bool)
        requires
            self.wf(),
            vstd::laws_eq::obeys_concrete_eq::<K>(),
        ensures
            found == self@.contains_key(*key),
    {
        self.get(key).is_some()
    }
}

impl<K: StableHash + Eq + Clone, V: StableHash + Clone> ChampMap<K, V> {
    /// Inserts a key-value pair and returns the value that it replaced, if
    /// the key was there.
    pub fn insert(&mut self, key: K, value: V) -> (old_value: Option<V>)
        requires
            old(self).wf(),
            type_model::<K, V>(),
            old(self).has_room(),
            old(self).takes(key),
        ensures
            final(self).wf(),
            final(self)@ == old(self)@.insert(key, value),
            old_value == old(self)@.get(key),
            old(self).arena().extended_by(final(self).arena()),
            old(self).arena().grown_by(final(self).arena(), old(self).insert_growth(key)),
            old(self).arena().grown_within(final(self).arena(), alloc_bound(0)),
            runs_after_put(
                old(self).arena(),
                old(self).root_spec(),
                final(self).arena(),
                final(self).root_spec(),
                (Entry { hash: key.hash_spec(), key, value }),
            ),
    {
        let hash = hash_one(&key);
        let entry = Entry { hash, key, value };
        let ghost st = self.store@;
        let ghost ge = entry;
        proof {
            lemma_state_fits(st, self.root, self.size, self.adhash, key);
        }
        if let Some(root) = self.root {
            proof {
                assert(crate::trie::route(hash, 0) =~= Seq::<u32>::empty());
            }
            let outcome = insert_recursive(&mut self.store, root, entry, 0);
            proof {
                lemma_state_insert(st, root, self.size, self.adhash, self.store@, outcome, ge);
                lemma_state_insert_runs(st, root, self.store@, outcome, ge);
            }
            self.root = Some(outcome.node);
            self.adhash = self.adhash.wrapping_add(outcome.adhash_delta);
            if outcome.old_value.is_none() {
                self.size += 1;
            }
            outcome.old_value
        } else {
            let value_hash = hash_one(&entry.value);
            let contribution = entry_adhash(hash, value_hash);
            let frag = fragment(hash, 0);
            let bit = mask(frag);
            let mut single = Vec::new();
            single.push(entry);
            let data_start = self.store.alloc_entries(single).unwrap();
            let new_node = self.store.alloc_node(
                Node::Inner {
                    data_map: bit,
                    node_map: 0,
                    data_start,
                    children_start: 0,
                    adhash: contribution,
                },
            );
            proof {
                lemma_state_first(self.store@, new_node, ge);
                lemma_state_first_runs(st, self.store@, new_node, ge);
                assert(old(self)@ =~= Map::<K, V>::empty());
            }
            self.root = Some(new_node);
            self.size = 1;
            self.adhash = contribution;
            None
        }
    }

    /// Removes a key and returns the value it led to, or `None` if the key
    /// was not there.
    pub fn remove(&mut self, key: &K) -> (removed: Option<V>)
        requires
            old(self).wf(),
            type_model::<K, V>(),
            old(self).has_room(),
        ensures
            final(self).wf(),
            final(self)@ == old(self)@.remove(*key),
            removed == old(self)@.get(*key),
            old(self).arena().extended_by(final(self).arena()),
            old(self).arena().grown_by(final(self).arena(), old(self).remove_growth(*key)),
            old(self).arena().grown_within(final(self).arena(), alloc_bound(0)),
            runs_after_take(
                old(self).arena(),
                old(self).root_spec(),
                final(self).arena(),
                final(self).root_spec(),
                key.hash_spec(),
                *key,
            ),
            removed.is_none() ==> final(self).arena() == old(self).arena(),
            removed.is_none() ==> final(self).mark() == old(self).mark(),
    {
        let ghost st = self.store@;
        match self.root {
            None => {
                proof {
                    assert(old(self)@.remove(*key) =~= old(self)@);
                    assert(!crate::trie::block_has(Seq::<Entry<K, V>>::empty(), *key));
                }
                None
            },
            Some(root) => {
                let hash = hash_one(key);
                proof {
                    assert(crate::trie::route(hash, 0) =~= Seq::<u32>::empty());
                }
                let outcome = remove_recursive(&mut self.store, root, hash, key, 0);
                proof {
                    lemma_state_remove(
                        st,
                        root,
                        self.size,
                        self.adhash,
                        self.store@,
                        outcome,
                        *key,
                    );
                    lemma_state_remove_runs(st, root, self.store@, outcome, *key);
                }
                match outcome {
                    RemoveOutcome::NotFound => {
                        proof {
                            assert(old(self)@.remove(*key) =~= old(self)@);
                        }
                        None
                    },
                    RemoveOutcome::Removed { node, adhash_delta, removed_value } => {
                        self.root = node;
                        self.size -= 1;
                        self.adhash = self.adhash.wrapping_sub(adhash_delta);
                        Some(removed_value)
                    },
                }
            },
        }
    }

    /// Inserts a key-value pair if the map can take it, and hands the pair
    /// back if not.
    pub fn try_insert(&mut self, key: K, value: V) -> (res: Result<Option<V>, (K, V)>)
        requires
            old(self).wf(),
            type_model::<K, V>(),
        ensures
            final(self).wf(),
            old(self).arena().extended_by(final(self).arena()),
            match res {
                Ok(old_value) => {
                    &&& old(self).has_room() && old(self).takes(key)
                    &&& final(self)@ == old(self)@.insert(key, value)
                    &&& old(self).arena().grown_by(
                        final(self).arena(),
                        old(self).insert_growth(key),
                    )
                    &&& old_value == old(self)@.get(key)
                },
                Err(pair) => {
                    &&& !(old(self).has_room() && old(self).takes(key))
                    &&& pair == (key, value)
                    &&& *final(self) == *old(self)
                },
            },
    {
        if self.can_insert(&key) {
            Ok(self.insert(key, value))
        } else {
            Err((key, value))
        }
    }

    /// Removes a key if the map can take a mutation; `Err` if it cannot.
    pub fn try_remove(&mut self, key: &K) -> (res: Result<Option<V>, ()>)
        requires
            old(self).wf(),
            type_model::<K, V>(),
        ensures
            final(self).wf(),
            old(self).arena().extended_by(final(self).arena()),
            match res {
                Ok(removed) => {
                    &&& old(self).has_room()
                    &&& final(self)@ == old(self)@.remove(*key)
                    &&& old(self).arena().grown_by(
                        final(self).arena(),
                        old(self).remove_growth(*key),
                    )
                    &&& removed == old(self)@.get(*key)
                },
                Err(_) => !old(self).has_room() && *final(self) == *old(self),
            },
    {
        if self.can_mutate() {
            Ok(self.remove(key))
        } else {
            Err(())
        }
    }

    /// Inserts the pairs in order, as far as the map can take them, and
    /// returns how many it took: all of them, or those before the first
    /// that it could not take.
    pub fn extend(&mut self, pairs: Vec<(K, V)>) -> (done: usize)
        requires
            old(self).wf(),
            type_model::<K, V>(),
        ensures
            final(self).wf(),
            done <= pairs@.len(),
            final(self)@ == insert_all(old(self)@, pairs@.take(done as int)),
            done < pairs@.len() ==> !(final(self).has_room() && final(self).takes(
                pairs@[done as int].0,
            )),
            old(self).arena().extended_by(final(self).arena()),
    {
        let mut i: usize = 0;
        proof {
            assert(pairs@.take(0) =~= Seq::<(K, V)>::empty());
        }
        while i < pairs.len()
            invariant
                i <= pairs@.len(),
                self.wf(),
                type_model::<K, V>(),
                self@ == insert_all(old(self)@, pairs@.take(i as int)),
                old(self).arena().extended_by(self.arena()),
            decreases pairs@.len() - i,
        {
            let key = pairs[i].0.clone();
            let value = pairs[i].1.clone();
            if !self.can_insert(&key) {
                return i;
            }
            self.insert(key, value);
            proof {
                assert(pairs@.take(i + 1).drop_last() =~= pairs@.take(i as int));
            }
            i += 1;
        }
        proof {
            assert(pairs@.take(i as int) =~= pairs@);
        }
        i
    }

    /// Builds a map from the pairs, inserted in order as far as the map can
    /// take them, and returns it with the number of pairs it took.
    pub fn from_iter(pairs: Vec<(K, V)>) -> (built: (Self, usize))
        requires
            type_model::<K, V>(),
        ensures
            built.0.wf(),
            built.1 <= pairs@.len(),
            built.0@ == insert_all(Map::<K, V>::empty(), pairs@.take(built.1 as int)),
            built.1 < pairs@.len() ==> !(built.0.has_room() && built.0.takes(
                pairs@[built.1 as int].0,
            )),
    {
        let mut map = ChampMap::new();
        let done = map.extend(pairs);
        (map, done)
    }
}

} // verus!
