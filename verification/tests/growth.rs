use champ_trie::adhash::{hash_one, StableHash};
use champ_trie::{ChampMap, ChampMapSync};

#[derive(Debug, Clone, PartialEq, Eq)]
struct Forced {
    id: u32,
    hash: u64,
}

impl StableHash for Forced {
    fn hash_spec(&self) -> u64 {
        self.hash
    }

    fn stable_hash(&self) -> u64 {
        self.hash
    }
}

/// What each mutation adds to the arenas of a small map, item by item.
#[test]
fn growth_of_each_mutation() {
    let mut map = ChampMap::new();
    assert_eq!(map.arena_len(), (0, 0, 0));
    // The first key: one entry and the root.
    map.insert(7_u64, 70_u64);
    assert_eq!(map.arena_len(), (1, 1, 0));
    // A new value for the key: the root again, with its block of one.
    map.insert(7, 71);
    assert_eq!(map.arena_len(), (2, 2, 0));
    // A key that is not there: nothing.
    assert_eq!(map.remove(&8), None);
    assert_eq!(map.arena_len(), (2, 2, 0));
    // The last key: nothing, the map is empty.
    assert_eq!(map.remove(&7), Some(71));
    assert_eq!(map.arena_len(), (2, 2, 0));
    assert!(map.is_empty());
}

/// Two keys whose hashes part on the first level sit side by side in the
/// root; a third that shares the first fragment of one of them sends both
/// into a child.
#[test]
fn growth_of_a_split() {
    let a = Forced { id: 1, hash: 0b00001 };
    let b = Forced { id: 2, hash: 0b00010 };
    let c = Forced { id: 3, hash: 0b100001 };
    let mut map = ChampMap::new();
    map.insert(a.clone(), 1_u64);
    assert_eq!(map.arena_len(), (1, 1, 0));
    // A free slot of the root: the root again, with a block of two.
    map.insert(b.clone(), 2_u64);
    assert_eq!(map.arena_len(), (2, 3, 0));
    // The slot of `a`: a child with `a` and `c`, and the root with `b`
    // alone and one child slot.
    map.insert(c.clone(), 3_u64);
    assert_eq!(map.arena_len(), (2 + 2, 3 + 2 + 1, 1));
    assert_eq!(map.get(&a), Some(&1));
    assert_eq!(map.get(&b), Some(&2));
    assert_eq!(map.get(&c), Some(&3));
    // `c` leaves: `a` is alone in the child and comes back into the root.
    assert_eq!(map.remove(&c), Some(3));
    assert_eq!(map.arena_len(), (4 + 2, 6 + 1 + 2, 1));
    let mut it = map.iter();
    assert_eq!(it.next(), Some((&a, &1)));
    assert_eq!(it.next(), Some((&b, &2)));
    assert_eq!(it.next(), None);
}

/// The two maps grow alike under the same calls.
#[test]
fn both_maps_grow_alike() {
    let mut single = ChampMap::new();
    let mut shared = ChampMapSync::new();
    assert_eq!(single.arena_len(), shared.arena_len());
    for i in 0_u64..300 {
        single.insert(i % 200, i);
        shared.insert(i % 200, i);
        assert_eq!(single.arena_len(), shared.arena_len());
    }
    for i in (0_u64..250).step_by(3) {
        single.remove(&i);
        shared.remove(&i);
        assert_eq!(single.arena_len(), shared.arena_len());
    }
    assert_eq!(single.adhash(), shared.adhash());
    assert_eq!(hash_one(&1_u64), hash_one(&1_u64));
}
