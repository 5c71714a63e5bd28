use champ_trie::adhash::{hash_one, StableHash};
use champ_trie::ChampMap;

/// A key type with a chosen hash, to force full 64-bit collisions.
#[derive(Debug, Clone, PartialEq, Eq)]
struct CollidingKey {
    id: u32,
    forced_hash: u64,
}

impl CollidingKey {
    const fn new(id: u32, hash: u64) -> Self {
        Self { id, forced_hash: hash }
    }
}

impl StableHash for CollidingKey {
    fn hash_spec(&self) -> u64 {
        hash_one(&self.forced_hash)
    }

    fn stable_hash(&self) -> u64 {
        hash_one(&self.forced_hash)
    }
}

/// Two keys with the same 64-bit hash end up in a collision node.
#[test]
fn two_colliding_keys() {
    let k1 = CollidingKey::new(1, 0xDEAD_BEEF);
    let k2 = CollidingKey::new(2, 0xDEAD_BEEF);

    let mut map = ChampMap::new();
    map.insert(k1.clone(), "first");
    map.insert(k2.clone(), "second");

    assert_eq!(map.len(), 2);
    assert_eq!(map.get(&k1), Some(&"first"));
    assert_eq!(map.get(&k2), Some(&"second"));
}

/// Three keys with the same hash.
#[test]
fn three_colliding_keys() {
    let keys: Vec<CollidingKey> = (0..3).map(|i| CollidingKey::new(i, 0xCAFE)).collect();

    let mut map = ChampMap::new();
    for (i, k) in keys.iter().enumerate() {
        map.insert(k.clone(), i);
    }

    assert_eq!(map.len(), 3);
    for (i, k) in keys.iter().enumerate() {
        assert_eq!(map.get(k), Some(&i));
    }
}

/// Remove from a collision node.
#[test]
fn remove_from_collision() {
    let k1 = CollidingKey::new(1, 0xAAAA);
    let k2 = CollidingKey::new(2, 0xAAAA);
    let k3 = CollidingKey::new(3, 0xAAAA);

    let mut map = ChampMap::new();
    map.insert(k1.clone(), 10);
    map.insert(k2.clone(), 20);
    map.insert(k3.clone(), 30);

    assert!(map.remove(&k2).is_some());
    assert_eq!(map.len(), 2);
    assert_eq!(map.get(&k1), Some(&10));
    assert_eq!(map.get(&k2), None);
    assert_eq!(map.get(&k3), Some(&30));
}

/// Overwrite in a collision node.
#[test]
fn overwrite_in_collision() {
    let k1 = CollidingKey::new(1, 0xBBBB);
    let k2 = CollidingKey::new(2, 0xBBBB);

    let mut map = ChampMap::new();
    map.insert(k1.clone(), "old");
    map.insert(k2.clone(), "val2");
    map.insert(k1.clone(), "new");

    assert_eq!(map.len(), 2);
    assert_eq!(map.get(&k1), Some(&"new"));
}

/// A collision node emptied key by key leaves the empty map.
#[test]
fn collision_remove_all() {
    let k1 = CollidingKey::new(1, 0xCCCC);
    let k2 = CollidingKey::new(2, 0xCCCC);

    let mut map = ChampMap::new();
    map.insert(k1.clone(), 1);
    map.insert(k2.clone(), 2);

    map.remove(&k1);
    map.remove(&k2);
    assert!(map.is_empty());
    assert_eq!(map.adhash(), 0);
}

/// Some keys collide, some do not.
#[test]
fn mixed_collisions_and_normal() {
    let collide_a = CollidingKey::new(1, 0xDDDD);
    let collide_b = CollidingKey::new(2, 0xDDDD);
    let normal = CollidingKey::new(3, 0xEEEE);

    let mut map = ChampMap::new();
    map.insert(collide_a.clone(), "a");
    map.insert(collide_b.clone(), "b");
    map.insert(normal.clone(), "c");

    assert_eq!(map.len(), 3);
    assert_eq!(map.get(&collide_a), Some(&"a"));
    assert_eq!(map.get(&collide_b), Some(&"b"));
    assert_eq!(map.get(&normal), Some(&"c"));
}

/// Two colliding keys build a chain of thirteen inner nodes down to one
/// collision node; removing one key folds the chain back into a root that
/// holds the other key alone, as if it had been inserted into an empty map.
#[test]
fn collision_is_promoted_on_remove() {
    let k1 = CollidingKey::new(1, 0xDEAD_BEEF);
    let k2 = CollidingKey::new(2, 0xDEAD_BEEF);

    let mut map = ChampMap::new();
    map.insert(k1.clone(), 1_u64);
    assert_eq!(map.arena_len(), (1, 1, 0));
    map.insert(k2.clone(), 2_u64);
    assert_eq!(map.len(), 2);
    // One collision node, twelve chain nodes and the new root; the two
    // entries of the collision node; thirteen child slots.
    assert_eq!(map.arena_len(), (1 + 14, 1 + 2, 13));
    assert_eq!(map.get(&k1), Some(&1));
    assert_eq!(map.get(&k2), Some(&2));

    assert_eq!(map.remove(&k1), Some(1));
    assert_eq!(map.len(), 1);
    assert_eq!(map.get(&k1), None);
    assert_eq!(map.get(&k2), Some(&2));
    // The promoted node and thirteen rebuilt levels, one entry each.
    assert_eq!(map.arena_len(), (15 + 14, 3 + 14, 13));

    let mut alone = ChampMap::new();
    alone.insert(k2.clone(), 2_u64);
    assert_eq!(map.adhash(), alone.adhash());
    let mut it = map.iter();
    assert_eq!(it.next(), Some((&k2, &2)));
    assert_eq!(it.next(), None);
}

/// A collision node takes 255 keys and no more; the map says so before the
/// insert, and still replaces values of the keys it holds.
#[test]
fn collision_node_is_full_at_255() {
    let mut map = ChampMap::new();
    for id in 0..255_u32 {
        let key = CollidingKey::new(id, 0xF00D);
        assert!(map.can_insert(&key));
        map.insert(key, u64::from(id));
    }
    assert_eq!(map.len(), 255);
    let extra = CollidingKey::new(255, 0xF00D);
    assert!(!map.can_insert(&extra));
    assert_eq!(map.try_insert(extra.clone(), 1), Err((extra.clone(), 1)));
    assert_eq!(map.len(), 255);
    assert_eq!(map.get(&extra), None);

    let held = CollidingKey::new(17, 0xF00D);
    assert!(map.can_insert(&held));
    assert_eq!(map.try_insert(held.clone(), 1700), Ok(Some(17)));
    assert_eq!(map.get(&held), Some(&1700));

    let elsewhere = CollidingKey::new(0, 0xBEEF);
    assert!(map.can_insert(&elsewhere));
    for id in 0..255_u32 {
        let key = CollidingKey::new(id, 0xF00D);
        let expected = if id == 17 { 1700 } else { u64::from(id) };
        assert_eq!(map.remove(&key), Some(expected));
    }
    assert!(map.is_empty());
    assert_eq!(map.adhash(), 0);
}

/// The traversal yields the entries of a collision node in the order of
/// their arrival, between the entries that do not collide.
#[test]
fn traversal_passes_through_collision_node() {
    let a = CollidingKey::new(1, 0x1234);
    let b = CollidingKey::new(2, 0x1234);
    let c = CollidingKey::new(3, 0x1234);
    let lone = CollidingKey::new(4, 0x9999);

    let mut map = ChampMap::new();
    map.insert(b.clone(), 20_u64);
    map.insert(lone.clone(), 40_u64);
    map.insert(a.clone(), 10_u64);
    map.insert(c.clone(), 30_u64);

    let mut seen = Vec::new();
    let mut it = map.iter();
    assert_eq!(it.size_hint(), (4, Some(4)));
    while let Some((k, v)) = it.next() {
        seen.push((k.id, *v));
    }
    let colliding: Vec<(u32, u64)> = seen.iter().copied().filter(|p| p.0 != 4).collect();
    assert_eq!(colliding, vec![(2, 20), (1, 10), (3, 30)]);
    assert_eq!(seen.len(), 4);
    assert!(seen.contains(&(4, 40)));

    // Replacing a value keeps the place of the key in its node.
    assert_eq!(map.insert(a.clone(), 11), Some(10));
    let mut it = map.iter();
    let mut after = Vec::new();
    while let Some((k, v)) = it.next() {
        after.push((k.id, *v));
    }
    let colliding: Vec<(u32, u64)> = after.iter().copied().filter(|p| p.0 != 4).collect();
    assert_eq!(colliding, vec![(2, 20), (1, 11), (3, 30)]);
}
