use champ_trie::{ChampMapSync, InsertResult};

#[test]
fn sync_empty() {
    let map: ChampMapSync<i32, i32> = ChampMapSync::new();
    assert!(map.is_empty());
    assert_eq!(map.adhash(), 0);
}

#[test]
fn sync_insert_and_get() {
    let mut map = ChampMapSync::new();
    map.insert("key", 42);
    assert_eq!(map.get(&"key"), Some(&42));
    assert_eq!(map.len(), 1);
}

#[test]
fn sync_remove() {
    let mut map = ChampMapSync::new();
    map.insert(1, 10);
    map.insert(2, 20);
    assert!(map.remove(&1));
    assert_eq!(map.get(&1), None);
    assert_eq!(map.len(), 1);
}

#[test]
fn sync_canonical_order() {
    let mut m1 = ChampMapSync::new();
    m1.insert(1, 10);
    m1.insert(2, 20);
    m1.insert(3, 30);

    let mut m2 = ChampMapSync::new();
    m2.insert(3, 30);
    m2.insert(1, 10);
    m2.insert(2, 20);

    assert_eq!(m1.adhash(), m2.adhash());
}

#[test]
fn sync_checkpoint_rollback() {
    let mut map = ChampMapSync::new();
    map.insert(1, 10);
    let cp = map.checkpoint();

    map.insert(2, 20);
    map.rollback(cp);

    assert_eq!(map.len(), 1);
    assert_eq!(map.get(&1), Some(&10));
    assert_eq!(map.get(&2), None);
}

#[test]
fn sync_is_send() {
    fn assert_send<T: Send>() {}
    assert_send::<ChampMapSync<String, i32>>();
}

#[test]
fn sync_is_sync() {
    fn assert_sync<T: Sync>() {}
    assert_sync::<ChampMapSync<String, i32>>();
}

#[test]
fn sync_stress_100() {
    let mut map = ChampMapSync::new();
    for i in 0_u64..100 {
        map.insert(i, i * 5);
    }
    assert_eq!(map.len(), 100);
    for i in 0_u64..100 {
        assert_eq!(map.get(&i), Some(&(i * 5)));
    }
}

/// The shareable map tells a new key from a replaced value, and a removed
/// key from a missing one.
#[test]
fn sync_insert_and_remove_results() {
    let mut map = ChampMapSync::new();
    assert_eq!(map.insert("k", 1), InsertResult::Inserted);
    assert_eq!(map.insert("k", 2), InsertResult::Updated);
    assert_eq!(map.insert("l", 3), InsertResult::Inserted);
    assert_eq!(map.len(), 2);
    assert_eq!(map.get(&"k"), Some(&2));
    assert!(map.remove(&"k"));
    assert!(!map.remove(&"k"));
    assert!(map.remove(&"l"));
    assert!(map.is_empty());
    assert_eq!(map.adhash(), 0);
}

/// Both maps give the same structural hash and traversal for the same
/// entries; a rollback of the shareable map restores its arenas.
#[test]
fn sync_agrees_with_single_writer() {
    let mut shared = ChampMapSync::new();
    let mut single = champ_trie::ChampMap::new();
    for i in 0_u64..2_000 {
        shared.insert(i, i ^ 0x55);
        single.insert(i, i ^ 0x55);
    }
    let cp = shared.checkpoint();
    let arenas = shared.arena_len();
    for i in 0_u64..500 {
        assert!(shared.remove(&i));
    }
    shared.rollback(cp);
    assert_eq!(shared.arena_len(), arenas);
    assert_eq!(shared.arena_len(), single.arena_len());
    assert_eq!(shared.len(), single.len());
    assert_eq!(shared.adhash(), single.adhash());
    let mut a = shared.iter();
    let mut b = single.iter();
    let mut n = 0;
    while let Some(x) = a.next() {
        assert_eq!(Some(x), b.next());
        n += 1;
    }
    assert_eq!(b.next(), None);
    assert_eq!(n, 2_000);
}

/// The chunked arenas under load: many chunks, many rebuilt paths.
#[test]
fn sync_fifty_thousand_entries() {
    let mut map = ChampMapSync::new();
    for i in 0_u64..50_000 {
        assert_eq!(map.insert(i, i * 3), InsertResult::Inserted);
    }
    assert_eq!(map.len(), 50_000);
    let (nodes, entries, children) = map.arena_len();
    assert!(nodes > 50_000 && entries > 50_000 && children > 50_000);
    for i in (0_u64..50_000).step_by(7) {
        assert_eq!(map.get(&i), Some(&(i * 3)));
    }
    for i in 0_u64..50_000 {
        assert!(map.remove(&i));
    }
    assert!(map.is_empty());
    assert_eq!(map.adhash(), 0);
    assert!(map.can_mutate());
}
