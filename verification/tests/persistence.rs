use champ_trie::ChampMap;

/// Checkpoint, insert, rollback: the state at the checkpoint.
#[test]
fn rollback_after_insert() {
    let mut map = ChampMap::new();
    map.insert(1, 10);
    map.insert(2, 20);

    let cp = map.checkpoint();
    let saved_len = map.len();
    let saved_adhash = map.adhash();

    map.insert(3, 30);
    map.insert(4, 40);
    assert_eq!(map.len(), 4);

    map.rollback(cp);
    assert_eq!(map.len(), saved_len);
    assert_eq!(map.adhash(), saved_adhash);
    assert_eq!(map.get(&1), Some(&10));
    assert_eq!(map.get(&2), Some(&20));
    assert_eq!(map.get(&3), None);
    assert_eq!(map.get(&4), None);
}

/// Checkpoint, remove, rollback: the state at the checkpoint.
#[test]
fn rollback_after_remove() {
    let mut map = ChampMap::new();
    map.insert("a", 1);
    map.insert("b", 2);

    let cp = map.checkpoint();

    map.remove(&"a");
    assert_eq!(map.len(), 1);

    map.rollback(cp);
    assert_eq!(map.len(), 2);
    assert_eq!(map.get(&"a"), Some(&1));
    assert_eq!(map.get(&"b"), Some(&2));
}

/// Checkpoint on the empty map, insert, rollback: empty.
#[test]
fn rollback_to_empty() {
    let mut map: ChampMap<i32, i32> = ChampMap::new();
    let cp = map.checkpoint();

    map.insert(1, 1);
    map.insert(2, 2);

    map.rollback(cp);
    assert!(map.is_empty());
    assert_eq!(map.adhash(), 0);
}

/// Several checkpoints: rollback to the earlier one.
#[test]
fn nested_checkpoints() {
    let mut map = ChampMap::new();
    map.insert(1, 10);
    let cp1 = map.checkpoint();

    map.insert(2, 20);
    let _cp2 = map.checkpoint();

    map.insert(3, 30);

    map.rollback(cp1);
    assert_eq!(map.len(), 1);
    assert_eq!(map.get(&1), Some(&10));
    assert_eq!(map.get(&2), None);
}

/// A rollback restores length, hash, arena sizes and every key, after
/// inserts and removals in between.
#[test]
fn rollback_restores_everything() {
    let mut map = ChampMap::new();
    for i in 0_u64..50 {
        map.insert(i, i * 2);
    }
    let cp = map.checkpoint();
    let len = map.len();
    let adhash = map.adhash();
    let arenas = map.arena_len();
    assert_eq!(cp.size, 50);
    assert_eq!(cp.adhash, adhash);
    assert_eq!((cp.store.nodes, cp.store.entries, cp.store.children), arenas);

    for i in 50_u64..120 {
        map.insert(i, i);
    }
    for i in 0_u64..30 {
        assert_eq!(map.remove(&i), Some(i * 2));
    }
    map.insert(40, 0);
    assert_ne!(map.adhash(), adhash);
    assert!(map.arena_len().0 > arenas.0);
    assert!(map.arena_len().1 > arenas.1);

    map.rollback(cp);
    assert_eq!(map.len(), len);
    assert_eq!(map.adhash(), adhash);
    assert_eq!(map.arena_len(), arenas);
    for i in 0_u64..50 {
        assert_eq!(map.get(&i), Some(&(i * 2)));
    }
    for i in 50_u64..120 {
        assert_eq!(map.get(&i), None);
    }

    // The map goes on from the restored state.
    assert_eq!(map.insert(50, 100), None);
    assert_eq!(map.len(), 51);
}

/// A checkpoint allocates nothing.
#[test]
fn checkpoint_zero_alloc() {
    let mut map = ChampMap::new();
    for i in 0_u64..10_000 {
        map.insert(i, i);
    }
    let before = map.arena_len();
    let _cp = map.checkpoint();
    let after = map.arena_len();
    assert_eq!(before, after, "checkpoint should not allocate");
}
