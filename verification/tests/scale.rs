use champ_trie::ChampMap;

fn build(n: u64) -> ChampMap<u64, u64> {
    let mut map = ChampMap::new();
    for i in 0..n {
        map.insert(i, i);
    }
    map
}

/// 100,000 pairs in, half of them out again.
#[test]
fn hundred_thousand_entries() {
    let mut map = build(100_000);
    assert_eq!(map.len(), 100_000);
    for i in 0_u64..100_000 {
        assert_eq!(map.get(&i), Some(&i));
    }
    for i in 0_u64..50_000 {
        assert_eq!(map.remove(&i), Some(i));
    }
    assert_eq!(map.len(), 50_000);
    for i in 0_u64..100_000 {
        if i < 50_000 {
            assert_eq!(map.get(&i), None);
        } else {
            assert_eq!(map.get(&i), Some(&i));
        }
    }
}

/// One insert into a large map copies a path, not the map.
#[test]
fn cow_single_insert() {
    let mut map = build(100_000);
    let before = map.arena_len();
    map.insert(999_999, 999_999);
    let after = map.arena_len();
    let total = (after.0 - before.0) + (after.1 - before.1) + (after.2 - before.2);
    assert!(total > 0);
    assert!(total < 200, "single insert allocated {total} items");
}

/// One removal from a large map copies a path, not the map.
#[test]
fn cow_single_remove() {
    let mut map = build(100_000);
    let before = map.arena_len();
    map.remove(&50_000);
    let after = map.arena_len();
    let total = (after.0 - before.0) + (after.1 - before.1) + (after.2 - before.2);
    assert!(total > 0);
    assert!(total < 200, "single remove allocated {total} items");
}

/// A lookup of a missing key and the removal of one allocate nothing.
#[test]
fn misses_allocate_nothing() {
    let mut map = build(1_000);
    let before = map.arena_len();
    assert_eq!(map.get(&5_000), None);
    assert_eq!(map.remove(&5_000), None);
    assert!(!map.contains_key(&5_000));
    assert_eq!(map.arena_len(), before);
    assert!(map.can_mutate());
    assert!(map.can_insert(&5_000));
    assert_eq!(map.try_remove(&5_000), Ok(None));
    assert_eq!(map.try_remove(&5), Ok(Some(5)));
    assert_eq!(map.try_insert(5, 6), Ok(None));
    assert_eq!(map.try_insert(5, 7), Ok(Some(6)));
}
