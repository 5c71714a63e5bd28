use champ_trie::ChampMap;

/// 1000 entries: insert all, verify all, remove all.
#[test]
fn thousand_entries() {
    let mut map = ChampMap::new();
    for i in 0_u64..1000 {
        map.insert(i, i * 3);
    }
    assert_eq!(map.len(), 1000);

    for i in 0_u64..1000 {
        assert_eq!(map.get(&i), Some(&(i * 3)), "missing key {i}");
    }

    for i in 0_u64..1000 {
        assert!(map.remove(&i).is_some(), "failed to remove key {i}");
    }
    assert!(map.is_empty());
    assert_eq!(map.adhash(), 0);
}

/// Keys with shared hash prefixes force deeper nodes.
#[test]
fn deep_shared_prefixes() {
    let mut map = ChampMap::new();
    for i in 0_u64..500 {
        map.insert(i, i);
    }
    assert_eq!(map.len(), 500);
    for i in 0_u64..500 {
        assert_eq!(map.get(&i), Some(&i));
    }
}

/// Insert, overwrite and remove interleaved.
#[test]
fn interleaved_operations() {
    let mut map = ChampMap::new();
    for i in 0_u64..200 {
        map.insert(i, i);
    }
    for i in (0_u64..200).step_by(2) {
        map.insert(i, i + 1000);
    }
    for i in (1_u64..200).step_by(2) {
        assert!(map.remove(&i).is_some());
    }
    assert_eq!(map.len(), 100);
    for i in (0_u64..200).step_by(2) {
        assert_eq!(map.get(&i), Some(&(i + 1000)));
    }
}
