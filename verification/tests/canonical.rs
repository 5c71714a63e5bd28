use champ_trie::ChampMap;

/// Insertion order must not affect the result: the same set of entries
/// gives the same structural hash.
#[test]
fn insert_order_abc_cba_bca() {
    let orders: [&[(i32, i32)]; 3] = [
        &[(1, 10), (2, 20), (3, 30)],
        &[(3, 30), (2, 20), (1, 10)],
        &[(2, 20), (3, 30), (1, 10)],
    ];

    let maps: Vec<ChampMap<i32, i32>> = orders
        .iter()
        .map(|pairs| {
            let mut m = ChampMap::new();
            for &(k, v) in *pairs {
                m.insert(k, v);
            }
            m
        })
        .collect();

    assert_eq!(maps[0].adhash(), maps[1].adhash());
    assert_eq!(maps[1].adhash(), maps[2].adhash());
    assert_eq!(maps[0].len(), maps[1].len());
    assert_eq!(maps[0].len(), 3);
    for k in [1, 2, 3] {
        assert_eq!(maps[0].get(&k), maps[1].get(&k));
        assert_eq!(maps[1].get(&k), maps[2].get(&k));
        assert_eq!(maps[0].get(&k), Some(&(k * 10)));
    }
}

/// Larger set: 100 entries, three orderings.
#[test]
fn insert_order_100_entries() {
    let entries: Vec<(u64, u64)> = (0..100).map(|i| (i, i * 7)).collect();

    let mut forward = ChampMap::new();
    for &(k, v) in &entries {
        forward.insert(k, v);
    }

    let mut backward = ChampMap::new();
    for &(k, v) in entries.iter().rev() {
        backward.insert(k, v);
    }

    let mut interleaved = ChampMap::new();
    for &(k, v) in entries.iter().step_by(2) {
        interleaved.insert(k, v);
    }
    for &(k, v) in entries.iter().skip(1).step_by(2) {
        interleaved.insert(k, v);
    }

    assert_eq!(forward.adhash(), backward.adhash());
    assert_eq!(forward.adhash(), interleaved.adhash());
    assert_eq!(forward.len(), 100);
}

/// After an overwrite, order independence still holds.
#[test]
fn overwrite_preserves_canonicity() {
    let mut map_a = ChampMap::new();
    map_a.insert(1, 10);
    map_a.insert(2, 20);
    map_a.insert(1, 11);

    let mut map_b = ChampMap::new();
    map_b.insert(2, 20);
    map_b.insert(1, 11);

    assert_eq!(map_a.adhash(), map_b.adhash());
    assert_eq!(map_a.len(), map_b.len());
}

/// After a removal, order independence holds.
#[test]
fn delete_preserves_canonicity() {
    let mut map_a = ChampMap::new();
    map_a.insert(1, 10);
    map_a.insert(2, 20);
    map_a.insert(3, 30);
    map_a.remove(&2);

    let mut map_b = ChampMap::new();
    map_b.insert(3, 30);
    map_b.insert(1, 10);

    assert_eq!(map_a.adhash(), map_b.adhash());
    assert_eq!(map_a.len(), map_b.len());
}

fn drain<'a>(map: &'a ChampMap<u64, u64>) -> Vec<(u64, u64)> {
    let mut it = map.iter();
    let mut out = Vec::new();
    while let Some((k, v)) = it.next() {
        out.push((*k, *v));
    }
    out
}

/// The same entries give the same trie: the traversal order of two maps
/// built in different orders, with removals in between, is the same.
#[test]
fn same_entries_same_traversal() {
    let mut a = ChampMap::new();
    for i in 0_u64..300 {
        a.insert(i, i + 1);
    }
    let mut b = ChampMap::new();
    for i in (0_u64..600).rev() {
        b.insert(i, i + 1);
    }
    for i in 300_u64..600 {
        assert_eq!(b.remove(&i), Some(i + 1));
    }
    assert_eq!(a.len(), b.len());
    assert_eq!(a.adhash(), b.adhash());
    assert_eq!(drain(&a), drain(&b));
}

/// The arenas of two maps with the same entries differ with their history,
/// the live trie does not.
#[test]
fn history_shows_in_arenas_only() {
    let mut a = ChampMap::new();
    a.insert(7_u64, 70_u64);
    let mut b = ChampMap::new();
    b.insert(8_u64, 80_u64);
    b.insert(7_u64, 70_u64);
    b.remove(&8);
    assert_eq!(a.adhash(), b.adhash());
    assert_eq!(drain(&a), drain(&b));
    assert_ne!(a.arena_len(), b.arena_len());
}
