use champ_trie::node::{fragment, index, mask, offset, Node};
use champ_trie::{ChampMap, ChampMapSync};

/// The traversal yields as many pairs as the map holds.
#[test]
fn iter_count_matches_len() {
    for &n in &[0_u64, 1, 10, 100, 1_000, 10_000] {
        let mut map = ChampMap::new();
        for i in 0..n {
            map.insert(i, i);
        }
        let mut it = map.iter();
        assert_eq!(it.size_hint(), (map.len(), Some(map.len())));
        let mut count = 0;
        while it.next().is_some() {
            count += 1;
        }
        assert_eq!(count, map.len(), "iter count != len for n={n}");
        assert_eq!(it.size_hint(), (0, Some(0)));
        assert_eq!(it.next(), None);
    }
}

/// Every pair is yielded once, and two traversals agree.
#[test]
fn iter_yields_each_pair_once() {
    let mut map = ChampMapSync::new();
    for i in 0_u64..500 {
        map.insert(i, i * i);
    }
    let mut first = Vec::new();
    let mut it = map.iter();
    while let Some((k, v)) = it.next() {
        assert_eq!(*v, *k * *k);
        first.push(*k);
    }
    let mut second = Vec::new();
    let mut it = map.iter();
    while let Some((k, _)) = it.next() {
        second.push(*k);
    }
    assert_eq!(first, second);
    let mut sorted = first.clone();
    sorted.sort_unstable();
    sorted.dedup();
    assert_eq!(sorted, (0_u64..500).collect::<Vec<_>>());
}

/// Fragments, masks and compact indices on fixed values.
#[test]
fn bitmap_primitives() {
    assert_eq!(fragment(0xDEAD_BEEF, 0), 0x0F);
    assert_eq!(fragment(0xDEAD_BEEF, 5), 0x17);
    assert_eq!(fragment(0xFFFF_FFFF_FFFF_FFFF, 60), 0x0F);
    assert_eq!(fragment(0x8000_0000_0000_0000, 60), 0x08);
    assert_eq!(fragment(0, 35), 0);
    assert_eq!(mask(0), 1);
    assert_eq!(mask(5), 32);
    assert_eq!(mask(31), 0x8000_0000);
    assert_eq!(index(0b1011, 0b1000), 2);
    assert_eq!(index(0b1011, 0b0001), 0);
    assert_eq!(index(0b1011, 0b0100), 2);
    assert_eq!(index(0xFFFF_FFFF, 0x8000_0000), 31);
    assert_eq!(index(0, 0x8000_0000), 0);
    assert_eq!(offset(7, 5), 12);
}

/// The accessors of a node record.
#[test]
fn node_accessors() {
    let inner = Node::Inner {
        data_map: 0b1011,
        node_map: 0b0100_0000,
        data_start: 3,
        children_start: 9,
        adhash: 77,
    };
    assert_eq!(inner.adhash(), 77);
    assert_eq!(inner.data_len(), 3);
    assert_eq!(inner.children_len(), 1);
    let collision = Node::Collision { hash: 5, entries_start: 0, entries_len: 4, adhash: 9 };
    assert_eq!(collision.adhash(), 9);
    assert_eq!(collision.data_len(), 4);
    assert_eq!(collision.children_len(), 0);
}
