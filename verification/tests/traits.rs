use champ_trie::ChampMap;

#[test]
fn default_is_empty() {
    let map: ChampMap<i32, i32> = ChampMap::default();
    assert!(map.is_empty());
    assert_eq!(map.adhash(), 0);
}

#[test]
fn debug_format() {
    let map: ChampMap<i32, i32> = ChampMap::new();
    let dbg = map.debug_string();
    assert!(dbg.contains("ChampMap"));
    assert!(dbg.contains("len"));
}

#[test]
fn from_iterator() {
    let (map, taken): (ChampMap<i32, i32>, usize) =
        ChampMap::from_iter(vec![(1, 10), (2, 20), (3, 30)]);
    assert_eq!(taken, 3);
    assert_eq!(map.len(), 3);
    assert_eq!(map.get(&1), Some(&10));
}

#[test]
fn extend_trait() {
    let mut map = ChampMap::new();
    map.insert(1, 10);
    map.extend(vec![(2, 20), (3, 30)]);
    assert_eq!(map.len(), 3);
}

#[test]
fn index_existing() {
    let mut map = ChampMap::new();
    map.insert("key", 42);
    assert_eq!(*map.index(&"key"), 42);
}

/// The text for logs shows the length and the hash in hexadecimal.
#[test]
fn debug_text_shows_len_and_hash() {
    let mut map = ChampMap::new();
    assert_eq!(
        map.debug_string(),
        "ChampMap { len: 0, adhash: 0x0000000000000000, .. }"
    );
    map.insert(1_u64, 2_u64);
    let text = map.debug_string();
    assert!(text.starts_with("ChampMap { len: 1, adhash: 0x"));
    assert!(text.contains(&format!("{:016x}", map.adhash())));
}

/// Pairs are inserted in order: of two pairs with one key, the later wins.
#[test]
fn extend_inserts_in_order() {
    let mut map = ChampMap::new();
    let taken = map.extend(vec![(1, 10), (2, 20), (1, 11)]);
    assert_eq!(taken, 3);
    assert_eq!(map.len(), 2);
    assert_eq!(map.get(&1), Some(&11));
    assert_eq!(map.get(&2), Some(&20));
}

/// The length is written in decimal, with all its digits, and the hash with
/// sixteen hexadecimal digits in lower case.
#[test]
fn debug_text_digits() {
    let mut map = ChampMap::new();
    for i in 0_u64..1_203 {
        map.insert(i, i);
    }
    let expected = format!("ChampMap {{ len: 1203, adhash: {:#018x}, .. }}", map.adhash());
    assert_eq!(map.debug_string(), expected);
    assert_eq!(expected.len(), "ChampMap { len: 1203, adhash: 0x, .. }".len() + 16);

    let mut shared = champ_trie::ChampMapSync::new();
    for i in 0_u64..10 {
        shared.insert(i, i);
    }
    let expected = format!("ChampMapSync {{ len: 10, adhash: {:#018x}, .. }}", shared.adhash());
    assert_eq!(shared.debug_string(), expected);
}
