use champ_trie::adhash::{entry_adhash, hash_one};
use champ_trie::ChampMap;

/// The hash of the empty map is zero.
#[test]
fn empty_adhash_is_zero() {
    let map: ChampMap<String, String> = ChampMap::new();
    assert_eq!(map.adhash(), 0);
}

/// Inserting a new entry adds its contribution.
#[test]
fn incremental_insert() {
    let mut map = ChampMap::new();
    let h0 = map.adhash();

    map.insert("a", 1);
    let h1 = map.adhash();
    let expected = h0.wrapping_add(entry_adhash(hash_one(&"a"), hash_one(&1)));
    assert_eq!(h1, expected);

    map.insert("b", 2);
    let h2 = map.adhash();
    let expected2 = h1.wrapping_add(entry_adhash(hash_one(&"b"), hash_one(&2)));
    assert_eq!(h2, expected2);
}

/// Insert and remove round trip: the hash returns to zero.
#[test]
fn roundtrip_to_zero() {
    let mut map = ChampMap::new();
    map.insert(1, 100);
    map.insert(2, 200);
    map.insert(3, 300);
    map.remove(&1);
    map.remove(&2);
    map.remove(&3);
    assert_eq!(map.adhash(), 0);
}

/// The hash does not depend on the order of insertion.
#[test]
fn commutativity() {
    let mut m1 = ChampMap::new();
    m1.insert("x", 10);
    m1.insert("y", 20);

    let mut m2 = ChampMap::new();
    m2.insert("y", 20);
    m2.insert("x", 10);

    assert_eq!(m1.adhash(), m2.adhash());
}

/// Two seeds prevent degeneration: even when the value hash is zero, the
/// contribution of a non-zero key hash is non-zero.
#[test]
fn two_seed_no_degeneration() {
    let key_hash = hash_one(&42_u64);
    let contribution = entry_adhash(key_hash, 0);
    assert_ne!(contribution, 0);
}

/// The mixing function is not symmetric in key and value.
#[test]
fn mixing_not_symmetric() {
    let a = entry_adhash(hash_one(&1_i32), hash_one(&2_i32));
    let b = entry_adhash(hash_one(&2_i32), hash_one(&1_i32));
    assert_ne!(a, b);
}

/// Replacing a value changes the hash.
#[test]
fn overwrite_changes_adhash() {
    let mut map = ChampMap::new();
    map.insert("key", 1);
    let h1 = map.adhash();
    map.insert("key", 2);
    let h2 = map.adhash();
    assert_ne!(h1, h2);
}

/// The contribution formula on fixed hashes.
#[test]
fn contribution_exact_values() {
    assert_eq!(entry_adhash(0, 0), 0);
    assert_eq!(entry_adhash(1, 0), 0x9E37_79B9_7F4A_7C15);
    assert_eq!(entry_adhash(0, 1), 0x517C_C1B7_2722_0A95);
    assert_eq!(entry_adhash(1, 1), 0x9E37_79B9_7F4A_7C15 ^ 0x517C_C1B7_2722_0A95);
    assert_eq!(
        entry_adhash(2, 3),
        0x9E37_79B9_7F4A_7C15_u64.wrapping_mul(2) ^ 0x517C_C1B7_2722_0A95_u64.wrapping_mul(3)
    );
}

/// Hashing is a function of the value, and tells values apart.
#[test]
fn hash_one_is_deterministic() {
    assert_eq!(hash_one(&7_u64), hash_one(&7_u64));
    assert_ne!(hash_one(&7_u64), hash_one(&8_u64));
    assert_ne!(hash_one(&7_u64), 7);
    assert_eq!(hash_one(&"key"), hash_one(&String::from("key")));
    assert_ne!(hash_one(&"key"), hash_one(&"kez"));
    assert_ne!(hash_one(&1_i32), hash_one(&-1_i32));
    assert_ne!(hash_one(&5_usize), hash_one(&6_usize));
}
