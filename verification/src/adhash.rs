//! Additive structural hash: the wrapping sum of one contribution per entry.
use std::collections::hash_map::DefaultHasher;
use std::hash::{Hash, Hasher};
use vstd::prelude::*;
use vstd::std_specs::hash::DefaultHasherAdditionalSpecFns;

verus! {

/// First mixing seed (golden ratio constant).
pub const SEED_1: u64 = 0x9E37_79B9_7F4A_7C15;

/// Second mixing seed (large prime).
pub const SEED_2: u64 = 0x517C_C1B7_2722_0A95;

/// A value with a deterministic 64-bit hash: the same value always hashes
/// to the same number. The map keeps the hash of every key, and sums a
/// contribution of every pair, on that footing; `std::hash::Hash` alone does
/// not promise it.
///
/// This crate implements the trait for integers and strings by the default
/// hasher of the standard library, built without a seed. A type of your own
/// implements `stable_hash`; in code that is compiled and not verified it
/// gives `hash_spec` the same body, which nothing there calls.
pub trait StableHash {
    /// The hash of the value.
    spec fn hash_spec(&self) -> u64;

    /// Computes the hash of the value.
    fn stable_hash(&self) -> (h: u64)
        ensures
            h == self.hash_spec(),
    ;
}

/// The byte runs that hashing a `u64` writes into a hasher.
pub uninterp spec fn hash_feed_u64(x: u64) -> Seq<Seq<u8>>;

/// The byte runs that hashing a `usize` writes into a hasher.
pub uninterp spec fn hash_feed_usize(x: usize) -> Seq<Seq<u8>>;

/// The byte runs that hashing an `i32` writes into a hasher.
pub uninterp spec fn hash_feed_i32(x: i32) -> Seq<Seq<u8>>;

/// The byte runs that hashing a string writes into a hasher.
pub uninterp spec fn hash_feed_str(s: Seq<char>) -> Seq<Seq<u8>>;

/// `<u64 as Hash>::hash` feeds the hasher a run of bytes that depends on the
/// number alone, after whatever the hasher was fed before.
#[verifier::external_body]
fn feed_u64(state: &mut DefaultHasher, x: u64)
    ensures
        final(state)@ == old(state)@ + hash_feed_u64(x),
{
    x.hash(state)
}

/// `<usize as Hash>::hash` feeds the hasher a run of bytes that depends on the
/// number alone, after whatever the hasher was fed before.
#[verifier::external_body]
fn feed_usize(state: &mut DefaultHasher, x: usize)
    ensures
        final(state)@ == old(state)@ + hash_feed_usize(x),
{
    x.hash(state)
}

/// `<i32 as Hash>::hash` feeds the hasher a run of bytes that depends on the
/// number alone, after whatever the hasher was fed before.
#[verifier::external_body]
fn feed_i32(state: &mut DefaultHasher, x: i32)
    ensures
        final(state)@ == old(state)@ + hash_feed_i32(x),
{
    x.hash(state)
}

/// `<str as Hash>::hash` feeds the hasher runs of bytes that depend on the
/// characters of the string alone, after whatever the hasher was fed before.
#[verifier::external_body]
fn feed_str(state: &mut DefaultHasher, s: &str)
    ensures
        final(state)@ == old(state)@ + hash_feed_str(s@),
{
    s.hash(state)
}

impl StableHash for u64 {
    open spec fn hash_spec(&self) -> u64 {
        DefaultHasher::spec_finish(hash_feed_u64(*self))
    }

    fn stable_hash(&self) -> (h: u64) {
        let mut state = DefaultHasher::new();
        feed_u64(&mut state, *self);
        assert(state@ =~= hash_feed_u64(*self));
        state.finish()
    }
}

impl StableHash for usize {
    open spec fn hash_spec(&self) -> u64 {
        DefaultHasher::spec_finish(hash_feed_usize(*self))
    }

    fn stable_hash(&self) -> (h: u64) {
        let mut state = DefaultHasher::new();
        feed_usize(&mut state, *self);
        assert(state@ =~= hash_feed_usize(*self));
        state.finish()
    }
}

impl StableHash for i32 {
    open spec fn hash_spec(&self) -> u64 {
        DefaultHasher::spec_finish(hash_feed_i32(*self))
    }

    fn stable_hash(&self) -> (h: u64) {
        let mut state = DefaultHasher::new();
        feed_i32(&mut state, *self);
        assert(state@ =~= hash_feed_i32(*self));
        state.finish()
    }
}

impl<'a> StableHash for &'a str {
    open spec fn hash_spec(&self) -> u64 {
        DefaultHasher::spec_finish(hash_feed_str(self@))
    }

    fn stable_hash(&self) -> (h: u64) {
        let mut state = DefaultHasher::new();
        feed_str(&mut state, *self);
        assert(state@ =~= hash_feed_str(self@));
        state.finish()
    }
}

impl StableHash for String {
    open spec fn hash_spec(&self) -> u64 {
        DefaultHasher::spec_finish(hash_feed_str(self@))
    }

    fn stable_hash(&self) -> (h: u64) {
        let mut state = DefaultHasher::new();
        feed_str(&mut state, self.as_str());
        assert(state@ =~= hash_feed_str(self@));
        state.finish()
    }
}

/// Computes the 64-bit hash of a value.
pub fn hash_one<T: StableHash>(value: &T) -> (h: u64)
    ensures
        h == value.hash_spec(),
{
    value.stable_hash()
}

/// Contribution of one entry: `key_hash * SEED_1 ^ value_hash * SEED_2`,
/// with both products taken modulo 2^64.
pub open spec fn contribution(key_hash: u64, value_hash: u64) -> u64 {
    (((key_hash * SEED_1) % 0x1_0000_0000_0000_0000) as u64) ^ (((value_hash * SEED_2)
        % 0x1_0000_0000_0000_0000) as u64)
}

/// Reduction of a sum of contributions to a 64-bit hash.
pub open spec fn wrap64(x: int) -> u64 {
    (x % 0x1_0000_0000_0000_0000) as u64
}

/// Reduction commutes with wrapping addition and subtraction, and leaves a
/// 64-bit number as it is.
pub proof fn lemma_wrap64(a: int, c: u64)
    ensures
        vstd::wrapping::u64_specs::wrapping_add(wrap64(a), c) == wrap64(a + c),
        vstd::wrapping::u64_specs::wrapping_sub(wrap64(a), c) == wrap64(a - c),
        wrap64(c as int) == c,
        wrap64(wrap64(a) + c) == wrap64(a + c),
        wrap64(wrap64(a) - c) == wrap64(a - c),
        wrap64(a + wrap64(c as int)) == wrap64(a + c),
{
    let m = 0x1_0000_0000_0000_0000int;
    let q = a / m;
    assert(a == q * m + a % m) by (nonlinear_arith)
        requires
            m == 0x1_0000_0000_0000_0000int,
            q == a / m,
    ;
    assert(0 <= a % m < m);
    vstd::arithmetic::div_mod::lemma_mod_multiples_vanish(q, a % m + c, m);
    vstd::arithmetic::div_mod::lemma_mod_multiples_vanish(q, a % m - c, m);
    assert(q * m + (a % m + c) == a + c);
    assert(q * m + (a % m - c) == a - c);
    if a % m + c >= m {
        vstd::arithmetic::div_mod::lemma_mod_multiples_vanish(-1, a % m + c, m);
        assert((a % m + c - m) % m == a % m + c - m) by {
            vstd::arithmetic::div_mod::lemma_small_mod((a % m + c - m) as nat, m as nat);
        }
    } else {
        vstd::arithmetic::div_mod::lemma_small_mod((a % m + c) as nat, m as nat);
    }
    if a % m - c < 0 {
        vstd::arithmetic::div_mod::lemma_mod_multiples_vanish(1, a % m - c, m);
        vstd::arithmetic::div_mod::lemma_small_mod((a % m - c + m) as nat, m as nat);
    } else {
        vstd::arithmetic::div_mod::lemma_small_mod((a % m - c) as nat, m as nat);
    }
    vstd::arithmetic::div_mod::lemma_small_mod(c as nat, m as nat);
}

/// Reduction of a sum may reduce a summand first.
pub proof fn lemma_wrap64_sum(a: int, x: int)
    ensures
        wrap64(a + wrap64(x)) == wrap64(a + x),
{
    vstd::arithmetic::div_mod::lemma_add_mod_noop_right(a, x, 0x1_0000_0000_0000_0000);
}

/// The contribution of the pair `(key, value)`.
pub open spec fn pair_weight<K: StableHash, V: StableHash>(key: K, value: V) -> int {
    contribution(key.hash_spec(), value.hash_spec()) as int
}

/// Sum of a weight over the pairs of a finite map.
pub open spec fn map_total<K, V>(m: Map<K, V>, w: spec_fn(K, V) -> int) -> int
    decreases m.dom().len(),
    when m.dom().finite()
{
    if m.dom().len() == 0 {
        0
    } else {
        let k = m.dom().choose();
        map_total(m.remove(k), w) + w(k, m[k])
    }
}

/// Sum of the contributions of the pairs of a finite map, before reduction.
pub open spec fn map_sum<K: StableHash, V: StableHash>(m: Map<K, V>) -> int {
    map_total(m, |k: K, v: V| pair_weight(k, v))
}

/// The structural hash of a finite map: the wrapping sum of the
/// contributions of its pairs.
pub open spec fn map_phi<K: StableHash, V: StableHash>(m: Map<K, V>) -> u64 {
    wrap64(map_sum(m))
}

/// The total over a map is the total over the map without one of its keys,
/// plus the weight of that key's pair: the order of summation is immaterial.
pub proof fn lemma_map_total_remove<K, V>(m: Map<K, V>, key: K, w: spec_fn(K, V) -> int)
    requires
        m.dom().finite(),
        m.contains_key(key),
    ensures
        map_total(m, w) == map_total(m.remove(key), w) + w(key, m[key]),
    decreases m.dom().len(),
{
    let k = m.dom().choose();
    vstd::set_lib::lemma_set_empty_equivalency_len(m.dom());
    if k != key {
        let rest = m.remove(k);
        assert(rest.dom() =~= m.dom().remove(k));
        lemma_map_total_remove(rest, key, w);
        let other = m.remove(key);
        assert(other.dom() =~= m.dom().remove(key));
        lemma_map_total_remove(other, k, w);
        assert(rest.remove(key) =~= other.remove(k));
    }
}

/// The total over a map with one more pair, or with the value of one key
/// replaced.
pub proof fn lemma_map_total_insert<K, V>(m: Map<K, V>, key: K, value: V, w: spec_fn(K, V) -> int)
    requires
        m.dom().finite(),
    ensures
        map_total(m.insert(key, value), w) == map_total(m, w) + w(key, value) - if m.contains_key(
            key,
        ) {
            w(key, m[key])
        } else {
            0
        },
{
    let after = m.insert(key, value);
    lemma_map_total_remove(after, key, w);
    if m.contains_key(key) {
        lemma_map_total_remove(m, key, w);
        assert(after.remove(key) =~= m.remove(key));
    } else {
        assert(after.remove(key) =~= m);
    }
}

/// A weight that is zero on every pair of a map has the total zero.
pub proof fn lemma_map_total_zero<K, V>(m: Map<K, V>, w: spec_fn(K, V) -> int)
    requires
        m.dom().finite(),
        forall|k: K| m.contains_key(k) ==> #[trigger] w(k, m[k]) == 0,
    ensures
        map_total(m, w) == 0,
    decreases m.dom().len(),
{
    if m.dom().len() != 0 {
        let k = m.dom().choose();
        vstd::set_lib::lemma_set_empty_equivalency_len(m.dom());
        assert(m.contains_key(k));
        assert(w(k, m[k]) == 0);
        lemma_map_total_zero(m.remove(k), w);
    }
}

/// The sum of contributions over a map without one of its keys.
pub proof fn lemma_map_sum_remove<K: StableHash, V: StableHash>(m: Map<K, V>, key: K)
    requires
        m.dom().finite(),
        m.contains_key(key),
    ensures
        map_sum(m) == map_sum(m.remove(key)) + pair_weight(key, m[key]),
{
    lemma_map_total_remove(m, key, |k: K, v: V| pair_weight(k, v));
}

/// The sum of contributions over a map with one more pair, or with the
/// value of one key replaced.
pub proof fn lemma_map_sum_insert<K: StableHash, V: StableHash>(m: Map<K, V>, key: K, value: V)
    requires
        m.dom().finite(),
    ensures
        map_sum(m.insert(key, value)) == map_sum(m) + pair_weight(key, value) - if m.contains_key(
            key,
        ) {
            pair_weight(key, m[key])
        } else {
            0
        },
{
    lemma_map_total_insert(m, key, value, |k: K, v: V| pair_weight(k, v));
}

/// The structural hash of the empty map is zero.
pub proof fn lemma_phi_empty<K: StableHash, V: StableHash>()
    ensures
        map_phi(Map::<K, V>::empty()) == 0,
{
}

/// Inserting a new key adds the contribution of its pair; replacing the
/// value of a key adds the new contribution less the old one; all wrapping.
pub proof fn lemma_phi_insert<K: StableHash, V: StableHash>(m: Map<K, V>, key: K, value: V)
    requires
        m.dom().finite(),
    ensures
        !m.contains_key(key) ==> map_phi(m.insert(key, value))
            == vstd::wrapping::u64_specs::wrapping_add(
            map_phi(m),
            contribution(key.hash_spec(), value.hash_spec()),
        ),
        m.contains_key(key) ==> map_phi(m.insert(key, value))
            == vstd::wrapping::u64_specs::wrapping_add(
            map_phi(m),
            vstd::wrapping::u64_specs::wrapping_sub(
                contribution(key.hash_spec(), value.hash_spec()),
                contribution(key.hash_spec(), m[key].hash_spec()),
            ),
        ),
{
    lemma_map_sum_insert(m, key, value);
    let new = contribution(key.hash_spec(), value.hash_spec());
    lemma_wrap64(map_sum(m), new);
    if m.contains_key(key) {
        let old = contribution(key.hash_spec(), m[key].hash_spec());
        let delta = vstd::wrapping::u64_specs::wrapping_sub(new, old);
        lemma_wrap64(new as int, old);
        lemma_wrap64(map_sum(m), delta);
        lemma_wrap64_sum(map_sum(m), new - old);
    }
}

/// Removing a key subtracts, wrapping, the contribution of its pair.
pub proof fn lemma_phi_remove<K: StableHash, V: StableHash>(m: Map<K, V>, key: K)
    requires
        m.dom().finite(),
        m.contains_key(key),
    ensures
        map_phi(m.remove(key)) == vstd::wrapping::u64_specs::wrapping_sub(
            map_phi(m),
            contribution(key.hash_spec(), m[key].hash_spec()),
        ),
{
    lemma_map_sum_remove(m, key);
    lemma_wrap64(map_sum(m), contribution(key.hash_spec(), m[key].hash_spec()));
}

/// With a value hash of zero, a key hash that is not zero still gives a
/// contribution that is not zero: the first seed is odd.
pub proof fn lemma_two_seeds(key_hash: u64)
    requires
        key_hash != 0,
    ensures
        contribution(key_hash, 0) != 0,
{
    let product = ((key_hash * SEED_1) % 0x1_0000_0000_0000_0000) as u64;
    assert(product != 0) by (bit_vector)
        requires
            key_hash != 0,
            product == ((key_hash * 0x9E37_79B9_7F4A_7C15u64) % 0x1_0000_0000_0000_0000) as u64,
    ;
    assert(((0u64 * SEED_2) % 0x1_0000_0000_0000_0000) as u64 == 0);
    assert(product ^ 0 == product) by (bit_vector);
}

/// Computes the contribution of a single entry to the structural hash.
pub fn entry_adhash(key_hash: u64, value_hash: u64) -> (c: u64)
    ensures
        c == contribution(key_hash, value_hash),
{
    key_hash.wrapping_mul(SEED_1) ^ value_hash.wrapping_mul(SEED_2)
}

} // verus!
