//! Trie node records and the bitmap arithmetic that addresses their blocks.
use vstd::prelude::*;

verus! {

/// Bits of hash consumed per trie level (32-way branching).
pub const BITS_PER_LEVEL: u32 = 5;

/// Largest shift at which an inner node can sit; the level there holds the
/// top four bits of the hash.
pub const MAX_SHIFT: u32 = 60;

/// Inline entry: a key-value pair with the hash of its key.
pub struct Entry<K, V> {
    /// Hash of `key`.
    pub hash: u64,
    /// The key.
    pub key: K,
    /// The value.
    pub value: V,
}

/// Trie node: a record of bitmaps, block offsets and the hash of its subtree.
#[derive(Clone, Copy, Debug)]
pub enum Node {
    /// Bitmap-compressed inner node. The two bitmaps are disjoint.
    Inner {
        /// Slots that hold an inline entry.
        data_map: u32,
        /// Slots that hold a child subtree.
        node_map: u32,
        /// Offset of the first inline entry in the entries arena.
        data_start: usize,
        /// Offset of the first child index in the children arena.
        children_start: usize,
        /// Structural hash of the subtree.
        adhash: u64,
    },
    /// Node for keys that share all 64 bits of their hash; at least two.
    Collision {
        /// The shared hash.
        hash: u64,
        /// Offset of the first entry in the entries arena.
        entries_start: usize,
        /// Number of entries.
        entries_len: u8,
        /// Structural hash of the subtree.
        adhash: u64,
    },
}

impl Node {
    pub open spec fn adhash_spec(&self) -> u64 {
        match *self {
            Node::Inner { adhash, .. } => adhash,
            Node::Collision { adhash, .. } => adhash,
        }
    }

    pub open spec fn data_len_spec(&self) -> nat {
        match *self {
            Node::Inner { data_map, .. } => popcount(data_map),
            Node::Collision { entries_len, .. } => entries_len as nat,
        }
    }

    pub open spec fn children_len_spec(&self) -> nat {
        match *self {
            Node::Inner { node_map, .. } => popcount(node_map),
            Node::Collision { .. } => 0,
        }
    }

    /// Structural hash of the subtree below this node.
    #[verifier::when_used_as_spec(adhash_spec)]
    pub fn adhash(&self) -> (h: u64)
        ensures
            h == self.adhash_spec(),
    {
        match self {
            Node::Inner { adhash, .. } => *adhash,
            Node::Collision { adhash, .. } => *adhash,
        }
    }

    /// Number of entries stored in the node itself.
    pub fn data_len(&self) -> (n: usize)
        ensures
            n == self.data_len_spec(),
            n <= 255,
    {
        match self {
            Node::Inner { data_map, .. } => {
                proof {
                    lemma_rank_bound(*data_map, 32);
                }
                data_map.count_ones() as usize
            },
            Node::Collision { entries_len, .. } => *entries_len as usize,
        }
    }

    /// Number of child subtrees; a collision node has none.
    pub fn children_len(&self) -> (n: usize)
        ensures
            n == self.children_len_spec(),
            n <= 32,
    {
        match self {
            Node::Inner { node_map, .. } => {
                proof {
                    lemma_rank_bound(*node_map, 32);
                }
                node_map.count_ones() as usize
            },
            Node::Collision { .. } => 0,
        }
    }
}

/// The offset `n` positions after `base`.
pub fn offset(base: usize, n: usize) -> (idx: usize)
    requires
        base + n <= usize::MAX,
    ensures
        idx == base + n,
{
    base + n
}

/// Whether bit `pos` of `bitmap` is set.
pub open spec fn has_bit(bitmap: u32, pos: u32) -> bool {
    pos < 32 && (bitmap >> pos) & 1 == 1
}

/// Number of set bits of `bitmap` at positions below `pos`.
pub open spec fn rank(bitmap: u32, pos: u32) -> nat
    decreases pos,
{
    if pos == 0 {
        0
    } else {
        rank(bitmap, (pos - 1) as u32) + if has_bit(bitmap, (pos - 1) as u32) {
            1nat
        } else {
            0nat
        }
    }
}

/// Number of set bits among the 32 positions of `bitmap`.
pub open spec fn popcount(bitmap: u32) -> nat {
    rank(bitmap, 32)
}

/// `u32::count_ones` returns the number of ones in the binary representation
/// of its argument; `popcount` counts the set positions one by one.
pub assume_specification[ u32::count_ones ](x: u32) -> (n: u32)
    ensures
        n == popcount(x),
;

pub open spec fn fragment_spec(hash: u64, shift: u32) -> u32 {
    ((hash >> shift) & 0x1F) as u32
}

/// The five-bit slice of `hash` that selects a slot at depth `shift / 5`.
#[verifier::when_used_as_spec(fragment_spec)]
pub fn fragment(hash: u64, shift: u32) -> (frag: u32)
    requires
        shift < 64,
    ensures
        frag == fragment_spec(hash, shift),
        frag < 32,
{
    assert(((hash >> shift) & 0x1F) < 32) by (bit_vector);
    ((hash >> shift) & 0x1F) as u32
}

/// A fragment is a slot number.
pub proof fn lemma_fragment_bound(hash: u64, shift: u32)
    by (bit_vector)
    ensures
        fragment_spec(hash, shift) < 32,
{
}

pub open spec fn mask_spec(frag: u32) -> u32 {
    1u32 << frag
}

/// The bitmap with only bit `frag` set.
#[verifier::when_used_as_spec(mask_spec)]
pub fn mask(frag: u32) -> (bit: u32)
    requires
        frag < 32,
    ensures
        bit == mask_spec(frag),
        bit >= 1,
{
    assert(1u32 << frag >= 1) by (bit_vector)
        requires
            frag < 32,
    ;
    1 << frag
}

pub open spec fn index_spec(bitmap: u32, bit: u32) -> nat {
    popcount(bitmap & ((bit - 1) as u32))
}

/// Dense position of the slot of `bit` inside a block compressed by `bitmap`:
/// the number of set bits of `bitmap` below `bit`.
pub fn index(bitmap: u32, bit: u32) -> (pos: usize)
    requires
        bit >= 1,
    ensures
        pos == index_spec(bitmap, bit),
        pos <= 32,
{
    proof {
        lemma_rank_bound(bitmap & ((bit - 1) as u32), 32);
    }
    (bitmap & (bit - 1)).count_ones() as usize
}

/// At most `pos` bits are set below `pos`.
pub proof fn lemma_rank_bound(bitmap: u32, pos: u32)
    ensures
        rank(bitmap, pos) <= pos,
    decreases pos,
{
    if pos > 0 {
        lemma_rank_bound(bitmap, (pos - 1) as u32);
    }
}

/// Bits of a single-bit mask, and of a bitmap with one bit set or cleared.
pub proof fn lemma_bit_edits(bitmap: u32, f: u32, g: u32)
    by (bit_vector)
    requires
        f < 32,
    ensures
        has_bit(1u32 << f, g) == (g == f),
        has_bit(bitmap | (1u32 << f), g) == (has_bit(bitmap, g) || g == f),
        has_bit(bitmap & !(1u32 << f), g) == (has_bit(bitmap, g) && g != f),
        has_bit(bitmap & (((1u32 << f) - 1) as u32), g) == (has_bit(bitmap, g) && g < f),
        (bitmap & (1u32 << f) != 0) == has_bit(bitmap, f),
        !has_bit(0u32, g),
{
}

/// `rank` grows with the position, and strictly across a set bit.
pub proof fn lemma_rank_monotone(bitmap: u32, lo: u32, hi: u32)
    requires
        lo <= hi,
    ensures
        rank(bitmap, lo) <= rank(bitmap, hi),
        lo < hi && has_bit(bitmap, lo) ==> rank(bitmap, lo) < rank(bitmap, hi),
    decreases hi,
{
    if lo < hi {
        lemma_rank_monotone(bitmap, lo, (hi - 1) as u32);
    }
}

/// Two bitmaps that agree below `pos` have the same rank there.
pub proof fn lemma_rank_agree(a: u32, b: u32, pos: u32)
    requires
        forall|g: u32| g < pos ==> has_bit(a, g) == has_bit(b, g),
    ensures
        rank(a, pos) == rank(b, pos),
    decreases pos,
{
    if pos > 0 {
        lemma_rank_agree(a, b, (pos - 1) as u32);
    }
}

/// Rank in a bitmap that equals `base` but for bit `f`.
pub proof fn lemma_rank_one_bit(base: u32, edited: u32, f: u32, pos: u32)
    requires
        f < 32,
        pos <= 32,
        forall|g: u32| g < 32 && g != f ==> has_bit(edited, g) == has_bit(base, g),
    ensures
        rank(edited, pos) == rank(base, pos) + (if f < pos && has_bit(edited, f) {
            1int
        } else {
            0int
        }) - (if f < pos && has_bit(base, f) {
            1int
        } else {
            0int
        }),
    decreases pos,
{
    if pos > 0 {
        lemma_rank_one_bit(base, edited, f, (pos - 1) as u32);
    }
}

/// Rank after setting bit `f`.
pub proof fn lemma_rank_set(bitmap: u32, f: u32, pos: u32)
    requires
        f < 32,
        pos <= 32,
    ensures
        rank(bitmap | (1u32 << f), pos) == rank(bitmap, pos) + (if f < pos && !has_bit(
            bitmap,
            f,
        ) {
            1int
        } else {
            0int
        }),
{
    let edited = bitmap | (1u32 << f);
    assert forall|g: u32| g < 32 && g != f implies has_bit(edited, g) == has_bit(bitmap, g) by {
        lemma_bit_edits(bitmap, f, g);
    }
    lemma_bit_edits(bitmap, f, f);
    lemma_rank_one_bit(bitmap, edited, f, pos);
}

/// Rank after clearing bit `f`.
pub proof fn lemma_rank_clear(bitmap: u32, f: u32, pos: u32)
    requires
        f < 32,
        pos <= 32,
    ensures
        rank(bitmap & !(1u32 << f), pos) == rank(bitmap, pos) - (if f < pos && has_bit(
            bitmap,
            f,
        ) {
            1int
        } else {
            0int
        }),
{
    let edited = bitmap & !(1u32 << f);
    assert forall|g: u32| g < 32 && g != f implies has_bit(edited, g) == has_bit(bitmap, g) by {
        lemma_bit_edits(bitmap, f, g);
    }
    lemma_bit_edits(bitmap, f, f);
    lemma_rank_one_bit(bitmap, edited, f, pos);
}

/// The compact index of the slot of bit `f` is the rank of `f`.
pub proof fn lemma_index_is_rank(bitmap: u32, f: u32)
    requires
        f < 32,
    ensures
        index_spec(bitmap, 1u32 << f) == rank(bitmap, f),
        rank(bitmap, f) <= popcount(bitmap),
        has_bit(bitmap, f) ==> rank(bitmap, f) < popcount(bitmap),
{
    let low = bitmap & (((1u32 << f) - 1) as u32);
    assert forall|g: u32| g < f implies has_bit(low, g) == has_bit(bitmap, g) by {
        lemma_bit_edits(bitmap, f, g);
    }
    lemma_rank_agree(low, bitmap, f);
    lemma_rank_above(low, bitmap, f, 32);
    lemma_rank_monotone(bitmap, f, 32);
}

/// Above `f`, a bitmap cut off below `f` gains no rank.
proof fn lemma_rank_above(low: u32, bitmap: u32, f: u32, pos: u32)
    requires
        f < 32,
        f <= pos <= 32,
        low == bitmap & (((1u32 << f) - 1) as u32),
    ensures
        rank(low, pos) == rank(low, f),
    decreases pos,
{
    if pos > f {
        lemma_rank_above(low, bitmap, f, (pos - 1) as u32);
        lemma_bit_edits(bitmap, f, (pos - 1) as u32);
    }
}

/// A block compressed by `bitmap2` holds, in every slot but `f0`, what the
/// block compressed by `bitmap` holds there.
pub open spec fn kept_slots<T>(
    bitmap: u32,
    block: Seq<T>,
    bitmap2: u32,
    block2: Seq<T>,
    f0: u32,
) -> bool {
    forall|g: u32|
        g != f0 ==> #[trigger] has_bit(bitmap2, g) == has_bit(bitmap, g) && (has_bit(bitmap, g)
            ==> block2[rank(bitmap2, g) as int] == block[rank(bitmap, g) as int])
}

/// Putting an item into the free slot `f0` moves nothing out of its slot.
pub proof fn lemma_kept_insert<T>(bitmap: u32, block: Seq<T>, f0: u32, x: T)
    requires
        f0 < 32,
        !has_bit(bitmap, f0),
        block.len() == popcount(bitmap),
    ensures
        kept_slots(
            bitmap,
            block,
            bitmap | (1u32 << f0),
            block.insert(rank(bitmap, f0) as int, x),
            f0,
        ),
        has_bit(bitmap | (1u32 << f0), f0),
        rank(bitmap | (1u32 << f0), f0) == rank(bitmap, f0),
        block.insert(rank(bitmap, f0) as int, x)[rank(bitmap, f0) as int] == x,
        popcount(bitmap | (1u32 << f0)) == popcount(bitmap) + 1,
        rank(bitmap, f0) <= popcount(bitmap),
{
    let bitmap2 = bitmap | (1u32 << f0);
    let p = rank(bitmap, f0);
    let block2 = block.insert(p as int, x);
    lemma_rank_monotone(bitmap, f0, 32);
    lemma_rank_set(bitmap, f0, 32);
    lemma_rank_set(bitmap, f0, f0);
    lemma_bit_edits(bitmap, f0, f0);
    assert forall|g: u32| g != f0 implies #[trigger] has_bit(bitmap2, g) == has_bit(bitmap, g) && (
    has_bit(bitmap, g) ==> block2[rank(bitmap2, g) as int] == block[rank(bitmap, g) as int]) by {
        lemma_bit_edits(bitmap, f0, g);
        if has_bit(bitmap, g) {
            lemma_rank_set(bitmap, f0, g);
            lemma_rank_monotone(bitmap, g, 32);
            if g < f0 {
                lemma_rank_monotone(bitmap, g, f0);
            } else {
                lemma_rank_monotone(bitmap, f0, g);
            }
        }
    }
}

/// Taking the item out of slot `f0` moves nothing else out of its slot.
pub proof fn lemma_kept_remove<T>(bitmap: u32, block: Seq<T>, f0: u32)
    requires
        has_bit(bitmap, f0),
        block.len() == popcount(bitmap),
    ensures
        kept_slots(bitmap, block, bitmap & !(1u32 << f0), block.remove(rank(bitmap, f0) as int), f0),
        !has_bit(bitmap & !(1u32 << f0), f0),
        popcount(bitmap & !(1u32 << f0)) == popcount(bitmap) - 1,
        rank(bitmap, f0) < popcount(bitmap),
{
    let bitmap2 = bitmap & !(1u32 << f0);
    let p = rank(bitmap, f0);
    let block2 = block.remove(p as int);
    lemma_rank_monotone(bitmap, f0, 32);
    lemma_rank_clear(bitmap, f0, 32);
    lemma_bit_edits(bitmap, f0, f0);
    assert forall|g: u32| g != f0 implies #[trigger] has_bit(bitmap2, g) == has_bit(bitmap, g) && (
    has_bit(bitmap, g) ==> block2[rank(bitmap2, g) as int] == block[rank(bitmap, g) as int]) by {
        lemma_bit_edits(bitmap, f0, g);
        if has_bit(bitmap, g) {
            lemma_rank_clear(bitmap, f0, g);
            lemma_rank_monotone(bitmap, g, 32);
            if g < f0 {
                lemma_rank_monotone(bitmap, g, f0);
            } else {
                lemma_rank_monotone(bitmap, f0, g);
            }
        }
    }
}

/// Replacing the item in slot `f0` changes no other slot.
pub proof fn lemma_kept_update<T>(bitmap: u32, block: Seq<T>, f0: u32, x: T)
    requires
        has_bit(bitmap, f0),
        block.len() == popcount(bitmap),
    ensures
        kept_slots(bitmap, block, bitmap, block.update(rank(bitmap, f0) as int, x), f0),
        block.update(rank(bitmap, f0) as int, x)[rank(bitmap, f0) as int] == x,
        rank(bitmap, f0) < popcount(bitmap),
{
    let p = rank(bitmap, f0);
    let block2 = block.update(p as int, x);
    lemma_rank_monotone(bitmap, f0, 32);
    assert forall|g: u32| g != f0 implies #[trigger] has_bit(bitmap, g) == has_bit(bitmap, g) && (
    has_bit(bitmap, g) ==> block2[rank(bitmap, g) as int] == block[rank(bitmap, g) as int]) by {
        if has_bit(bitmap, g) {
            lemma_rank_monotone(bitmap, g, 32);
            if g < f0 {
                lemma_rank_monotone(bitmap, g, f0);
            } else {
                lemma_rank_monotone(bitmap, f0, g);
            }
        }
    }
}

/// Disjoint bitmaps stay disjoint when a bit moves between them or joins
/// one of them from outside both.
pub proof fn lemma_disjoint_edits(data_map: u32, node_map: u32, f: u32)
    by (bit_vector)
    requires
        f < 32,
        data_map & node_map == 0,
    ensures
        !(has_bit(data_map, f) && has_bit(node_map, f)),
        !has_bit(node_map, f) ==> (data_map | (1u32 << f)) & node_map == 0,
        !has_bit(data_map, f) ==> data_map & (node_map | (1u32 << f)) == 0,
        (data_map & !(1u32 << f)) & (node_map | (1u32 << f)) == 0,
        (data_map | (1u32 << f)) & (node_map & !(1u32 << f)) == 0,
        (data_map & !(1u32 << f)) & node_map == 0,
        data_map & (node_map & !(1u32 << f)) == 0,
        data_map | (1u32 << f) != 0,
        node_map | (1u32 << f) != 0,
{
}

/// Every position of a compressed block is the rank of a set bit.
pub proof fn lemma_select(bitmap: u32, j: nat, upto: u32) -> (f: u32)
    requires
        upto <= 32,
        j < rank(bitmap, upto),
    ensures
        f < upto,
        has_bit(bitmap, f),
        rank(bitmap, f) == j,
    decreases upto,
{
    let last = (upto - 1) as u32;
    if j < rank(bitmap, last) {
        lemma_select(bitmap, j, last)
    } else {
        last
    }
}

/// Bitmaps with the same bits set are the same bitmap.
pub proof fn lemma_same_bits(a: u32, b: u32)
    requires
        forall|g: u32| #[trigger] has_bit(a, g) == has_bit(b, g),
    ensures
        a == b,
{
    let x = a ^ b;
    if x != 0 {
        lemma_popcount_zero(x);
        let g = choose|g: u32| has_bit(x, g);
        assert(has_bit(a ^ b, g) == (has_bit(a, g) != has_bit(b, g))) by (bit_vector);
        assert(has_bit(a, g) == has_bit(b, g));
    }
    assert(a ^ b == 0 ==> a == b) by (bit_vector);
}

/// A bitmap with one bit set is the mask of that bit.
pub proof fn lemma_only_bit(bitmap: u32, f: u32)
    requires
        popcount(bitmap) == 1,
        has_bit(bitmap, f),
    ensures
        bitmap == 1u32 << f,
{
    lemma_one_slot(f);
    assert forall|g: u32| #[trigger] has_bit(bitmap, g) == has_bit(1u32 << f, g) by {
        if g != f && has_bit(bitmap, g) {
            if g < f {
                lemma_rank_monotone(bitmap, g, f);
                lemma_rank_monotone(bitmap, f, 32);
            } else {
                lemma_rank_monotone(bitmap, f, g);
                lemma_rank_monotone(bitmap, g, 32);
            }
        }
    }
    lemma_same_bits(bitmap, 1u32 << f);
}

/// The bitmap with one bit set.
pub proof fn lemma_one_slot(f: u32)
    requires
        f < 32,
    ensures
        forall|g: u32| #[trigger] has_bit(1u32 << f, g) == (g == f),
        rank(1u32 << f, f) == 0,
        popcount(1u32 << f) == 1,
        1u32 << f != 0,
{
    assert forall|g: u32| #[trigger] has_bit(1u32 << f, g) == (g == f) by {
        lemma_bit_edits(0, f, g);
    }
    assert(0u32 | (1u32 << f) == 1u32 << f) by (bit_vector);
    lemma_bit_edits(0, f, f);
    lemma_rank_empty(f);
    lemma_rank_empty(32);
    lemma_rank_set(0, f, f);
    lemma_rank_set(0, f, 32);
    assert(1u32 << f != 0) by (bit_vector)
        requires
            f < 32,
    ;
}

/// The bitmap with two bits set.
pub proof fn lemma_two_slots(fa: u32, fb: u32)
    requires
        fa < fb < 32,
    ensures
        forall|g: u32| #[trigger] has_bit((1u32 << fa) | (1u32 << fb), g) == (g == fa || g == fb),
        rank((1u32 << fa) | (1u32 << fb), fa) == 0,
        rank((1u32 << fa) | (1u32 << fb), fb) == 1,
        popcount((1u32 << fa) | (1u32 << fb)) == 2,
        (1u32 << fa) | (1u32 << fb) != 0,
        (1u32 << fa) | (1u32 << fb) == (1u32 << fb) | (1u32 << fa),
{
    let one = 1u32 << fa;
    lemma_one_slot(fa);
    assert forall|g: u32| #[trigger] has_bit(one | (1u32 << fb), g) == (g == fa || g == fb) by {
        lemma_bit_edits(one, fb, g);
        assert(has_bit(one, g) == (g == fa));
    }
    assert(!has_bit(one, fb));
    lemma_rank_set(one, fb, fa);
    lemma_rank_set(one, fb, fb);
    lemma_rank_set(one, fb, 32);
    lemma_rank_monotone(one, fa, fb);
    lemma_rank_monotone(one, fb, 32);
    assert(has_bit(one, fa));
    assert(one | (1u32 << fb) != 0 && one | (1u32 << fb) == (1u32 << fb) | one) by (bit_vector)
        requires
            fb < 32,
    ;
}

/// The empty bitmap has no set bit; any other bitmap has one.
pub proof fn lemma_popcount_zero(bitmap: u32)
    ensures
        bitmap == 0 ==> popcount(bitmap) == 0,
        bitmap != 0 ==> popcount(bitmap) >= 1,
        bitmap != 0 ==> exists|g: u32| has_bit(bitmap, g),
{
    if bitmap == 0 {
        lemma_rank_empty(32);
    } else {
        let g = lemma_some_bit(bitmap);
        lemma_rank_monotone(bitmap, g, 32);
    }
}

proof fn lemma_rank_empty(pos: u32)
    ensures
        rank(0u32, pos) == 0,
    decreases pos,
{
    if pos > 0 {
        lemma_rank_empty((pos - 1) as u32);
        lemma_bit_edits(0, 0, (pos - 1) as u32);
    }
}

/// A non-zero bitmap has a set bit: its lowest one.
proof fn lemma_some_bit(bitmap: u32) -> (g: u32)
    requires
        bitmap != 0,
    ensures
        has_bit(bitmap, g),
{
    let g = choose|g: u32| g < 32 && (bitmap >> g) & 1 == 1;
    assert(exists|g: u32| g < 32 && (bitmap >> g) & 1 == 1) by {
        lemma_lowest_bit(bitmap);
    }
    g
}

proof fn lemma_lowest_bit(bitmap: u32)
    requires
        bitmap != 0,
    ensures
        exists|g: u32| g < 32 && (bitmap >> g) & 1 == 1,
{
    assert(bitmap >> 0u32 == bitmap) by (bit_vector);
    lemma_bit_from(bitmap, 0);
}

/// If something is left of `bitmap` above position `from`, a bit is set there.
proof fn lemma_bit_from(bitmap: u32, from: u32)
    requires
        from < 32,
        bitmap >> from != 0,
    ensures
        exists|g: u32| g < 32 && (bitmap >> g) & 1 == 1,
    decreases 32 - from,
{
    if (bitmap >> from) & 1 == 1 {
    } else {
        assert((bitmap >> ((from + 1) as u32)) != 0 && from < 31) by (bit_vector)
            requires
                from < 32,
                bitmap >> from != 0,
                (bitmap >> from) & 1 != 1,
        ;
        lemma_bit_from(bitmap, (from + 1) as u32);
    }
}

} // verus!
