//! Builders of the blocks that a path copy allocates: a block is never
//! changed in place, it is copied with the edit applied.
use crate::node::{offset, Entry};
use crate::store::ChampStore;
use vstd::prelude::*;

verus! {

/// Whether cloning a `T` gives back an equal value.
pub open spec fn exact_clone<T: Clone>() -> bool {
    forall|a: T, b: T| #[trigger] call_ensures(T::clone, (&a,), b) ==> a == b
}

/// A block of `len` entries that starts at `start`.
pub open spec fn entry_block<K, V>(entries: Seq<Entry<K, V>>, start: usize, len: usize) -> Seq<
    Entry<K, V>,
> {
    entries.subrange(start as int, start + len)
}

/// A block of `len` child indices that starts at `start`.
pub open spec fn child_block(children: Seq<usize>, start: usize, len: usize) -> Seq<usize> {
    children.subrange(start as int, start + len)
}

/// Copies the entry at `idx` out of the store.
pub fn clone_entry<K: Clone, V: Clone, S: ChampStore<K, V>>(store: &S, idx: usize) -> (entry:
    Entry<K, V>)
    requires
        exact_clone::<K>(),
        exact_clone::<V>(),
        idx < store@.entries.len(),
    ensures
        entry == store@.entries[idx as int],
{
    let e = store.get_entry(idx);
    Entry { hash: e.hash, key: e.key.clone(), value: e.value.clone() }
}

/// The block `[start, start + len)` of entries with `entry` put in before
/// position `at`.
#[verifier::loop_isolation(false)]
pub fn build_entries_inserting<K: Clone, V: Clone, S: ChampStore<K, V>>(
    store: &S,
    start: usize,
    len: usize,
    at: usize,
    entry: Entry<K, V>,
) -> (out: Vec<Entry<K, V>>)
    requires
        exact_clone::<K>(),
        exact_clone::<V>(),
        store@.fits(),
        start + len <= store@.entries.len(),
        at <= len,
    ensures
        out@ == entry_block(store@.entries, start, len).insert(at as int, entry),
{
    let ghost block = entry_block(store@.entries, start, len);
    let mut out = Vec::new();
    let mut i: usize = 0;
    while i < at
        invariant
            i <= at,
            out@ == block.take(i as int),
        decreases at - i,
    {
        out.push(clone_entry(store, offset(start, i)));
        assert(out@ =~= block.take(i + 1));
        i += 1;
    }
    out.push(entry);
    while i < len
        invariant
            at <= i <= len,
            out@ == block.take(at as int).push(entry) + block.subrange(at as int, i as int),
        decreases len - i,
    {
        out.push(clone_entry(store, offset(start, i)));
        assert(out@ =~= block.take(at as int).push(entry) + block.subrange(at as int, i + 1));
        i += 1;
    }
    assert(out@ =~= block.insert(at as int, entry));
    out
}

/// The block `[start, start + len)` of entries with `entry` in place of the
/// one at position `at`.
#[verifier::loop_isolation(false)]
pub fn build_entries_replacing<K: Clone, V: Clone, S: ChampStore<K, V>>(
    store: &S,
    start: usize,
    len: usize,
    at: usize,
    entry: Entry<K, V>,
) -> (out: Vec<Entry<K, V>>)
    requires
        exact_clone::<K>(),
        exact_clone::<V>(),
        store@.fits(),
        start + len <= store@.entries.len(),
        at < len,
    ensures
        out@ == entry_block(store@.entries, start, len).update(at as int, entry),
{
    let ghost block = entry_block(store@.entries, start, len);
    let mut out = Vec::new();
    let mut i: usize = 0;
    while i < at
        invariant
            i <= at,
            out@ == block.take(i as int),
        decreases at - i,
    {
        out.push(clone_entry(store, offset(start, i)));
        assert(out@ =~= block.take(i + 1));
        i += 1;
    }
    out.push(entry);
    i = at + 1;
    while i < len
        invariant
            at < i <= len,
            out@ == block.take(at as int).push(entry) + block.subrange(at + 1, i as int),
        decreases len - i,
    {
        out.push(clone_entry(store, offset(start, i)));
        assert(out@ =~= block.take(at as int).push(entry) + block.subrange(at + 1, i + 1));
        i += 1;
    }
    assert(out@ =~= block.update(at as int, entry));
    out
}

/// The block `[start, start + len)` of entries without the one at position
/// `at`.
#[verifier::loop_isolation(false)]
pub fn build_entries_removing<K: Clone, V: Clone, S: ChampStore<K, V>>(
    store: &S,
    start: usize,
    len: usize,
    at: usize,
) -> (out: Vec<Entry<K, V>>)
    requires
        exact_clone::<K>(),
        exact_clone::<V>(),
        store@.fits(),
        start + len <= store@.entries.len(),
        at < len,
    ensures
        out@ == entry_block(store@.entries, start, len).remove(at as int),
{
    let ghost block = entry_block(store@.entries, start, len);
    let mut out = Vec::new();
    let mut i: usize = 0;
    while i < len
        invariant
            i <= len,
            out@ == if i <= at {
                block.take(i as int)
            } else {
                block.take(at as int) + block.subrange(at + 1, i as int)
            },
        decreases len - i,
    {
        if i != at {
            out.push(clone_entry(store, offset(start, i)));
        }
        assert(out@ =~= if i + 1 <= at {
            block.take(i + 1)
        } else {
            block.take(at as int) + block.subrange(at + 1, i + 1)
        });
        i += 1;
    }
    assert(out@ =~= block.remove(at as int));
    out
}

/// The block `[start, start + len)` of child indices with `child` put in
/// before position `at`.
#[verifier::loop_isolation(false)]
pub fn build_children_inserting<K, V, S: ChampStore<K, V>>(
    store: &S,
    start: usize,
    len: usize,
    at: usize,
    child: usize,
) -> (out: Vec<usize>)
    requires
        store@.fits(),
        start + len <= store@.children.len(),
        at <= len,
    ensures
        out@ == child_block(store@.children, start, len).insert(at as int, child),
{
    let ghost block = child_block(store@.children, start, len);
    let mut out = Vec::new();
    let mut i: usize = 0;
    while i < at
        invariant
            i <= at,
            out@ == block.take(i as int),
        decreases at - i,
    {
        out.push(store.get_child(offset(start, i)));
        assert(out@ =~= block.take(i + 1));
        i += 1;
    }
    out.push(child);
    while i < len
        invariant
            at <= i <= len,
            out@ == block.take(at as int).push(child) + block.subrange(at as int, i as int),
        decreases len - i,
    {
        out.push(store.get_child(offset(start, i)));
        assert(out@ =~= block.take(at as int).push(child) + block.subrange(at as int, i + 1));
        i += 1;
    }
    assert(out@ =~= block.insert(at as int, child));
    out
}

/// The block `[start, start + len)` of child indices with `child` in place
/// of the one at position `at`.
#[verifier::loop_isolation(false)]
pub fn build_children_replacing<K, V, S: ChampStore<K, V>>(
    store: &S,
    start: usize,
    len: usize,
    at: usize,
    child: usize,
) -> (out: Vec<usize>)
    requires
        store@.fits(),
        start + len <= store@.children.len(),
        at < len,
    ensures
        out@ == child_block(store@.children, start, len).update(at as int, child),
{
    let ghost block = child_block(store@.children, start, len);
    let mut out = Vec::new();
    let mut i: usize = 0;
    while i < len
        invariant
            i <= len,
            out@ == if i <= at {
                block.take(i as int)
            } else {
                block.take(i as int).update(at as int, child)
            },
        decreases len - i,
    {
        if i == at {
            out.push(child);
        } else {
            out.push(store.get_child(offset(start, i)));
        }
        assert(out@ =~= if i + 1 <= at {
            block.take(i + 1)
        } else {
            block.take(i + 1).update(at as int, child)
        });
        i += 1;
    }
    assert(out@ =~= block.update(at as int, child));
    out
}

/// The block `[start, start + len)` of child indices without the one at
/// position `at`.
#[verifier::loop_isolation(false)]
pub fn build_children_removing<K, V, S: ChampStore<K, V>>(
    store: &S,
    start: usize,
    len: usize,
    at: usize,
) -> (out: Vec<usize>)
    requires
        store@.fits(),
        start + len <= store@.children.len(),
        at < len,
    ensures
        out@ == child_block(store@.children, start, len).remove(at as int),
{
    let ghost block = child_block(store@.children, start, len);
    let mut out = Vec::new();
    let mut i: usize = 0;
    while i < len
        invariant
            i <= len,
            out@ == if i <= at {
                block.take(i as int)
            } else {
                block.take(at as int) + block.subrange(at + 1, i as int)
            },
        decreases len - i,
    {
        if i != at {
            out.push(store.get_child(offset(start, i)));
        }
        assert(out@ =~= if i + 1 <= at {
            block.take(i + 1)
        } else {
            block.take(at as int) + block.subrange(at + 1, i + 1)
        });
        i += 1;
    }
    assert(out@ =~= block.remove(at as int));
    out
}

/// The start of a block that was allocated, or the reserved offset 0 for an
/// empty block, which the bitmap of its node keeps from ever being read.
pub fn alloc_or_sentinel(idx: Option<usize>) -> (start: usize)
    ensures
        start == match idx {
            Some(i) => i,
            None => 0,
        },
{
    match idx {
        Some(i) => i,
        None => 0,
    }
}

} // verus!
