//! What this crate relies on from the `safe_bump` arenas.
//!
//! Nothing in this file is proved: each contract restates what the arena's
//! source does, and the rest of the crate is verified against them.
use crate::node::Node;
use safe_bump::{Arena, Checkpoint, Idx, SharedArena};
use vstd::prelude::*;

verus! {

/// `safe_bump::Arena`, the arena of a single thread, as a type that the
/// verifier carries around without looking inside.
#[verifier::external_type_specification]
#[verifier::external_body]
#[verifier::reject_recursive_types(T)]
pub struct ExArena<T>(Arena<T>);

/// `safe_bump::SharedArena`, the arena on chunks that never move, as a type
/// that the verifier carries around without looking inside.
#[verifier::external_type_specification]
#[verifier::external_body]
#[verifier::reject_recursive_types(T)]
pub struct ExSharedArena<T>(SharedArena<T>);

/// Largest number of items a `SharedArena` can hold: its 32 chunks of
/// doubling size end at offset `2^32 - 2`.
pub const SHARED_LIMIT: usize = 0xFFFF_FFFF;

/// The nodes in an arena, in allocation order.
pub uninterp spec fn node_items(arena: Arena<Node>) -> Seq<Node>;

/// The child indices in an arena, in allocation order.
pub uninterp spec fn slot_items(arena: Arena<usize>) -> Seq<usize>;

/// The nodes in a shared arena, in allocation order.
pub uninterp spec fn shared_node_items(arena: SharedArena<Node>) -> Seq<Node>;

/// The child indices in a shared arena, in allocation order.
pub uninterp spec fn shared_slot_items(arena: SharedArena<usize>) -> Seq<usize>;

/// `Arena::new` makes an arena without items.
#[verifier::external_body]
pub(crate) fn node_arena_new() -> (arena: Arena<Node>)
    ensures
        node_items(arena) == Seq::<Node>::empty(),
{
    Arena::new()
}

/// `Arena::alloc` appends the value and returns the offset it was put at,
/// which is the number of items before the call.
#[verifier::external_body]
pub(crate) fn node_arena_alloc(arena: &mut Arena<Node>, node: Node) -> (idx: usize)
    ensures
        node_items(*final(arena)) == node_items(*old(arena)).push(node),
        idx == node_items(*old(arena)).len(),
{
    arena.alloc(node).into_raw()
}

/// `Arena::get` returns the item at an offset below the length; it panics
/// on any other offset.
#[verifier::external_body]
pub(crate) fn node_arena_get(arena: &Arena<Node>, idx: usize) -> (node: &Node)
    requires
        idx < node_items(*arena).len(),
    ensures
        *node == node_items(*arena)[idx as int],
{
    arena.get(Idx::from_raw(idx))
}

/// `Arena::len` returns the number of items.
#[verifier::external_body]
pub(crate) fn node_arena_len(arena: &Arena<Node>) -> (len: usize)
    ensures
        len == node_items(*arena).len(),
{
    arena.len()
}

/// `Arena::rollback` keeps the first `len` items and drops the rest; it
/// panics when `len` is beyond the current length.
#[verifier::external_body]
pub(crate) fn node_arena_rollback(arena: &mut Arena<Node>, len: usize)
    requires
        len <= node_items(*old(arena)).len(),
    ensures
        node_items(*final(arena)) == node_items(*old(arena)).take(len as int),
{
    arena.rollback(Checkpoint::from_len(len))
}

/// `Arena::new` makes an arena without items.
#[verifier::external_body]
pub(crate) fn slot_arena_new() -> (arena: Arena<usize>)
    ensures
        slot_items(arena) == Seq::<usize>::empty(),
{
    Arena::new()
}

/// `Arena::alloc_extend` appends the batch in order, contiguously, and
/// returns the offset of its first item, or `None` for an empty batch.
#[verifier::external_body]
pub(crate) fn slot_arena_extend(arena: &mut Arena<usize>, batch: Vec<usize>) -> (start: Option<
    usize,
>)
    ensures
        slot_items(*final(arena)) == slot_items(*old(arena)) + batch@,
        start == if batch@.len() == 0 {
            None
        } else {
            Some(slot_items(*old(arena)).len() as usize)
        },
{
    arena.alloc_extend(batch).map(Idx::into_raw)
}

/// `Arena::get` returns the item at an offset below the length; it panics
/// on any other offset.
#[verifier::external_body]
pub(crate) fn slot_arena_get(arena: &Arena<usize>, idx: usize) -> (slot: &usize)
    requires
        idx < slot_items(*arena).len(),
    ensures
        *slot == slot_items(*arena)[idx as int],
{
    arena.get(Idx::from_raw(idx))
}

/// `Arena::len` returns the number of items.
#[verifier::external_body]
pub(crate) fn slot_arena_len(arena: &Arena<usize>) -> (len: usize)
    ensures
        len == slot_items(*arena).len(),
{
    arena.len()
}

/// `Arena::rollback` keeps the first `len` items and drops the rest; it
/// panics when `len` is beyond the current length.
#[verifier::external_body]
pub(crate) fn slot_arena_rollback(arena: &mut Arena<usize>, len: usize)
    requires
        len <= slot_items(*old(arena)).len(),
    ensures
        slot_items(*final(arena)) == slot_items(*old(arena)).take(len as int),
{
    arena.rollback(Checkpoint::from_len(len))
}

/// `SharedArena::new` makes an arena without items.
#[verifier::external_body]
pub(crate) fn shared_node_arena_new() -> (arena: SharedArena<Node>)
    ensures
        shared_node_items(arena) == Seq::<Node>::empty(),
{
    SharedArena::new()
}

/// `SharedArena::alloc`, with no other thread allocating, appends the value
/// and returns the offset it was put at. It panics past the last chunk.
#[verifier::external_body]
pub(crate) fn shared_node_arena_alloc(arena: &mut SharedArena<Node>, node: Node) -> (idx: usize)
    requires
        shared_node_items(*old(arena)).len() < SHARED_LIMIT,
    ensures
        shared_node_items(*final(arena)) == shared_node_items(*old(arena)).push(node),
        idx == shared_node_items(*old(arena)).len(),
{
    arena.alloc(node).into_raw()
}

/// `SharedArena::get` returns the item at an offset below the length; it
/// panics on any other offset.
#[verifier::external_body]
pub(crate) fn shared_node_arena_get(arena: &SharedArena<Node>, idx: usize) -> (node: &Node)
    requires
        idx < shared_node_items(*arena).len(),
    ensures
        *node == shared_node_items(*arena)[idx as int],
{
    arena.get(Idx::from_raw(idx))
}

/// `SharedArena::len` returns the number of items.
#[verifier::external_body]
pub(crate) fn shared_node_arena_len(arena: &SharedArena<Node>) -> (len: usize)
    ensures
        len == shared_node_items(*arena).len(),
{
    arena.len()
}

/// `SharedArena::rollback` keeps the first `len` items and drops the rest;
/// it panics when `len` is beyond the current length.
#[verifier::external_body]
pub(crate) fn shared_node_arena_rollback(arena: &mut SharedArena<Node>, len: usize)
    requires
        len <= shared_node_items(*old(arena)).len(),
    ensures
        shared_node_items(*final(arena)) == shared_node_items(*old(arena)).take(len as int),
{
    arena.rollback(Checkpoint::from_len(len))
}

/// `SharedArena::new` makes an arena without items.
#[verifier::external_body]
pub(crate) fn shared_slot_arena_new() -> (arena: SharedArena<usize>)
    ensures
        shared_slot_items(arena) == Seq::<usize>::empty(),
{
    SharedArena::new()
}

/// `SharedArena::alloc_extend`, with no other thread allocating, appends the
/// batch in order, contiguously, and returns the offset of its first item,
/// or `None` for an empty batch. It panics past the last chunk.
#[verifier::external_body]
pub(crate) fn shared_slot_arena_extend(arena: &mut SharedArena<usize>, batch: Vec<usize>) -> (start:
    Option<usize>)
    requires
        shared_slot_items(*old(arena)).len() + batch@.len() <= SHARED_LIMIT,
    ensures
        shared_slot_items(*final(arena)) == shared_slot_items(*old(arena)) + batch@,
        start == if batch@.len() == 0 {
            None
        } else {
            Some(shared_slot_items(*old(arena)).len() as usize)
        },
{
    arena.alloc_extend(batch).map(Idx::into_raw)
}

/// `SharedArena::get` returns the item at an offset below the length; it
/// panics on any other offset.
#[verifier::external_body]
pub(crate) fn shared_slot_arena_get(arena: &SharedArena<usize>, idx: usize) -> (slot: &usize)
    requires
        idx < shared_slot_items(*arena).len(),
    ensures
        *slot == shared_slot_items(*arena)[idx as int],
{
    arena.get(Idx::from_raw(idx))
}

/// `SharedArena::len` returns the number of items.
#[verifier::external_body]
pub(crate) fn shared_slot_arena_len(arena: &SharedArena<usize>) -> (len: usize)
    ensures
        len == shared_slot_items(*arena).len(),
{
    arena.len()
}

/// `SharedArena::rollback` keeps the first `len` items and drops the rest;
/// it panics when `len` is beyond the current length.
#[verifier::external_body]
pub(crate) fn shared_slot_arena_rollback(arena: &mut SharedArena<usize>, len: usize)
    requires
        len <= shared_slot_items(*old(arena)).len(),
    ensures
        shared_slot_items(*final(arena)) == shared_slot_items(*old(arena)).take(len as int),
{
    arena.rollback(Checkpoint::from_len(len))
}

} // verus!
