//! The arenas of blocks, values, function references and function
//! definitions.
//!
//! Each arena is a `cranelift_entity::PrimaryMap` keyed by the matching
//! handle type. The verifier does not look inside the map: what an arena
//! holds is named by a specification function, and each operation on the map
//! is a small function whose contract is taken on trust from the map's
//! source.

use crate::entity::{Block, FunRef, FunctionIndex, Value};
use crate::fun::{BlockData, ValueType};
use crate::intern::FunctionIdent;
use crate::module::FunctionDefinition;
use cranelift_entity::PrimaryMap;
use vstd::prelude::*;

verus! {

/// The blocks of a function: a `PrimaryMap<Block, BlockData>`.
#[verifier::external_body]
pub struct BlockArena {
    inner: PrimaryMap<Block, BlockData>,
}

/// The values of a function: a `PrimaryMap<Value, ValueType>`.
#[verifier::external_body]
pub struct ValueArena {
    inner: PrimaryMap<Value, ValueType>,
}

/// The functions that a function refers to: a
/// `PrimaryMap<FunRef, FunctionIdent>`.
#[verifier::external_body]
pub struct FunRefArena {
    inner: PrimaryMap<FunRef, FunctionIdent>,
}

/// The definitions of a module: a `PrimaryMap<FunctionIndex, FunctionDefinition>`.
#[verifier::external_body]
pub struct FunctionArena {
    inner: PrimaryMap<FunctionIndex, FunctionDefinition>,
}

/// The elements of the map, in the order of their keys.
pub uninterp spec fn block_arena_items(arena: BlockArena) -> Seq<BlockData>;

/// The elements of the map, in the order of their keys.
pub uninterp spec fn value_arena_items(arena: ValueArena) -> Seq<ValueType>;

/// The elements of the map, in the order of their keys.
pub uninterp spec fn fun_ref_arena_items(arena: FunRefArena) -> Seq<FunctionIdent>;

/// The elements of the map, in the order of their keys.
pub uninterp spec fn function_arena_items(arena: FunctionArena) -> Seq<FunctionDefinition>;

/// `PrimaryMap::new`: the new map has no elements.
#[verifier::external_body]
pub(crate) fn block_arena_new() -> (arena: BlockArena)
    ensures
        block_arena_items(arena) == Seq::<BlockData>::empty(),
{
    BlockArena { inner: PrimaryMap::new() }
}

/// `PrimaryMap::len`: the number of elements.
#[verifier::external_body]
pub(crate) fn block_arena_len(arena: &BlockArena) -> (n: usize)
    ensures
        n == block_arena_items(*arena).len(),
{
    arena.inner.len()
}

/// `PrimaryMap::push`: appends the element and returns the key made from the
/// length before the call. The key type holds 32 bits, so the length must be
/// below `u32::MAX`.
#[verifier::external_body]
pub(crate) fn block_arena_push(arena: &mut BlockArena, data: BlockData) -> (key: Block)
    requires
        block_arena_items(*old(arena)).len() < u32::MAX,
    ensures
        block_arena_items(*final(arena)) == block_arena_items(*old(arena)).push(data),
        key.idx() == block_arena_items(*old(arena)).len(),
{
    arena.inner.push(data)
}

/// `PrimaryMap`'s `Index`: the element at the key's position. Indexing with a
/// key beyond the length panics, so such keys are left out.
#[verifier::external_body]
pub(crate) fn block_arena_get(arena: &BlockArena, key: Block) -> (data: &BlockData)
    requires
        key.idx() < block_arena_items(*arena).len(),
    ensures
        *data == block_arena_items(*arena)[key.idx()],
{
    &arena.inner[key]
}

/// `PrimaryMap`'s `IndexMut`: a mutable borrow of the element at the key's
/// position; the other elements stay as they are.
#[verifier::external_body]
pub(crate) fn block_arena_get_mut(arena: &mut BlockArena, key: Block) -> (data: &mut BlockData)
    requires
        key.idx() < block_arena_items(*old(arena)).len(),
    ensures
        *data == block_arena_items(*old(arena))[key.idx()],
        block_arena_items(*final(arena)) == block_arena_items(*old(arena)).update(
            key.idx(),
            *final(data),
        ),
{
    &mut arena.inner[key]
}

/// `PrimaryMap::new`: the new map has no elements.
#[verifier::external_body]
pub(crate) fn value_arena_new() -> (arena: ValueArena)
    ensures
        value_arena_items(arena) == Seq::<ValueType>::empty(),
{
    ValueArena { inner: PrimaryMap::new() }
}

/// `PrimaryMap::len`: the number of elements.
#[verifier::external_body]
pub(crate) fn value_arena_len(arena: &ValueArena) -> (n: usize)
    ensures
        n == value_arena_items(*arena).len(),
{
    arena.inner.len()
}

/// `PrimaryMap::push`: appends the element and returns the key made from the
/// length before the call. The key type holds 32 bits, so the length must be
/// below `u32::MAX`.
#[verifier::external_body]
pub(crate) fn value_arena_push(arena: &mut ValueArena, data: ValueType) -> (key: Value)
    requires
        value_arena_items(*old(arena)).len() < u32::MAX,
    ensures
        value_arena_items(*final(arena)) == value_arena_items(*old(arena)).push(data),
        key.idx() == value_arena_items(*old(arena)).len(),
{
    arena.inner.push(data)
}

/// `PrimaryMap`'s `Index`: the element at the key's position. Indexing with a
/// key beyond the length panics, so such keys are left out.
#[verifier::external_body]
pub(crate) fn value_arena_get(arena: &ValueArena, key: Value) -> (data: &ValueType)
    requires
        key.idx() < value_arena_items(*arena).len(),
    ensures
        *data == value_arena_items(*arena)[key.idx()],
{
    &arena.inner[key]
}

/// `PrimaryMap`'s `IndexMut`: a mutable borrow of the element at the key's
/// position; the other elements stay as they are.
#[verifier::external_body]
pub(crate) fn value_arena_get_mut(arena: &mut ValueArena, key: Value) -> (data: &mut ValueType)
    requires
        key.idx() < value_arena_items(*old(arena)).len(),
    ensures
        *data == value_arena_items(*old(arena))[key.idx()],
        value_arena_items(*final(arena)) == value_arena_items(*old(arena)).update(
            key.idx(),
            *final(data),
        ),
{
    &mut arena.inner[key]
}

/// `PrimaryMap::new`: the new map has no elements.
#[verifier::external_body]
pub(crate) fn fun_ref_arena_new() -> (arena: FunRefArena)
    ensures
        fun_ref_arena_items(arena) == Seq::<FunctionIdent>::empty(),
{
    FunRefArena { inner: PrimaryMap::new() }
}

/// `PrimaryMap::len`: the number of elements.
#[verifier::external_body]
pub(crate) fn fun_ref_arena_len(arena: &FunRefArena) -> (n: usize)
    ensures
        n == fun_ref_arena_items(*arena).len(),
{
    arena.inner.len()
}

/// `PrimaryMap::push`: appends the element and returns the key made from the
/// length before the call. The key type holds 32 bits, so the length must be
/// below `u32::MAX`.
#[verifier::external_body]
pub(crate) fn fun_ref_arena_push(arena: &mut FunRefArena, ident: FunctionIdent) -> (key: FunRef)
    requires
        fun_ref_arena_items(*old(arena)).len() < u32::MAX,
    ensures
        fun_ref_arena_items(*final(arena)) == fun_ref_arena_items(*old(arena)).push(ident),
        key.idx() == fun_ref_arena_items(*old(arena)).len(),
{
    arena.inner.push(ident)
}

/// `PrimaryMap`'s `Index`: the element at the key's position. Indexing with a
/// key beyond the length panics, so such keys are left out.
#[verifier::external_body]
pub(crate) fn fun_ref_arena_get(arena: &FunRefArena, key: FunRef) -> (ident: &FunctionIdent)
    requires
        key.idx() < fun_ref_arena_items(*arena).len(),
    ensures
        *ident == fun_ref_arena_items(*arena)[key.idx()],
{
    &arena.inner[key]
}

/// `PrimaryMap::new`: the new map has no elements.
#[verifier::external_body]
pub(crate) fn function_arena_new() -> (arena: FunctionArena)
    ensures
        function_arena_items(arena) == Seq::<FunctionDefinition>::empty(),
{
    FunctionArena { inner: PrimaryMap::new() }
}

/// `PrimaryMap::len`: the number of elements.
#[verifier::external_body]
pub(crate) fn function_arena_len(arena: &FunctionArena) -> (n: usize)
    ensures
        n == function_arena_items(*arena).len(),
{
    arena.inner.len()
}

/// `PrimaryMap::push`: appends the element and returns the key made from the
/// length before the call. The key type holds 32 bits, so the length must be
/// below `u32::MAX`.
#[verifier::external_body]
pub(crate) fn function_arena_push(arena: &mut FunctionArena, def: FunctionDefinition) -> (key:
    FunctionIndex)
    requires
        function_arena_items(*old(arena)).len() < u32::MAX,
    ensures
        function_arena_items(*final(arena)) == function_arena_items(*old(arena)).push(def),
        key.idx() == function_arena_items(*old(arena)).len(),
{
    arena.inner.push(def)
}

/// `PrimaryMap`'s `Index`: the element at the key's position. Indexing with a
/// key beyond the length panics, so such keys are left out.
#[verifier::external_body]
pub(crate) fn function_arena_get(arena: &FunctionArena, key: FunctionIndex) -> (def:
    &FunctionDefinition)
    requires
        key.idx() < function_arena_items(*arena).len(),
    ensures
        *def == function_arena_items(*arena)[key.idx()],
{
    &arena.inner[key]
}

/// `PrimaryMap`'s `IndexMut`: a mutable borrow of the element at the key's
/// position; the other elements stay as they are.
#[verifier::external_body]
pub(crate) fn function_arena_get_mut(arena: &mut FunctionArena, key: FunctionIndex) -> (def:
    &mut FunctionDefinition)
    requires
        key.idx() < function_arena_items(*old(arena)).len(),
    ensures
        *def == function_arena_items(*old(arena))[key.idx()],
        function_arena_items(*final(arena)) == function_arena_items(*old(arena)).update(
            key.idx(),
            *final(def),
        ),
{
    &mut arena.inner[key]
}

/// `PrimaryMap::values_mut`: mutable borrows of all elements, in the order
/// of their keys. The map keeps its length, and each element ends as its
/// borrow ends.
#[verifier::external_body]
pub(crate) fn function_arena_values_mut(arena: &mut FunctionArena) -> (defs: Vec<
    &mut FunctionDefinition,
>)
    ensures
        defs@.len() == function_arena_items(*old(arena)).len(),
        forall|i: int|
            0 <= i < defs@.len() ==> *(#[trigger] defs@[i]) == function_arena_items(
                *old(arena),
            )[i],
        function_arena_items(*final(arena)).len() == defs@.len(),
        forall|i: int|
            0 <= i < defs@.len() ==> #[trigger] function_arena_items(*final(arena))[i]
                == *final(defs@[i]),
{
    arena.inner.values_mut().collect()
}

} // verus!
