//! Typed 32-bit handles into the arenas of a function and of a module.

use cranelift_entity::EntityRef;
use vstd::prelude::*;

verus! {

/// Block/continuation.
#[derive(Copy, Clone, Debug, PartialEq, Eq, Structural, Hash, PartialOrd, Ord)]
pub struct Block(pub u32);

/// Either an SSA variable, an abstraction or a constant.
#[derive(Copy, Clone, Debug, PartialEq, Eq, Structural, Hash, PartialOrd, Ord)]
pub struct Value(pub u32);

/// Reference to another function.
#[derive(Copy, Clone, Debug, PartialEq, Eq, Structural, Hash, PartialOrd, Ord)]
pub struct FunRef(pub u32);

/// Stable handle of a function definition inside a module.
#[derive(Copy, Clone, Debug, PartialEq, Eq, Structural, Hash, PartialOrd, Ord)]
pub struct FunctionIndex(pub u32);

impl EntityRef for Block {
    /// The handle with the given index. An index beyond 32 bits is cut off.
    #[verifier::truncate]
    fn new(index: usize) -> (r: Self)
        ensures
            index <= u32::MAX ==> r.0 == index,
    {
        Block(index as u32)
    }

    fn index(self) -> (r: usize)
        ensures
            r == self.0,
    {
        self.0 as usize
    }
}

impl EntityRef for Value {
    /// The handle with the given index. An index beyond 32 bits is cut off.
    #[verifier::truncate]
    fn new(index: usize) -> (r: Self)
        ensures
            index <= u32::MAX ==> r.0 == index,
    {
        Value(index as u32)
    }

    fn index(self) -> (r: usize)
        ensures
            r == self.0,
    {
        self.0 as usize
    }
}

impl EntityRef for FunRef {
    /// The handle with the given index. An index beyond 32 bits is cut off.
    #[verifier::truncate]
    fn new(index: usize) -> (r: Self)
        ensures
            index <= u32::MAX ==> r.0 == index,
    {
        FunRef(index as u32)
    }

    fn index(self) -> (r: usize)
        ensures
            r == self.0,
    {
        self.0 as usize
    }
}

impl EntityRef for FunctionIndex {
    /// The handle with the given index. An index beyond 32 bits is cut off.
    #[verifier::truncate]
    fn new(index: usize) -> (r: Self)
        ensures
            index <= u32::MAX ==> r.0 == index,
    {
        FunctionIndex(index as u32)
    }

    fn index(self) -> (r: usize)
        ensures
            r == self.0,
    {
        self.0 as usize
    }
}

impl Block {
    /// Position of the block in its arena.
    pub open spec fn idx(self) -> int {
        self.0 as int
    }

    pub fn from_u32(x: u32) -> (r: Block)
        ensures
            r == Block(x),
    {
        Block(x)
    }

    pub fn as_u32(self) -> (r: u32)
        ensures
            r == self.0,
    {
        self.0
    }
}

impl Value {
    /// Position of the value in its arena.
    pub open spec fn idx(self) -> int {
        self.0 as int
    }

    pub fn from_u32(x: u32) -> (r: Value)
        ensures
            r == Value(x),
    {
        Value(x)
    }

    pub fn as_u32(self) -> (r: u32)
        ensures
            r == self.0,
    {
        self.0
    }
}

impl FunRef {
    /// Position of the reference in its arena.
    pub open spec fn idx(self) -> int {
        self.0 as int
    }

    pub fn from_u32(x: u32) -> (r: FunRef)
        ensures
            r == FunRef(x),
    {
        FunRef(x)
    }

    pub fn as_u32(self) -> (r: u32)
        ensures
            r == self.0,
    {
        self.0
    }
}

impl FunctionIndex {
    /// Position of the definition in its module.
    pub open spec fn idx(self) -> int {
        self.0 as int
    }

    /// The handle of the definition at position `index`.
    pub open spec fn at(index: nat) -> FunctionIndex {
        FunctionIndex(index as u32)
    }

    /// The handle of the definition at position `index`.
    pub fn from_index(index: usize) -> (r: FunctionIndex)
        requires
            index <= u32::MAX,
        ensures
            r.idx() == index,
            r == Self::at(index as nat),
    {
        FunctionIndex(index as u32)
    }

    pub fn from_u32(x: u32) -> (r: FunctionIndex)
        ensures
            r == FunctionIndex(x),
    {
        FunctionIndex(x)
    }

    pub fn as_u32(self) -> (r: u32)
        ensures
            r == self.0,
    {
        self.0
    }
}

} // verus!
