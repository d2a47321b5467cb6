//! The surface syntax that the lowering of clauses consumes.

use crate::constant::ConstantTerm;
use crate::intern::{Ident, Symbol};
use vstd::prelude::*;

verus! {

/// A surface pattern.
#[derive(Debug)]
pub enum Pattern {
    /// `_`: matches every term and binds nothing.
    Wildcard,
    /// A variable.
    Var(Ident),
    /// A literal constant.
    Literal(ConstantTerm),
    /// A tuple pattern: `{Left, ..., Right}`.
    Tuple(Vec<Pattern>),
    /// `[Head | Tail]`.
    Cons(Box<Pattern>, Box<Pattern>),
    /// `Left = Right`: both patterns must match the same term.
    Match(Box<Pattern>, Box<Pattern>),
}

/// An operand of a guard test.
#[derive(Debug, Copy, Clone, PartialEq, Eq, Structural)]
pub enum GuardOperand {
    Var(Ident),
    Literal(ConstantTerm),
}

/// One condition of a guard: a call of the function `module:name` on the
/// operands.
#[derive(Debug)]
pub struct GuardTest {
    pub module: Symbol,
    pub name: Symbol,
    pub args: Vec<GuardOperand>,
}

/// A conjunction of conditions. A guard sequence is a disjunction of
/// guards.
#[derive(Debug)]
pub struct Guard {
    pub conditions: Vec<GuardTest>,
}

} // verus!
