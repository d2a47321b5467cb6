//! Constant terms.

use crate::intern::Symbol;
use vstd::prelude::*;

verus! {

/// An atomic constant term. Constants are compared structurally.
#[derive(Copy, Clone, Debug, PartialEq, Eq, Structural, Hash)]
pub enum ConstantTerm {
    Nil,
    Int(i64),
    Atom(Symbol),
}

impl ConstantTerm {
    /// The atom that stands for the given truth value.
    pub open spec fn bool_spec(value: bool) -> ConstantTerm {
        if value {
            ConstantTerm::Atom(Symbol(crate::intern::SYM_TRUE))
        } else {
            ConstantTerm::Atom(Symbol(crate::intern::SYM_FALSE))
        }
    }

    pub fn from_bool(value: bool) -> (r: ConstantTerm)
        ensures
            r == Self::bool_spec(value),
    {
        if value {
            ConstantTerm::Atom(Symbol(crate::intern::SYM_TRUE))
        } else {
            ConstantTerm::Atom(Symbol(crate::intern::SYM_FALSE))
        }
    }
}

} // verus!
