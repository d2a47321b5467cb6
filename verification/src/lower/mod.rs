//! Lowering of surface syntax to the intermediate representation.

pub mod ast;
pub mod exception;
pub mod pattern;
pub mod scope;

use crate::entity::Value;
use crate::intern::Ident;
use crate::lower::exception::ExceptionHandlerStack;
use crate::lower::scope::{scope_bound, scope_lookup, ScopeTracker};
use vstd::prelude::*;

verus! {

/// An error that the lowering reports and recovers from.
#[derive(Debug, Copy, Clone, PartialEq, Eq, Structural)]
pub enum LowerError {
    /// A variable was read that no scope binds.
    UnboundVariable(Ident),
}

/// The state that surrounds the lowering of a clause: the scope stack, the
/// stack of exception handlers, and the errors reported so far.
pub struct LowerCtx {
    pub scope: ScopeTracker,
    pub exc_stack: ExceptionHandlerStack,
    pub errors: Vec<LowerError>,
}

impl LowerCtx {
    /// A context with one empty scope frame, no handlers and no errors.
    pub fn new() -> (r: Self)
        ensures
            r.scope@.len() == 1,
            r.scope@[0].len() == 0,
            r.exc_stack@.len() == 0,
            r.errors@.len() == 0,
    {
        LowerCtx { scope: ScopeTracker::new(), exc_stack: ExceptionHandlerStack::new(), errors: Vec::new() }
    }

    /// Binds `name` to `value` in the innermost scope frame.
    pub fn bind(&mut self, name: Ident, value: Value)
        requires
            old(self).scope@.len() > 0,
        ensures
            final(self).scope@ == scope_bound(old(self).scope@, name.name, value),
            final(self).exc_stack == old(self).exc_stack,
            final(self).errors == old(self).errors,
    {
        self.scope.bind(name, value);
    }

    /// The value that `name` is bound to, if it is bound.
    pub fn resolve(&self, name: Ident) -> (r: Option<Value>)
        ensures
            r == scope_lookup(self.scope@, name.name),
    {
        self.scope.resolve(name)
    }
}

} // verus!
