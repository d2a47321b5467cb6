//! The stack of exception handlers of the lowering.

use crate::entity::Value;
use vstd::prelude::*;

verus! {

/// The handlers in force; the innermost is the last.
pub struct ExceptionHandlerStack {
    stack: Vec<Value>,
}

impl View for ExceptionHandlerStack {
    type V = Seq<Value>;

    closed spec fn view(&self) -> Seq<Value> {
        self.stack@
    }
}

impl ExceptionHandlerStack {
    /// A stack without handlers.
    pub fn new() -> (r: Self)
        ensures
            r@ == Seq::<Value>::empty(),
    {
        ExceptionHandlerStack { stack: Vec::new() }
    }

    /// Puts `handler` in force.
    pub fn push_handler(&mut self, handler: Value)
        ensures
            final(self)@ == old(self)@.push(handler),
    {
        self.stack.push(handler);
    }

    /// Removes the innermost handler.
    pub fn pop_handler(&mut self)
        requires
            old(self)@.len() > 0,
        ensures
            final(self)@ == old(self)@.drop_last(),
    {
        self.stack.pop();
    }

    /// The innermost handler, if one is in force.
    pub fn top(&self) -> (r: Option<Value>)
        ensures
            r == if self@.len() > 0 {
                Some(self@.last())
            } else {
                None
            },
    {
        let n = self.stack.len();
        if n > 0 {
            Some(self.stack[n - 1])
        } else {
            None
        }
    }

    /// The number of handlers in force.
    pub fn len(&self) -> (r: usize)
        ensures
            r == self@.len(),
    {
        self.stack.len()
    }
}

} // verus!
