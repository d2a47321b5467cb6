//! Operation kinds.

use crate::intern::Symbol;
use vstd::prelude::*;

verus! {

/// The operation that terminates a block. The operands are the block's
/// reads.
#[derive(Copy, Clone, Debug, PartialEq, Eq, Structural, Hash)]
pub enum OpKind {
    /// Transfers control to the first read, passing the rest as arguments.
    Call,
    /// Captures the function named by reads 1 to 3 (module, name, arity) and
    /// passes it to the continuation in read 0.
    CaptureFunction,
    /// A named intrinsic. Read 0 is the continuation that receives the result.
    Intrinsic(Symbol),
    /// Control never reaches the end of this block.
    Unreachable,
}

} // verus!
