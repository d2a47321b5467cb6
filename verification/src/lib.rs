//! Core of a continuation-passing intermediate representation: entity
//! arenas, the function container and its builder, the lambda mangler, the
//! module container and the lowering of pattern clauses.

pub mod arena;
pub mod constant;
pub mod entity;
pub mod fun;
pub mod intern;
pub mod lower;
pub mod module;
pub mod op;
pub mod pattern;

pub use crate::constant::ConstantTerm;
pub use crate::entity::{Block, FunRef, FunctionIndex, Value};
pub use crate::fun::builder::{FunctionBuilder, IntrinsicBuilder, ValueItem};
pub use crate::fun::graph::BlockGraph;
pub use crate::fun::mangle::{EntryArg, Mangler, RenameDest, RenameSource};
pub use crate::fun::{
    AttributeKey, AttributeValue, BlockData, Dialect, Function, ValueData, ValueType,
    WriteToken,
};
pub use crate::intern::{FunctionIdent, Ident, SourceSpan, Symbol, SymbolTable};
pub use crate::lower::ast::{Guard, GuardOperand, GuardTest, Pattern};
pub use crate::lower::exception::ExceptionHandlerStack;
pub use crate::lower::pattern::model::EqGuard;
pub use crate::lower::pattern::emit::ClauseLowerCtx;
pub use crate::lower::pattern::tree::{canon_pattern, merge_nodes, Tree, TreeNode};
pub use crate::lower::pattern::{lower_clause, LoweredClause, LoweredClauseFail};
pub use crate::lower::scope::{ScopeToken, ScopeTracker};
pub use crate::lower::{LowerCtx, LowerError};
pub use crate::module::{FunctionDefinition, Module};
pub use crate::op::OpKind;
pub use crate::pattern::{
    BinarySegmentKind, BinarySpecifier, PatternClause, PatternContainer, PatternNode,
    PatternNodeKind, PatternValue,
};
