//! The mathematical model of a function: sequences of blocks and values,
//! what makes them well-formed, and the effect of each construction step.

use crate::constant::ConstantTerm;
use crate::entity::{Block, FunRef, Value};
use crate::fun::ValueType;
use crate::intern::{FunctionIdent, SourceSpan};
use crate::op::OpKind;
use vstd::prelude::*;

verus! {

/// A block as the contracts see it.
pub struct BlockView {
    /// The formal arguments, in insertion order.
    pub args: Seq<Value>,
    /// The terminating operation, if the block is complete.
    pub op: Option<OpKind>,
    /// The operands of the operation.
    pub reads: Seq<Value>,
    pub span: SourceSpan,
    /// The value that refers to this block.
    pub value: Value,
}

/// The arguments of every block are strictly increasing: an argument that
/// was inserted later has the greater handle.
#[verifier::opaque]
pub open spec fn args_increasing(blocks: Seq<BlockView>) -> bool {
    forall|b: int, i: int, j: int|
        0 <= b < blocks.len() && 0 <= i < j < blocks[b].args.len() ==> blocks[b].args[i].idx()
            < blocks[b].args[j].idx()
}

/// Blocks whose arguments are those of the blocks before, or that have no
/// arguments, keep the arguments of every block increasing.
pub proof fn lemma_args_increasing_kept(blocks: Seq<BlockView>, later: Seq<BlockView>)
    requires
        args_increasing(blocks),
        forall|b: int|
            0 <= b < later.len() ==> (b < blocks.len() && (#[trigger] later[b]).args
                == blocks[b].args) || later[b].args.len() == 0,
    ensures
        args_increasing(later),
{
    reveal(args_increasing);
    assert forall|b: int, i: int, j: int|
        0 <= b < later.len() && 0 <= i < j < later[b].args.len() implies later[b].args[i].idx()
        < later[b].args[j].idx() by {
        assert(later[b].args == blocks[b].args);
        assert(blocks[b].args[i].idx() < blocks[b].args[j].idx());
    }
}

/// A function as the contracts see it.
pub struct FunctionView {
    pub ident: FunctionIdent,
    pub span: SourceSpan,
    pub blocks: Seq<BlockView>,
    pub values: Seq<ValueType>,
    /// The functions that this one refers to, in the order of insertion.
    pub fun_refs: Seq<FunctionIdent>,
    pub entry: Option<Block>,
    /// The constant values, in the order of their first interning.
    pub constants: Seq<Value>,
}

impl FunctionView {
    pub open spec fn has_block(self, b: Block) -> bool {
        b.idx() < self.blocks.len()
    }

    pub open spec fn has_value(self, v: Value) -> bool {
        v.idx() < self.values.len()
    }

    pub open spec fn has_fun_ref(self, r: FunRef) -> bool {
        r.idx() < self.fun_refs.len()
    }

    /// The reference that the next inserted function reference gets.
    pub open spec fn next_fun_ref(self) -> FunRef {
        FunRef(self.fun_refs.len() as u32)
    }

    /// The function after a reference to the function `ident` was
    /// inserted.
    pub open spec fn fun_ref_inserted(self, ident: FunctionIdent) -> FunctionView {
        FunctionView { fun_refs: self.fun_refs.push(ident), ..self }
    }

    pub open spec fn block(self, b: Block) -> BlockView {
        self.blocks[b.idx()]
    }

    /// What is stored for `v`, aliases not followed.
    pub open spec fn raw_kind(self, v: Value) -> ValueType {
        self.values[v.idx()]
    }

    /// The value at the end of the alias chain that starts at `v`.
    pub open spec fn resolve(self, v: Value) -> Value
        decreases self.values.len() - v.idx(),
    {
        if self.has_value(v) {
            match self.values[v.idx()] {
                ValueType::Alias(w) => if v.idx() < w.idx() < self.values.len() {
                    self.resolve(w)
                } else {
                    v
                },
                _ => v,
            }
        } else {
            v
        }
    }

    /// What `v` is once aliases are followed.
    pub open spec fn kind(self, v: Value) -> ValueType {
        self.raw_kind(self.resolve(v))
    }

    /// The next block handle that an insertion returns.
    pub open spec fn next_block(self) -> Block {
        Block(self.blocks.len() as u32)
    }

    /// The next value handle that an insertion returns.
    pub open spec fn next_value(self) -> Value {
        Value(self.values.len() as u32)
    }

    pub open spec fn is_constant(self, v: Value, term: ConstantTerm) -> bool {
        self.has_value(v) && self.values[v.idx()] == ValueType::Constant(term)
    }

    /// The value that holds `term`, if the term has been interned.
    pub open spec fn constant_of(self, term: ConstantTerm) -> Option<Value> {
        if exists|v: Value| self.is_constant(v, term) {
            Some(choose|v: Value| self.is_constant(v, term))
        } else {
            None
        }
    }

    pub open spec fn block_wf(self, b: Block) -> bool {
        let d = self.block(b);
        &&& d.args.no_duplicates()
        &&& forall|i: int|
            0 <= i < d.args.len() ==> self.has_value(#[trigger] d.args[i]) && (
            self.values[d.args[i].idx()] == ValueType::Arg(b)
                || self.values[d.args[i].idx()] is Alias)
        &&& forall|i: int| 0 <= i < d.reads.len() ==> self.has_value(#[trigger] d.reads[i])
        &&& self.has_value(d.value)
        &&& self.values[d.value.idx()] == ValueType::Block(b)
    }

    pub open spec fn value_wf(self, v: Value) -> bool {
        match self.values[v.idx()] {
            ValueType::Arg(b) => self.has_block(b) && self.block(b).args.contains(v),
            ValueType::Block(b) => self.has_block(b) && self.block(b).value == v,
            ValueType::Constant(_) => self.constants.contains(v),
            ValueType::Alias(w) => v.idx() < w.idx() < self.values.len(),
        }
    }

    pub open spec fn constants_wf(self) -> bool {
        &&& forall|i: int|
            0 <= i < self.constants.len() ==> self.has_value(#[trigger] self.constants[i])
                && self.values[self.constants[i].idx()] is Constant
        &&& forall|i: int, j: int|
            0 <= i < self.constants.len() && 0 <= j < self.constants.len() && i != j
                ==> self.values[(#[trigger] self.constants[i]).idx()] != self.values[(
            #[trigger] self.constants[j]).idx()]
    }

    /// No value is an argument of two blocks.
    pub open spec fn args_disjoint(self) -> bool {
        forall|b1: Block, b2: Block, i: int, j: int|
            self.has_block(b1) && self.has_block(b2) && 0 <= i < self.block(b1).args.len() && 0
                <= j < self.block(b2).args.len() && #[trigger] self.block(b1).args[i]
                == #[trigger] self.block(b2).args[j] ==> b1 == b2
    }

    /// Every handle stored in the function refers to an entity of the
    /// function, every value has exactly one producer, the arguments of a
    /// block are in the order of their insertion, blocks and constants are
    /// interned, and alias chains only move forward.
    pub open spec fn wf(self) -> bool {
        &&& self.blocks.len() <= u32::MAX
        &&& self.values.len() <= u32::MAX
        &&& self.fun_refs.len() <= u32::MAX
        &&& forall|b: Block| #[trigger] self.has_block(b) ==> self.block_wf(b)
        &&& forall|v: Value| #[trigger] self.has_value(v) ==> self.value_wf(v)
        &&& self.args_disjoint()
        &&& args_increasing(self.blocks)
        &&& self.constants_wf()
        &&& self.entry is Some ==> self.has_block(self.entry->0)
    }

    /// A function without blocks and values.
    pub open spec fn empty(ident: FunctionIdent) -> FunctionView {
        FunctionView {
            ident,
            span: SourceSpan::unknown_spec(),
            blocks: Seq::empty(),
            values: Seq::empty(),
            fun_refs: Seq::empty(),
            entry: None,
            constants: Seq::empty(),
        }
    }

    /// The function after a block was inserted: the block has no arguments,
    /// no operation and no reads, and the value that refers to it is new.
    pub open spec fn block_inserted(self) -> FunctionView {
        FunctionView {
            blocks: self.blocks.push(
                BlockView {
                    args: Seq::empty(),
                    op: None,
                    reads: Seq::empty(),
                    span: SourceSpan::unknown_spec(),
                    value: self.next_value(),
                },
            ),
            values: self.values.push(ValueType::Block(self.next_block())),
            ..self
        }
    }

    /// The function after a new argument was appended to block `b`.
    pub open spec fn arg_inserted(self, b: Block) -> FunctionView {
        FunctionView {
            blocks: self.blocks.update(
                b.idx(),
                BlockView { args: self.block(b).args.push(self.next_value()), ..self.block(b) },
            ),
            values: self.values.push(ValueType::Arg(b)),
            ..self
        }
    }

    /// The function after `n` new arguments were appended to block `b`.
    pub open spec fn args_inserted(self, b: Block, n: nat) -> FunctionView
        decreases n,
    {
        if n == 0 {
            self
        } else {
            self.args_inserted(b, (n - 1) as nat).arg_inserted(b)
        }
    }

    /// The function after `term` was interned: unchanged if a value holds
    /// the term already, else with one more value.
    pub open spec fn interned(self, term: ConstantTerm) -> FunctionView {
        if self.constant_of(term) is Some {
            self
        } else {
            FunctionView {
                values: self.values.push(ValueType::Constant(term)),
                constants: self.constants.push(self.next_value()),
                ..self
            }
        }
    }

    /// The function after the terms were interned one after the other.
    pub open spec fn interned_all(self, terms: Seq<ConstantTerm>) -> FunctionView
        decreases terms.len(),
    {
        if terms.len() == 0 {
            self
        } else {
            self.interned_all(terms.drop_last()).interned(terms.last())
        }
    }

    /// The value that interning `term` returns.
    pub open spec fn intern_value(self, term: ConstantTerm) -> Value {
        match self.constant_of(term) {
            Some(v) => v,
            None => self.next_value(),
        }
    }

    /// The function after block `b` received the given operation and reads.
    pub open spec fn with_body(self, b: Block, op: OpKind, reads: Seq<Value>) -> FunctionView {
        FunctionView {
            blocks: self.blocks.update(
                b.idx(),
                BlockView { op: Some(op), reads, ..self.block(b) },
            ),
            ..self
        }
    }

    /// The function after the span of block `b` was set.
    pub open spec fn with_span(self, b: Block, span: SourceSpan) -> FunctionView {
        FunctionView {
            blocks: self.blocks.update(b.idx(), BlockView { span, ..self.block(b) }),
            ..self
        }
    }

    /// The function after the argument `from` was made an alias of `to`.
    pub open spec fn aliased(self, from: Value, to: Value) -> FunctionView {
        FunctionView { values: self.values.update(from.idx(), ValueType::Alias(to)), ..self }
    }

    pub open spec fn with_entry(self, b: Block) -> FunctionView {
        FunctionView { entry: Some(b), ..self }
    }

    /// `later` holds every block and value of `self` unchanged, and possibly
    /// more.
    pub open spec fn extended_by(self, later: FunctionView) -> bool {
        &&& self.blocks.len() <= later.blocks.len()
        &&& self.values.len() <= later.values.len()
        &&& forall|i: int| 0 <= i < self.blocks.len() ==> #[trigger] later.blocks[i] == self.blocks[i]
        &&& forall|i: int| 0 <= i < self.values.len() ==> #[trigger] later.values[i] == self.values[i]
    }

    /// In a well-formed function at most one value holds a given term.
    pub proof fn lemma_constant_unique(self, v: Value, w: Value, term: ConstantTerm)
        requires
            self.wf(),
            self.is_constant(v, term),
            self.is_constant(w, term),
        ensures
            v == w,
    {
        assert(self.has_value(v));
            assert(self.value_wf(v));
        assert(self.has_value(w));
            assert(self.value_wf(w));
        let i = choose|i: int| 0 <= i < self.constants.len() && self.constants[i] == v;
        let j = choose|j: int| 0 <= j < self.constants.len() && self.constants[j] == w;
        if i != j {
            assert(self.values[self.constants[i].idx()] != self.values[self.constants[j].idx()]);
        }
    }

    /// The value found by `constant_of` holds the term, and no other does.
    pub proof fn lemma_constant_of(self, term: ConstantTerm)
        requires
            self.wf(),
        ensures
            match self.constant_of(term) {
                Some(v) => self.is_constant(v, term) && forall|w: Value|
                    self.is_constant(w, term) ==> w == v,
                None => forall|w: Value| !self.is_constant(w, term),
            },
    {
        if let Some(v) = self.constant_of(term) {
            assert forall|w: Value| self.is_constant(w, term) implies w == v by {
                self.lemma_constant_unique(v, w, term);
            }
        }
    }

    /// Following aliases ends at a value of the function that is no alias.
    pub proof fn lemma_resolve(self, v: Value)
        requires
            self.wf(),
            self.has_value(v),
        ensures
            self.has_value(self.resolve(v)),
            !(self.kind(v) is Alias),
            v.idx() <= self.resolve(v).idx(),
            !(self.raw_kind(v) is Alias) ==> self.resolve(v) == v,
        decreases self.values.len() - v.idx(),
    {
        assert(self.value_wf(v));
        match self.values[v.idx()] {
            ValueType::Alias(w) => {
                self.lemma_resolve(w);
            },
            _ => {},
        }
    }

    /// Arguments stay disjoint when every block keeps its arguments, apart
    /// from new blocks without arguments.
    pub proof fn lemma_args_disjoint_kept(self, later: FunctionView)
        requires
            self.args_disjoint(),
            self.blocks.len() <= later.blocks.len(),
            forall|b: Block| #[trigger] self.has_block(b) ==> later.block(b).args == self.block(b).args,
            forall|b: Block|
                #[trigger] later.has_block(b) && !self.has_block(b) ==> later.block(b).args.len()
                    == 0,
        ensures
            later.args_disjoint(),
    {
        assert forall|b1: Block, b2: Block, i: int, j: int|
            later.has_block(b1) && later.has_block(b2) && 0 <= i < later.block(b1).args.len() && 0
                <= j < later.block(b2).args.len() && #[trigger] later.block(b1).args[i]
                == #[trigger] later.block(b2).args[j] implies b1 == b2 by {
            assert(self.has_block(b1));
            assert(self.has_block(b2));
            assert(self.block(b1).args[i] == self.block(b2).args[j]);
        }
    }

    pub proof fn lemma_empty_wf(ident: FunctionIdent, span: SourceSpan)
        ensures
            Self::empty(ident).wf(),
            (FunctionView { span, ..Self::empty(ident) }).wf(),
    {
        reveal(args_increasing);
    }

    /// In a well-formed function the arguments of a block are strictly
    /// increasing.
    pub proof fn lemma_block_args_increasing(self, b: Block, i: int, j: int)
        requires
            self.wf(),
            self.has_block(b),
            0 <= i < j < self.block(b).args.len(),
        ensures
            self.block(b).args[i].idx() < self.block(b).args[j].idx(),
    {
        reveal(args_increasing);
    }

    /// A new function reference leaves the function well-formed, with its
    /// blocks and values as they are.
    pub proof fn lemma_fun_ref_inserted_wf(self, ident: FunctionIdent)
        requires
            self.wf(),
            self.fun_refs.len() < u32::MAX,
        ensures
            self.fun_ref_inserted(ident).wf(),
            self.extended_by(self.fun_ref_inserted(ident)),
            forall|r: FunRef| #[trigger]
                self.has_fun_ref(r) ==> self.fun_ref_inserted(ident).fun_refs[r.idx()]
                    == self.fun_refs[r.idx()],
            self.fun_ref_inserted(ident).fun_refs[self.next_fun_ref().idx()] == ident,
    {
        let n = self.fun_ref_inserted(ident);
        self.lemma_args_disjoint_kept(n);
        lemma_args_increasing_kept(self.blocks, n.blocks);
        assert forall|b: Block| #[trigger] n.has_block(b) implies n.block_wf(b) by {
            assert(self.has_block(b));
            assert(self.block_wf(b));
        }
        assert forall|v: Value| #[trigger] n.has_value(v) implies n.value_wf(v) by {
            assert(self.has_value(v));
            assert(self.value_wf(v));
        }
    }

    pub proof fn lemma_block_inserted_wf(self)
        requires
            self.wf(),
            self.blocks.len() < u32::MAX,
            self.values.len() < u32::MAX,
        ensures
            self.block_inserted().wf(),
            self.extended_by(self.block_inserted()),
    {
        let n = self.block_inserted();
        let nb = self.next_block();
        let nv = self.next_value();
        self.lemma_args_disjoint_kept(n);
        lemma_args_increasing_kept(self.blocks, n.blocks);
        assert forall|b: Block| #[trigger] n.has_block(b) implies n.block_wf(b) by {
            if b != nb {
                assert(self.has_block(b));
            assert(self.block_wf(b));
                assert(n.block(b) == self.block(b));
            }
        }
        assert forall|v: Value| #[trigger] n.has_value(v) implies n.value_wf(v) by {
            if v != nv {
                assert(self.has_value(v));
            assert(self.value_wf(v));
                match self.values[v.idx()] {
                    ValueType::Arg(b) => {
                        assert(n.block(b) == self.block(b));
                    },
                    ValueType::Block(b) => {
                        assert(n.block(b) == self.block(b));
                    },
                    _ => {},
                }
            }
        }
    }

    pub proof fn lemma_arg_inserted_wf(self, b: Block)
        requires
            self.wf(),
            self.has_block(b),
            self.values.len() < u32::MAX,
        ensures
            self.arg_inserted(b).wf(),
    {
        let n = self.arg_inserted(b);
        let nv = self.next_value();
        assert(self.block_wf(b));
        assert(args_increasing(n.blocks)) by {
            reveal(args_increasing);
            assert forall|c: int, i: int, j: int|
                0 <= c < n.blocks.len() && 0 <= i < j < n.blocks[c].args.len() implies n.blocks[c].args[i].idx()
                < n.blocks[c].args[j].idx() by {
                if c == b.idx() {
                    let od = self.block(b);
                    assert(n.blocks[c].args == od.args.push(nv));
                    if j < od.args.len() {
                        assert(od.args[i].idx() < od.args[j].idx());
                    } else {
                        assert(self.has_value(od.args[i]));
                    }
                } else {
                    assert(n.blocks[c] == self.blocks[c]);
                    assert(self.blocks[c].args[i].idx() < self.blocks[c].args[j].idx());
                }
            }
        }
        assert forall|b1: Block, b2: Block, i: int, j: int|
            n.has_block(b1) && n.has_block(b2) && 0 <= i < n.block(b1).args.len() && 0 <= j
                < n.block(b2).args.len() && #[trigger] n.block(b1).args[i] == #[trigger] n.block(
                b2,
            ).args[j] implies b1 == b2 by {
            assert(self.has_block(b1));
            assert(self.has_block(b2));
            assert(self.block_wf(b1));
            assert(self.block_wf(b2));
            if b1 != b2 {
                let x = n.block(b1).args[i];
                if b1 == b {
                    assert(n.block(b2) == self.block(b2));
                    if i < self.block(b).args.len() {
                        assert(self.block(b1).args[i] == self.block(b2).args[j]);
                    } else {
                        assert(x == nv);
                        assert(self.has_value(self.block(b2).args[j]));
                    }
                } else if b2 == b {
                    assert(n.block(b1) == self.block(b1));
                    if j < self.block(b).args.len() {
                        assert(self.block(b1).args[i] == self.block(b2).args[j]);
                    } else {
                        assert(self.has_value(self.block(b1).args[i]));
                    }
                } else {
                    assert(n.block(b1) == self.block(b1));
                    assert(n.block(b2) == self.block(b2));
                    assert(self.block(b1).args[i] == self.block(b2).args[j]);
                }
            }
        }
        assert forall|c: Block| #[trigger] n.has_block(c) implies n.block_wf(c) by {
            assert(self.has_block(c));
            assert(self.block_wf(c));
            if c == b {
                let d = n.block(b);
                let od = self.block(b);
                assert(d.args == od.args.push(nv));
                assert forall|i: int| 0 <= i < od.args.len() implies od.args[i] != nv by {
                    assert(self.has_value(od.args[i]));
                }
                assert(d.args.no_duplicates());
            } else {
                assert(n.block(c) == self.block(c));
            }
        }
        assert forall|v: Value| #[trigger] n.has_value(v) implies n.value_wf(v) by {
            if v != nv {
                assert(self.has_value(v));
            assert(self.value_wf(v));
                match self.values[v.idx()] {
                    ValueType::Arg(c) => {
                        if c == b {
                            let i = choose|i: int|
                                0 <= i < self.block(b).args.len() && self.block(b).args[i] == v;
                            assert(n.block(b).args[i] == v);
                        } else {
                            assert(n.block(c) == self.block(c));
                        }
                    },
                    ValueType::Block(c) => {
                        if c != b {
                            assert(n.block(c) == self.block(c));
                        }
                    },
                    _ => {},
                }
            } else {
                assert(n.block(b).args[self.block(b).args.len() as int] == nv);
            }
        }
    }

    pub proof fn lemma_interned_wf(self, term: ConstantTerm)
        requires
            self.wf(),
            self.constant_of(term) is Some || self.values.len() < u32::MAX,
        ensures
            self.interned(term).wf(),
            self.interned(term).is_constant(self.intern_value(term), term),
            self.extended_by(self.interned(term)),
    {
        self.lemma_constant_of(term);
        if self.constant_of(term) is None {
            let n = self.interned(term);
            let nv = self.next_value();
            self.lemma_args_disjoint_kept(n);
            assert forall|c: Block| #[trigger] n.has_block(c) implies n.block_wf(c) by {
                assert(self.has_block(c));
            assert(self.block_wf(c));
            }
            assert forall|v: Value| #[trigger] n.has_value(v) implies n.value_wf(v) by {
                if v != nv {
                    assert(self.has_value(v));
            assert(self.value_wf(v));
                    if self.values[v.idx()] is Constant {
                        let i = choose|i: int|
                            0 <= i < self.constants.len() && self.constants[i] == v;
                        assert(n.constants[i] == v);
                    }
                } else {
                    assert(n.constants[self.constants.len() as int] == nv);
                }
            }
            assert forall|i: int| 0 <= i < n.constants.len() implies n.has_value(
                #[trigger] n.constants[i],
            ) && n.values[n.constants[i].idx()] is Constant by {
                if i < self.constants.len() {
                    assert(self.has_value(self.constants[i]));
                }
            }
            assert forall|i: int, j: int|
                0 <= i < n.constants.len() && 0 <= j < n.constants.len() && i != j implies n.values[(
            #[trigger] n.constants[i]).idx()] != n.values[(#[trigger] n.constants[j]).idx()] by {
                if i < self.constants.len() {
                    assert(self.has_value(self.constants[i]));
                    assert(!self.is_constant(self.constants[i], term));
                }
                if j < self.constants.len() {
                    assert(self.has_value(self.constants[j]));
                    assert(!self.is_constant(self.constants[j], term));
                }
            }
        }
    }

    /// What `n` new arguments of block `b` leave: the function has `n` more
    /// values, which are the new arguments in order, and nothing else is
    /// changed.
    pub proof fn lemma_args_inserted(self, b: Block, n: nat)
        requires
            self.wf(),
            self.has_block(b),
            self.values.len() + n <= u32::MAX,
        ensures
            self.args_inserted(b, n).wf(),
            self.args_inserted(b, n).blocks.len() == self.blocks.len(),
            self.args_inserted(b, n).values.len() == self.values.len() + n,
            self.args_inserted(b, n).ident == self.ident,
            self.args_inserted(b, n).span == self.span,
            self.args_inserted(b, n).entry == self.entry,
            self.args_inserted(b, n).constants == self.constants,
            forall|i: int|
                0 <= i < self.values.len() ==> #[trigger] self.args_inserted(b, n).values[i]
                    == self.values[i],
            forall|x: Block|
                x != b && #[trigger] self.has_block(x) ==> self.args_inserted(b, n).block(x)
                    == self.block(x),
            forall|i: int|
                0 <= i < self.blocks.len() && i != b.idx() ==> #[trigger] self.args_inserted(
                    b,
                    n,
                ).blocks[i] == self.blocks[i],
            self.args_inserted(b, n).block(b).op == self.block(b).op,
            self.args_inserted(b, n).block(b).reads == self.block(b).reads,
            self.args_inserted(b, n).block(b).span == self.block(b).span,
            self.args_inserted(b, n).block(b).value == self.block(b).value,
            self.args_inserted(b, n).block(b).args.len() == self.block(b).args.len() + n,
            forall|i: int|
                0 <= i < self.block(b).args.len() ==> #[trigger] self.args_inserted(b, n).block(
                    b,
                ).args[i] == self.block(b).args[i],
            forall|i: int|
                0 <= i < n ==> (#[trigger] self.args_inserted(b, n).block(b).args[self.block(
                    b,
                ).args.len() + i]).idx() == self.values.len() + i,
            forall|i: int|
                self.values.len() <= i < self.values.len() + n ==> #[trigger] self.args_inserted(
                    b,
                    n,
                ).values[i] == ValueType::Arg(b),
        decreases n,
    {
        if n > 0 {
            let mid = self.args_inserted(b, (n - 1) as nat);
            self.lemma_args_inserted(b, (n - 1) as nat);
            mid.lemma_arg_inserted_wf(b);
            let fin = mid.arg_inserted(b);
            assert forall|i: int|
                self.values.len() <= i < self.values.len() + n implies #[trigger] fin.values[i]
                == ValueType::Arg(b) by {
                if i < self.values.len() + n - 1 {
                    assert(mid.values[i] == ValueType::Arg(b));
                }
            }
            assert forall|x: Block| x != b && #[trigger] self.has_block(x) implies fin.block(x)
                == self.block(x) by {
                assert(mid.block(x) == self.block(x));
            }
            assert forall|i: int|
                0 <= i < self.blocks.len() && i != b.idx() implies #[trigger] fin.blocks[i]
                == self.blocks[i] by {
                assert(mid.blocks[i] == self.blocks[i]);
            }
            assert forall|i: int| 0 <= i < self.block(b).args.len() implies #[trigger] fin.block(
                b,
            ).args[i] == self.block(b).args[i] by {
                assert(mid.block(b).args[i] == self.block(b).args[i]);
            }
            assert forall|i: int| 0 <= i < n implies (#[trigger] fin.block(b).args[self.block(
                b,
            ).args.len() + i]).idx() == self.values.len() + i by {
                if i < n - 1 {
                    assert(fin.block(b).args[self.block(b).args.len() + i] == mid.block(
                        b,
                    ).args[self.block(b).args.len() + i]);
                }
            }
        }
    }

    /// Interning a list of terms keeps the function well-formed, changes
    /// no block and no existing value, adds at most one value for each
    /// term, and leaves every term of the list interned.
    pub proof fn lemma_interned_all(self, terms: Seq<ConstantTerm>)
        requires
            self.wf(),
            self.values.len() + terms.len() <= u32::MAX,
        ensures
            self.interned_all(terms).wf(),
            self.extended_by(self.interned_all(terms)),
            self.interned_all(terms).blocks == self.blocks,
            self.interned_all(terms).ident == self.ident,
            self.interned_all(terms).span == self.span,
            self.interned_all(terms).entry == self.entry,
            self.interned_all(terms).values.len() <= self.values.len() + terms.len(),
            forall|i: int|
                0 <= i < terms.len() ==> self.interned_all(terms).constant_of(
                    #[trigger] terms[i],
                ) is Some,
            forall|t: ConstantTerm|
                self.constant_of(t) is Some ==> #[trigger] self.interned_all(terms).constant_of(t)
                    == self.constant_of(t),
        decreases terms.len(),
    {
        if terms.len() > 0 {
            let init = terms.drop_last();
            let mid = self.interned_all(init);
            self.lemma_interned_all(init);
            mid.lemma_interned_wf(terms.last());
            let fin = mid.interned(terms.last());
            assert forall|i: int| 0 <= i < terms.len() implies fin.constant_of(
                #[trigger] terms[i],
            ) is Some by {
                if i < init.len() {
                    assert(init[i] == terms[i]);
                    mid.lemma_constant_of(terms[i]);
                    assert(fin.is_constant(mid.constant_of(terms[i])->0, terms[i]));
                } else {
                    assert(fin.is_constant(mid.intern_value(terms.last()), terms.last()));
                }
            }
            assert forall|t: ConstantTerm| self.constant_of(t) is Some implies #[trigger]
                fin.constant_of(t) == self.constant_of(t) by {
                self.lemma_constant_of(t);
                mid.lemma_constant_of(t);
                fin.lemma_constant_of(t);
                assert(fin.is_constant(mid.constant_of(t)->0, t));
            }
        }
    }

    /// Interning two lists of terms one after the other is interning their
    /// concatenation.
    pub proof fn lemma_interned_all_concat(self, a: Seq<ConstantTerm>, b: Seq<ConstantTerm>)
        ensures
            self.interned_all(a + b) == self.interned_all(a).interned_all(b),
        decreases b.len(),
    {
        if b.len() == 0 {
            assert(a + b =~= a);
        } else {
            self.lemma_interned_all_concat(a, b.drop_last());
            assert((a + b).drop_last() =~= a + b.drop_last());
            assert((a + b).last() == b.last());
        }
    }

    pub proof fn lemma_with_body_wf(self, b: Block, op: OpKind, reads: Seq<Value>)
        requires
            self.wf(),
            self.has_block(b),
            forall|i: int| 0 <= i < reads.len() ==> self.has_value(#[trigger] reads[i]),
        ensures
            self.with_body(b, op, reads).wf(),
            self.with_body(b, op, reads).values == self.values,
    {
        let n = self.with_body(b, op, reads);
        self.lemma_args_disjoint_kept(n);
        lemma_args_increasing_kept(self.blocks, n.blocks);
        assert forall|c: Block| #[trigger] n.has_block(c) implies n.block_wf(c) by {
            assert(n.blocks.len() == self.blocks.len());
            assert(self.has_block(c));
            assert(self.block_wf(c));
            if c != b {
                assert(n.block(c) == self.block(c));
            }
        }
        assert forall|v: Value| #[trigger] n.has_value(v) implies n.value_wf(v) by {
            assert(self.has_value(v));
            assert(self.value_wf(v));
            match self.values[v.idx()] {
                ValueType::Arg(c) => {
                    if c != b {
                        assert(n.block(c) == self.block(c));
                    }
                },
                ValueType::Block(c) => {
                    if c != b {
                        assert(n.block(c) == self.block(c));
                    }
                },
                _ => {},
            }
        }
    }

    pub proof fn lemma_with_span_wf(self, b: Block, span: SourceSpan)
        requires
            self.wf(),
            self.has_block(b),
        ensures
            self.with_span(b, span).wf(),
    {
        let n = self.with_span(b, span);
        self.lemma_args_disjoint_kept(n);
        lemma_args_increasing_kept(self.blocks, n.blocks);
        assert forall|c: Block| #[trigger] n.has_block(c) implies n.block_wf(c) by {
            assert(self.has_block(c));
            assert(self.block_wf(c));
            if c != b {
                assert(n.block(c) == self.block(c));
            }
        }
        assert forall|v: Value| #[trigger] n.has_value(v) implies n.value_wf(v) by {
            assert(self.has_value(v));
            assert(self.value_wf(v));
            match self.values[v.idx()] {
                ValueType::Arg(c) => {
                    if c != b {
                        assert(n.block(c) == self.block(c));
                    }
                },
                ValueType::Block(c) => {
                    if c != b {
                        assert(n.block(c) == self.block(c));
                    }
                },
                _ => {},
            }
        }
    }

    /// Making an argument an alias of a later value keeps the function
    /// well-formed. Afterwards the argument stands for what the later value
    /// stands for, and every value after the argument for what it stood
    /// for before.
    pub proof fn lemma_aliased_wf(self, from: Value, to: Value)
        requires
            self.wf(),
            self.has_value(from),
            self.raw_kind(from) is Arg,
            self.has_value(to),
            from.idx() < to.idx(),
        ensures
            self.aliased(from, to).wf(),
            self.aliased(from, to).resolve(from) == self.resolve(to),
            self.aliased(from, to).kind(from) == self.kind(to),
            forall|v: Value|
                from.idx() < v.idx() ==> #[trigger] self.aliased(from, to).resolve(v)
                    == self.resolve(v),
    {
        let n = self.aliased(from, to);
        self.lemma_args_disjoint_kept(n);
        assert forall|c: Block| #[trigger] n.has_block(c) implies n.block_wf(c) by {
            assert(self.has_block(c));
            assert(self.block_wf(c));
            let d = self.block(c);
            assert forall|i: int| 0 <= i < d.args.len() implies n.has_value(#[trigger] d.args[i])
                && (n.values[d.args[i].idx()] == ValueType::Arg(c)
                || n.values[d.args[i].idx()] is Alias) by {
                assert(self.has_value(d.args[i]));
            }
            assert(self.has_value(d.value));
        }
        assert forall|v: Value| #[trigger] n.has_value(v) implies n.value_wf(v) by {
            assert(self.has_value(v));
            assert(self.value_wf(v));
        }
        assert forall|i: int| 0 <= i < n.constants.len() implies n.has_value(
            #[trigger] n.constants[i],
        ) && n.values[n.constants[i].idx()] is Constant by {
            assert(self.has_value(self.constants[i]));
        }
        assert forall|i: int, j: int|
            0 <= i < n.constants.len() && 0 <= j < n.constants.len() && i != j implies n.values[(
        #[trigger] n.constants[i]).idx()] != n.values[(#[trigger] n.constants[j]).idx()] by {
            assert(self.has_value(self.constants[i]));
            assert(self.has_value(self.constants[j]));
        }
        assert forall|v: Value| from.idx() < v.idx() implies #[trigger] n.resolve(v)
            == self.resolve(v) by {
            self.lemma_aliased_later(from, to, v);
        }
        assert(n.resolve(to) == self.resolve(to));
        self.lemma_resolve(to);
    }

    /// Alias chains move forward: one that starts after `from` never comes
    /// to `from`.
    pub proof fn lemma_aliased_later(self, from: Value, to: Value, v: Value)
        requires
            self.wf(),
            self.has_value(from),
            from.idx() < v.idx(),
        ensures
            self.aliased(from, to).resolve(v) == self.resolve(v),
        decreases self.values.len() - v.idx(),
    {
        if self.has_value(v) {
            assert(self.value_wf(v));
            match self.values[v.idx()] {
                ValueType::Alias(w) => {
                    self.lemma_aliased_later(from, to, w);
                },
                _ => {},
            }
        }
    }

    pub proof fn lemma_with_entry_wf(self, b: Block)
        requires
            self.wf(),
            self.has_block(b),
        ensures
            self.with_entry(b).wf(),
    {
        let n = self.with_entry(b);
        self.lemma_args_disjoint_kept(n);
        assert forall|c: Block| #[trigger] n.has_block(c) implies n.block_wf(c) by {
            assert(self.has_block(c));
            assert(self.block_wf(c));
        }
        assert forall|v: Value| #[trigger] n.has_value(v) implies n.value_wf(v) by {
            assert(self.has_value(v));
            assert(self.value_wf(v));
        }
    }

    /// Alias chains of the earlier function are the same in the later one.
    pub proof fn lemma_extended_resolve(self, later: FunctionView, v: Value)
        requires
            self.wf(),
            self.extended_by(later),
            self.has_value(v),
        ensures
            later.resolve(v) == self.resolve(v),
            later.kind(v) == self.kind(v),
        decreases self.values.len() - v.idx(),
    {
        assert(self.value_wf(v));
        assert(later.values[v.idx()] == self.values[v.idx()]);
        match self.values[v.idx()] {
            ValueType::Alias(w) => {
                self.lemma_extended_resolve(later, w);
            },
            _ => {},
        }
        self.lemma_resolve(v);
        assert(later.values[self.resolve(v).idx()] == self.values[self.resolve(v).idx()]);
    }
}

} // verus!
