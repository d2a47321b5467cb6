//! The function builder: the handle through which a function is built.

use crate::constant::ConstantTerm;
use crate::entity::{Block, Value};
use crate::fun::Function;
use crate::intern::Symbol;
use crate::op::OpKind;
use crate::pattern::PatternContainer;
use vstd::prelude::*;

verus! {

/// What `FunctionBuilder::value` interns: a constant term or a block.
#[derive(Copy, Clone, Debug, PartialEq, Eq, Structural)]
pub enum ValueItem {
    Constant(ConstantTerm),
    Block(Block),
}

impl From<ConstantTerm> for ValueItem {
    fn from(term: ConstantTerm) -> (r: Self) {
        ValueItem::Constant(term)
    }
}

impl vstd::std_specs::convert::FromSpecImpl<ConstantTerm> for ValueItem {
    open spec fn obeys_from_spec() -> bool {
        true
    }

    open spec fn from_spec(term: ConstantTerm) -> Self {
        ValueItem::Constant(term)
    }
}

impl From<Block> for ValueItem {
    fn from(block: Block) -> (r: Self) {
        ValueItem::Block(block)
    }
}

impl vstd::std_specs::convert::FromSpecImpl<Block> for ValueItem {
    open spec fn obeys_from_spec() -> bool {
        true
    }

    open spec fn from_spec(block: Block) -> Self {
        ValueItem::Block(block)
    }
}

/// A mutable handle on a function under construction, together with the
/// container of the patterns that the function matches.
pub struct FunctionBuilder {
    pub fun: Function,
    pub pat: PatternContainer,
}

/// Collects the operands of an intrinsic operation; `finish` writes the
/// operation to the block.
pub struct IntrinsicBuilder {
    pub name: Symbol,
    pub block: Option<Block>,
    pub values: Vec<Value>,
}

impl FunctionBuilder {
    pub open spec fn wf(&self) -> bool {
        self.fun.wf()
    }

    /// Whether `n_blocks` more blocks and `n_values` more values fit into
    /// the 32-bit handle spaces.
    pub open spec fn has_room(&self, n_blocks: int, n_values: int) -> bool {
        &&& self.fun@.blocks.len() + n_blocks <= u32::MAX
        &&& self.fun@.values.len() + n_values <= u32::MAX
    }

    /// A builder for `fun` with an empty pattern container.
    pub fn new(fun: Function) -> (r: Self)
        ensures
            r.fun == fun,
            r.pat.wf(),
            r.pat@.nodes.len() == 0,
            r.pat@.clauses.len() == 0,
    {
        FunctionBuilder { fun, pat: PatternContainer::new() }
    }

    pub fn pat(&self) -> (r: &PatternContainer)
        ensures
            *r == self.pat,
    {
        &self.pat
    }

    /// A mutable borrow of the pattern container. The function stays as
    /// it is.
    pub fn pat_mut(&mut self) -> (r: &mut PatternContainer)
        ensures
            *r == old(self).pat,
            final(self).pat == *final(r),
            final(self).fun == old(self).fun,
    {
        &mut self.pat
    }

    pub fn fun(&self) -> (r: &Function)
        ensures
            *r == self.fun,
    {
        &self.fun
    }

    /// Ends the construction and hands the function back.
    pub fn finish(self) -> (r: Function)
        ensures
            r == self.fun,
    {
        self.fun
    }

    /// Inserts a block without arguments, operation and reads.
    pub fn block_insert(&mut self) -> (b: Block)
        requires
            old(self).wf(),
            old(self).has_room(1, 1),
        ensures
            final(self).wf(),
            final(self).pat == old(self).pat,
            b == old(self).fun@.next_block(),
            final(self).fun@ == old(self).fun@.block_inserted(),
    {
        self.fun.block_insert()
    }

    /// Inserts a block and also returns the value that refers to it.
    pub fn block_insert_get_val(&mut self) -> (r: (Block, Value))
        requires
            old(self).wf(),
            old(self).has_room(1, 1),
        ensures
            final(self).wf(),
            final(self).pat == old(self).pat,
            r.0 == old(self).fun@.next_block(),
            r.1 == old(self).fun@.next_value(),
            final(self).fun@ == old(self).fun@.block_inserted(),
    {
        let b = self.fun.block_insert();
        let v = self.fun.block_value(b);
        (b, v)
    }

    /// Appends a new argument to `block` and returns it.
    pub fn block_arg_insert(&mut self, block: Block) -> (v: Value)
        requires
            old(self).wf(),
            old(self).fun@.has_block(block),
            old(self).has_room(0, 1),
        ensures
            final(self).wf(),
            final(self).pat == old(self).pat,
            v == old(self).fun@.next_value(),
            final(self).fun@ == old(self).fun@.arg_inserted(block),
    {
        self.fun.push_arg(block)
    }

    /// Appends `n` new arguments to `block`.
    pub fn block_args_insert(&mut self, block: Block, n: usize)
        requires
            old(self).wf(),
            old(self).fun@.has_block(block),
            old(self).has_room(0, n as int),
        ensures
            final(self).wf(),
            final(self).pat == old(self).pat,
            final(self).fun@ == old(self).fun@.args_inserted(block, n as nat),
    {
        let ghost fv0 = self.fun@;
        let mut i: usize = 0;
        while i < n
            invariant
                i <= n,
                self.wf(),
                self.pat == old(self).pat,
                fv0.wf(),
                fv0.has_block(block),
                fv0.values.len() + n <= u32::MAX,
                self.fun@ == fv0.args_inserted(block, i as nat),
            decreases n - i,
        {
            proof {
                fv0.lemma_args_inserted(block, i as nat);
            }
            self.block_arg_insert(block);
            i += 1;
        }
    }

    /// Sets the entry block. The entry is set once: no entry may be set
    /// yet.
    pub fn block_set_entry(&mut self, block: Block)
        requires
            old(self).wf(),
            old(self).fun@.has_block(block),
            old(self).fun@.entry is None,
        ensures
            final(self).wf(),
            final(self).pat == old(self).pat,
            final(self).fun@ == old(self).fun@.with_entry(block),
    {
        self.fun.block_set_entry(block)
    }

    pub fn block_args(&self, block: Block) -> (r: &[Value])
        requires
            self.fun@.has_block(block),
        ensures
            r@ == self.fun@.block(block).args,
    {
        self.fun.block_args(block)
    }

    pub fn block_reads(&self, block: Block) -> (r: &[Value])
        requires
            self.fun@.has_block(block),
        ensures
            r@ == self.fun@.block(block).reads,
    {
        self.fun.block_reads(block)
    }

    /// The value for a constant term or for a block. Values are interned:
    /// the same item gives the same value, and a term that no value holds
    /// yet gets a new one.
    pub fn value(&mut self, item: ValueItem) -> (v: Value)
        requires
            old(self).wf(),
            match item {
                ValueItem::Constant(term) => old(self).fun@.constant_of(term) is Some || old(
                    self,
                ).has_room(0, 1),
                ValueItem::Block(b) => old(self).fun@.has_block(b),
            },
        ensures
            final(self).wf(),
            final(self).pat == old(self).pat,
            match item {
                ValueItem::Constant(term) => {
                    &&& v == old(self).fun@.intern_value(term)
                    &&& final(self).fun@ == old(self).fun@.interned(term)
                },
                ValueItem::Block(b) => {
                    &&& v == old(self).fun@.block(b).value
                    &&& final(self).fun@ == old(self).fun@
                },
            },
    {
        match item {
            ValueItem::Constant(term) => self.fun.intern(term),
            ValueItem::Block(b) => self.fun.block_value(b),
        }
    }

    /// Makes the argument `from` a forwarding reference to the value `to`,
    /// which must have been inserted after it: wherever `from` is read, `to`
    /// is meant. The argument keeps its place in the argument list of its
    /// block.
    pub fn value_alias(&mut self, from: Value, to: Value)
        requires
            old(self).wf(),
            old(self).fun@.has_value(from),
            old(self).fun@.raw_kind(from) is Arg,
            old(self).fun@.has_value(to),
            from.idx() < to.idx(),
        ensures
            final(self).wf(),
            final(self).pat == old(self).pat,
            final(self).fun@ == old(self).fun@.aliased(from, to),
            final(self).fun@.kind(from) == old(self).fun@.kind(to),
    {
        proof {
            self.fun@.lemma_aliased_wf(from, to);
        }
        self.fun.alias_value(from, to);
    }

    /// Makes `block` end in a call of `target` with the arguments `args`.
    pub fn op_call(&mut self, block: Block, target: Value, args: &[Value])
        requires
            old(self).wf(),
            old(self).fun@.has_block(block),
            old(self).fun@.has_value(target),
            forall|i: int| 0 <= i < args@.len() ==> old(self).fun@.has_value(#[trigger] args@[i]),
        ensures
            final(self).wf(),
            final(self).pat == old(self).pat,
            final(self).fun@ == old(self).fun@.with_body(
                block,
                OpKind::Call,
                seq![target] + args@,
            ),
    {
        let mut reads: Vec<Value> = Vec::new();
        reads.push(target);
        let n = args.len();
        let mut i: usize = 0;
        while i < n
            invariant
                n == args@.len(),
                i <= n,
                reads@ == seq![target] + args@.take(i as int),
            decreases n - i,
        {
            reads.push(args[i]);
            proof {
                assert(args@.take(i + 1) =~= args@.take(i as int).push(args@[i as int]));
                assert(reads@ =~= seq![target] + args@.take(i + 1));
            }
            i += 1;
        }
        proof {
            assert(args@.take(n as int) =~= args@);
        }
        self.fun.set_body(block, OpKind::Call, reads);
    }

    /// Makes `block` capture the function `module:name/arity` and continue
    /// in a new block, which is returned. The first argument of the new
    /// block is the captured function.
    pub fn op_capture_function(&mut self, block: Block, module: Value, name: Value, arity: Value) -> (next:
        Block)
        requires
            old(self).wf(),
            old(self).fun@.has_block(block),
            old(self).fun@.has_value(module),
            old(self).fun@.has_value(name),
            old(self).fun@.has_value(arity),
            old(self).has_room(1, 2),
        ensures
            final(self).wf(),
            final(self).pat == old(self).pat,
            next == old(self).fun@.next_block(),
            final(self).fun@ == old(self).fun@.block_inserted().arg_inserted(next).with_body(
                block,
                OpKind::CaptureFunction,
                seq![old(self).fun@.next_value(), module, name, arity],
            ),
    {
        let next = self.fun.block_insert();
        let next_value = self.fun.block_value(next);
        self.fun.push_arg(next);
        let mut reads: Vec<Value> = Vec::new();
        reads.push(next_value);
        reads.push(module);
        reads.push(name);
        reads.push(arity);
        proof {
            assert(reads@ =~= seq![next_value, module, name, arity]);
        }
        self.fun.set_body(block, OpKind::CaptureFunction, reads);
        next
    }

    /// Starts an intrinsic operation of the given name. The operands are
    /// pushed onto the returned builder.
    pub fn op_intrinsic_build(&mut self, name: Symbol) -> (r: IntrinsicBuilder)
        ensures
            *final(self) == *old(self),
            r.name == name,
            r.block is None,
            r.values@ == Seq::<Value>::empty(),
    {
        IntrinsicBuilder { name, block: None, values: Vec::new() }
    }

    /// Marks the end of `block` as unreachable.
    pub fn op_unreachable(&mut self, block: Block)
        requires
            old(self).wf(),
            old(self).fun@.has_block(block),
        ensures
            final(self).wf(),
            final(self).pat == old(self).pat,
            final(self).fun@ == old(self).fun@.with_body(
                block,
                OpKind::Unreachable,
                Seq::empty(),
            ),
    {
        self.fun.set_body(block, OpKind::Unreachable, Vec::new());
    }
}

impl IntrinsicBuilder {
    /// Appends an operand.
    pub fn push_value(&mut self, value: Value)
        ensures
            final(self).values@ == old(self).values@.push(value),
            final(self).name == old(self).name,
            final(self).block == old(self).block,
    {
        self.values.push(value);
    }

    /// Writes the intrinsic with the collected operands to the chosen block.
    pub fn finish(self, b: &mut FunctionBuilder)
        requires
            old(b).wf(),
            self.block is Some,
            old(b).fun@.has_block(self.block->0),
            forall|i: int|
                0 <= i < self.values@.len() ==> old(b).fun@.has_value(#[trigger] self.values@[i]),
        ensures
            final(b).wf(),
            final(b).pat == old(b).pat,
            final(b).fun@ == old(b).fun@.with_body(
                self.block->0,
                OpKind::Intrinsic(self.name),
                self.values@,
            ),
    {
        let block = self.block.unwrap();
        b.fun.set_body(block, OpKind::Intrinsic(self.name), self.values);
    }
}

} // verus!
