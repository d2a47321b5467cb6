//! The function container: blocks, values, function references and the
//! constants table.

use crate::arena::{
    block_arena_get, block_arena_get_mut, block_arena_items, block_arena_len, block_arena_new,
    block_arena_push, fun_ref_arena_get, fun_ref_arena_items, fun_ref_arena_len,
    fun_ref_arena_new, fun_ref_arena_push, value_arena_get, value_arena_items, value_arena_len,
    value_arena_new, value_arena_get_mut, value_arena_push, BlockArena, FunRefArena, ValueArena,
};
use crate::fun::model::{BlockView, FunctionView};
use crate::constant::ConstantTerm;
use crate::entity::{Block, FunRef, Value};
use crate::intern::{FunctionIdent, SourceSpan};
use crate::op::OpKind;
pub mod builder;
pub mod graph;
pub mod laws;
pub mod mangle;
pub mod mangle_laws;
pub mod mangle_model;
pub mod model;

use vstd::prelude::*;

verus! {

/// What a value is.
#[derive(Copy, Clone, Debug, PartialEq, Eq, Structural)]
pub enum ValueType {
    /// An argument of the given block.
    Arg(Block),
    /// A first-class reference to the given block.
    Block(Block),
    /// An interned constant.
    Constant(ConstantTerm),
    /// A forwarding reference to another value.
    Alias(Value),
}

/// What is known of a value: what it is, the block that defines it, and
/// the blocks that read it.
#[derive(Debug)]
pub struct ValueData {
    pub kind: ValueType,
    /// The block of which the value is an argument, if it is one.
    pub definition: Option<Block>,
    /// The blocks whose reads name the value, in increasing order.
    pub usages: Vec<Block>,
}

#[derive(Debug)]
pub struct WriteToken(pub Value);

#[derive(Debug, Copy, Clone, PartialEq, Eq, Structural, Hash)]
pub enum Dialect {
    /// Allows all operations, including the high level pattern matching construct.
    High,
    /// High minus the pattern matching construct.
    Normal,
    /// Continuation passing style: Normal minus returning calls.
    CPS,
}

#[derive(Debug, Copy, Clone, PartialEq, Eq, Structural, Hash)]
pub enum AttributeKey {
    Continuation,
}

#[derive(Debug, Copy, Clone, PartialEq, Eq, Structural)]
pub enum AttributeValue {
    Unset,
}

/// The stored form of a block.
#[derive(Debug)]
pub struct BlockData {
    pub(crate) arguments: Vec<Value>,
    pub(crate) op: Option<OpKind>,
    pub(crate) reads: Vec<Value>,
    pub(crate) span: SourceSpan,
    pub(crate) value: Value,
}

impl View for BlockData {
    type V = BlockView;

    closed spec fn view(&self) -> BlockView {
        BlockView {
            args: self.arguments@,
            op: self.op,
            reads: self.reads@,
            span: self.span,
            value: self.value,
        }
    }
}

/// A function: arenas of blocks, values and function references, the entry
/// block and the table of interned constants.
pub struct Function {
    ident: FunctionIdent,
    span: SourceSpan,
    blocks: BlockArena,
    values: ValueArena,
    fun_refs: FunRefArena,
    entry_block: Option<Block>,
    constant_values: Vec<Value>,
}

impl View for Function {
    type V = FunctionView;

    closed spec fn view(&self) -> FunctionView {
        FunctionView {
            ident: self.ident,
            span: self.span,
            blocks: block_arena_items(self.blocks).map_values(|d: BlockData| d@),
            values: value_arena_items(self.values),
            fun_refs: fun_ref_arena_items(self.fun_refs),
            entry: self.entry_block,
            constants: self.constant_values@,
        }
    }
}

/// Function references
impl Function {
    /// Inserts a reference to the function `ident`. Each insertion makes a
    /// new reference, also of a function that is referred to already.
    pub fn fun_ref_insert(&mut self, ident: FunctionIdent) -> (r: FunRef)
        requires
            old(self).wf(),
            old(self)@.fun_refs.len() < u32::MAX,
        ensures
            final(self).wf(),
            r == old(self)@.next_fun_ref(),
            final(self)@ == old(self)@.fun_ref_inserted(ident),
    {
        let ghost before = self@;
        let r = fun_ref_arena_push(&mut self.fun_refs, ident);
        proof {
            before.lemma_fun_ref_inserted_wf(ident);
        }
        r
    }

    /// The function that `r` refers to.
    pub fn fun_ref(&self, r: FunRef) -> (ident: &FunctionIdent)
        requires
            self@.has_fun_ref(r),
        ensures
            *ident == self@.fun_refs[r.idx()],
    {
        fun_ref_arena_get(&self.fun_refs, r)
    }

    /// The number of function references.
    pub fn fun_ref_count(&self) -> (n: usize)
        ensures
            n == self@.fun_refs.len(),
    {
        fun_ref_arena_len(&self.fun_refs)
    }
}

/// Values
impl Function {
    /// The function's model is well-formed.
    pub open spec fn wf(&self) -> bool {
        self@.wf()
    }

    /// The constant values, each once, in the order of their first interning.
    pub fn iter_constants(&self) -> (r: &Vec<Value>)
        ensures
            r@ == self@.constants,
    {
        &self.constant_values
    }

    /// What is stored for `value`; aliases are not followed.
    pub fn value(&self, value: Value) -> (r: &ValueType)
        requires
            self@.has_value(value),
        ensures
            *r == self@.raw_kind(value),
    {
        value_arena_get(&self.values, value)
    }

    /// The value at the end of the alias chain that starts at `value`.
    pub fn value_resolve(&self, value: Value) -> (r: Value)
        requires
            self.wf(),
            self@.has_value(value),
        ensures
            r == self@.resolve(value),
            self@.has_value(r),
            !(self@.raw_kind(r) is Alias),
    {
        let mut cur = value;
        proof {
            self@.lemma_resolve(value);
        }
        loop
            invariant
                self.wf(),
                self@.has_value(cur),
                self@.resolve(cur) == self@.resolve(value),
            ensures
                cur == self@.resolve(value),
            decreases self@.values.len() - cur.idx(),
        {
            proof {
                assert(self@.value_wf(cur));
            }
            match *value_arena_get(&self.values, cur) {
                ValueType::Alias(next) => {
                    cur = next;
                },
                _ => {
                    break ;
                },
            }
        }
        cur
    }

    /// What `value` is; aliases are followed.
    pub fn value_kind(&self, value: Value) -> (r: ValueType)
        requires
            self.wf(),
            self@.has_value(value),
        ensures
            r == self@.kind(value),
            !(r is Alias),
    {
        let end = self.value_resolve(value);
        *value_arena_get(&self.values, end)
    }

    /// The block that `value` refers to, if it refers to one.
    pub fn value_block(&self, value: Value) -> (r: Option<Block>)
        requires
            self.wf(),
            self@.has_value(value),
        ensures
            r == match self@.kind(value) {
                ValueType::Block(b) => Some(b),
                _ => None,
            },
    {
        match self.value_kind(value) {
            ValueType::Block(b) => Some(b),
            _ => None,
        }
    }

    /// What is known of `value`: its kind as stored, its defining block,
    /// and the blocks that read it. Aliases are not followed.
    pub fn value_data(&self, value: Value) -> (r: ValueData)
        requires
            self.wf(),
            self@.has_value(value),
        ensures
            r.kind == self@.raw_kind(value),
            r.definition == match self@.raw_kind(value) {
                ValueType::Arg(b) => Some(b),
                _ => None,
            },
            forall|b: Block|
                r.usages@.contains(b) <==> #[trigger] self@.has_block(b) && self@.block(
                    b,
                ).reads.contains(value),
            forall|i: int, j: int|
                0 <= i < j < r.usages@.len() ==> (#[trigger] r.usages@[i]).idx() < (
                #[trigger] r.usages@[j]).idx(),
    {
        let kind = *value_arena_get(&self.values, value);
        let definition = match kind {
            ValueType::Arg(b) => Some(b),
            _ => None,
        };
        let ghost fv = self@;
        let n = block_arena_len(&self.blocks);
        let mut usages: Vec<Block> = Vec::new();
        let mut i: usize = 0;
        while i < n
            invariant
                self.wf(),
                fv == self@,
                n == fv.blocks.len(),
                i <= n,
                forall|b: Block|
                    usages@.contains(b) <==> b.idx() < i && #[trigger] fv.block(b).reads.contains(
                        value,
                    ),
                forall|x: int| 0 <= x < usages@.len() ==> (#[trigger] usages@[x]).idx() < i,
                forall|x: int, y: int|
                    0 <= x < y < usages@.len() ==> (#[trigger] usages@[x]).idx() < (
                    #[trigger] usages@[y]).idx(),
            decreases n - i,
        {
            let block = Block(i as u32);
            let reads = self.block_reads(block);
            let m = reads.len();
            let mut found = false;
            let mut k: usize = 0;
            while k < m
                invariant
                    m == reads@.len(),
                    k <= m,
                    found <==> exists|x: int| 0 <= x < k && reads@[x] == value,
                decreases m - k,
            {
                if reads[k] == value {
                    found = true;
                }
                k += 1;
            }
            let ghost before = usages@;
            if found {
                usages.push(block);
            }
            proof {
                assert(found <==> reads@.contains(value));
                assert forall|b: Block|
                    usages@.contains(b) <==> b.idx() < i + 1 && #[trigger] fv.block(
                        b,
                    ).reads.contains(value) by {
                    if before.contains(b) {
                        let x = choose|x: int| 0 <= x < before.len() && before[x] == b;
                        assert(usages@[x] == b);
                    }
                    if usages@.contains(b) {
                        let x = choose|x: int| 0 <= x < usages@.len() && usages@[x] == b;
                        if x < before.len() {
                            assert(before[x] == b);
                        }
                    }
                    if b.idx() < i + 1 && fv.block(b).reads.contains(value) {
                        if b.idx() == i {
                            assert(b == block);
                            assert(usages@[before.len() as int] == block);
                        } else {
                            assert(before.contains(b));
                        }
                    }
                }
            }
            i += 1;
        }
        ValueData { kind, definition, usages }
    }

    /// Whether `value` is one of the function's constant values.
    pub fn value_is_constant(&self, value: Value) -> (r: bool)
        requires
            self.wf(),
        ensures
            r == self@.constants.contains(value),
    {
        if value.0 as usize >= value_arena_len(&self.values) {
            proof {
                if self@.constants.contains(value) {
                    let i = choose|i: int|
                        0 <= i < self@.constants.len() && self@.constants[i] == value;
                    assert(self@.has_value(self@.constants[i]));
                }
            }
            return false;
        }
        proof {
            assert(self@.has_value(value));
            assert(self@.value_wf(value));
            if self@.constants.contains(value) {
                let i = choose|i: int|
                    0 <= i < self@.constants.len() && self@.constants[i] == value;
                assert(self@.has_value(self@.constants[i]));
            }
        }
        match *value_arena_get(&self.values, value) {
            ValueType::Constant(_) => true,
            _ => false,
        }
    }

    /// The term of a constant value.
    pub fn value_constant(&self, value: Value) -> (r: &ConstantTerm)
        requires
            self@.has_value(value),
            self@.raw_kind(value) is Constant,
        ensures
            self@.raw_kind(value) == ValueType::Constant(*r),
    {
        match value_arena_get(&self.values, value) {
            ValueType::Constant(con) => con,
            _ => vstd::pervasive::unreached(),
        }
    }
}

/// Blocks
impl Function {
    /// Inserts a block without arguments, operation and reads, together with
    /// the value that refers to it.
    pub fn block_insert(&mut self) -> (b: Block)
        requires
            old(self).wf(),
            old(self)@.blocks.len() < u32::MAX,
            old(self)@.values.len() < u32::MAX,
        ensures
            final(self).wf(),
            b == old(self)@.next_block(),
            final(self)@ == old(self)@.block_inserted(),
    {
        let ghost before = self@;
        let value = Value(value_arena_len(&self.values) as u32);
        let b = block_arena_push(
            &mut self.blocks,
            BlockData {
                arguments: Vec::new(),
                op: None,
                reads: Vec::new(),
                span: SourceSpan::unknown(),
                value,
            },
        );
        let v = value_arena_push(&mut self.values, ValueType::Block(b));
        proof {
            before.lemma_block_inserted_wf();
            assert(self@.blocks =~= before.block_inserted().blocks);
            assert(self@ == before.block_inserted());
        }
        b
    }

    /// Sets the entry block. The entry is set once: no entry may be set
    /// yet.
    pub fn block_set_entry(&mut self, block: Block)
        requires
            old(self).wf(),
            old(self)@.has_block(block),
            old(self)@.entry is None,
        ensures
            final(self).wf(),
            final(self)@ == old(self)@.with_entry(block),
    {
        proof {
            self@.lemma_with_entry_wf(block);
        }
        self.entry_block = Some(block);
    }

    /// Appends a new argument to `block`.
    pub(crate) fn push_arg(&mut self, block: Block) -> (v: Value)
        requires
            old(self).wf(),
            old(self)@.has_block(block),
            old(self)@.values.len() < u32::MAX,
        ensures
            final(self).wf(),
            v == old(self)@.next_value(),
            final(self)@ == old(self)@.arg_inserted(block),
    {
        let ghost before = self@;
        let v = value_arena_push(&mut self.values, ValueType::Arg(block));
        let data = block_arena_get_mut(&mut self.blocks, block);
        data.arguments.push(v);
        proof {
            before.lemma_arg_inserted_wf(block);
            assert(self@.blocks =~= before.arg_inserted(block).blocks);
            assert(self@ == before.arg_inserted(block));
        }
        v
    }

    /// The value that holds `term`: the one that holds it already, or a new
    /// one.
    pub(crate) fn intern(&mut self, term: ConstantTerm) -> (v: Value)
        requires
            old(self).wf(),
            old(self)@.constant_of(term) is Some || old(self)@.values.len() < u32::MAX,
        ensures
            final(self).wf(),
            v == old(self)@.intern_value(term),
            final(self)@ == old(self)@.interned(term),
    {
        let ghost before = self@;
        proof {
            before.lemma_constant_of(term);
            before.lemma_interned_wf(term);
        }
        let n = self.constant_values.len();
        let mut i: usize = 0;
        while i < n
            invariant
                self@ == before,
                before.wf(),
                n == self.constant_values.len(),
                i <= n,
                forall|j: int| 0 <= j < i ==> !before.is_constant(before.constants[j], term),
            decreases n - i,
        {
            let c = self.constant_values[i];
            proof {
                assert(before.has_value(before.constants[i as int]));
            }
            match *value_arena_get(&self.values, c) {
                ValueType::Constant(t) => {
                    if t == term {
                        proof {
                            assert(before.is_constant(c, term));
                        }
                        return c;
                    }
                },
                _ => {},
            }
            i += 1;
        }
        proof {
            assert forall|w: Value| !before.is_constant(w, term) by {
                if before.is_constant(w, term) {
                    assert(before.has_value(w));
                    assert(before.value_wf(w));
                    let j = choose|j: int|
                        0 <= j < before.constants.len() && before.constants[j] == w;
                    assert(!before.is_constant(before.constants[j], term));
                }
            }
            assert(before.constant_of(term) is None);
        }
        let v = value_arena_push(&mut self.values, ValueType::Constant(term));
        self.constant_values.push(v);
        proof {
            assert(self@.blocks =~= before.blocks);
            assert(self@ == before.interned(term));
        }
        v
    }

    /// Gives `block` the operation `op` with the operands `reads`.
    pub(crate) fn set_body(&mut self, block: Block, op: OpKind, reads: Vec<Value>)
        requires
            old(self).wf(),
            old(self)@.has_block(block),
            forall|i: int| 0 <= i < reads@.len() ==> old(self)@.has_value(#[trigger] reads@[i]),
        ensures
            final(self).wf(),
            final(self)@ == old(self)@.with_body(block, op, reads@),
    {
        let ghost before = self@;
        let data = block_arena_get_mut(&mut self.blocks, block);
        data.op = Some(op);
        data.reads = reads;
        proof {
            before.lemma_with_body_wf(block, op, reads@);
            assert(self@.blocks =~= before.with_body(block, op, reads@).blocks);
            assert(self@ == before.with_body(block, op, reads@));
        }
    }

    /// Makes the argument `from` an alias of the later value `to`.
    pub(crate) fn alias_value(&mut self, from: Value, to: Value)
        requires
            old(self).wf(),
            old(self)@.has_value(from),
            old(self)@.raw_kind(from) is Arg,
            old(self)@.has_value(to),
            from.idx() < to.idx(),
        ensures
            final(self).wf(),
            final(self)@ == old(self)@.aliased(from, to),
    {
        let ghost before = self@;
        let slot = value_arena_get_mut(&mut self.values, from);
        *slot = ValueType::Alias(to);
        proof {
            before.lemma_aliased_wf(from, to);
            assert(self@.blocks =~= before.blocks);
            assert(self@ == before.aliased(from, to));
        }
    }

    /// Sets the span of `block`.
    pub(crate) fn set_span(&mut self, block: Block, span: SourceSpan)
        requires
            old(self).wf(),
            old(self)@.has_block(block),
        ensures
            final(self).wf(),
            final(self)@ == old(self)@.with_span(block, span),
    {
        let ghost before = self@;
        let data = block_arena_get_mut(&mut self.blocks, block);
        data.span = span;
        proof {
            before.lemma_with_span_wf(block, span);
            assert(self@.blocks =~= before.with_span(block, span).blocks);
            assert(self@ == before.with_span(block, span));
        }
    }
}

impl Function {
    /// A function of the given identity without blocks, values and entry.
    pub fn new(ident: FunctionIdent) -> (r: Self)
        ensures
            r.wf(),
            r@ == FunctionView::empty(ident),
    {
        Self::new_with_span(SourceSpan::unknown(), ident)
    }

    /// A function of the given identity and span without blocks, values
    /// and entry.
    pub fn new_with_span(span: SourceSpan, ident: FunctionIdent) -> (r: Self)
        ensures
            r.wf(),
            r@ == (FunctionView { span, ..FunctionView::empty(ident) }),
    {
        let r = Function {
            ident,
            span,
            blocks: block_arena_new(),
            values: value_arena_new(),
            fun_refs: fun_ref_arena_new(),
            entry_block: None,
            constant_values: Vec::new(),
        };
        proof {
            FunctionView::lemma_empty_wf(ident, span);
            assert(r@.blocks =~= Seq::<BlockView>::empty());
        }
        r
    }

    pub fn span(&self) -> (r: SourceSpan)
        ensures
            r == self@.span,
    {
        self.span
    }

    pub fn ident(&self) -> (r: &FunctionIdent)
        ensures
            *r == self@.ident,
    {
        &self.ident
    }

    /// The number of arguments of the entry block.
    pub fn entry_arg_num(&self) -> (r: usize)
        requires
            self.wf(),
            self@.entry is Some,
        ensures
            r == self@.block(self@.entry->0).args.len(),
    {
        self.block_args(self.block_entry()).len()
    }

    /// The entry block. It must have been set.
    pub fn block_entry(&self) -> (r: Block)
        requires
            self@.entry is Some,
        ensures
            Some(r) == self@.entry,
    {
        self.entry_block.unwrap()
    }

    /// Whether `block` is a block of this function.
    pub fn block_is_valid(&self, block: Block) -> (r: bool)
        ensures
            r == self@.has_block(block),
    {
        (block.0 as usize) < block_arena_len(&self.blocks)
    }

    /// Whether `value` is a value of this function.
    pub fn value_is_valid(&self, value: Value) -> (r: bool)
        ensures
            r == self@.has_value(value),
    {
        (value.0 as usize) < value_arena_len(&self.values)
    }

    /// The number of blocks.
    pub fn block_count(&self) -> (r: usize)
        ensures
            r == self@.blocks.len(),
    {
        block_arena_len(&self.blocks)
    }

    /// The number of values.
    pub fn value_count(&self) -> (r: usize)
        ensures
            r == self@.values.len(),
    {
        value_arena_len(&self.values)
    }

    pub fn block_args(&self, block: Block) -> (r: &[Value])
        requires
            self@.has_block(block),
        ensures
            r@ == self@.block(block).args,
    {
        block_arena_get(&self.blocks, block).arguments.as_slice()
    }

    pub fn block_reads(&self, block: Block) -> (r: &[Value])
        requires
            self@.has_block(block),
        ensures
            r@ == self@.block(block).reads,
    {
        block_arena_get(&self.blocks, block).reads.as_slice()
    }

    /// The operation of `block`, if it has one.
    pub fn block_kind(&self, block: Block) -> (r: Option<OpKind>)
        requires
            self@.has_block(block),
        ensures
            r == self@.block(block).op,
    {
        block_arena_get(&self.blocks, block).op
    }

    pub fn block_span(&self, block: Block) -> (r: SourceSpan)
        requires
            self@.has_block(block),
        ensures
            r == self@.block(block).span,
    {
        block_arena_get(&self.blocks, block).span
    }

    /// The value that refers to `block`.
    pub fn block_value(&self, block: Block) -> (r: Value)
        requires
            self@.has_block(block),
        ensures
            r == self@.block(block).value,
    {
        block_arena_get(&self.blocks, block).value
    }
}

/// The length of an arena, cut off at the number of 32-bit handles.
pub(crate) fn clamp_len(n: usize) -> (r: usize)
    ensures
        r <= n,
        r <= u32::MAX,
        n <= u32::MAX ==> r == n,
{
    if n > 0xffff_ffff {
        0xffff_ffff
    } else {
        n
    }
}

/// A copy of a list of values.
fn copy_values(values: &Vec<Value>) -> (r: Vec<Value>)
    ensures
        r@ == values@,
{
    let mut out: Vec<Value> = Vec::new();
    let n = values.len();
    let mut i: usize = 0;
    while i < n
        invariant
            n == values@.len(),
            i <= n,
            out@ == values@.take(i as int),
        decreases n - i,
    {
        out.push(values[i]);
        proof {
            assert(values@.take(i + 1) =~= values@.take(i as int).push(values@[i as int]));
        }
        i += 1;
    }
    proof {
        assert(values@.take(n as int) =~= values@);
    }
    out
}

impl Clone for Function {
    /// A deep copy: the copy of a well-formed function has the same model
    /// and shares nothing with the function it was copied from.
    fn clone(&self) -> (r: Self)
        ensures
            self.wf() ==> r@ == self@,
    {
        let mut blocks = block_arena_new();
        let n_blocks = clamp_len(block_arena_len(&self.blocks));
        let mut i: usize = 0;
        while i < n_blocks
            invariant
                n_blocks <= block_arena_items(self.blocks).len(),
                n_blocks <= u32::MAX,
                i <= n_blocks,
                block_arena_items(blocks).len() == i,
                forall|k: int|
                    0 <= k < i ==> (#[trigger] block_arena_items(blocks)[k])@ == block_arena_items(
                        self.blocks,
                    )[k]@,
            decreases n_blocks - i,
        {
            let data = block_arena_get(&self.blocks, Block(i as u32));
            let copy = BlockData {
                arguments: copy_values(&data.arguments),
                op: data.op,
                reads: copy_values(&data.reads),
                span: data.span,
                value: data.value,
            };
            let ghost before = block_arena_items(blocks);
            block_arena_push(&mut blocks, copy);
            proof {
                assert forall|k: int| 0 <= k < i + 1 implies (#[trigger] block_arena_items(
                    blocks,
                )[k])@ == block_arena_items(self.blocks)[k]@ by {
                    if k < i {
                        assert(block_arena_items(blocks)[k] == before[k]);
                    }
                }
            }
            i += 1;
        }
        let mut values = value_arena_new();
        let n_values = clamp_len(value_arena_len(&self.values));
        let mut j: usize = 0;
        while j < n_values
            invariant
                n_values <= value_arena_items(self.values).len(),
                n_values <= u32::MAX,
                j <= n_values,
                value_arena_items(values) == value_arena_items(self.values).take(j as int),
            decreases n_values - j,
        {
            let kind = *value_arena_get(&self.values, Value(j as u32));
            value_arena_push(&mut values, kind);
            proof {
                assert(value_arena_items(self.values).take(j + 1) =~= value_arena_items(
                    self.values,
                ).take(j as int).push(kind));
            }
            j += 1;
        }
        let mut fun_refs = fun_ref_arena_new();
        let n_refs = clamp_len(fun_ref_arena_len(&self.fun_refs));
        let mut k: usize = 0;
        while k < n_refs
            invariant
                n_refs <= fun_ref_arena_items(self.fun_refs).len(),
                n_refs <= u32::MAX,
                k <= n_refs,
                fun_ref_arena_items(fun_refs) == fun_ref_arena_items(self.fun_refs).take(k as int),
            decreases n_refs - k,
        {
            let ident = *fun_ref_arena_get(&self.fun_refs, FunRef(k as u32));
            fun_ref_arena_push(&mut fun_refs, ident);
            proof {
                assert(fun_ref_arena_items(self.fun_refs).take(k + 1) =~= fun_ref_arena_items(
                    self.fun_refs,
                ).take(k as int).push(ident));
            }
            k += 1;
        }
        let r = Function {
            ident: self.ident,
            span: self.span,
            blocks,
            values,
            fun_refs,
            entry_block: self.entry_block,
            constant_values: copy_values(&self.constant_values),
        };
        proof {
            if self.wf() {
                assert(value_arena_items(self.values).take(n_values as int) =~= value_arena_items(
                    self.values,
                ));
                assert(fun_ref_arena_items(self.fun_refs).take(n_refs as int)
                    =~= fun_ref_arena_items(self.fun_refs));
                assert(r@.blocks =~= self@.blocks);
                assert(r@.values =~= self@.values);
            }
        }
        r
    }
}

} // verus!
