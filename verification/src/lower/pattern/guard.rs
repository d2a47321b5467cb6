//! Construction of the guard lambda of a clause.

use crate::constant::ConstantTerm;
use crate::entity::{Block, Value};
use crate::fun::builder::{FunctionBuilder, IntrinsicBuilder, ValueItem};
use crate::fun::model::FunctionView;
use crate::intern::{Symbol, SYM_BOOL_AND, SYM_BOOL_OR, SYM_ERLANG, SYM_EXACT_EQ};
use crate::lower::ast::{Guard, GuardOperand, GuardTest};
use crate::lower::pattern::emit::{
    frames_ok, lemma_frames_extended, lemma_scope_lookup_valid, };
use crate::lower::pattern::guard_model::{
    arity_term, bind_frame, blk, eq_sides, guards_blocks, guards_errors, operand_errors,
    operand_ok, test_built, tests_errors, GuardLayout,
};
use crate::lower::pattern::model::{
    guards_cost, lemma_guards_cost_take, lemma_tests_cost_take, tests_cost, EqGuard,
};
use crate::lower::scope::ScopeToken;
use crate::intern::Ident;
use crate::op::OpKind;
use crate::lower::scope::scope_bound;
use crate::lower::{LowerCtx, LowerError};
use vstd::prelude::*;

verus! {

/// `later` has the values of `fv` unchanged and no fewer blocks.
pub open spec fn grown(fv: FunctionView, later: FunctionView) -> bool {
    &&& fv.blocks.len() <= later.blocks.len()
    &&& fv.values.len() <= later.values.len()
    &&& forall|i: int| 0 <= i < fv.values.len() ==> #[trigger] later.values[i] == fv.values[i]
}

/// What `later` has beyond `fv` is plain: no new value is an alias, and
/// every new block has the unknown span.
#[verifier::opaque]
pub open spec fn quiet(fv: FunctionView, later: FunctionView) -> bool {
    &&& fv.values.len() <= later.values.len()
    &&& fv.blocks.len() <= later.blocks.len()
    &&& forall|i: int|
        fv.values.len() <= i < later.values.len() ==> !(#[trigger] later.values[i] is Alias)
    &&& forall|i: int|
        fv.blocks.len() <= i < later.blocks.len() ==> (#[trigger] later.blocks[i]).span
            == crate::intern::SourceSpan::unknown_spec()
}

/// What `later` has beyond `fv` is new: each new value is an argument or
/// the value of a new block, or a constant, and each new block has the
/// unknown span.
pub open spec fn only_new(fv: FunctionView, later: FunctionView) -> bool {
    &&& forall|v: Value|
        fv.values.len() <= v.idx() && #[trigger] later.has_value(v) ==> match later.raw_kind(v) {
            crate::fun::ValueType::Arg(b) => fv.blocks.len() <= b.idx(),
            crate::fun::ValueType::Block(b) => fv.blocks.len() <= b.idx(),
            crate::fun::ValueType::Constant(_) => true,
            crate::fun::ValueType::Alias(_) => false,
        }
    &&& forall|x: Block|
        fv.blocks.len() <= x.idx() && #[trigger] later.has_block(x) ==> later.block(x).span
            == crate::intern::SourceSpan::unknown_spec()
}

/// In a well-formed function that keeps what it had, what is plain is
/// new.
pub proof fn lemma_only_new(fv: FunctionView, later: FunctionView)
    requires
        fv.wf(),
        later.wf(),
        fv.extended_by(later),
        quiet(fv, later),
    ensures
        only_new(fv, later),
{
    reveal(quiet);
    assert forall|v: Value|
        fv.values.len() <= v.idx() && #[trigger] later.has_value(v) implies match later.raw_kind(
        v,
    ) {
        crate::fun::ValueType::Arg(b) => fv.blocks.len() <= b.idx(),
        crate::fun::ValueType::Block(b) => fv.blocks.len() <= b.idx(),
        crate::fun::ValueType::Constant(_) => true,
        crate::fun::ValueType::Alias(_) => false,
    } by {
        assert(later.value_wf(v));
        assert(!(later.values[v.idx()] is Alias));
        match later.raw_kind(v) {
            crate::fun::ValueType::Arg(b) => {
                if b.idx() < fv.blocks.len() {
                    assert(fv.has_block(b));
                    assert(fv.block_wf(b));
                    assert(later.blocks[b.idx()] == fv.blocks[b.idx()]);
                    let i = choose|i: int|
                        0 <= i < later.block(b).args.len() && later.block(b).args[i] == v;
                    assert(fv.has_value(fv.block(b).args[i]));
                }
            },
            crate::fun::ValueType::Block(b) => {
                if b.idx() < fv.blocks.len() {
                    assert(fv.has_block(b));
                    assert(fv.block_wf(b));
                    assert(later.blocks[b.idx()] == fv.blocks[b.idx()]);
                }
            },
            _ => {},
        }
    }
    assert forall|x: Block|
        fv.blocks.len() <= x.idx() && #[trigger] later.has_block(x) implies later.block(x).span
        == crate::intern::SourceSpan::unknown_spec() by {
        assert(later.blocks[x.idx()].span == crate::intern::SourceSpan::unknown_spec());
    }
}

/// A function adds nothing to itself.
pub proof fn lemma_quiet_same(fv: FunctionView)
    ensures
        quiet(fv, fv),
{
    reveal(quiet);
}

/// What is plain stays plain while the function gets more that is plain
/// and keeps the values and spans that it has.
pub proof fn lemma_quiet_trans(a: FunctionView, b: FunctionView, c: FunctionView)
    requires
        quiet(a, b),
        quiet(b, c),
        forall|i: int| 0 <= i < b.values.len() ==> #[trigger] c.values[i] == b.values[i],
        forall|i: int| 0 <= i < b.blocks.len() ==> (#[trigger] c.blocks[i]).span == b.blocks[i].span,
    ensures
        quiet(a, c),
{
    reveal(quiet);
    assert forall|i: int| a.values.len() <= i < c.values.len() implies !(
    #[trigger] c.values[i] is Alias) by {
        if i < b.values.len() {
            assert(c.values[i] == b.values[i]);
        }
    }
    assert forall|i: int| a.blocks.len() <= i < c.blocks.len() implies (
    #[trigger] c.blocks[i]).span == crate::intern::SourceSpan::unknown_spec() by {
        if i < b.blocks.len() {
            assert(c.blocks[i].span == b.blocks[i].span);
        }
    }
}

/// Inserting a block adds what is plain.
pub proof fn lemma_quiet_block(fv: FunctionView)
    ensures
        quiet(fv, fv.block_inserted()),
{
    reveal(quiet);
}

/// Inserting arguments adds what is plain.
pub proof fn lemma_quiet_args(fv: FunctionView, b: Block, n: nat)
    requires
        fv.wf(),
        fv.has_block(b),
        fv.values.len() + n <= u32::MAX,
    ensures
        quiet(fv, fv.args_inserted(b, n)),
{
    reveal(quiet);
    fv.lemma_args_inserted(b, n);
}

/// Interning a term adds what is plain.
pub proof fn lemma_quiet_interned(fv: FunctionView, term: ConstantTerm)
    ensures
        quiet(fv, fv.interned(term)),
{
    reveal(quiet);
}

/// Interning terms adds what is plain.
pub proof fn lemma_quiet_interned_all(fv: FunctionView, terms: Seq<ConstantTerm>)
    requires
        fv.wf(),
        fv.values.len() + terms.len() <= u32::MAX,
    ensures
        quiet(fv, fv.interned_all(terms)),
    decreases terms.len(),
{
    if terms.len() == 0 {
        lemma_quiet_same(fv);
    } else {
        let mid = fv.interned_all(terms.drop_last());
        lemma_quiet_interned_all(fv, terms.drop_last());
        fv.lemma_interned_all(terms.drop_last());
        mid.lemma_interned_wf(terms.last());
        lemma_quiet_interned(mid, terms.last());
        lemma_quiet_trans(fv, mid, mid.interned(terms.last()));
    }
}

/// Inserting an argument adds what is plain.
pub proof fn lemma_quiet_arg(fv: FunctionView, b: Block)
    requires
        fv.has_block(b),
    ensures
        quiet(fv, fv.arg_inserted(b)),
{
    reveal(quiet);
}

/// Giving a block an operation adds nothing.
pub proof fn lemma_quiet_body(fv: FunctionView, b: Block, op: OpKind, reads: Seq<Value>)
    requires
        fv.has_block(b),
    ensures
        quiet(fv, fv.with_body(b, op, reads)),
{
    reveal(quiet);
}

/// A block more after what is plain.
pub proof fn lemma_quiet_then_block(a: FunctionView, fv: FunctionView)
    requires
        quiet(a, fv),
    ensures
        quiet(a, fv.block_inserted()),
{
    lemma_quiet_block(fv);
    lemma_quiet_trans(a, fv, fv.block_inserted());
}

/// An argument more after what is plain.
pub proof fn lemma_quiet_then_arg(a: FunctionView, fv: FunctionView, b: Block)
    requires
        quiet(a, fv),
        fv.has_block(b),
    ensures
        quiet(a, fv.arg_inserted(b)),
{
    lemma_quiet_arg(fv, b);
    lemma_quiet_trans(a, fv, fv.arg_inserted(b));
}

/// Arguments more after what is plain.
pub proof fn lemma_quiet_then_args(a: FunctionView, fv: FunctionView, b: Block, n: nat)
    requires
        quiet(a, fv),
        fv.wf(),
        fv.has_block(b),
        fv.values.len() + n <= u32::MAX,
    ensures
        quiet(a, fv.args_inserted(b, n)),
{
    lemma_quiet_args(fv, b, n);
    fv.lemma_args_inserted(b, n);
    let after = fv.args_inserted(b, n);
    assert forall|i: int| 0 <= i < fv.blocks.len() implies (#[trigger] after.blocks[i]).span
        == fv.blocks[i].span by {
        if i == b.idx() {
            assert(after.block(b).span == fv.block(b).span);
        }
    }
    lemma_quiet_trans(a, fv, after);
}

/// A term more after what is plain.
pub proof fn lemma_quiet_then_interned(a: FunctionView, fv: FunctionView, term: ConstantTerm)
    requires
        quiet(a, fv),
    ensures
        quiet(a, fv.interned(term)),
{
    lemma_quiet_interned(fv, term);
    lemma_quiet_trans(a, fv, fv.interned(term));
}

/// An operation of a block after what is plain.
pub proof fn lemma_quiet_then_body(
    a: FunctionView,
    fv: FunctionView,
    b: Block,
    op: OpKind,
    reads: Seq<Value>,
)
    requires
        quiet(a, fv),
        fv.has_block(b),
    ensures
        quiet(a, fv.with_body(b, op, reads)),
{
    lemma_quiet_body(fv, b, op, reads);
    lemma_quiet_trans(a, fv, fv.with_body(b, op, reads));
}

/// What is plain stays plain over a step that keeps what the function
/// has.
pub proof fn lemma_quiet_kept(a: FunctionView, b: FunctionView, c: FunctionView, t: Block)
    requires
        quiet(a, b),
        quiet(b, c),
        b.blocks.len() <= u32::MAX,
        kept_except(b, c, t),
    ensures
        quiet(a, c),
{
    assert forall|i: int| 0 <= i < b.blocks.len() implies (#[trigger] c.blocks[i]).span
        == b.blocks[i].span by {
        let x = Block(i as u32);
        assert(b.has_block(x));
        if x != t {
            assert(c.block(x) == b.block(x));
        }
    }
    lemma_quiet_trans(a, b, c);
}

/// Binding a value of the function keeps the scope valid.
pub proof fn lemma_frames_bound(
    frames: Seq<Seq<(Symbol, Value)>>,
    fv: FunctionView,
    name: Symbol,
    value: Value,
)
    requires
        frames_ok(frames, fv),
        frames.len() > 0,
        fv.has_value(value),
    ensures
        frames_ok(scope_bound(frames, name, value), fv),
{
    let after = scope_bound(frames, name, value);
    assert forall|i: int, j: int|
        0 <= i < after.len() && 0 <= j < after[i].len() implies fv.has_value(
        (#[trigger] after[i][j]).1,
    ) by {
        if i < frames.len() - 1 {
            assert(after[i] == frames[i]);
            assert(fv.has_value(frames[i][j].1));
        } else {
            if j < frames[i].len() {
                assert(after[i][j] == frames[i][j]);
                assert(fv.has_value(frames[i][j].1));
            }
        }
    }
}

/// Opening a frame, and closing one, keep the scope valid.
pub proof fn lemma_frames_push_pop(frames: Seq<Seq<(Symbol, Value)>>, fv: FunctionView)
    requires
        frames_ok(frames, fv),
    ensures
        frames_ok(frames.push(Seq::empty()), fv),
        frames.len() > 0 ==> frames_ok(frames.drop_last(), fv),
{
    let pushed = frames.push(Seq::<(Symbol, Value)>::empty());
    assert forall|i: int, j: int|
        0 <= i < pushed.len() && 0 <= j < pushed[i].len() implies fv.has_value(
        (#[trigger] pushed[i][j]).1,
    ) by {
        if i < frames.len() {
            assert(pushed[i] == frames[i]);
            assert(fv.has_value(frames[i][j].1));
        }
    }
    if frames.len() > 0 {
        let popped = frames.drop_last();
        assert forall|i: int, j: int|
            0 <= i < popped.len() && 0 <= j < popped[i].len() implies fv.has_value(
            (#[trigger] popped[i][j]).1,
        ) by {
            assert(popped[i] == frames[i]);
            assert(fv.has_value(frames[i][j].1));
        }
    }
}

/// The scope stays valid when the function grows.
pub proof fn lemma_frames_grown(frames: Seq<Seq<(Symbol, Value)>>, fv: FunctionView, later: FunctionView)
    requires
        frames_ok(frames, fv),
        fv.values.len() <= later.values.len(),
    ensures
        frames_ok(frames, later),
{
    assert forall|i: int, j: int|
        0 <= i < frames.len() && 0 <= j < frames[i].len() implies later.has_value(
        (#[trigger] frames[i][j]).1,
    ) by {
        assert(fv.has_value(frames[i][j].1));
    }
}

/// The value of an operand of a guard test. A variable that no scope
/// binds is reported, and the empty list stands in for it.
pub fn lower_guard_operand(ctx: &mut LowerCtx, b: &mut FunctionBuilder, operand: &GuardOperand) -> (v:
    Value)
    requires
        old(b).wf(),
        frames_ok(old(ctx).scope@, old(b).fun@),
        old(b).fun@.values.len() < u32::MAX,
    ensures
        final(b).wf(),
        final(b).pat == old(b).pat,
        final(b).fun@.has_value(v),
        final(b).fun@.blocks == old(b).fun@.blocks,
        old(b).fun@.extended_by(final(b).fun@),
        quiet(old(b).fun@, final(b).fun@),
        final(b).fun@.values.len() <= old(b).fun@.values.len() + 1,
        final(ctx).scope == old(ctx).scope,
        final(ctx).exc_stack == old(ctx).exc_stack,
        match *operand {
            GuardOperand::Var(x) => match crate::lower::scope::scope_lookup(
                old(ctx).scope@,
                x.name,
            ) {
                Some(w) => v == w && final(ctx).errors@ == old(ctx).errors@ && final(b).fun@
                    == old(b).fun@,
                None => final(ctx).errors@ == old(ctx).errors@.push(
                    LowerError::UnboundVariable(x),
                ) && final(b).fun@ == old(b).fun@.interned(ConstantTerm::Nil) && v == old(
                    b,
                ).fun@.intern_value(ConstantTerm::Nil),
            },
            GuardOperand::Literal(c) => final(ctx).errors@ == old(ctx).errors@ && final(b).fun@
                == old(b).fun@.interned(c) && v == old(b).fun@.intern_value(c),
        },
{
    let ghost fv = b.fun@;
    proof {
        lemma_quiet_same(fv);
    }
    match operand {
        GuardOperand::Var(x) => {
            match ctx.resolve(*x) {
                Some(v) => {
                    proof {
                        lemma_scope_lookup_valid(ctx.scope@, fv, x.name);
                    }
                    v
                },
                None => {
                    ctx.errors.push(LowerError::UnboundVariable(*x));
                    proof {
                        fv.lemma_interned_wf(ConstantTerm::Nil);
                        lemma_quiet_interned(fv, ConstantTerm::Nil);
                    }
                    b.value(ValueItem::Constant(ConstantTerm::Nil))
                },
            }
        },
        GuardOperand::Literal(c) => {
            proof {
                fv.lemma_interned_wf(*c);
                lemma_quiet_interned(fv, *c);
            }
            b.value(ValueItem::Constant(*c))
        },
    }
}

/// The blocks and values of one call in the guard chain.
pub struct CallParts {
    /// The block in which the chain goes on when the call returns.
    pub ok: Block,
    /// The value of `ok`, which the call gets as its return continuation.
    pub ok_val: Value,
    /// The argument of `ok`: the result of the call.
    pub res: Value,
    /// The block that makes the call.
    pub cap: Block,
    /// The argument of `cap`: the captured function.
    pub fun_val: Value,
}

/// The function after `begin_call`: a new block `ok` with one argument,
/// a new block `cap` with one argument, and in `block` the capture of the
/// function `module:name/arity` with `cap` as its continuation.
pub open spec fn call_begun(
    fv: FunctionView,
    block: Block,
    module: Value,
    name: Value,
    arity: Value,
) -> FunctionView {
    let ok = fv.next_block();
    let with_ok = fv.block_inserted().arg_inserted(ok);
    let cap = with_ok.next_block();
    with_ok.block_inserted().arg_inserted(cap).with_body(
        block,
        crate::op::OpKind::CaptureFunction,
        seq![with_ok.next_value(), module, name, arity],
    )
}

/// The handles that `begin_call` returns.
pub open spec fn call_parts(fv: FunctionView) -> CallParts {
    let ok = fv.next_block();
    let with_ok = fv.block_inserted().arg_inserted(ok);
    CallParts {
        ok,
        ok_val: fv.next_value(),
        res: fv.block_inserted().next_value(),
        cap: with_ok.next_block(),
        fun_val: with_ok.block_inserted().next_value(),
    }
}

/// Starts a call in the guard chain: inserts the block in which the chain
/// goes on, and makes `block` capture the function to call.
pub fn begin_call(b: &mut FunctionBuilder, block: Block, module: Value, name: Value, arity: Value) -> (parts:
    CallParts)
    requires
        old(b).wf(),
        old(b).fun@.has_block(block),
        old(b).fun@.has_value(module),
        old(b).fun@.has_value(name),
        old(b).fun@.has_value(arity),
        old(b).has_room(2, 4),
    ensures
        final(b).wf(),
        final(b).pat == old(b).pat,
        parts == call_parts(old(b).fun@),
        final(b).fun@ == call_begun(old(b).fun@, block, module, name, arity),
{
    let (ok, ok_val) = b.block_insert_get_val();
    let res = b.block_arg_insert(ok);
    let cap = b.op_capture_function(block, module, name, arity);
    let fun_val = b.block_args(cap)[0];
    CallParts { ok, ok_val, res, cap, fun_val }
}

/// What `call_begun` leaves: the function has two more blocks and four
/// more values, nothing but `block` is changed among what existed, and
/// the new blocks have one argument each.
pub proof fn lemma_call_begun(
    fv: FunctionView,
    block: Block,
    module: Value,
    name: Value,
    arity: Value,
)
    requires
        fv.wf(),
        fv.has_block(block),
        fv.blocks.len() + 2 <= u32::MAX,
        fv.values.len() + 4 <= u32::MAX,
    ensures
        ({
            let after = call_begun(fv, block, module, name, arity);
            let parts = call_parts(fv);
            &&& after.blocks.len() == fv.blocks.len() + 2
            &&& after.values.len() == fv.values.len() + 4
            &&& grown(fv, after)
            &&& quiet(fv, after)
            &&& after.ident == fv.ident
            &&& after.span == fv.span
            &&& after.entry == fv.entry
            &&& after.constants == fv.constants
            &&& parts.ok.idx() == fv.blocks.len()
            &&& parts.cap.idx() == fv.blocks.len() + 1
            &&& after.has_value(parts.ok_val)
            &&& after.has_value(parts.res)
            &&& after.has_value(parts.fun_val)
            &&& after.block(parts.ok).value == parts.ok_val
            &&& after.block(parts.ok).args == seq![parts.res]
            &&& after.block(parts.ok).op is None
            &&& after.block(parts.ok).reads.len() == 0
            &&& after.block(parts.cap).args == seq![parts.fun_val]
            &&& after.block(parts.cap).op is None
            &&& after.block(block).op == Some(crate::op::OpKind::CaptureFunction)
            &&& after.block(block).reads == seq![
                after.block(parts.cap).value,
                module,
                name,
                arity,
            ]
            &&& after.block(block).args == fv.block(block).args
            &&& after.block(block).value == fv.block(block).value
            &&& after.block(block).span == fv.block(block).span
            &&& forall|x: Block|
                x != block && #[trigger] fv.has_block(x) ==> after.block(x) == fv.block(x)
        }),
{
    let ok = fv.next_block();
    let a1 = fv.block_inserted();
    let a2 = a1.arg_inserted(ok);
    let cap = a2.next_block();
    let a3 = a2.block_inserted();
    let a4 = a3.arg_inserted(cap);
    let after = call_begun(fv, block, module, name, arity);
    let parts = call_parts(fv);
    lemma_quiet_block(fv);
    lemma_quiet_then_arg(fv, a1, ok);
    lemma_quiet_then_block(fv, a2);
    lemma_quiet_then_arg(fv, a3, cap);
    lemma_quiet_then_body(
        fv,
        a4,
        block,
        crate::op::OpKind::CaptureFunction,
        seq![a2.next_value(), module, name, arity],
    );
    assert(a2.block(ok).args =~= seq![parts.res]);
    assert(a4.block(cap).args =~= seq![parts.fun_val]);
    assert(after.block(parts.ok) == a2.block(ok));
    assert(after.block(parts.cap) == a4.block(cap));
    assert forall|x: Block| x != block && #[trigger] fv.has_block(x) implies after.block(x)
        == fv.block(x) by {
        assert(a1.block(x) == fv.block(x));
        assert(a2.block(x) == fv.block(x));
        assert(a3.block(x) == fv.block(x));
        assert(a4.block(x) == fv.block(x));
    }
    assert(a1.block(block) == fv.block(block));
    assert(a2.block(block) == fv.block(block));
    assert(a3.block(block) == fv.block(block));
    assert(a4.block(block) == fv.block(block));
}

/// `later` is `fv` with more blocks and values, where of the blocks of
/// `fv` only `target` may have another operation and other reads.
pub open spec fn kept_except(fv: FunctionView, later: FunctionView, target: Block) -> bool {
    &&& grown(fv, later)
    &&& later.ident == fv.ident
    &&& later.span == fv.span
    &&& later.entry == fv.entry
    &&& forall|x: Block|
        x != target && #[trigger] fv.has_block(x) ==> later.block(x) == fv.block(x)
    &&& fv.has_block(target) ==> later.block(target).args == fv.block(target).args
        && later.block(target).value == fv.block(target).value && later.block(target).span
        == fv.block(target).span
}

/// Two steps that change the same block, or of which the second changes
/// a block that the first added, are one step.
pub proof fn lemma_kept_trans(
    a: FunctionView,
    b: FunctionView,
    c: FunctionView,
    t: Block,
    t2: Block,
)
    requires
        kept_except(a, b, t),
        kept_except(b, c, t2),
        t2 == t || !a.has_block(t2),
    ensures
        kept_except(a, c, t),
{
    assert forall|i: int| 0 <= i < a.values.len() implies #[trigger] c.values[i] == a.values[i] by {
        assert(b.values[i] == a.values[i]);
    }
    assert forall|x: Block| x != t && #[trigger] a.has_block(x) implies c.block(x) == a.block(
        x,
    ) by {
        assert(b.has_block(x));
    }
    if a.has_block(t) {
        assert(b.has_block(t));
    }
}

/// A constant of a function is a constant of every function grown from
/// it.
pub proof fn lemma_constant_grown(a: FunctionView, b: FunctionView, v: Value, t: ConstantTerm)
    requires
        grown(a, b),
        a.is_constant(v, t),
    ensures
        b.is_constant(v, t),
{
    assert(b.values[v.idx()] == a.values[v.idx()]);
}

/// The blocks and values that frame a guard lambda.
pub struct GuardFrame {
    /// The entry block of the guard lambda.
    pub entry: Block,
    /// The return continuation: the first argument of the entry.
    pub ret_cont: Value,
    /// The value of the exception handler.
    pub handler: Value,
    /// The last block of the chain.
    pub cond: Block,
    pub cond_val: Value,
    /// The outcome: the argument of the last block.
    pub cond_res: Value,
    /// The scope frame that holds the binds.
    pub scope_token: ScopeToken,
}

/// Binds each named bind to the argument of `block` that carries it.
pub(crate) fn bind_args(ctx: &mut LowerCtx, b: &FunctionBuilder, block: Block, binds: &Vec<Option<Ident>>, skip: usize)
    requires
        old(ctx).scope@.len() > 0,
        b.wf(),
        b.fun@.has_block(block),
        b.fun@.block(block).args.len() == skip + binds@.len(),
        frames_ok(old(ctx).scope@, b.fun@),
    ensures
        final(ctx).scope@ == old(ctx).scope@.drop_last().push(
            old(ctx).scope@.last() + bind_frame(binds@, b.fun@.block(block).args, skip as int),
        ),
        frames_ok(final(ctx).scope@, b.fun@),
        final(ctx).exc_stack == old(ctx).exc_stack,
        final(ctx).errors == old(ctx).errors,
{
    let ghost frames0 = ctx.scope@;
    let ghost args = b.fun@.block(block).args;
    let n = binds.len();
    let total = b.block_args(block).len();
    let mut i: usize = 0;
    proof {
        assert(binds@.take(0) =~= Seq::<Option<Ident>>::empty());
        assert(frames0.last() + Seq::<(Symbol, Value)>::empty() =~= frames0.last());
        assert(frames0.drop_last().push(frames0.last()) =~= frames0);
        assert(b.fun@.block_wf(block));
    }
    while i < n
        invariant
            n == binds@.len(),
            i <= n,
            frames0.len() > 0,
            b.fun@.has_block(block),
            args == b.fun@.block(block).args,
            total == skip + n,
            args.len() == skip + n,
            forall|k: int| 0 <= k < args.len() ==> b.fun@.has_value(#[trigger] args[k]),
            frames_ok(ctx.scope@, b.fun@),
            ctx.scope@ == frames0.drop_last().push(
                frames0.last() + bind_frame(binds@.take(i as int), args, skip as int),
            ),
            ctx.exc_stack == old(ctx).exc_stack,
            ctx.errors == old(ctx).errors,
        decreases n - i,
    {
        proof {
            assert(binds@.take(i + 1).drop_last() =~= binds@.take(i as int));
            assert(binds@.take(i + 1).last() == binds@[i as int]);
        }
        match binds[i] {
            Some(name) => {
                let val = b.block_args(block)[skip + i];
                let ghost before = ctx.scope@;
                proof {
                    assert(b.fun@.has_value(args[skip + i]));
                    lemma_frames_bound(before, b.fun@, name.name, val);
                }
                ctx.bind(name, val);
                proof {
                    let init = bind_frame(binds@.take(i as int), args, skip as int);
                    assert(ctx.scope@ =~= frames0.drop_last().push(
                        frames0.last() + init.push((name.name, val)),
                    ));
                }
            },
            None => {},
        }
        i += 1;
    }
    proof {
        assert(binds@.take(n as int) =~= binds@);
    }
}

/// Builds the frame of the guard lambda: the entry block with the return
/// continuation and one argument for each bind, the exception handler that
/// returns `false`, and the last block of the chain. Opens a scope frame
/// that binds the named binds, and puts the handler in force.
fn build_frame(ctx: &mut LowerCtx, b: &mut FunctionBuilder, binds: &Vec<Option<Ident>>) -> (r: GuardFrame)
    requires
        old(b).wf(),
        frames_ok(old(ctx).scope@, old(b).fun@),
        old(b).has_room(3, 9 + binds@.len() as int),
    ensures
        final(b).wf(),
        final(b).pat == old(b).pat,
        old(b).fun@.extended_by(final(b).fun@),
        final(b).fun@.ident == old(b).fun@.ident,
        final(b).fun@.span == old(b).fun@.span,
        final(b).fun@.entry == old(b).fun@.entry,
        final(b).fun@.blocks.len() == old(b).fun@.blocks.len() + 3,
        final(b).fun@.values.len() <= old(b).fun@.values.len() + 9 + binds@.len(),
        old(b).fun@.values.len() <= final(b).fun@.values.len(),
        quiet(old(b).fun@, final(b).fun@),
        r.entry == blk(old(b).fun@.blocks.len() as int),
        r.cond == blk(old(b).fun@.blocks.len() as int + 2),
        (GuardLayout {
            base: old(b).fun@.blocks.len() as int,
            binds: binds@.len() as int,
            eqs: 0,
        }).frame_ok(final(b).fun@),
        final(b).fun@.block(r.entry).op is None,
        final(b).fun@.block(r.cond).op is None,
        final(b).fun@.block(r.entry).args[0] == r.ret_cont,
        final(b).fun@.block(r.cond).args[0] == r.cond_res,
        final(b).fun@.block(r.cond).value == r.cond_val,
        final(b).fun@.block(blk(old(b).fun@.blocks.len() as int + 1)).value == r.handler,
        final(b).fun@.has_value(r.ret_cont),
        final(b).fun@.has_value(r.handler),
        final(b).fun@.has_value(r.cond_val),
        final(b).fun@.has_value(r.cond_res),
        final(ctx).scope@ == old(ctx).scope@.push(
            bind_frame(binds@, final(b).fun@.block(r.entry).args, 1),
        ),
        r.scope_token.height == final(ctx).scope@.len(),
        frames_ok(final(ctx).scope@, final(b).fun@),
        final(ctx).exc_stack@ == old(ctx).exc_stack@.push(r.handler),
        final(ctx).errors == old(ctx).errors,
{
    let ghost fv0 = b.fun@;
    let ghost frames0 = ctx.scope@;
    let ghost nb = binds@.len();
    proof {
        fv0.lemma_block_inserted_wf();
    }
    let entry = b.block_insert();
    let ret_cont = b.block_arg_insert(entry);
    let ghost fv1 = b.fun@;
    proof {
        assert(fv1.block(entry).args =~= seq![ret_cont]);
        assert(fv0.extended_by(fv1));
        lemma_quiet_block(fv0);
        lemma_quiet_then_arg(fv0, fv0.block_inserted(), entry);
    }

    let scope_token = ctx.scope.push();
    proof {
        lemma_frames_grown(frames0, fv0, fv1);
        lemma_frames_push_pop(frames0, fv1);
    }

    // the handler of the guard returns false
    proof {
        fv1.lemma_block_inserted_wf();
        fv1.block_inserted().lemma_args_inserted(fv1.next_block(), 3);
    }
    let fail_handler = b.block_insert();
    b.block_args_insert(fail_handler, 3);
    let ghost fv2 = b.fun@;
    proof {
        lemma_quiet_then_block(fv0, fv1);
        lemma_quiet_then_args(fv0, fv1.block_inserted(), fail_handler, 3);
        lemma_quiet_then_interned(fv0, fv2, ConstantTerm::bool_spec(false));
        assert(fv2.block(entry) == fv1.block(entry));
        assert(fv0.extended_by(fv2)) by {
            assert forall|i: int| 0 <= i < fv0.blocks.len() implies #[trigger] fv2.blocks[i]
                == fv0.blocks[i] by {
                assert(fv1.blocks[i] == fv0.blocks[i]);
                assert(fv1.block_inserted().blocks[i] == fv1.blocks[i]);
            }
            assert forall|i: int| 0 <= i < fv0.values.len() implies #[trigger] fv2.values[i]
                == fv0.values[i] by {
                assert(fv1.values[i] == fv0.values[i]);
                assert(fv1.block_inserted().values[i] == fv1.values[i]);
            }
        }
        fv2.lemma_interned_wf(ConstantTerm::bool_spec(false));
    }
    let false_val = b.value(ValueItem::Constant(ConstantTerm::from_bool(false)));
    let ghost fv3 = b.fun@;
    let args: [Value; 1] = [false_val];
    proof {
        assert(fv3.has_value(ret_cont));
        lemma_quiet_then_body(
            fv0,
            fv3,
            fail_handler,
            OpKind::Call,
            seq![ret_cont] + args@,
        );
    }
    b.op_call(fail_handler, ret_cont, args.as_slice());
    let handler = b.value(ValueItem::Block(fail_handler));
    ctx.exc_stack.push_handler(handler);
    let ghost fv4 = b.fun@;
    proof {
        assert(fv4.block(fail_handler).reads =~= seq![ret_cont, false_val]);
        assert(fv4.has_block(fail_handler));
        assert(fv4.block_wf(fail_handler));
        assert(fv4.block(entry) == fv1.block(entry));
        assert(fv0.extended_by(fv4)) by {
            assert forall|i: int| 0 <= i < fv0.blocks.len() implies #[trigger] fv4.blocks[i]
                == fv0.blocks[i] by {
                assert(fv2.blocks[i] == fv0.blocks[i]);
                assert(fv3.blocks[i] == fv2.blocks[i]);
            }
            assert forall|i: int| 0 <= i < fv0.values.len() implies #[trigger] fv4.values[i]
                == fv0.values[i] by {
                assert(fv2.values[i] == fv0.values[i]);
                assert(fv3.values[i] == fv2.values[i]);
            }
        }
        fv4.lemma_args_inserted(entry, nb);
        lemma_quiet_then_args(fv0, fv4, entry, nb);
    }

    // Binds
    b.block_args_insert(entry, binds.len());
    let ghost fv5 = b.fun@;
    proof {
        assert(fv5.block(fail_handler) == fv4.block(fail_handler));
        assert(fv5.block(entry).args[0] == ret_cont);
        lemma_frames_grown(ctx.scope@, fv1, fv5);
        assert(ctx.scope@.drop_last() =~= frames0);
        assert(Seq::<(Symbol, Value)>::empty() + bind_frame(binds@, fv5.block(entry).args, 1)
            =~= bind_frame(binds@, fv5.block(entry).args, 1));
        assert(fv0.extended_by(fv5)) by {
            assert forall|i: int| 0 <= i < fv0.blocks.len() implies #[trigger] fv5.blocks[i]
                == fv0.blocks[i] by {
                assert(fv4.blocks[i] == fv0.blocks[i]);
            }
            assert forall|i: int| 0 <= i < fv0.values.len() implies #[trigger] fv5.values[i]
                == fv0.values[i] by {
                assert(fv4.values[i] == fv0.values[i]);
            }
        }
        fv5.lemma_block_inserted_wf();
    }
    bind_args(ctx, b, entry, binds, 1);

    let (cond, cond_val) = b.block_insert_get_val();
    let cond_res = b.block_arg_insert(cond);
    proof {
        let fv6 = b.fun@;
        lemma_quiet_then_block(fv0, fv5);
        lemma_quiet_then_arg(fv0, fv5.block_inserted(), cond);
        lemma_frames_grown(ctx.scope@, fv5, fv6);
        assert(fv6.block(entry) == fv5.block(entry));
        assert(fv6.block(fail_handler) == fv4.block(fail_handler));
        assert(fv6.block(cond).args =~= seq![cond_res]);
        lemma_constant_grown(fv3, fv6, false_val, ConstantTerm::bool_spec(false));
        assert(fv0.extended_by(fv6)) by {
            assert forall|i: int| 0 <= i < fv0.blocks.len() implies #[trigger] fv6.blocks[i]
                == fv0.blocks[i] by {
                assert(fv5.blocks[i] == fv0.blocks[i]);
                assert(fv5.block_inserted().blocks[i] == fv5.blocks[i]);
            }
            assert forall|i: int| 0 <= i < fv0.values.len() implies #[trigger] fv6.values[i]
                == fv0.values[i] by {
                assert(fv5.values[i] == fv0.values[i]);
                assert(fv5.block_inserted().values[i] == fv5.values[i]);
            }
        }
    }
    GuardFrame { entry, ret_cont, handler, cond, cond_val, cond_res, scope_token }
}

/// Giving a block an operation changes nothing else.
pub proof fn lemma_with_body_kept(fv: FunctionView, b: Block, op: OpKind, reads: Seq<Value>)
    requires
        fv.has_block(b),
    ensures
        kept_except(fv, fv.with_body(b, op, reads), b),
{
}

/// Inserting a block changes nothing of what the function had.
pub proof fn lemma_block_inserted_kept(fv: FunctionView, any: Block)
    requires
        fv.wf(),
        fv.blocks.len() < u32::MAX,
        fv.values.len() < u32::MAX,
    ensures
        kept_except(fv, fv.block_inserted(), any),
{
    fv.lemma_block_inserted_wf();
    assert forall|x: Block| #[trigger] fv.has_block(x) implies fv.block_inserted().block(x)
        == fv.block(x) by {}
}

/// Inserting arguments of a block changes only the arguments of the
/// block.
pub proof fn lemma_args_inserted_new(fv: FunctionView, b: Block, n: nat, old: FunctionView, any: Block)
    requires
        fv.wf(),
        fv.has_block(b),
        fv.values.len() + n <= u32::MAX,
        !old.has_block(b),
        kept_except(old, fv, any),
    ensures
        kept_except(old, fv.args_inserted(b, n), any),
{
    fv.lemma_args_inserted(b, n);
    let after = fv.args_inserted(b, n);
    assert forall|i: int| 0 <= i < old.values.len() implies #[trigger] after.values[i]
        == old.values[i] by {
        assert(fv.values[i] == old.values[i]);
    }
    assert forall|x: Block| x != any && #[trigger] old.has_block(x) implies after.block(x)
        == old.block(x) by {
        assert(fv.has_block(x));
        assert(after.block(x) == fv.block(x));
    }
    if old.has_block(any) {
        assert(fv.has_block(any));
        assert(after.block(any) == fv.block(any));
    }
}

impl GuardLayout {
    /// An equality guard that is built stays built while the chain goes
    /// on.
    pub proof fn lemma_eq_ok_kept(
        self,
        fv: FunctionView,
        later: FunctionView,
        eqs: Seq<EqGuard>,
        g: int,
        t: Block,
    )
        requires
            self.eq_ok(fv, eqs, g),
            kept_except(fv, later, t),
            fv.has_block(self.entry()),
            fv.has_block(self.eq_start(g)),
            fv.has_block(self.eq_cap(g)),
            fv.has_block(self.eq_unreachable(g)),
            fv.has_block(self.eq_next(g)),
            t != self.eq_start(g),
            t != self.eq_cap(g),
            t != self.eq_unreachable(g),
        ensures
            self.eq_ok(later, eqs, g),
    {
        let start = fv.block(self.eq_start(g));
        lemma_constant_grown(fv, later, start.reads[1], ConstantTerm::Atom(Symbol(SYM_ERLANG)));
        lemma_constant_grown(fv, later, start.reads[2], ConstantTerm::Atom(Symbol(SYM_EXACT_EQ)));
        lemma_constant_grown(fv, later, start.reads[3], ConstantTerm::Int(2));
        assert(later.block(self.eq_start(g)) == start);
        assert(later.block(self.eq_cap(g)) == fv.block(self.eq_cap(g)));
        assert(later.block(self.eq_unreachable(g)) == fv.block(self.eq_unreachable(g)));
        assert(later.block(self.eq_next(g)).args == fv.block(self.eq_next(g)).args);
        assert(later.block(self.eq_next(g)).value == fv.block(self.eq_next(g)).value);
        assert(later.block(self.entry()).args == fv.block(self.entry()).args);
    }

    /// The frame of the guard lambda stays as it is while the chain goes
    /// on.
    pub proof fn lemma_frame_ok_kept(self, fv: FunctionView, later: FunctionView, t: Block)
        requires
            self.frame_ok(fv),
            kept_except(fv, later, t),
            fv.has_block(self.entry()),
            fv.has_block(self.fail_handler()),
            fv.has_block(self.cond()),
            t != self.fail_handler(),
        ensures
            self.frame_ok(later),
    {
        lemma_constant_grown(
            fv,
            later,
            fv.block(self.fail_handler()).reads[1],
            ConstantTerm::bool_spec(false),
        );
        assert(later.block(self.fail_handler()) == fv.block(self.fail_handler()));
        assert(later.block(self.entry()).args == fv.block(self.entry()).args);
        assert(later.block(self.cond()).args == fv.block(self.cond()).args);
    }
}

/// The arguments of the equality guards are binds of the clause and
/// values of the function.
pub open spec fn eqs_valid(eqs: Seq<EqGuard>, binds: int, fv: FunctionView) -> bool {
    forall|g: int|
        0 <= g < eqs.len() ==> match #[trigger] eqs[g] {
            EqGuard::EqValue(i, v) => i < binds && fv.has_value(v),
            EqGuard::EqBind(i, j) => i < binds && j < binds,
        }
}

/// Builds the calls of the equality guards, one after the other, and
/// pushes their outcomes onto `top_and`. Returns the block in which the
/// chain goes on.
fn build_eq_guards(
    b: &mut FunctionBuilder,
    eq_guards: &Vec<EqGuard>,
    entry: Block,
    erlang_atom: Value,
    exact_eq_atom: Value,
    two_atom: Value,
    top_and: &mut IntrinsicBuilder,
    Ghost(lay): Ghost<GuardLayout>,
) -> (cur: Block)
    requires
        old(b).wf(),
        lay.eqs == eq_guards@.len(),
        lay.base >= 0,
        lay.binds >= 0,
        lay.base + 3 == old(b).fun@.blocks.len(),
        entry == lay.entry(),
        old(b).fun@.block(entry).args.len() == 1 + lay.binds,
        old(b).fun@.block(entry).op is None,
        eqs_valid(eq_guards@, lay.binds, old(b).fun@),
        old(b).fun@.is_constant(erlang_atom, ConstantTerm::Atom(Symbol(SYM_ERLANG))),
        old(b).fun@.is_constant(exact_eq_atom, ConstantTerm::Atom(Symbol(SYM_EXACT_EQ))),
        old(b).fun@.is_constant(two_atom, ConstantTerm::Int(2)),
        old(b).has_room(3 * eq_guards@.len() as int, 8 * eq_guards@.len() as int),
        forall|i: int|
            0 <= i < old(top_and).values@.len() ==> old(b).fun@.has_value(
                #[trigger] old(top_and).values@[i],
            ),
    ensures
        final(b).wf(),
        final(b).pat == old(b).pat,
        kept_except(old(b).fun@, final(b).fun@, entry),
        quiet(old(b).fun@, final(b).fun@),
        final(b).fun@.blocks.len() == old(b).fun@.blocks.len() + 3 * eq_guards@.len(),
        final(b).fun@.values.len() == old(b).fun@.values.len() + 8 * eq_guards@.len(),
        final(b).fun@.constants == old(b).fun@.constants,
        forall|g: int| 0 <= g < eq_guards@.len() ==> #[trigger] lay.eq_ok(
            final(b).fun@,
            eq_guards@,
            g,
        ),
        cur == lay.eq_end(),
        final(b).fun@.has_block(cur),
        final(b).fun@.block(cur).op is None,
        final(top_and).name == old(top_and).name,
        final(top_and).block == old(top_and).block,
        final(top_and).values@.len() == old(top_and).values@.len() + eq_guards@.len(),
        forall|i: int|
            0 <= i < old(top_and).values@.len() ==> #[trigger] final(top_and).values@[i] == old(
                top_and,
            ).values@[i],
        forall|g: int|
            0 <= g < eq_guards@.len() ==> #[trigger] final(top_and).values@[old(
                top_and,
            ).values@.len() + g] == final(b).fun@.block(lay.eq_next(g)).args[0],
        forall|i: int|
            0 <= i < final(top_and).values@.len() ==> final(b).fun@.has_value(
                #[trigger] final(top_and).values@[i],
            ),
{
    let ghost fv0 = b.fun@;
    let ghost eqs = eq_guards@;
    let ghost tv0 = top_and.values@;
    let n = eq_guards.len();
    let mut cur = entry;
    let mut g: usize = 0;
    proof {
        assert(fv0.has_block(entry));
        lemma_quiet_same(fv0);
    }
    while g < n
        invariant
            n == eqs.len(),
            eqs == eq_guards@,
            g <= n,
            quiet(fv0, b.fun@),
            lay.eqs == n,
            lay.base >= 0,
            lay.binds >= 0,
            lay.base + 3 == fv0.blocks.len(),
            entry == lay.entry(),
            fv0.wf(),
            fv0.block(entry).args.len() == 1 + lay.binds,
            fv0.blocks.len() + 3 * n <= u32::MAX,
            fv0.values.len() + 8 * n <= u32::MAX,
            eqs_valid(eqs, lay.binds, fv0),
            fv0.is_constant(erlang_atom, ConstantTerm::Atom(Symbol(SYM_ERLANG))),
            fv0.is_constant(exact_eq_atom, ConstantTerm::Atom(Symbol(SYM_EXACT_EQ))),
            fv0.is_constant(two_atom, ConstantTerm::Int(2)),
            b.wf(),
            b.pat == old(b).pat,
            kept_except(fv0, b.fun@, entry),
            b.fun@.blocks.len() == fv0.blocks.len() + 3 * g,
            b.fun@.values.len() == fv0.values.len() + 8 * g,
            b.fun@.constants == fv0.constants,
            cur == lay.eq_start(g as int),
            b.fun@.has_block(cur),
            b.fun@.block(cur).op is None,
            forall|k: int| 0 <= k < g ==> #[trigger] lay.eq_ok(b.fun@, eqs, k),
            top_and.name == old(top_and).name,
            top_and.block == old(top_and).block,
            top_and.values@.len() == tv0.len() + g,
            forall|i: int| 0 <= i < tv0.len() ==> #[trigger] top_and.values@[i] == tv0[i],
            forall|k: int|
                0 <= k < g ==> #[trigger] top_and.values@[tv0.len() + k] == b.fun@.block(
                    lay.eq_next(k),
                ).args[0],
            forall|i: int|
                0 <= i < top_and.values@.len() ==> b.fun@.has_value(#[trigger] top_and.values@[i]),
        decreases n - g,
    {
        let ghost fv_a = b.fun@;
        let ghost tv_a = top_and.values@;
        proof {
            assert(fv_a.has_block(entry));
            assert(fv_a.block(entry).args == fv0.block(entry).args);
            assert(fv_a.block_wf(entry));
            lemma_constant_grown(fv0, fv_a, erlang_atom, ConstantTerm::Atom(Symbol(SYM_ERLANG)));
            lemma_constant_grown(
                fv0,
                fv_a,
                exact_eq_atom,
                ConstantTerm::Atom(Symbol(SYM_EXACT_EQ)),
            );
            lemma_constant_grown(fv0, fv_a, two_atom, ConstantTerm::Int(2));
        }
        let n_args = b.block_args(entry).len();
        assert(n_args == 1 + lay.binds);
        let (lhs, rhs) = match eq_guards[g] {
            EqGuard::EqValue(lhs_idx, rhs) => {
                let lhs = b.block_args(entry)[lhs_idx + 1];
                (lhs, rhs)
            },
            EqGuard::EqBind(lhs_idx, rhs_idx) => {
                let lhs = b.block_args(entry)[lhs_idx + 1];
                let rhs = b.block_args(entry)[rhs_idx + 1];
                (lhs, rhs)
            },
        };
        proof {
            assert((lhs, rhs) == eq_sides(fv_a.block(entry).args, eqs[g as int]));
            assert(fv_a.has_value(lhs));
            assert(fv_a.has_value(rhs));
            lemma_call_begun(fv_a, cur, erlang_atom, exact_eq_atom, two_atom);
        }
        let parts = begin_call(b, cur, erlang_atom, exact_eq_atom, two_atom);
        let ghost fv_b = b.fun@;
        proof {
            assert(kept_except(fv_a, fv_b, cur));
            lemma_quiet_kept(fv0, fv_a, fv_b, cur);
            lemma_block_inserted_kept(fv_b, cur);
            fv_b.lemma_block_inserted_wf();
            fv_b.block_inserted().lemma_args_inserted(fv_b.next_block(), 3);
            lemma_quiet_then_block(fv0, fv_b);
            lemma_quiet_then_args(fv0, fv_b.block_inserted(), fv_b.next_block(), 3);
        }

        let (unreachable_err, unreachable_err_val) = b.block_insert_get_val();
        b.block_args_insert(unreachable_err, 3);
        let ghost fv_c = b.fun@;
        b.op_unreachable(unreachable_err);
        let ghost fv_d = b.fun@;
        proof {
            lemma_quiet_then_body(fv0, fv_c, unreachable_err, OpKind::Unreachable, Seq::empty());
            lemma_kept_trans(fv_a, fv_b, fv_b.block_inserted(), cur, cur);
            lemma_args_inserted_new(fv_b.block_inserted(), unreachable_err, 3, fv_a, cur);
            lemma_with_body_kept(fv_c, unreachable_err, OpKind::Unreachable, Seq::empty());
            lemma_kept_trans(fv_a, fv_c, fv_d, cur, unreachable_err);
            assert(fv_d.has_value(parts.fun_val));
            assert(fv_d.has_value(parts.ok_val));
            assert(fv_d.has_value(unreachable_err_val));
            assert(fv_d.has_value(lhs));
            assert(fv_d.has_value(rhs));
        }

        let operands: [Value; 4] = [parts.ok_val, unreachable_err_val, lhs, rhs];
        b.op_call(parts.cap, parts.fun_val, operands.as_slice());
        let ghost fv_e = b.fun@;
        top_and.push_value(parts.res);
        proof {
            lemma_quiet_then_body(
                fv0,
                fv_d,
                parts.cap,
                OpKind::Call,
                seq![parts.fun_val] + operands@,
            );
            lemma_with_body_kept(
                fv_d,
                parts.cap,
                OpKind::Call,
                seq![parts.fun_val] + operands@,
            );
            lemma_kept_trans(fv_a, fv_d, fv_e, cur, parts.cap);
            lemma_kept_trans(fv0, fv_a, fv_e, entry, cur);
            // the new guard
            assert(parts.ok == lay.eq_next(g as int));
            assert(parts.cap == lay.eq_cap(g as int));
            assert(unreachable_err == lay.eq_unreachable(g as int));
            assert(fv_e.block(cur) == fv_b.block(cur));
            assert(fv_e.block(parts.cap).reads =~= seq![
                parts.fun_val,
                parts.ok_val,
                unreachable_err_val,
                lhs,
                rhs,
            ]);
            assert(fv_e.block(parts.cap).args == fv_b.block(parts.cap).args);
            assert(fv_e.block(parts.ok) == fv_b.block(parts.ok));
            assert(fv_e.block(unreachable_err) == fv_d.block(unreachable_err));
            assert(fv_c.block(unreachable_err).args.len() == 3);
            assert(fv_e.block(entry).args == fv_a.block(entry).args);
            lemma_constant_grown(fv_a, fv_e, erlang_atom, ConstantTerm::Atom(Symbol(SYM_ERLANG)));
            lemma_constant_grown(
                fv_a,
                fv_e,
                exact_eq_atom,
                ConstantTerm::Atom(Symbol(SYM_EXACT_EQ)),
            );
            lemma_constant_grown(fv_a, fv_e, two_atom, ConstantTerm::Int(2));
            assert(lay.eq_ok(fv_e, eqs, g as int));
            // the guards before
            assert forall|k: int| 0 <= k < g implies #[trigger] lay.eq_ok(fv_e, eqs, k) by {
                assert(lay.eq_ok(fv_a, eqs, k));
                lay.lemma_eq_ok_kept(fv_a, fv_e, eqs, k, cur);
            }
            assert forall|k: int| 0 <= k < g + 1 implies #[trigger] top_and.values@[tv0.len() + k]
                == fv_e.block(lay.eq_next(k)).args[0] by {
                if k < g {
                    assert(top_and.values@[tv0.len() + k] == tv_a[tv0.len() + k]);
                    assert(fv_a.has_block(lay.eq_next(k)));
                    assert(fv_e.block(lay.eq_next(k)).args == fv_a.block(lay.eq_next(k)).args);
                }
            }
            assert forall|i: int| 0 <= i < top_and.values@.len() implies fv_e.has_value(
                #[trigger] top_and.values@[i],
            ) by {
                if i < tv_a.len() {
                    assert(top_and.values@[i] == tv_a[i]);
                    assert(fv_a.has_value(tv_a[i]));
                }
            }
            assert forall|i: int| 0 <= i < tv0.len() implies #[trigger] top_and.values@[i]
                == tv0[i] by {
                assert(top_and.values@[i] == tv_a[i]);
            }
        }
        cur = parts.ok;
        g += 1;
    }
    cur
}

/// The blocks of one more guard.
pub proof fn lemma_guards_blocks_step(gs: Seq<Guard>, u: int)
    requires
        0 <= u < gs.len(),
    ensures
        guards_blocks(gs.take(u + 1)) == guards_blocks(gs.take(u)) + 1 + 2
            * gs[u].conditions@.len(),
        guards_blocks(gs.take(u + 1)) <= guards_blocks(gs),
    decreases gs.len() - u,
{
    assert(gs.take(u + 1).drop_last() =~= gs.take(u));
    assert(gs.take(u + 1).last() == gs[u]);
    if u + 1 < gs.len() {
        lemma_guards_blocks_step(gs, u + 1);
    } else {
        assert(gs.take(u + 1) =~= gs);
    }
}

/// The blocks of a guard sequence are no more than twice its cost.
pub proof fn lemma_guards_blocks_cost(gs: Seq<Guard>)
    ensures
        guards_blocks(gs) <= 2 * guards_cost(gs),
    decreases gs.len(),
{
    if gs.len() > 0 {
        lemma_guards_blocks_cost(gs.drop_last());
        lemma_tests_cost_len(gs.last().conditions@);
    }
}

/// A list of tests costs at least one for each test.
pub proof fn lemma_tests_cost_len(ts: Seq<GuardTest>)
    ensures
        ts.len() <= tests_cost(ts),
    decreases ts.len(),
{
    if ts.len() > 0 {
        lemma_tests_cost_len(ts.drop_last());
    }
}

/// An operand that has its value keeps it when the function grows.
pub proof fn lemma_operand_ok_grown(
    fv: FunctionView,
    later: FunctionView,
    frames: Seq<Seq<(Symbol, Value)>>,
    operand: GuardOperand,
    v: Value,
)
    requires
        operand_ok(fv, frames, operand, v),
        grown(fv, later),
    ensures
        operand_ok(later, frames, operand, v),
{
    match operand {
        GuardOperand::Var(x) => {
            if scope_lookup_none(frames, x.name) {
                lemma_constant_grown(fv, later, v, ConstantTerm::Nil);
            }
        },
        GuardOperand::Literal(c) => {
            lemma_constant_grown(fv, later, v, c);
        },
    }
}

pub open spec fn scope_lookup_none(frames: Seq<Seq<(Symbol, Value)>>, name: Symbol) -> bool {
    crate::lower::scope::scope_lookup(frames, name) is None
}

/// A test that is built stays built while the chain goes on.
pub proof fn lemma_test_built_kept(
    fv: FunctionView,
    later: FunctionView,
    frames: Seq<Seq<(Symbol, Value)>>,
    test: GuardTest,
    start: Block,
    cap: Block,
    ok: Block,
    handler: Value,
    target: Block,
)
    requires
        test_built(fv, frames, test, start, cap, ok, handler),
        kept_except(fv, later, target),
        fv.has_block(start),
        fv.has_block(cap),
        fv.has_block(ok),
        target != start,
        target != cap,
    ensures
        test_built(later, frames, test, start, cap, ok, handler),
{
    let sb = fv.block(start);
    let cb = fv.block(cap);
    lemma_constant_grown(fv, later, sb.reads[1], ConstantTerm::Atom(test.module));
    lemma_constant_grown(fv, later, sb.reads[2], ConstantTerm::Atom(test.name));
    lemma_constant_grown(fv, later, sb.reads[3], arity_term(test.args@.len()));
    assert(later.block(start) == sb);
    assert(later.block(cap) == cb);
    assert(later.block(ok).args == fv.block(ok).args);
    assert(later.block(ok).value == fv.block(ok).value);
    assert forall|k: int| 0 <= k < test.args@.len() implies operand_ok(
        later,
        frames,
        test.args@[k],
        #[trigger] later.block(cap).reads[3 + k],
    ) by {
        assert(operand_ok(fv, frames, test.args@[k], cb.reads[3 + k]));
        lemma_operand_ok_grown(fv, later, frames, test.args@[k], cb.reads[3 + k]);
    }
}

/// The values of the operands of a test, in order. The errors of
/// variables that no scope binds are reported.
fn lower_operands(ctx: &mut LowerCtx, b: &mut FunctionBuilder, operands: &Vec<GuardOperand>, Ghost(any): Ghost<
    Block,
>) -> (vals: Vec<Value>)
    requires
        old(b).wf(),
        frames_ok(old(ctx).scope@, old(b).fun@),
        old(b).has_room(0, operands@.len() as int),
    ensures
        final(b).wf(),
        final(b).pat == old(b).pat,
        kept_except(old(b).fun@, final(b).fun@, any),
        quiet(old(b).fun@, final(b).fun@),
        final(b).fun@.blocks == old(b).fun@.blocks,
        final(b).fun@.values.len() <= old(b).fun@.values.len() + operands@.len(),
        vals@.len() == operands@.len(),
        forall|k: int|
            0 <= k < vals@.len() ==> final(b).fun@.has_value(#[trigger] vals@[k]) && operand_ok(
                final(b).fun@,
                old(ctx).scope@,
                operands@[k],
                vals@[k],
            ),
        final(ctx).scope == old(ctx).scope,
        final(ctx).exc_stack == old(ctx).exc_stack,
        final(ctx).errors@ == old(ctx).errors@ + operand_errors(old(ctx).scope@, operands@),
{
    let ghost fv0 = b.fun@;
    let ghost frames = ctx.scope@;
    let ghost e0 = ctx.errors@;
    let n = operands.len();
    let mut vals: Vec<Value> = Vec::new();
    let mut k: usize = 0;
    proof {
        assert(operands@.take(0) =~= Seq::<GuardOperand>::empty());
        assert(e0 + Seq::<LowerError>::empty() =~= e0);
        lemma_quiet_same(fv0);
    }
    while k < n
        invariant
            n == operands@.len(),
            k <= n,
            quiet(fv0, b.fun@),
            fv0.wf(),
            fv0.values.len() + n <= u32::MAX,
            b.wf(),
            b.pat == old(b).pat,
            frames == ctx.scope@,
            ctx.scope == old(ctx).scope,
            ctx.exc_stack == old(ctx).exc_stack,
            frames_ok(frames, b.fun@),
            fv0.extended_by(b.fun@),
            b.fun@.blocks == fv0.blocks,
            b.fun@.ident == fv0.ident,
            b.fun@.span == fv0.span,
            b.fun@.entry == fv0.entry,
            b.fun@.values.len() <= fv0.values.len() + k,
            vals@.len() == k,
            forall|i: int|
                0 <= i < k ==> b.fun@.has_value(#[trigger] vals@[i]) && operand_ok(
                    b.fun@,
                    frames,
                    operands@[i],
                    vals@[i],
                ),
            ctx.errors@ == e0 + operand_errors(frames, operands@.take(k as int)),
        decreases n - k,
    {
        let ghost fv_a = b.fun@;
        let ghost vals_a = vals@;
        proof {
            assert(operands@.take(k + 1).drop_last() =~= operands@.take(k as int));
            assert(operands@.take(k + 1).last() == operands@[k as int]);
        }
        let v = lower_guard_operand(ctx, b, &operands[k]);
        vals.push(v);
        proof {
            let fv_b = b.fun@;
            lemma_quiet_trans(fv0, fv_a, fv_b);
            lemma_frames_extended(frames, fv_a, fv_b);
            assert(grown(fv_a, fv_b));
            fv_a.lemma_interned_wf(ConstantTerm::Nil);
            match operands@[k as int] {
                GuardOperand::Var(x) => {},
                GuardOperand::Literal(c) => {
                    fv_a.lemma_interned_wf(c);
                },
            }
            assert forall|i: int| 0 <= i < k + 1 implies fv_b.has_value(#[trigger] vals@[i])
                && operand_ok(fv_b, frames, operands@[i], vals@[i]) by {
                if i < k {
                    assert(vals@[i] == vals_a[i]);
                    assert(fv_a.has_value(vals_a[i]));
                    lemma_operand_ok_grown(fv_a, fv_b, frames, operands@[i], vals_a[i]);
                }
            }
            assert(fv0.extended_by(fv_b)) by {
                assert forall|i: int| 0 <= i < fv0.values.len() implies #[trigger] fv_b.values[i]
                    == fv0.values[i] by {
                    assert(fv_a.values[i] == fv0.values[i]);
                }
            }
            assert(ctx.errors@ =~= e0 + operand_errors(frames, operands@.take(k + 1)));
        }
        k += 1;
    }
    proof {
        assert(operands@.take(n as int) =~= operands@);
    }
    vals
}

/// The constant for the arity of a test.
fn arity_constant(n: usize) -> (r: ConstantTerm)
    ensures
        r == arity_term(n as nat),
{
    let wide = n as u64;
    if wide <= 0x7fff_ffff_ffff_ffffu64 {
        ConstantTerm::Int(wide as i64)
    } else {
        ConstantTerm::Int(0x7fff_ffff_ffff_ffffi64)
    }
}

/// Builds the call of one test of a guard in the block `cur`. The chain
/// goes on in the block `ok` of the returned parts.
fn build_test(ctx: &mut LowerCtx, b: &mut FunctionBuilder, test: &GuardTest, cur: Block, handler: Value) -> (parts:
    CallParts)
    requires
        old(b).wf(),
        old(b).fun@.has_block(cur),
        old(b).fun@.has_value(handler),
        frames_ok(old(ctx).scope@, old(b).fun@),
        old(b).has_room(2, 7 + test.args@.len() as int),
    ensures
        final(b).wf(),
        final(b).pat == old(b).pat,
        kept_except(old(b).fun@, final(b).fun@, cur),
        quiet(old(b).fun@, final(b).fun@),
        final(b).fun@.blocks.len() == old(b).fun@.blocks.len() + 2,
        final(b).fun@.values.len() <= old(b).fun@.values.len() + 7 + test.args@.len(),
        parts.ok.idx() == old(b).fun@.blocks.len(),
        parts.cap.idx() == old(b).fun@.blocks.len() + 1,
        test_built(
            final(b).fun@,
            old(ctx).scope@,
            *test,
            cur,
            parts.cap,
            parts.ok,
            handler,
        ),
        final(b).fun@.block(parts.ok).args == seq![parts.res],
        final(b).fun@.block(parts.ok).op is None,
        final(b).fun@.has_value(parts.res),
        final(ctx).scope == old(ctx).scope,
        final(ctx).exc_stack == old(ctx).exc_stack,
        final(ctx).errors@ == old(ctx).errors@ + operand_errors(old(ctx).scope@, test.args@),
        frames_ok(final(ctx).scope@, final(b).fun@),
{
    let ghost fv0 = b.fun@;
    let ghost frames = ctx.scope@;
    let module_term = ConstantTerm::Atom(test.module);
    let name_term = ConstantTerm::Atom(test.name);
    let arity_term = arity_constant(test.args.len());
    proof {
        fv0.lemma_interned_wf(module_term);
    }
    let module_atom = b.value(ValueItem::Constant(module_term));
    let ghost fv1 = b.fun@;
    proof {
        fv1.lemma_interned_wf(name_term);
    }
    let name_atom = b.value(ValueItem::Constant(name_term));
    let ghost fv2 = b.fun@;
    proof {
        fv2.lemma_interned_wf(arity_term);
    }
    let arity = b.value(ValueItem::Constant(arity_term));
    let ghost fv3 = b.fun@;
    proof {
        lemma_frames_extended(frames, fv0, fv1);
        lemma_frames_extended(frames, fv1, fv2);
        lemma_frames_extended(frames, fv2, fv3);
        assert(kept_except(fv0, fv1, cur));
        assert(kept_except(fv1, fv2, cur));
        assert(kept_except(fv2, fv3, cur));
        lemma_kept_trans(fv0, fv1, fv2, cur, cur);
        lemma_kept_trans(fv0, fv2, fv3, cur, cur);
        lemma_quiet_interned(fv0, module_term);
        lemma_quiet_then_interned(fv0, fv1, name_term);
        lemma_quiet_then_interned(fv0, fv2, arity_term);
    }
    let vals = lower_operands(ctx, b, &test.args, Ghost(cur));
    let ghost fv4 = b.fun@;
    proof {
        lemma_quiet_kept(fv0, fv3, fv4, cur);
        lemma_kept_trans(fv0, fv3, fv4, cur, cur);
        lemma_constant_grown(fv1, fv4, module_atom, module_term);
        lemma_constant_grown(fv2, fv4, name_atom, name_term);
        lemma_constant_grown(fv3, fv4, arity, arity_term);
        lemma_call_begun(fv4, cur, module_atom, name_atom, arity);
        lemma_frames_grown(frames, fv3, fv4);
    }
    let parts = begin_call(b, cur, module_atom, name_atom, arity);
    let ghost fv5 = b.fun@;

    let mut operands: Vec<Value> = Vec::new();
    operands.push(parts.ok_val);
    operands.push(handler);
    let n = vals.len();
    let mut k: usize = 0;
    while k < n
        invariant
            n == vals@.len(),
            k <= n,
            operands@ == seq![parts.ok_val, handler] + vals@.take(k as int),
        decreases n - k,
    {
        operands.push(vals[k]);
        proof {
            assert(vals@.take(k + 1) =~= vals@.take(k as int).push(vals@[k as int]));
            assert(operands@ =~= seq![parts.ok_val, handler] + vals@.take(k + 1));
        }
        k += 1;
    }
    proof {
        assert(vals@.take(n as int) =~= vals@);
        assert(kept_except(fv4, fv5, cur));
        lemma_quiet_kept(fv0, fv4, fv5, cur);
        lemma_quiet_then_body(
            fv0,
            fv5,
            parts.cap,
            OpKind::Call,
            seq![parts.fun_val] + operands@,
        );
        assert forall|i: int| 0 <= i < operands@.len() implies fv5.has_value(
            #[trigger] operands@[i],
        ) by {
            if i >= 2 {
                assert(operands@[i] == vals@[i - 2]);
                assert(fv4.has_value(vals@[i - 2]));
            }
        }
    }
    b.op_call(parts.cap, parts.fun_val, operands.as_slice());
    proof {
        let fv6 = b.fun@;
        let reads = seq![parts.fun_val] + operands@;
        lemma_with_body_kept(fv5, parts.cap, OpKind::Call, reads);
        lemma_kept_trans(fv0, fv4, fv5, cur, cur);
        lemma_kept_trans(fv0, fv5, fv6, cur, parts.cap);
        lemma_frames_grown(frames, fv4, fv6);
        assert(fv6.block(cur) == fv5.block(cur));
        assert(fv6.block(parts.ok) == fv5.block(parts.ok));
        assert(fv6.block(parts.cap).args == fv5.block(parts.cap).args);
        assert(fv6.block(parts.cap).reads == reads);
        lemma_constant_grown(fv4, fv6, module_atom, module_term);
        lemma_constant_grown(fv4, fv6, name_atom, name_term);
        lemma_constant_grown(fv4, fv6, arity, arity_term);
        assert forall|i: int| 0 <= i < test.args@.len() implies operand_ok(
            fv6,
            frames,
            test.args@[i],
            #[trigger] fv6.block(parts.cap).reads[3 + i],
        ) by {
            assert(reads[3 + i] == vals@[i]);
            lemma_operand_ok_grown(fv4, fv6, frames, test.args@[i], vals@[i]);
        }
    }
    parts
}

impl GuardLayout {
    /// The layout has room in the 32-bit space of block handles.
    pub open spec fn fits(self, guard: Option<Seq<Guard>>) -> bool {
        &&& self.base >= 0
        &&& self.binds >= 0
        &&& self.eqs >= 0
        &&& self.base + self.size(guard) <= u32::MAX
    }

    /// A guard that is built stays built while the chain goes on.
    pub proof fn lemma_guard_ok_kept(
        self,
        fv: FunctionView,
        later: FunctionView,
        frames: Seq<Seq<(Symbol, Value)>>,
        gs: Seq<Guard>,
        u: int,
        target: Block,
    )
        requires
            self.fits(Some(gs)),
            0 <= u < gs.len(),
            self.guard_ok(fv, frames, gs, u),
            kept_except(fv, later, target),
            fv.has_block(self.fail_handler()),
            fv.has_block(self.guard_start(gs, u)),
            self.guard_start(gs, u).idx() < self.and_block(gs, u).idx(),
            fv.blocks.len() > self.and_block(gs, u).idx() + 2 * gs[u].conditions@.len(),
            target != self.fail_handler(),
            target != self.guard_start(gs, u),
            target.idx() <= self.and_block(gs, u).idx() || target.idx() > self.and_block(
                gs,
                u,
            ).idx() + 2 * gs[u].conditions@.len(),
        ensures
            self.guard_ok(later, frames, gs, u),
    {
        let n = gs[u].conditions@.len() as int;
        lemma_guards_blocks_step(gs, u);
        let ab = self.and_block(gs, u);
        assert(ab.idx() == self.after_eqs() + 1 + guards_blocks(gs.take(u)));
        assert forall|t: int| 0 <= t < n implies #[trigger] self.test_ok_at(
            later,
            frames,
            gs,
            u,
            t,
        ) by {
            assert(self.test_ok_at(fv, frames, gs, u, t));
            assert(self.test_ok(gs, u, t).idx() == ab.idx() + 1 + 2 * t);
            assert(self.test_cap(gs, u, t).idx() == ab.idx() + 2 + 2 * t);
            if t > 0 {
                assert(self.test_start(gs, u, t).idx() == ab.idx() + 1 + 2 * (t - 1));
            }
            lemma_test_built_kept(
                fv,
                later,
                frames,
                gs[u].conditions@[t],
                self.test_start(gs, u, t),
                self.test_cap(gs, u, t),
                self.test_ok(gs, u, t),
                fv.block(self.fail_handler()).value,
                target,
            );
            assert(later.block(self.fail_handler()).value == fv.block(
                self.fail_handler(),
            ).value);
        }
        let end = self.guard_end(gs, u);
        if n > 0 {
            assert(end.idx() == ab.idx() + 1 + 2 * (n - 1));
        }
        assert(fv.has_block(end));
        assert(later.block(end) == fv.block(end));
        assert(fv.has_block(ab));
        assert(later.block(ab).args == fv.block(ab).args);
        assert(later.block(ab).value == fv.block(ab).value);
        assert forall|t: int| 0 <= t < n implies #[trigger] later.block(end).reads[1 + t]
            == later.block(self.test_ok(gs, u, t)).args[0] by {
            assert(self.test_ok(gs, u, t).idx() == ab.idx() + 1 + 2 * t);
            assert(fv.has_block(self.test_ok(gs, u, t)));
            assert(later.block(self.test_ok(gs, u, t)).args == fv.block(
                self.test_ok(gs, u, t),
            ).args);
            assert(fv.block(end).reads[1 + t] == fv.block(self.test_ok(gs, u, t)).args[0]);
        }
    }
}

/// Builds guard `u` of the guard sequence in the chain that stands at
/// `cur`: the calls of its tests, and the `bool_and` of their outcomes.
/// Returns the block that receives the outcome, in which the chain goes
/// on, and pushes the outcome onto `or`.
fn build_guard(
    ctx: &mut LowerCtx,
    b: &mut FunctionBuilder,
    guard: &Guard,
    cur: Block,
    handler: Value,
    or: &mut IntrinsicBuilder,
    Ghost(lay): Ghost<GuardLayout>,
    Ghost(gs): Ghost<Seq<Guard>>,
    Ghost(u): Ghost<int>,
) -> (and_block: Block)
    requires
        old(b).wf(),
        lay.fits(Some(gs)),
        0 <= u < gs.len(),
        *guard == gs[u],
        frames_ok(old(ctx).scope@, old(b).fun@),
        old(b).fun@.has_block(lay.fail_handler()),
        handler == old(b).fun@.block(lay.fail_handler()).value,
        old(b).fun@.has_value(handler),
        cur == lay.guard_start(gs, u),
        cur != lay.fail_handler(),
        old(b).fun@.has_block(cur),
        old(b).fun@.block(cur).op is None,
        lay.after_eqs() + 1 + guards_blocks(gs.take(u)) == old(b).fun@.blocks.len(),
        old(b).has_room(
            1 + 2 * guard.conditions@.len() as int,
            2 + 7 * tests_cost(guard.conditions@) as int,
        ),
        forall|i: int|
            0 <= i < old(or).values@.len() ==> old(b).fun@.has_value(
                #[trigger] old(or).values@[i],
            ),
    ensures
        final(b).wf(),
        final(b).pat == old(b).pat,
        kept_except(old(b).fun@, final(b).fun@, cur),
        quiet(old(b).fun@, final(b).fun@),
        final(b).fun@.blocks.len() == old(b).fun@.blocks.len() + 1 + 2 * guard.conditions@.len(),
        final(b).fun@.values.len() <= old(b).fun@.values.len() + 2 + 7 * tests_cost(
            guard.conditions@,
        ),
        lay.guard_ok(final(b).fun@, old(ctx).scope@, gs, u),
        and_block == lay.and_block(gs, u),
        final(b).fun@.has_block(and_block),
        final(b).fun@.block(and_block).op is None,
        final(or).name == old(or).name,
        final(or).block == old(or).block,
        final(or).values@ == old(or).values@.push(final(b).fun@.block(and_block).args[0]),
        forall|i: int|
            0 <= i < final(or).values@.len() ==> final(b).fun@.has_value(
                #[trigger] final(or).values@[i],
            ),
        final(ctx).scope == old(ctx).scope,
        final(ctx).exc_stack == old(ctx).exc_stack,
        final(ctx).errors@ == old(ctx).errors@ + tests_errors(
            old(ctx).scope@,
            guard.conditions@,
        ),
        frames_ok(final(ctx).scope@, final(b).fun@),
{
    let ghost fv0 = b.fun@;
    let ghost frames = ctx.scope@;
    let ghost e0 = ctx.errors@;
    let ghost or0 = or.values@;
    let ghost conds = guard.conditions@;
    proof {
        fv0.lemma_block_inserted_wf();
        lemma_block_inserted_kept(fv0, cur);
        lemma_guards_blocks_step(gs, u);
        lemma_tests_cost_len(conds);
    }
    let (and_block, and_val) = b.block_insert_get_val();
    let and_res = b.block_arg_insert(and_block);
    or.push_value(and_res);
    let ghost fv_s = b.fun@;
    proof {
        lemma_args_inserted_new(fv0.block_inserted(), and_block, 1, fv0, cur);
        assert(fv0.block_inserted().args_inserted(and_block, 1) == fv_s) by {
            assert(fv0.block_inserted().args_inserted(and_block, 0) == fv0.block_inserted());
        }
        assert(fv_s.block(and_block).args =~= seq![and_res]);
        lemma_frames_grown(frames, fv0, fv_s);
        assert(and_block == lay.and_block(gs, u));
        lemma_quiet_block(fv0);
        lemma_quiet_then_arg(fv0, fv0.block_inserted(), and_block);
    }
    let mut and = b.op_intrinsic_build(Symbol(SYM_BOOL_AND));
    and.push_value(and_val);

    let n = guard.conditions.len();
    let mut block = cur;
    let mut t: usize = 0;
    proof {
        assert(conds.take(0) =~= Seq::<GuardTest>::empty());
        assert(e0 + Seq::<LowerError>::empty() =~= e0);
    }
    while t < n
        invariant
            n == conds.len(),
            conds == guard.conditions@,
            *guard == gs[u],
            0 <= u < gs.len(),
            t <= n,
            lay.fits(Some(gs)),
            fv0.wf(),
            fv_s.wf(),
            fv0.has_block(cur),
            fv0.has_block(lay.fail_handler()),
            handler == fv0.block(lay.fail_handler()).value,
            fv0.has_value(handler),
            cur == lay.guard_start(gs, u),
            cur != lay.fail_handler(),
            and_block == lay.and_block(gs, u),
            and_block.idx() == fv0.blocks.len(),
            lay.after_eqs() + 1 + guards_blocks(gs.take(u)) == fv0.blocks.len(),
            guards_blocks(gs.take(u + 1)) == guards_blocks(gs.take(u)) + 1 + 2 * n,
            guards_blocks(gs.take(u + 1)) <= guards_blocks(gs),
            fv_s.blocks.len() == fv0.blocks.len() + 1,
            fv_s.values.len() == fv0.values.len() + 2,
            fv0.blocks.len() + 1 + 2 * n <= u32::MAX,
            fv0.values.len() + 2 + 7 * tests_cost(conds) <= u32::MAX,
            fv_s.block(and_block).args == seq![and_res],
            fv_s.block(and_block).value == and_val,
            fv_s.block(and_block).op is None,
            b.wf(),
            b.pat == old(b).pat,
            frames == ctx.scope@,
            ctx.scope == old(ctx).scope,
            ctx.exc_stack == old(ctx).exc_stack,
            frames_ok(frames, b.fun@),
            kept_except(fv0, fv_s, cur),
            kept_except(fv_s, b.fun@, cur),
            quiet(fv0, b.fun@),
            b.fun@.blocks.len() == fv_s.blocks.len() + 2 * t,
            b.fun@.values.len() <= fv_s.values.len() + 7 * tests_cost(conds.take(t as int)),
            block == lay.test_start(gs, u, t as int),
            block != lay.fail_handler(),
            b.fun@.has_block(block),
            b.fun@.block(block).op is None,
            forall|k: int| 0 <= k < t ==> #[trigger] lay.test_ok_at(b.fun@, frames, gs, u, k),
            and.name == Symbol(SYM_BOOL_AND),
            and.values@.len() == 1 + t,
            and.values@[0] == and_val,
            forall|k: int|
                0 <= k < t ==> #[trigger] and.values@[1 + k] == b.fun@.block(
                    lay.test_ok(gs, u, k),
                ).args[0],
            forall|i: int|
                0 <= i < and.values@.len() ==> b.fun@.has_value(#[trigger] and.values@[i]),
            ctx.errors@ == e0 + tests_errors(frames, conds.take(t as int)),
        decreases n - t,
    {
        let ghost fv_a = b.fun@;
        let ghost av_a = and.values@;
        proof {
            assert(conds.take(t + 1).drop_last() =~= conds.take(t as int));
            assert(conds.take(t + 1).last() == conds[t as int]);
            lemma_tests_cost_take(conds, t as int);
            lemma_kept_trans(fv0, fv_s, fv_a, cur, cur);
            assert(fv_a.has_block(lay.fail_handler()));
            assert(fv_a.block(lay.fail_handler()) == fv0.block(lay.fail_handler()));
            assert(fv_a.block(lay.fail_handler()).value == handler);
        }
        let parts = build_test(ctx, b, &guard.conditions[t], block, handler);
        and.push_value(parts.res);
        proof {
            let fv_b = b.fun@;
            lemma_quiet_kept(fv0, fv_a, fv_b, block);
            lemma_kept_trans(fv_s, fv_a, fv_b, cur, block);
            assert(parts.ok == lay.test_ok(gs, u, t as int));
            assert(parts.cap == lay.test_cap(gs, u, t as int));
            assert(fv_b.block(lay.fail_handler()).value == handler);
            assert(lay.test_ok_at(fv_b, frames, gs, u, t as int));
            assert forall|k: int| 0 <= k < t implies #[trigger] lay.test_ok_at(
                fv_b,
                frames,
                gs,
                u,
                k,
            ) by {
                assert(lay.test_ok_at(fv_a, frames, gs, u, k));
                assert(lay.test_ok(gs, u, k).idx() == and_block.idx() + 1 + 2 * k);
                assert(lay.test_cap(gs, u, k).idx() == and_block.idx() + 2 + 2 * k);
                lemma_test_built_kept(
                    fv_a,
                    fv_b,
                    frames,
                    conds[k],
                    lay.test_start(gs, u, k),
                    lay.test_cap(gs, u, k),
                    lay.test_ok(gs, u, k),
                    handler,
                    block,
                );
            }
            assert forall|k: int| 0 <= k < t + 1 implies #[trigger] and.values@[1 + k]
                == fv_b.block(lay.test_ok(gs, u, k)).args[0] by {
                if k < t {
                    assert(and.values@[1 + k] == av_a[1 + k]);
                    assert(lay.test_ok(gs, u, k).idx() == and_block.idx() + 1 + 2 * k);
                    assert(fv_a.has_block(lay.test_ok(gs, u, k)));
                    assert(fv_b.block(lay.test_ok(gs, u, k)).args == fv_a.block(
                        lay.test_ok(gs, u, k),
                    ).args);
                }
            }
            assert forall|i: int| 0 <= i < and.values@.len() implies fv_b.has_value(
                #[trigger] and.values@[i],
            ) by {
                if i < av_a.len() {
                    assert(and.values@[i] == av_a[i]);
                    assert(fv_a.has_value(av_a[i]));
                }
            }
            assert(ctx.errors@ =~= e0 + tests_errors(frames, conds.take(t + 1)));
        }
        block = parts.ok;
        t += 1;
    }
    let ghost fv_c = b.fun@;
    let ghost reads = and.values@;
    proof {
        assert(conds.take(n as int) =~= conds);
    }
    and.block = Some(block);
    and.finish(b);
    proof {
        let fv_d = b.fun@;
        lemma_quiet_then_body(fv0, fv_c, block, OpKind::Intrinsic(Symbol(SYM_BOOL_AND)), reads);
        lemma_with_body_kept(fv_c, block, OpKind::Intrinsic(Symbol(SYM_BOOL_AND)), reads);
        lemma_kept_trans(fv_s, fv_c, fv_d, cur, block);
        lemma_kept_trans(fv0, fv_s, fv_d, cur, cur);
        lemma_frames_grown(frames, fv_c, fv_d);
        assert(fv_c.has_block(and_block));
        assert(block != and_block);
        assert(fv_s.has_block(and_block));
        assert(cur != and_block);
        assert(fv_c.block(and_block) == fv_s.block(and_block));
        assert(fv_d.block(and_block) == fv_s.block(and_block));
        assert forall|k: int| 0 <= k < n implies #[trigger] lay.test_ok_at(
            fv_d,
            frames,
            gs,
            u,
            k,
        ) by {
            assert(lay.test_ok_at(fv_c, frames, gs, u, k));
            assert(lay.test_ok(gs, u, k).idx() == and_block.idx() + 1 + 2 * k);
            assert(lay.test_cap(gs, u, k).idx() == and_block.idx() + 2 + 2 * k);
            lemma_kept_trans(fv0, fv_s, fv_c, cur, cur);
            assert(fv_c.has_block(lay.fail_handler()));
            assert(fv_c.block(lay.fail_handler()) == fv0.block(lay.fail_handler()));
            lemma_test_built_kept(
                fv_c,
                fv_d,
                frames,
                conds[k],
                lay.test_start(gs, u, k),
                lay.test_cap(gs, u, k),
                lay.test_ok(gs, u, k),
                handler,
                block,
            );
            assert(fv_d.block(lay.fail_handler()).value == handler);
        }
        assert forall|k: int| 0 <= k < n implies #[trigger] fv_d.block(block).reads[1 + k]
            == fv_d.block(lay.test_ok(gs, u, k)).args[0] by {
            assert(lay.test_ok(gs, u, k).idx() == and_block.idx() + 1 + 2 * k);
            assert(fv_c.has_block(lay.test_ok(gs, u, k)));
            if lay.test_ok(gs, u, k) != block {
                assert(fv_d.block(lay.test_ok(gs, u, k)) == fv_c.block(lay.test_ok(gs, u, k)));
            }
            assert(reads[1 + k] == fv_c.block(lay.test_ok(gs, u, k)).args[0]);
        }
        assert(block == lay.guard_end(gs, u));
        assert forall|i: int| 0 <= i < or.values@.len() implies fv_d.has_value(
            #[trigger] or.values@[i],
        ) by {
            if i < or0.len() {
                assert(or.values@[i] == or0[i]);
                assert(fv0.has_value(or0[i]));
            }
        }
    }
    and_block
}

/// Builds the guard sequence in the chain that stands at `cur`: its
/// guards, one after the other, and the `bool_or` of their outcomes.
/// Returns the block that receives the outcome, in which the chain goes
/// on, and pushes the outcome onto `top_and`.
fn build_guards(
    ctx: &mut LowerCtx,
    b: &mut FunctionBuilder,
    guards: &Vec<Guard>,
    cur: Block,
    handler: Value,
    top_and: &mut IntrinsicBuilder,
    Ghost(lay): Ghost<GuardLayout>,
) -> (or_block: Block)
    requires
        old(b).wf(),
        lay.fits(Some(guards@)),
        frames_ok(old(ctx).scope@, old(b).fun@),
        old(b).fun@.has_block(lay.fail_handler()),
        handler == old(b).fun@.block(lay.fail_handler()).value,
        old(b).fun@.has_value(handler),
        cur == lay.eq_end(),
        cur != lay.fail_handler(),
        old(b).fun@.has_block(cur),
        old(b).fun@.block(cur).op is None,
        lay.after_eqs() == old(b).fun@.blocks.len(),
        old(b).has_room(1 + guards_blocks(guards@) as int, 2 + 7 * guards_cost(guards@) as int),
        forall|i: int|
            0 <= i < old(top_and).values@.len() ==> old(b).fun@.has_value(
                #[trigger] old(top_and).values@[i],
            ),
    ensures
        final(b).wf(),
        final(b).pat == old(b).pat,
        kept_except(old(b).fun@, final(b).fun@, cur),
        quiet(old(b).fun@, final(b).fun@),
        final(b).fun@.blocks.len() == old(b).fun@.blocks.len() + 1 + guards_blocks(guards@),
        final(b).fun@.values.len() <= old(b).fun@.values.len() + 2 + 7 * guards_cost(guards@),
        lay.or_ok(final(b).fun@, old(ctx).scope@, guards@),
        or_block == lay.or_block(),
        final(b).fun@.has_block(or_block),
        final(b).fun@.block(or_block).op is None,
        final(top_and).name == old(top_and).name,
        final(top_and).block == old(top_and).block,
        final(top_and).values@ == old(top_and).values@.push(
            final(b).fun@.block(or_block).args[0],
        ),
        forall|i: int|
            0 <= i < final(top_and).values@.len() ==> final(b).fun@.has_value(
                #[trigger] final(top_and).values@[i],
            ),
        final(ctx).scope == old(ctx).scope,
        final(ctx).exc_stack == old(ctx).exc_stack,
        final(ctx).errors@ == old(ctx).errors@ + guards_errors(old(ctx).scope@, guards@),
        frames_ok(final(ctx).scope@, final(b).fun@),
{
    let ghost fv0 = b.fun@;
    let ghost frames = ctx.scope@;
    let ghost e0 = ctx.errors@;
    let ghost tv0 = top_and.values@;
    let ghost gs = guards@;
    proof {
        fv0.lemma_block_inserted_wf();
        lemma_block_inserted_kept(fv0, cur);
    }
    let (or_block, or_val) = b.block_insert_get_val();
    let or_res = b.block_arg_insert(or_block);
    top_and.push_value(or_res);
    let ghost fv_s = b.fun@;
    proof {
        lemma_args_inserted_new(fv0.block_inserted(), or_block, 1, fv0, cur);
        assert(fv0.block_inserted().args_inserted(or_block, 1) == fv_s) by {
            assert(fv0.block_inserted().args_inserted(or_block, 0) == fv0.block_inserted());
        }
        assert(fv_s.block(or_block).args =~= seq![or_res]);
        lemma_frames_grown(frames, fv0, fv_s);
        assert(or_block == lay.or_block());
        lemma_quiet_block(fv0);
        lemma_quiet_then_arg(fv0, fv0.block_inserted(), or_block);
    }
    let mut or = b.op_intrinsic_build(Symbol(SYM_BOOL_OR));
    or.push_value(or_val);

    let n = guards.len();
    let mut block = cur;
    let mut u: usize = 0;
    proof {
        assert(gs.take(0) =~= Seq::<Guard>::empty());
        assert(e0 + Seq::<LowerError>::empty() =~= e0);
    }
    while u < n
        invariant
            n == gs.len(),
            gs == guards@,
            u <= n,
            lay.fits(Some(gs)),
            fv0.wf(),
            fv_s.wf(),
            fv0.has_block(cur),
            fv0.has_block(lay.fail_handler()),
            handler == fv0.block(lay.fail_handler()).value,
            fv0.has_value(handler),
            cur == lay.eq_end(),
            cur != lay.fail_handler(),
            or_block == lay.or_block(),
            or_block.idx() == fv0.blocks.len(),
            lay.after_eqs() == fv0.blocks.len(),
            fv_s.blocks.len() == fv0.blocks.len() + 1,
            fv_s.values.len() == fv0.values.len() + 2,
            fv0.blocks.len() + 1 + guards_blocks(gs) <= u32::MAX,
            fv0.values.len() + 2 + 7 * guards_cost(gs) <= u32::MAX,
            fv_s.block(or_block).args == seq![or_res],
            fv_s.block(or_block).value == or_val,
            fv_s.block(or_block).op is None,
            b.wf(),
            b.pat == old(b).pat,
            frames == ctx.scope@,
            ctx.scope == old(ctx).scope,
            ctx.exc_stack == old(ctx).exc_stack,
            frames_ok(frames, b.fun@),
            kept_except(fv0, fv_s, cur),
            kept_except(fv_s, b.fun@, cur),
            quiet(fv0, b.fun@),
            b.fun@.blocks.len() == fv_s.blocks.len() + guards_blocks(gs.take(u as int)),
            b.fun@.values.len() <= fv_s.values.len() + 7 * guards_cost(gs.take(u as int)),
            guards_blocks(gs.take(u as int)) <= guards_blocks(gs),
            block == lay.guard_start(gs, u as int),
            block != lay.fail_handler(),
            block != or_block,
            block == cur || block.idx() >= fv_s.blocks.len(),
            b.fun@.has_block(block),
            b.fun@.block(block).op is None,
            forall|k: int| 0 <= k < u ==> #[trigger] lay.guard_ok(b.fun@, frames, gs, k),
            or.name == Symbol(SYM_BOOL_OR),
            or.values@.len() == 1 + u,
            or.values@[0] == or_val,
            forall|k: int|
                0 <= k < u ==> #[trigger] or.values@[1 + k] == b.fun@.block(
                    lay.and_block(gs, k),
                ).args[0],
            forall|i: int| 0 <= i < or.values@.len() ==> b.fun@.has_value(#[trigger] or.values@[i]),
            ctx.errors@ == e0 + guards_errors(frames, gs.take(u as int)),
        decreases n - u,
    {
        let ghost fv_a = b.fun@;
        let ghost ov_a = or.values@;
        proof {
            assert(gs.take(u + 1).drop_last() =~= gs.take(u as int));
            assert(gs.take(u + 1).last() == gs[u as int]);
            lemma_guards_cost_take(gs, u as int);
            lemma_guards_blocks_step(gs, u as int);
            lemma_kept_trans(fv0, fv_s, fv_a, cur, cur);
            assert(fv_a.has_block(lay.fail_handler()));
            assert(fv_a.block(lay.fail_handler()) == fv0.block(lay.fail_handler()));
        }
        let and_block = build_guard(
            ctx,
            b,
            &guards[u],
            block,
            handler,
            &mut or,
            Ghost(lay),
            Ghost(gs),
            Ghost(u as int),
        );
        proof {
            let fv_b = b.fun@;
            lemma_quiet_kept(fv0, fv_a, fv_b, block);
            lemma_kept_trans(fv_s, fv_a, fv_b, cur, block);
            assert forall|k: int| 0 <= k < u implies #[trigger] lay.guard_ok(
                fv_b,
                frames,
                gs,
                k,
            ) by {
                assert(lay.guard_ok(fv_a, frames, gs, k));
                lemma_guards_blocks_step(gs, k);
                lemma_guards_blocks_mono(gs, k + 1, u as int);
                lemma_guards_blocks_mono(gs, k, u - 1);
                lemma_guards_blocks_step(gs, u - 1);
                if k > 0 {
                    lemma_guards_blocks_step(gs, k - 1);
                }
                if k + 1 <= u - 1 {
                    lemma_guards_blocks_mono(gs, k + 1, u - 1);
                }
                assert(block == lay.and_block(gs, u - 1));
                assert(block.idx() == lay.after_eqs() + 1 + guards_blocks(gs.take(u - 1)));
                assert(lay.and_block(gs, k).idx() == lay.after_eqs() + 1 + guards_blocks(
                    gs.take(k),
                ));
                assert(block != lay.guard_start(gs, k));
                lay.lemma_guard_ok_kept(fv_a, fv_b, frames, gs, k, block);
            }
            assert forall|k: int| 0 <= k < u + 1 implies #[trigger] or.values@[1 + k]
                == fv_b.block(lay.and_block(gs, k)).args[0] by {
                if k < u {
                    assert(or.values@[1 + k] == ov_a[1 + k]);
                    lemma_guards_blocks_mono(gs, k, u as int);
                    lemma_guards_blocks_step(gs, k);
                    lemma_guards_blocks_mono(gs, k + 1, u as int);
                    assert(fv_a.has_block(lay.and_block(gs, k)));
                    assert(fv_b.block(lay.and_block(gs, k)).args == fv_a.block(
                        lay.and_block(gs, k),
                    ).args);
                }
            }
            assert(ctx.errors@ =~= e0 + guards_errors(frames, gs.take(u + 1)));
        }
        block = and_block;
        u += 1;
    }
    let ghost fv_c = b.fun@;
    let ghost reads = or.values@;
    proof {
        assert(gs.take(n as int) =~= gs);
    }
    or.block = Some(block);
    or.finish(b);
    proof {
        let fv_d = b.fun@;
        lemma_quiet_then_body(fv0, fv_c, block, OpKind::Intrinsic(Symbol(SYM_BOOL_OR)), reads);
        lemma_with_body_kept(fv_c, block, OpKind::Intrinsic(Symbol(SYM_BOOL_OR)), reads);
        lemma_kept_trans(fv_s, fv_c, fv_d, cur, block);
        lemma_kept_trans(fv0, fv_s, fv_d, cur, cur);
        lemma_kept_trans(fv0, fv_s, fv_c, cur, cur);
        lemma_frames_grown(frames, fv_c, fv_d);
        assert(fv_s.has_block(or_block));
        assert(cur != or_block);
        assert(fv_c.block(or_block) == fv_s.block(or_block));
        assert(fv_d.block(or_block) == fv_s.block(or_block));
        assert(fv_c.has_block(lay.fail_handler()));
        assert forall|k: int| 0 <= k < n implies #[trigger] lay.guard_ok(fv_d, frames, gs, k) by {
            assert(lay.guard_ok(fv_c, frames, gs, k));
            lemma_guards_blocks_step(gs, k);
            lemma_guards_blocks_mono(gs, k + 1, n as int);
            lemma_guards_blocks_mono(gs, k, n - 1);
            lemma_guards_blocks_step(gs, n - 1);
            if k > 0 {
                lemma_guards_blocks_step(gs, k - 1);
            }
            if k + 1 <= n - 1 {
                lemma_guards_blocks_mono(gs, k + 1, n - 1);
            }
            assert(block == lay.and_block(gs, n - 1));
            assert(block.idx() == lay.after_eqs() + 1 + guards_blocks(gs.take(n - 1)));
            assert(lay.and_block(gs, k).idx() == lay.after_eqs() + 1 + guards_blocks(gs.take(k)));
            assert(block != lay.guard_start(gs, k));
            lay.lemma_guard_ok_kept(fv_c, fv_d, frames, gs, k, block);
        }
        assert forall|k: int| 0 <= k < n implies #[trigger] fv_d.block(block).reads[1 + k]
            == fv_d.block(lay.and_block(gs, k)).args[0] by {
            lemma_guards_blocks_step(gs, k);
            lemma_guards_blocks_mono(gs, k + 1, n as int);
            assert(fv_c.has_block(lay.and_block(gs, k)));
            if lay.and_block(gs, k) != block {
                assert(fv_d.block(lay.and_block(gs, k)) == fv_c.block(lay.and_block(gs, k)));
            }
            assert(reads[1 + k] == fv_c.block(lay.and_block(gs, k)).args[0]);
        }
        assert(block == lay.or_start(gs));
        assert forall|i: int| 0 <= i < top_and.values@.len() implies fv_d.has_value(
            #[trigger] top_and.values@[i],
        ) by {
            if i < tv0.len() {
                assert(top_and.values@[i] == tv0[i]);
                assert(fv0.has_value(tv0[i]));
            }
        }
    }
    or_block
}

/// The blocks of the first `i` guards are no more than those of the first
/// `j`, for `i <= j`.
pub proof fn lemma_guards_blocks_mono(gs: Seq<Guard>, i: int, j: int)
    requires
        0 <= i <= j <= gs.len(),
    ensures
        guards_blocks(gs.take(i)) <= guards_blocks(gs.take(j)),
    decreases j - i,
{
    if i < j {
        lemma_guards_blocks_step(gs, j - 1);
        lemma_guards_blocks_mono(gs, i, j - 1);
    }
}

impl GuardLayout {
    /// A guard sequence that is built stays built while the end of the
    /// chain is written.
    pub proof fn lemma_or_ok_kept(
        self,
        fv: FunctionView,
        later: FunctionView,
        frames: Seq<Seq<(Symbol, Value)>>,
        gs: Seq<Guard>,
        target: Block,
    )
        requires
            self.fits(Some(gs)),
            self.or_ok(fv, frames, gs),
            kept_except(fv, later, target),
            fv.has_block(self.fail_handler()),
            fv.has_block(self.eq_end()),
            self.eq_end().idx() < self.after_eqs(),
            fv.blocks.len() == self.after_eqs() + 1 + guards_blocks(gs),
            target == self.or_block() || target == self.cond() || !fv.has_block(target),
            self.cond() != self.eq_end(),
        ensures
            self.or_ok(later, frames, gs),
    {
        let n = gs.len() as int;
        assert(gs.take(n) =~= gs);
        assert forall|u: int| 0 <= u < n implies #[trigger] self.guard_ok(later, frames, gs, u) by {
            assert(self.guard_ok(fv, frames, gs, u));
            lemma_guards_blocks_step(gs, u);
            lemma_guards_blocks_mono(gs, u + 1, n);
            if u > 0 {
                lemma_guards_blocks_step(gs, u - 1);
            }
            self.lemma_guard_ok_kept(fv, later, frames, gs, u, target);
        }
        let start = self.or_start(gs);
        if n > 0 {
            lemma_guards_blocks_step(gs, n - 1);
        }
        assert(fv.has_block(start));
        assert(later.block(start) == fv.block(start));
        assert(fv.has_block(self.or_block()));
        assert(later.block(self.or_block()).args == fv.block(self.or_block()).args);
        assert(later.block(self.or_block()).value == fv.block(self.or_block()).value);
        assert forall|u: int| 0 <= u < n implies #[trigger] later.block(start).reads[1 + u]
            == later.block(self.and_block(gs, u)).args[0] by {
            lemma_guards_blocks_step(gs, u);
            lemma_guards_blocks_mono(gs, u + 1, n);
            assert(fv.has_block(self.and_block(gs, u)));
            assert(later.block(self.and_block(gs, u)).args == fv.block(
                self.and_block(gs, u),
            ).args);
            assert(fv.block(start).reads[1 + u] == fv.block(self.and_block(gs, u)).args[0]);
        }
    }
}

impl GuardLayout {
    /// The function after the `bool_and` of all outcomes was written to
    /// the top of the chain, and the return of the outcome to its last
    /// block.
    pub open spec fn finished(
        self,
        fv: FunctionView,
        guard: Option<Seq<Guard>>,
        operands: Seq<Value>,
        ret_cont: Value,
        cond_res: Value,
    ) -> FunctionView {
        fv.with_body(
            self.top(guard),
            OpKind::Intrinsic(Symbol(SYM_BOOL_AND)),
            operands,
        ).with_body(self.cond(), OpKind::Call, seq![ret_cont, cond_res])
    }

    /// Writing the `bool_and` of all outcomes to the top of the chain, and
    /// the return of the outcome to its last block, completes the guard
    /// lambda and changes no block that the function had before.
    pub proof fn lemma_lambda_built(
        self,
        fv1: FunctionView,
        fv5: FunctionView,
        fv6: FunctionView,
        frames: Seq<Seq<(Symbol, Value)>>,
        eqs: Seq<EqGuard>,
        guard: Option<Seq<Guard>>,
        operands: Seq<Value>,
        ret_cont: Value,
        cond_res: Value,
    )
        requires
            self.fits(guard),
            self.eqs == eqs.len(),
            fv1.blocks.len() == self.base + 3,
            self.frame_ok(fv1),
            ret_cont == fv1.block(self.entry()).args[0],
            cond_res == fv1.block(self.cond()).args[0],
            kept_except(fv1, fv5, self.entry()),
            fv5.blocks.len() == self.base + 3 + 3 * self.eqs,
            forall|g: int| 0 <= g < eqs.len() ==> #[trigger] self.eq_ok(fv5, eqs, g),
            match guard {
                Some(gs) => kept_except(fv5, fv6, self.eq_end()) && self.or_ok(fv6, frames, gs)
                    && fv6.blocks.len() == self.after_eqs() + 1 + guards_blocks(gs),
                None => fv6 == fv5,
            },
            operands.len() == 1 + self.eqs + (if guard is Some {
                1int
            } else {
                0int
            }),
            operands[0] == fv1.block(self.cond()).value,
            forall|g: int|
                0 <= g < self.eqs ==> #[trigger] operands[1 + g] == fv5.block(
                    self.eq_next(g),
                ).args[0],
            guard is Some ==> operands[1 + self.eqs] == fv6.block(self.or_block()).args[0],
        ensures
            self.built(
                self.finished(fv6, guard, operands, ret_cont, cond_res),
                frames,
                eqs,
                guard,
            ),
            forall|i: int|
                0 <= i < self.base ==> #[trigger] self.finished(
                    fv6,
                    guard,
                    operands,
                    ret_cont,
                    cond_res,
                ).blocks[i] == fv1.blocks[i],
    {
        let top = self.top(guard);
        let cond = self.cond();
        let entry = self.entry();
        let fv7 = fv6.with_body(top, OpKind::Intrinsic(Symbol(SYM_BOOL_AND)), operands);
        let fv8 = fv7.with_body(cond, OpKind::Call, seq![ret_cont, cond_res]);
        assert(fv1.has_block(entry));
        assert(fv1.has_block(self.fail_handler()));
        assert(fv1.has_block(cond));
        assert(fv5.has_block(self.eq_end()));
        if guard is Some {
            lemma_kept_trans(fv1, fv5, fv6, entry, self.eq_end());
        }
        assert(kept_except(fv1, fv6, entry));
        assert(fv6.has_block(top));
        assert(top != cond);
        assert(top != self.fail_handler());
        lemma_with_body_kept(fv6, top, OpKind::Intrinsic(Symbol(SYM_BOOL_AND)), operands);
        lemma_with_body_kept(fv7, cond, OpKind::Call, seq![ret_cont, cond_res]);
        // the frame
        self.lemma_frame_ok_kept(fv1, fv6, entry);
        self.lemma_frame_ok_kept(fv6, fv7, top);
        self.lemma_frame_ok_kept(fv7, fv8, cond);
        assert(fv8.block(entry).args == fv1.block(entry).args);
        assert(fv8.block(cond).args == fv1.block(cond).args);
        assert(self.cond_ok(fv8));
        // the equality guards
        assert forall|g: int| 0 <= g < eqs.len() implies #[trigger] self.eq_ok(fv8, eqs, g) by {
            assert(self.eq_ok(fv5, eqs, g));
            assert(fv5.has_block(self.eq_start(g)));
            assert(fv5.has_block(self.eq_cap(g)));
            assert(fv5.has_block(self.eq_unreachable(g)));
            assert(fv5.has_block(self.eq_next(g)));
            if guard is Some {
                self.lemma_eq_ok_kept(fv5, fv6, eqs, g, self.eq_end());
            }
            self.lemma_eq_ok_kept(fv6, fv7, eqs, g, top);
            self.lemma_eq_ok_kept(fv7, fv8, eqs, g, cond);
        }
        // the guard sequence
        if let Some(gs) = guard {
            self.lemma_or_ok_kept(fv6, fv7, frames, gs, top);
            self.lemma_or_ok_kept(fv7, fv8, frames, gs, cond);
        }
        // the top of the chain
        assert(fv8.block(top) == fv7.block(top));
        assert(fv8.block(cond).value == fv1.block(cond).value);
        assert forall|g: int| 0 <= g < self.eqs implies #[trigger] fv8.block(top).reads[1 + g]
            == fv8.block(self.eq_next(g)).args[0] by {
            assert(operands[1 + g] == fv5.block(self.eq_next(g)).args[0]);
            assert(fv5.has_block(self.eq_next(g)));
            assert(fv6.block(self.eq_next(g)).args == fv5.block(self.eq_next(g)).args);
            assert(fv7.block(self.eq_next(g)).args == fv6.block(self.eq_next(g)).args);
            assert(fv8.block(self.eq_next(g)).args == fv7.block(self.eq_next(g)).args);
        }
        if guard is Some {
            assert(fv6.has_block(self.or_block()));
            assert(fv7.block(self.or_block()).args == fv6.block(self.or_block()).args);
            assert(fv8.block(self.or_block()).args == fv7.block(self.or_block()).args);
        }
        assert(self.top_ok(fv8, guard));
        // what the function had before
        assert forall|i: int| 0 <= i < self.base implies #[trigger] fv8.blocks[i]
            == fv1.blocks[i] by {
            let x = Block(i as u32);
            assert(fv1.has_block(x));
            assert(x != entry);
            assert(fv6.block(x) == fv1.block(x));
            assert(x != top);
            assert(x != cond);
        }
    }
}

impl GuardLayout {
    /// A guard lambda that is built stays built when the function gets
    /// more blocks and values.
    pub proof fn lemma_built_extended(
        self,
        fv: FunctionView,
        later: FunctionView,
        frames: Seq<Seq<(Symbol, Value)>>,
        eqs: Seq<EqGuard>,
        guard: Option<Seq<Guard>>,
    )
        requires
            self.fits(guard),
            self.built(fv, frames, eqs, guard),
            fv.wf(),
            fv.blocks.len() == self.base + self.size(guard),
            fv.extended_by(later),
            later.ident == fv.ident,
            later.span == fv.span,
            later.entry == fv.entry,
            later.blocks.len() < u32::MAX,
        ensures
            self.built(later, frames, eqs, guard),
    {
        let target = Block(fv.blocks.len() as u32);
        assert(!fv.has_block(target));
        assert(kept_except(fv, later, target)) by {
            assert forall|x: Block| x != target && #[trigger] fv.has_block(x) implies later.block(
                x,
            ) == fv.block(x) by {
                assert(later.blocks[x.idx()] == fv.blocks[x.idx()]);
            }
        }
        assert(fv.has_block(self.entry()));
        assert(fv.has_block(self.fail_handler()));
        assert(fv.has_block(self.cond()));
        self.lemma_frame_ok_kept(fv, later, target);
        assert(later.block(self.cond()) == fv.block(self.cond()));
        assert(later.block(self.entry()) == fv.block(self.entry()));
        assert forall|g: int| 0 <= g < eqs.len() implies #[trigger] self.eq_ok(later, eqs, g) by {
            assert(self.eq_ok(fv, eqs, g));
            assert(fv.has_block(self.eq_start(g)));
            assert(fv.has_block(self.eq_cap(g)));
            assert(fv.has_block(self.eq_unreachable(g)));
            assert(fv.has_block(self.eq_next(g)));
            self.lemma_eq_ok_kept(fv, later, eqs, g, target);
        }
        assert(fv.has_block(self.eq_end()));
        if let Some(gs) = guard {
            self.lemma_or_ok_kept(fv, later, frames, gs, target);
            assert(fv.has_block(self.or_block()));
            assert(later.block(self.or_block()) == fv.block(self.or_block()));
        }
        assert(fv.has_block(self.top(guard)));
        assert(later.block(self.top(guard)) == fv.block(self.top(guard)));
        assert forall|g: int| 0 <= g < self.eqs implies #[trigger] later.block(
            self.top(guard),
        ).reads[1 + g] == later.block(self.eq_next(g)).args[0] by {
            assert(fv.has_block(self.eq_next(g)));
            assert(later.block(self.eq_next(g)) == fv.block(self.eq_next(g)));
            assert(fv.block(self.top(guard)).reads[1 + g] == fv.block(self.eq_next(g)).args[0]);
        }
    }
}

/// The guard sequence as the contracts see it.
pub open spec fn guard_view(guard: Option<&Vec<Guard>>) -> Option<Seq<Guard>> {
    match guard {
        Some(gs) => Some(gs@),
        None => None,
    }
}

/// The number of values that the guard lambda may add.
pub open spec fn lambda_values(binds: nat, eqs: nat, guard: Option<Seq<Guard>>) -> nat {
    12 + binds + 8 * eqs + match guard {
        Some(gs) => 2 + 7 * guards_cost(gs),
        None => 0,
    }
}

/// Builds the guard lambda of a clause: a block that takes the return
/// continuation and the binds of the clause, and passes to the
/// continuation whether all equality guards hold and one of the guards
/// of the guard sequence does. While the guard is lowered, the binds are
/// in scope and an exception handler that returns `false` is in force.
pub fn build_guard_lambda(
    ctx: &mut LowerCtx,
    b: &mut FunctionBuilder,
    binds: &Vec<Option<Ident>>,
    eq_guards: &Vec<EqGuard>,
    guard: Option<&Vec<Guard>>,
) -> (entry: Block)
    requires
        old(b).wf(),
        frames_ok(old(ctx).scope@, old(b).fun@),
        eqs_valid(eq_guards@, binds@.len() as int, old(b).fun@),
        (GuardLayout {
            base: old(b).fun@.blocks.len() as int,
            binds: binds@.len() as int,
            eqs: eq_guards@.len() as int,
        }).fits(guard_view(guard)),
        old(b).fun@.values.len() + lambda_values(
            binds@.len(),
            eq_guards@.len(),
            guard_view(guard),
        ) <= u32::MAX,
    ensures
        final(b).wf(),
        final(b).pat == old(b).pat,
        old(b).fun@.extended_by(final(b).fun@),
        quiet(old(b).fun@, final(b).fun@),
        final(b).fun@.ident == old(b).fun@.ident,
        final(b).fun@.span == old(b).fun@.span,
        final(b).fun@.entry == old(b).fun@.entry,
        entry == blk(old(b).fun@.blocks.len() as int),
        final(b).fun@.blocks.len() == old(b).fun@.blocks.len() + (GuardLayout {
            base: old(b).fun@.blocks.len() as int,
            binds: binds@.len() as int,
            eqs: eq_guards@.len() as int,
        }).size(guard_view(guard)),
        final(b).fun@.values.len() <= old(b).fun@.values.len() + lambda_values(
            binds@.len(),
            eq_guards@.len(),
            guard_view(guard),
        ),
        (GuardLayout {
            base: old(b).fun@.blocks.len() as int,
            binds: binds@.len() as int,
            eqs: eq_guards@.len() as int,
        }).built(
            final(b).fun@,
            old(ctx).scope@.push(bind_frame(binds@, final(b).fun@.block(entry).args, 1)),
            eq_guards@,
            guard_view(guard),
        ),
        final(ctx).scope@ == old(ctx).scope@,
        final(ctx).exc_stack@ == old(ctx).exc_stack@,
        final(ctx).errors@ == old(ctx).errors@ + match guard_view(guard) {
            Some(gs) => guards_errors(
                old(ctx).scope@.push(bind_frame(binds@, final(b).fun@.block(entry).args, 1)),
                gs,
            ),
            None => Seq::empty(),
        },
{
    let ghost fv0 = b.fun@;
    let ghost frames0 = ctx.scope@;
    let ghost e0 = ctx.errors@;
    let ghost x0 = ctx.exc_stack@;
    let ghost gv = guard_view(guard);
    let ghost lay = GuardLayout {
        base: fv0.blocks.len() as int,
        binds: binds@.len() as int,
        eqs: eq_guards@.len() as int,
    };
    let ghost lay0 = GuardLayout { eqs: 0, ..lay };
    proof {
        if let Some(gs) = gv {
            lemma_guards_blocks_cost(gs);
        }
    }
    let frame = build_frame(ctx, b, binds);
    let ghost fv1 = b.fun@;
    let ghost frames = ctx.scope@;
    let entry = frame.entry;
    proof {
        assert(lay.frame_ok(fv1)) by {
            assert(lay0.frame_ok(fv1));
            assert(lay.entry() == lay0.entry());
            assert(lay.fail_handler() == lay0.fail_handler());
            assert(lay.cond() == lay0.cond());
        }
        assert(entry == lay.entry());
        assert(frame.cond == lay.cond());
    }

    let mut top_and = b.op_intrinsic_build(Symbol(SYM_BOOL_AND));
    top_and.push_value(frame.cond_val);

    proof {
        fv1.lemma_interned_wf(ConstantTerm::Atom(Symbol(SYM_ERLANG)));
    }
    let erlang_atom = b.value(ValueItem::Constant(ConstantTerm::Atom(Symbol(SYM_ERLANG))));
    let ghost fv2 = b.fun@;
    proof {
        fv2.lemma_interned_wf(ConstantTerm::Atom(Symbol(SYM_EXACT_EQ)));
    }
    let exact_eq_atom = b.value(ValueItem::Constant(ConstantTerm::Atom(Symbol(SYM_EXACT_EQ))));
    let ghost fv3 = b.fun@;
    proof {
        fv3.lemma_interned_wf(ConstantTerm::Int(2));
    }
    let two_atom = b.value(ValueItem::Constant(ConstantTerm::Int(2)));
    let ghost fv4 = b.fun@;
    proof {
        assert(kept_except(fv1, fv2, entry));
        assert(kept_except(fv2, fv3, entry));
        assert(kept_except(fv3, fv4, entry));
        lemma_kept_trans(fv1, fv2, fv3, entry, entry);
        lemma_kept_trans(fv1, fv3, fv4, entry, entry);
        lemma_quiet_then_interned(fv0, fv1, ConstantTerm::Atom(Symbol(SYM_ERLANG)));
        lemma_quiet_then_interned(fv0, fv2, ConstantTerm::Atom(Symbol(SYM_EXACT_EQ)));
        lemma_quiet_then_interned(fv0, fv3, ConstantTerm::Int(2));
        lemma_constant_grown(fv2, fv4, erlang_atom, ConstantTerm::Atom(Symbol(SYM_ERLANG)));
        lemma_constant_grown(fv3, fv4, exact_eq_atom, ConstantTerm::Atom(Symbol(SYM_EXACT_EQ)));
        lemma_frames_grown(frames, fv1, fv4);
        assert(fv1.has_block(entry));
        assert(fv4.block(entry) == fv1.block(entry));
        assert forall|g: int| 0 <= g < eq_guards@.len() implies match #[trigger] eq_guards@[g] {
            EqGuard::EqValue(i, v) => i < lay.binds && fv4.has_value(v),
            EqGuard::EqBind(i, j) => i < lay.binds && j < lay.binds,
        } by {
            match eq_guards@[g] {
                EqGuard::EqValue(i, v) => {
                    assert(fv0.has_value(v));
                },
                _ => {},
            }
        }
        assert(top_and.values@[0] == frame.cond_val);
    }

    let after_eqs = build_eq_guards(
        b,
        eq_guards,
        entry,
        erlang_atom,
        exact_eq_atom,
        two_atom,
        &mut top_and,
        Ghost(lay),
    );
    let ghost fv5 = b.fun@;
    let ghost tv5 = top_and.values@;
    proof {
        lemma_quiet_kept(fv0, fv4, fv5, entry);
        lemma_kept_trans(fv1, fv4, fv5, entry, entry);
        lemma_frames_grown(frames, fv4, fv5);
        assert(fv1.has_block(lay.fail_handler()));
        assert(fv1.has_block(lay.cond()));
        assert(fv5.block(lay.fail_handler()) == fv1.block(lay.fail_handler()));
        assert(fv5.has_value(frame.handler));
    }

    let block = match guard {
        Some(gs) => {
            proof {
                assert(lay.after_eqs() == fv5.blocks.len());
            }
            build_guards(ctx, b, gs, after_eqs, frame.handler, &mut top_and, Ghost(lay))
        },
        None => after_eqs,
    };
    let ghost fv6 = b.fun@;
    let ghost tv6 = top_and.values@;
    proof {
        if guard is Some {
            lemma_quiet_kept(fv0, fv5, fv6, after_eqs);
            lemma_kept_trans(fv1, fv5, fv6, entry, after_eqs);
            assert(kept_except(fv5, fv6, after_eqs));
        } else {
            assert(e0 + Seq::<LowerError>::empty() =~= e0);
        }
        assert(kept_except(fv1, fv6, entry));
        assert(block == lay.top(gv));
    }

    top_and.block = Some(block);
    top_and.finish(b);
    let ghost fv7 = b.fun@;
    proof {
        lemma_with_body_kept(fv6, block, OpKind::Intrinsic(Symbol(SYM_BOOL_AND)), tv6);
        lemma_quiet_then_body(fv0, fv6, block, OpKind::Intrinsic(Symbol(SYM_BOOL_AND)), tv6);
        assert(fv7.has_value(frame.ret_cont));
        assert(fv7.has_value(frame.cond_res));
        lemma_quiet_then_body(
            fv0,
            fv7,
            frame.cond,
            OpKind::Call,
            seq![frame.ret_cont, frame.cond_res],
        );
    }
    let args: [Value; 1] = [frame.cond_res];
    b.op_call(frame.cond, frame.ret_cont, args.as_slice());
    let ghost fv8 = b.fun@;

    ctx.exc_stack.pop_handler();
    ctx.scope.pop(frame.scope_token);
    proof {
        assert(frames.drop_last() =~= frames0);
        assert(x0.push(frame.handler).drop_last() =~= x0);
        assert(seq![frame.ret_cont] + args@ =~= seq![frame.ret_cont, frame.cond_res]);
        assert forall|g: int| 0 <= g < lay.eqs implies #[trigger] tv6[1 + g] == fv5.block(
            lay.eq_next(g),
        ).args[0] by {
            assert(tv5[1 + g] == fv5.block(lay.eq_next(g)).args[0]);
            if guard is Some {
                assert(tv6 == tv5.push(fv6.block(lay.or_block()).args[0]));
                assert(tv6[1 + g] == tv5[1 + g]);
            }
        }
        lay.lemma_lambda_built(
            fv1,
            fv5,
            fv6,
            frames,
            eq_guards@,
            gv,
            tv6,
            frame.ret_cont,
            frame.cond_res,
        );
        assert(fv8 == lay.finished(fv6, gv, tv6, frame.ret_cont, frame.cond_res));
        assert(fv0.extended_by(fv8)) by {
            assert forall|i: int| 0 <= i < fv0.blocks.len() implies #[trigger] fv8.blocks[i]
                == fv0.blocks[i] by {
                assert(fv1.blocks[i] == fv0.blocks[i]);
            }
            assert forall|i: int| 0 <= i < fv0.values.len() implies #[trigger] fv8.values[i]
                == fv0.values[i] by {
                assert(fv1.values[i] == fv0.values[i]);
                assert(fv6.values[i] == fv1.values[i]);
            }
        }
    }
    entry
}

} // verus!
