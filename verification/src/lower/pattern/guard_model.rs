//! The shape of the guard lambda that the lowering of a clause builds.
//!
//! The guard lambda is a chain of blocks. Its entry block takes the return
//! continuation and one argument for each bind of the clause. Each
//! equality guard, and each test of the guard sequence, is a call whose
//! return continuation is the next block of the chain. The results are
//! combined by the intrinsics `bool_and` and `bool_or`, and the outcome is
//! passed to the return continuation.

use crate::constant::ConstantTerm;
use crate::entity::{Block, Value};
use crate::fun::model::FunctionView;
use crate::intern::{Symbol, SYM_BOOL_AND, SYM_BOOL_OR, SYM_ERLANG, SYM_EXACT_EQ};
use crate::lower::ast::{Guard, GuardOperand, GuardTest};
use crate::lower::pattern::model::EqGuard;
use crate::lower::scope::scope_lookup;
use crate::lower::LowerError;
use crate::op::OpKind;
use vstd::prelude::*;

verus! {

/// The block with the given index.
pub open spec fn blk(i: int) -> Block {
    Block(i as u32)
}

/// The number of blocks that the tests of the guards `gs` take: one for
/// each guard and two for each test.
pub open spec fn guards_blocks(gs: Seq<Guard>) -> nat
    decreases gs.len(),
{
    if gs.len() == 0 {
        0
    } else {
        guards_blocks(gs.drop_last()) + 1 + 2 * gs.last().conditions@.len()
    }
}

/// Where the blocks of a guard lambda are.
pub struct GuardLayout {
    /// The index of the entry block of the guard lambda.
    pub base: int,
    /// The number of binds of the clause.
    pub binds: int,
    /// The number of equality guards.
    pub eqs: int,
}

impl GuardLayout {
    /// The entry block of the guard lambda.
    pub open spec fn entry(self) -> Block {
        blk(self.base)
    }

    /// The exception handler of the guard: it returns `false`.
    pub open spec fn fail_handler(self) -> Block {
        blk(self.base + 1)
    }

    /// The last block of the chain: it returns the outcome.
    pub open spec fn cond(self) -> Block {
        blk(self.base + 2)
    }

    /// The block in which the chain goes on after equality guard `g`.
    pub open spec fn eq_next(self, g: int) -> Block {
        blk(self.base + 3 + 3 * g)
    }

    /// The block that makes the call of equality guard `g`.
    pub open spec fn eq_cap(self, g: int) -> Block {
        blk(self.base + 4 + 3 * g)
    }

    /// The error continuation of equality guard `g`, which is never
    /// entered.
    pub open spec fn eq_unreachable(self, g: int) -> Block {
        blk(self.base + 5 + 3 * g)
    }

    /// The block that captures the function of equality guard `g`: the
    /// entry for the first, else the block after the guard before.
    pub open spec fn eq_start(self, g: int) -> Block {
        if g == 0 {
            self.entry()
        } else {
            self.eq_next(g - 1)
        }
    }

    /// The index of the first block after those of the equality guards.
    pub open spec fn after_eqs(self) -> int {
        self.base + 3 + 3 * self.eqs
    }

    /// The block that receives the outcome of the guard sequence.
    pub open spec fn or_block(self) -> Block {
        blk(self.after_eqs())
    }

    /// The block that receives the outcome of guard `u`.
    pub open spec fn and_block(self, gs: Seq<Guard>, u: int) -> Block {
        blk(self.after_eqs() + 1 + guards_blocks(gs.take(u)))
    }

    /// The block in which the chain goes on after test `t` of guard `u`.
    pub open spec fn test_ok(self, gs: Seq<Guard>, u: int, t: int) -> Block {
        blk(self.after_eqs() + 2 + guards_blocks(gs.take(u)) + 2 * t)
    }

    /// The block that makes the call of test `t` of guard `u`.
    pub open spec fn test_cap(self, gs: Seq<Guard>, u: int, t: int) -> Block {
        blk(self.after_eqs() + 3 + guards_blocks(gs.take(u)) + 2 * t)
    }

    /// The block of the chain after the equality guards.
    pub open spec fn eq_end(self) -> Block {
        self.eq_start(self.eqs)
    }

    /// The block of the chain in which guard `u` begins.
    pub open spec fn guard_start(self, gs: Seq<Guard>, u: int) -> Block {
        if u == 0 {
            self.eq_end()
        } else {
            self.and_block(gs, u - 1)
        }
    }

    /// The block that captures the function of test `t` of guard `u`.
    pub open spec fn test_start(self, gs: Seq<Guard>, u: int, t: int) -> Block {
        if t == 0 {
            self.guard_start(gs, u)
        } else {
            self.test_ok(gs, u, t - 1)
        }
    }

    /// The block that combines the results of the tests of guard `u`.
    pub open spec fn guard_end(self, gs: Seq<Guard>, u: int) -> Block {
        self.test_start(gs, u, gs[u].conditions@.len() as int)
    }

    /// The block that combines the outcomes of the guards.
    pub open spec fn or_start(self, gs: Seq<Guard>) -> Block {
        self.guard_start(gs, gs.len() as int)
    }

    /// The block that combines everything.
    pub open spec fn top(self, guard: Option<Seq<Guard>>) -> Block {
        match guard {
            Some(_) => self.or_block(),
            None => self.eq_end(),
        }
    }

    /// The number of blocks of the guard lambda.
    pub open spec fn size(self, guard: Option<Seq<Guard>>) -> int {
        3 + 3 * self.eqs + match guard {
            Some(gs) => 1 + guards_blocks(gs),
            None => 0,
        }
    }
}

/// The two sides of an equality guard, given the arguments of the entry
/// block of the guard lambda.
pub open spec fn eq_sides(args: Seq<Value>, guard: EqGuard) -> (Value, Value) {
    match guard {
        EqGuard::EqValue(i, v) => (args[i + 1], v),
        EqGuard::EqBind(i, j) => (args[i + 1], args[j + 1]),
    }
}

/// `v` is the value of the operand: what the scope binds the variable to,
/// the value of the literal, or the value of the empty list for a variable
/// that no scope binds.
pub open spec fn operand_ok(
    fv: FunctionView,
    frames: Seq<Seq<(Symbol, Value)>>,
    operand: GuardOperand,
    v: Value,
) -> bool {
    match operand {
        GuardOperand::Var(x) => match scope_lookup(frames, x.name) {
            Some(w) => v == w,
            None => fv.is_constant(v, ConstantTerm::Nil),
        },
        GuardOperand::Literal(c) => fv.is_constant(v, c),
    }
}

/// The arity of a test as a constant.
pub open spec fn arity_term(n: nat) -> ConstantTerm {
    if n <= i64::MAX {
        ConstantTerm::Int(n as i64)
    } else {
        ConstantTerm::Int(i64::MAX)
    }
}

/// Block `start` captures the function of `test`, block `cap` calls it on
/// the operands of the test with the value of `ok` as return continuation
/// and `handler` as error continuation, and `ok` has one argument: the
/// outcome.
pub open spec fn test_built(
    fv: FunctionView,
    frames: Seq<Seq<(Symbol, Value)>>,
    test: GuardTest,
    start: Block,
    cap: Block,
    ok: Block,
    handler: Value,
) -> bool {
    let start = fv.block(start);
    let cap = fv.block(cap);
    let ok = fv.block(ok);
    &&& start.op == Some(OpKind::CaptureFunction)
    &&& start.reads.len() == 4
    &&& start.reads[0] == cap.value
    &&& fv.is_constant(start.reads[1], ConstantTerm::Atom(test.module))
    &&& fv.is_constant(start.reads[2], ConstantTerm::Atom(test.name))
    &&& fv.is_constant(start.reads[3], arity_term(test.args@.len()))
    &&& cap.args.len() == 1
    &&& cap.op == Some(OpKind::Call)
    &&& cap.reads.len() == 3 + test.args@.len()
    &&& cap.reads[0] == cap.args[0]
    &&& cap.reads[1] == ok.value
    &&& cap.reads[2] == handler
    &&& forall|k: int|
        0 <= k < test.args@.len() ==> operand_ok(
            fv,
            frames,
            test.args@[k],
            #[trigger] cap.reads[3 + k],
        )
    &&& ok.args.len() == 1
}

impl GuardLayout {
    /// The entry block has the return continuation and one argument for
    /// each bind; the fail handler passes `false` to the return
    /// continuation; the last block passes its argument to it.
    pub open spec fn frame_ok(self, fv: FunctionView) -> bool {
        let ret = fv.block(self.entry()).args[0];
        &&& fv.block(self.entry()).args.len() == 1 + self.binds
        &&& fv.block(self.fail_handler()).args.len() == 3
        &&& fv.block(self.fail_handler()).op == Some(OpKind::Call)
        &&& fv.block(self.fail_handler()).reads.len() == 2
        &&& fv.block(self.fail_handler()).reads[0] == ret
        &&& fv.is_constant(
            fv.block(self.fail_handler()).reads[1],
            ConstantTerm::bool_spec(false),
        )
        &&& fv.block(self.cond()).args.len() == 1
    }

    /// The last block passes its argument to the return continuation.
    pub open spec fn cond_ok(self, fv: FunctionView) -> bool {
        &&& fv.block(self.cond()).op == Some(OpKind::Call)
        &&& fv.block(self.cond()).reads == seq![
            fv.block(self.entry()).args[0],
            fv.block(self.cond()).args[0],
        ]
    }

    /// Equality guard `g` is a call of `erlang:'=:='/2` on its two sides,
    /// whose outcome is the argument of the next block of the chain.
    pub open spec fn eq_ok(self, fv: FunctionView, guards: Seq<EqGuard>, g: int) -> bool {
        let start = fv.block(self.eq_start(g));
        let cap = fv.block(self.eq_cap(g));
        let unr = fv.block(self.eq_unreachable(g));
        let next = fv.block(self.eq_next(g));
        let sides = eq_sides(fv.block(self.entry()).args, guards[g]);
        &&& start.op == Some(OpKind::CaptureFunction)
        &&& start.reads.len() == 4
        &&& start.reads[0] == cap.value
        &&& fv.is_constant(start.reads[1], ConstantTerm::Atom(Symbol(SYM_ERLANG)))
        &&& fv.is_constant(start.reads[2], ConstantTerm::Atom(Symbol(SYM_EXACT_EQ)))
        &&& fv.is_constant(start.reads[3], ConstantTerm::Int(2))
        &&& cap.args.len() == 1
        &&& cap.op == Some(OpKind::Call)
        &&& cap.reads == seq![cap.args[0], next.value, unr.value, sides.0, sides.1]
        &&& unr.args.len() == 3
        &&& unr.op == Some(OpKind::Unreachable)
        &&& unr.reads.len() == 0
        &&& next.args.len() == 1
    }

    /// Test `t` of guard `u` is a call of the function of the test on its
    /// operands, with the fail handler as error continuation, whose outcome
    /// is the argument of the next block of the chain.
    pub open spec fn test_ok_at(
        self,
        fv: FunctionView,
        frames: Seq<Seq<(Symbol, Value)>>,
        gs: Seq<Guard>,
        u: int,
        t: int,
    ) -> bool {
        test_built(
            fv,
            frames,
            gs[u].conditions@[t],
            self.test_start(gs, u, t),
            self.test_cap(gs, u, t),
            self.test_ok(gs, u, t),
            fv.block(self.fail_handler()).value,
        )
    }

    /// Guard `u` combines the results of its tests by `bool_and`; the
    /// outcome is the argument of the block of the guard.
    pub open spec fn guard_ok(
        self,
        fv: FunctionView,
        frames: Seq<Seq<(Symbol, Value)>>,
        gs: Seq<Guard>,
        u: int,
    ) -> bool {
        let n = gs[u].conditions@.len() as int;
        let end = fv.block(self.guard_end(gs, u));
        let and = fv.block(self.and_block(gs, u));
        &&& forall|t: int| 0 <= t < n ==> #[trigger] self.test_ok_at(fv, frames, gs, u, t)
        &&& and.args.len() == 1
        &&& end.op == Some(OpKind::Intrinsic(Symbol(SYM_BOOL_AND)))
        &&& end.reads.len() == 1 + n
        &&& end.reads[0] == and.value
        &&& forall|t: int|
            0 <= t < n ==> #[trigger] end.reads[1 + t] == fv.block(self.test_ok(gs, u, t)).args[0]
    }

    /// The guard sequence combines the outcomes of its guards by
    /// `bool_or`; the outcome is the argument of the block of the
    /// sequence.
    pub open spec fn or_ok(
        self,
        fv: FunctionView,
        frames: Seq<Seq<(Symbol, Value)>>,
        gs: Seq<Guard>,
    ) -> bool {
        let start = fv.block(self.or_start(gs));
        let or = fv.block(self.or_block());
        &&& forall|u: int| 0 <= u < gs.len() ==> #[trigger] self.guard_ok(fv, frames, gs, u)
        &&& or.args.len() == 1
        &&& start.op == Some(OpKind::Intrinsic(Symbol(SYM_BOOL_OR)))
        &&& start.reads.len() == 1 + gs.len()
        &&& start.reads[0] == or.value
        &&& forall|u: int|
            0 <= u < gs.len() ==> #[trigger] start.reads[1 + u] == fv.block(
                self.and_block(gs, u),
            ).args[0]
    }

    /// The top of the chain combines the outcomes of the equality guards
    /// and of the guard sequence by `bool_and`; the outcome is the argument
    /// of the last block.
    pub open spec fn top_ok(
        self,
        fv: FunctionView,
        guard: Option<Seq<Guard>>,
    ) -> bool {
        let top = fv.block(self.top(guard));
        &&& top.op == Some(OpKind::Intrinsic(Symbol(SYM_BOOL_AND)))
        &&& top.reads.len() == 1 + self.eqs + (if guard is Some {
            1int
        } else {
            0int
        })
        &&& top.reads[0] == fv.block(self.cond()).value
        &&& forall|g: int|
            0 <= g < self.eqs ==> #[trigger] top.reads[1 + g] == fv.block(self.eq_next(g)).args[0]
        &&& guard is Some ==> top.reads[1 + self.eqs] == fv.block(self.or_block()).args[0]
    }

    /// The function `fv` holds the guard lambda for the equality guards
    /// `eqs` and the guard sequence `guard`, where `frames` is the scope in
    /// which the guard is lowered.
    pub open spec fn built(
        self,
        fv: FunctionView,
        frames: Seq<Seq<(Symbol, Value)>>,
        eqs: Seq<EqGuard>,
        guard: Option<Seq<Guard>>,
    ) -> bool {
        &&& self.eqs == eqs.len()
        &&& self.frame_ok(fv)
        &&& self.cond_ok(fv)
        &&& forall|g: int| 0 <= g < eqs.len() ==> #[trigger] self.eq_ok(fv, eqs, g)
        &&& match guard {
            Some(gs) => self.or_ok(fv, frames, gs),
            None => true,
        }
        &&& self.top_ok(fv, guard)
    }
}

/// The frame in which the guard is lowered: each named bind is bound to
/// the argument of the entry block that carries it. Argument 0 is the
/// return continuation.
pub open spec fn bind_frame(binds: Seq<Option<crate::intern::Ident>>, args: Seq<Value>, skip: int) -> Seq<
    (Symbol, Value),
>
    decreases binds.len(),
{
    if binds.len() == 0 {
        Seq::empty()
    } else {
        let init = bind_frame(binds.drop_last(), args, skip);
        match binds.last() {
            Some(x) => init.push((x.name, args[skip + binds.len() - 1])),
            None => init,
        }
    }
}

/// The errors that the operands of a test add: one for each variable that
/// no scope binds.
pub open spec fn operand_errors(frames: Seq<Seq<(Symbol, Value)>>, ops: Seq<GuardOperand>) -> Seq<
    LowerError,
>
    decreases ops.len(),
{
    if ops.len() == 0 {
        Seq::empty()
    } else {
        let init = operand_errors(frames, ops.drop_last());
        match ops.last() {
            GuardOperand::Var(x) => if scope_lookup(frames, x.name) is None {
                init.push(LowerError::UnboundVariable(x))
            } else {
                init
            },
            GuardOperand::Literal(_) => init,
        }
    }
}

pub open spec fn tests_errors(frames: Seq<Seq<(Symbol, Value)>>, ts: Seq<GuardTest>) -> Seq<
    LowerError,
>
    decreases ts.len(),
{
    if ts.len() == 0 {
        Seq::empty()
    } else {
        tests_errors(frames, ts.drop_last()) + operand_errors(frames, ts.last().args@)
    }
}

/// The errors that a guard sequence adds, in the order of its operands.
pub open spec fn guards_errors(frames: Seq<Seq<(Symbol, Value)>>, gs: Seq<Guard>) -> Seq<LowerError>
    decreases gs.len(),
{
    if gs.len() == 0 {
        Seq::empty()
    } else {
        guards_errors(frames, gs.drop_last()) + tests_errors(frames, gs.last().conditions@)
    }
}

/// The frame of pseudo-binds for the variables `names`: each variable
/// that neither the scope `frames` nor the frame so far binds is bound to
/// the next value from `first` on.
pub open spec fn pseudo_frame(
    frames: Seq<Seq<(Symbol, Value)>>,
    names: Seq<crate::intern::Ident>,
    first: int,
) -> Seq<(Symbol, Value)>
    decreases names.len(),
{
    if names.len() == 0 {
        Seq::empty()
    } else {
        let init = pseudo_frame(frames, names.drop_last(), first);
        if scope_lookup(frames.push(init), names.last().name) is None {
            init.push((names.last().name, Value((first + init.len()) as u32)))
        } else {
            init
        }
    }
}

/// A name that a frame binds stays bound when the frame gets another
/// binding.
pub proof fn lemma_lookup_push(
    frames: Seq<Seq<(Symbol, Value)>>,
    frame: Seq<(Symbol, Value)>,
    name: Symbol,
    other: Symbol,
    value: Value,
)
    ensures
        scope_lookup(frames.push(frame), name) is Some ==> scope_lookup(
            frames.push(frame.push((other, value))),
            name,
        ) is Some,
        scope_lookup(frames.push(frame.push((other, value))), other) is Some,
{
    let a = frames.push(frame);
    let b = frames.push(frame.push((other, value)));
    assert(a.last() == frame);
    assert(b.last() == frame.push((other, value)));
    assert(a.drop_last() =~= frames);
    assert(b.drop_last() =~= frames);
    assert(frame.push((other, value)).drop_last() =~= frame);
}

/// Every variable of `names` is bound once the frame of pseudo-binds is
/// on the scope.
pub proof fn lemma_pseudo_frame_binds(
    frames: Seq<Seq<(Symbol, Value)>>,
    names: Seq<crate::intern::Ident>,
    first: int,
    i: int,
)
    requires
        0 <= i < names.len(),
    ensures
        scope_lookup(frames.push(pseudo_frame(frames, names, first)), names[i].name) is Some,
        pseudo_frame(frames, names, first).len() <= names.len(),
    decreases names.len(),
{
    let init = pseudo_frame(frames, names.drop_last(), first);
    let last = names.last();
    if names.len() > 1 {
        lemma_pseudo_frame_binds(frames, names.drop_last(), first, 0);
    }
    if i < names.len() - 1 {
        lemma_pseudo_frame_binds(frames, names.drop_last(), first, i);
        assert(names.drop_last()[i] == names[i]);
        if scope_lookup(frames.push(init), last.name) is None {
            lemma_lookup_push(
                frames,
                init,
                names[i].name,
                last.name,
                Value((first + init.len()) as u32),
            );
        }
    } else {
        if scope_lookup(frames.push(init), last.name) is None {
            lemma_lookup_push(
                frames,
                init,
                last.name,
                last.name,
                Value((first + init.len()) as u32),
            );
        }
    }
}

} // verus!
