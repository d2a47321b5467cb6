//! Lowering of pattern clauses.

pub mod emit;
pub mod guard;
pub mod guard_model;
pub mod laws;
pub mod model;
pub mod tree;

use crate::constant::ConstantTerm;
use crate::entity::{Block, Value};
use crate::fun::builder::{FunctionBuilder, ValueItem};
use crate::fun::model::FunctionView;
use crate::intern::{Ident, Symbol};
use crate::lower::ast::{Guard, Pattern};
use crate::lower::pattern::emit::{
    bind_nodes_all, emit, emit_room, frames_ok,
    lemma_bind_nodes_roots_kept, lemma_frames_extended,
    lemma_sizes_take, lemma_terms_cover, ClauseLowerCtx,
};
use crate::lower::pattern::guard::{
    bind_args, build_guard_lambda, eqs_valid, lemma_only_new, lemma_quiet_interned_all,
    lemma_quiet_then_args, lemma_quiet_then_block, lemma_quiet_trans, only_new, guard_view, lemma_frames_bound,
    lemma_frames_grown, lemma_frames_push_pop, lemma_guards_blocks_cost,
};
use crate::lower::pattern::guard_model::{
    bind_frame, blk, guards_errors, lemma_pseudo_frame_binds,
    pseudo_frame, GuardLayout,
};
use crate::lower::pattern::model::{
    canon_all, canon_shape, canon_sizes, clause_room, lemma_canon_all_names,
    lemma_canon_all_size, lemma_canon_shape_prefix, lemma_slot_keys_distinct, lemma_slot_terms,
    lemma_slot_terms_concat, slot_key, SlotKey,
    lemma_walk_terms_all_len, lemma_walk_terms_len, pattern_sizes, slot_terms, vars_all,
    walk_names, walk_names_all, walk_terms, walk_terms_all, BindState, Canon, EqGuard,
};
use crate::lower::pattern::tree::{lemma_tree_views, tree_view, tree_views, Tree, TreeNode};
use crate::lower::scope::{scope_lookup, ScopeToken};
use crate::lower::{LowerCtx, LowerError};
use crate::pattern::{ClauseView, ContainerView, PatternClause, PatternNode};
use vstd::prelude::*;

verus! {

/// The outcome of lowering a clause that can match.
pub struct LoweredClause {
    /// The clause in the pattern container. It is frozen.
    pub clause: PatternClause,
    /// The block of the body. It is empty; its arguments are the binds of
    /// the clause.
    pub body: Block,
    /// The value of the guard lambda.
    pub guard: Value,
    /// The scope frame in which the binds are bound to the arguments of
    /// the body.
    pub scope_token: ScopeToken,
    /// The values that fill the value slots of the clause.
    pub values: Vec<Value>,
}

/// The outcome of lowering a clause that no term can match.
pub struct LoweredClauseFail {
    /// The scope frame that holds the pseudo-binds of the variables of
    /// the clause.
    pub scope_token: ScopeToken,
}

/// Binds every variable of `names` that the scope does not bind to a
/// fresh argument of a fresh block that is never entered, so that later
/// clauses can refer to the variables of a clause that was dropped.
fn pseudo_bind(ctx: &mut LowerCtx, b: &mut FunctionBuilder, names: &Vec<Ident>, Ghost(frames0): Ghost<
    Seq<Seq<(Symbol, Value)>>,
>) -> (sentinel: Block)
    requires
        old(b).wf(),
        old(ctx).scope@ == frames0.push(Seq::empty()),
        frames_ok(frames0, old(b).fun@),
        old(b).has_room(1, 1 + names@.len() as int),
    ensures
        final(b).wf(),
        final(b).pat == old(b).pat,
        sentinel == old(b).fun@.next_block(),
        final(b).fun@ == old(b).fun@.block_inserted().args_inserted(
            sentinel,
            pseudo_frame(frames0, names@, old(b).fun@.values.len() as int + 1).len(),
        ),
        final(ctx).scope@ == frames0.push(
            pseudo_frame(frames0, names@, old(b).fun@.values.len() as int + 1),
        ),
        frames_ok(final(ctx).scope@, final(b).fun@),
        final(ctx).exc_stack == old(ctx).exc_stack,
        final(ctx).errors == old(ctx).errors,
{
    let ghost fv0 = b.fun@;
    let ghost first: int = fv0.values.len() as int + 1;
    proof {
        fv0.lemma_block_inserted_wf();
    }
    let sentinel = b.block_insert();
    let ghost fv1 = b.fun@;
    let n = names.len();
    let mut i: usize = 0;
    proof {
        assert(names@.take(0) =~= Seq::<Ident>::empty());
        lemma_frames_grown(frames0, fv0, fv1);
        lemma_frames_push_pop(frames0, fv1);
        assert(fv1.args_inserted(sentinel, 0) == fv1);
    }
    while i < n
        invariant
            n == names@.len(),
            i <= n,
            fv0.wf(),
            fv1 == fv0.block_inserted(),
            fv1.wf(),
            fv1.has_block(sentinel),
            first == fv0.values.len() + 1,
            fv1.values.len() == first,
            fv0.values.len() + 1 + n <= u32::MAX,
            b.wf(),
            b.pat == old(b).pat,
            pseudo_frame(frames0, names@.take(i as int), first).len() <= i,
            b.fun@ == fv1.args_inserted(
                sentinel,
                pseudo_frame(frames0, names@.take(i as int), first).len(),
            ),
            ctx.scope@ == frames0.push(pseudo_frame(frames0, names@.take(i as int), first)),
            frames_ok(ctx.scope@, b.fun@),
            ctx.exc_stack == old(ctx).exc_stack,
            ctx.errors == old(ctx).errors,
        decreases n - i,
    {
        let ghost init = pseudo_frame(frames0, names@.take(i as int), first);
        let ghost fv_a = b.fun@;
        proof {
            assert(names@.take(i + 1).drop_last() =~= names@.take(i as int));
            assert(names@.take(i + 1).last() == names@[i as int]);
            fv1.lemma_args_inserted(sentinel, init.len());
        }
        let name = names[i];
        match ctx.resolve(name) {
            Some(_) => {},
            None => {
                proof {
                    fv_a.lemma_arg_inserted_wf(sentinel);
                }
                let v = b.block_arg_insert(sentinel);
                proof {
                    let fv_b = b.fun@;
                    lemma_frames_grown(ctx.scope@, fv_a, fv_b);
                    lemma_frames_bound(ctx.scope@, fv_b, name.name, v);
                    assert(v == Value((first + init.len()) as u32));
                }
                ctx.bind(name, v);
                proof {
                    assert(ctx.scope@ =~= frames0.push(init.push((name.name, v))));
                }
            },
        }
        i += 1;
    }
    proof {
        assert(names@.take(n as int) =~= names@);
    }
    sentinel
}

/// What lowering the canonical trees `cs` of a clause leaves: the
/// constants of the trees are interned and have their slots, the
/// variables have their binds, and the clause has one root for each tree,
/// which matches the shape of the tree.
pub open spec fn roots_lowered(
    cs: Seq<Canon>,
    frames: Seq<Seq<(Symbol, Value)>>,
    cl: ClauseLowerCtx,
    fv0: FunctionView,
    fv1: FunctionView,
    pv0: ContainerView,
    pv1: ContainerView,
) -> bool {
    &&& fv1 == fv0.interned_all(walk_terms_all(cs))
    &&& cl.keys(fv1) == slot_terms(Seq::empty(), walk_terms_all(cs))
    &&& cl.bind_state() == BindState::initial().steps(frames, walk_names_all(cs))
    &&& cl.inv(fv1, pv1)
    &&& pv0.kept_from(pv1, 0)
    &&& pv1.nodes.len() == pv0.nodes.len() + canon_sizes(cs)
    &&& pv1.clauses.len() == pv0.clauses.len()
    &&& forall|k: PatternClause|
        k != cl.pat_clause && #[trigger] pv0.has_clause(k) ==> pv1.clause(k) == pv0.clause(k)
    &&& pv1.clause(cl.pat_clause).roots.len() == cs.len()
    &&& forall|i: int|
        0 <= i < cs.len() ==> pv1.shape(#[trigger] pv1.clause(cl.pat_clause).roots[i])
            == canon_shape(cs[i], cl.keys(fv1))
    &&& pv1.clause(cl.pat_clause).binds == bind_nodes_all(
        pv1,
        cs,
        pv1.clause(cl.pat_clause).roots,
    )
}

/// Emits the canonical trees of a clause, one after the other, and makes
/// them the roots of the clause.
fn lower_roots(roots: &Vec<TreeNode>, lctx: &LowerCtx, b: &mut FunctionBuilder, cl: &mut ClauseLowerCtx)
    requires
        old(cl).inv(old(b).fun@, old(b).pat@),
        old(cl).binds@.len() == 0,
        old(cl).eq_guards@.len() == 0,
        old(cl).values@.len() == 0,
        old(b).pat@.clause(old(cl).pat_clause).roots.len() == 0,
        old(b).pat@.clause(old(cl).pat_clause).binds.len() == 0,
        frames_ok(lctx.scope@, old(b).fun@),
        emit_room(*old(cl), old(b).fun@, old(b).pat@, canon_sizes(tree_views(roots@))),
    ensures
        roots_lowered(
            tree_views(roots@),
            lctx.scope@,
            *final(cl),
            old(b).fun@,
            final(b).fun@,
            old(b).pat@,
            final(b).pat@,
        ),
        final(cl).pat_clause == old(cl).pat_clause,
        final(cl).pre_case == old(cl).pre_case,
        frames_ok(lctx.scope@, final(b).fun@),
{
    let ghost cs = tree_views(roots@);
    let ghost frames = lctx.scope@;
    let ghost fv0 = b.fun@;
    let ghost pv0 = b.pat@;
    let ghost cl0 = *cl;
    let ghost clause = cl.pat_clause;
    let n = roots.len();
    let mut i: usize = 0;
    proof {
        lemma_tree_views(roots@);
        assert(cs.take(0) =~= Seq::<Canon>::empty());
        assert(fv0.interned_all(Seq::<ConstantTerm>::empty()) == fv0);
        assert(cl0.keys(fv0) =~= Seq::<SlotKey>::empty());
        assert(cl0.bind_state() == BindState::initial()) by {
            assert(cl0.binds@ =~= Seq::<Option<Ident>>::empty());
            assert(cl0.eq_guards@ =~= Seq::<EqGuard>::empty());
        }
        assert(pv0.clause(clause).binds =~= Seq::<PatternNode>::empty());
    }
    while i < n
        invariant
            n == roots@.len(),
            n == cs.len(),
            i <= n,
            cs == tree_views(roots@),
            forall|j: int| 0 <= j < n ==> #[trigger] cs[j] == tree_view(roots@[j]),
            clause == cl0.pat_clause,
            cl0.inv(fv0, pv0),
            cl0.values@.len() == 0,
            frames == lctx.scope@,
            frames_ok(frames, b.fun@),
            emit_room(cl0, fv0, pv0, canon_sizes(cs)),
            b.fun@ == fv0.interned_all(walk_terms_all(cs.take(i as int))),
            cl.keys(b.fun@) == slot_terms(Seq::empty(), walk_terms_all(cs.take(i as int))),
            cl.bind_state() == BindState::initial().steps(
                frames,
                walk_names_all(cs.take(i as int)),
            ),
            cl.pat_clause == clause,
            cl.pre_case == cl0.pre_case,
            cl.inv(b.fun@, b.pat@),
            pv0.kept_from(b.pat@, 0),
            b.pat@.nodes.len() == pv0.nodes.len() + canon_sizes(cs.take(i as int)),
            b.pat@.clauses.len() == pv0.clauses.len(),
            pv0.has_clause(clause),
            forall|k: PatternClause|
                k != clause && #[trigger] pv0.has_clause(k) ==> b.pat@.clause(k) == pv0.clause(k),
            b.pat@.clause(clause).roots.len() == i,
            forall|j: int|
                0 <= j < i ==> b.pat@.shape(#[trigger] b.pat@.clause(clause).roots[j])
                    == canon_shape(cs[j], cl.keys(b.fun@)),
            b.pat@.clause(clause).binds == bind_nodes_all(
                b.pat@,
                cs.take(i as int),
                b.pat@.clause(clause).roots,
            ),
        decreases n - i,
    {
        let ghost fv_c = b.fun@;
        let ghost pv_c = b.pat@;
        let ghost cl_c = *cl;
        let ghost ck = cs[i as int];
        proof {
            assert(cs.take(i + 1).drop_last() =~= cs.take(i as int));
            assert(cs.take(i + 1).last() == cs[i as int]);
            lemma_sizes_take(cs, i as int);
            lemma_sizes_take(cs, i + 1);
            lemma_walk_terms_all_len(cs.take(i as int));
            lemma_slot_terms(Seq::empty(), walk_terms_all(cs.take(i as int)));
            fv0.lemma_interned_all(walk_terms_all(cs.take(i as int)));
        }
        let node = emit(&roots[i], lctx, b, cl);
        let ghost pv_d = b.pat@;
        let ghost roots_d = pv_d.clause(clause).roots;
        b.pat.clause_node_push(cl.pat_clause, node);
        proof {
            let fv_d = b.fun@;
            let pv_e = b.pat@;
            fv0.lemma_interned_all_concat(walk_terms_all(cs.take(i as int)), walk_terms(ck));
            lemma_slot_terms_concat(
                Seq::empty(),
                walk_terms_all(cs.take(i as int)),
                walk_terms(ck),
            );
            BindState::initial().lemma_steps_concat(
                frames,
                walk_names_all(cs.take(i as int)),
                walk_names(ck),
            );
            lemma_walk_terms_len(ck);
            fv_c.lemma_interned_all(walk_terms(ck));
            lemma_frames_extended(frames, fv_c, fv_d);
            lemma_slot_keys_distinct(fv_c, cl_c.values@);
            lemma_slot_terms(cl_c.keys(fv_c), walk_terms(ck));
            assert(roots_d == pv_c.clause(clause).roots);
            assert(pv_e.clause(clause).roots == roots_d.push(node));
            // the binds
            assert(pv_c.clause_wf(clause));
            lemma_bind_nodes_roots_kept(pv_c, pv_d, cs.take(i as int), roots_d);
            lemma_bind_nodes_roots_kept(pv_d, pv_e, cs.take(i as int), roots_d);
            crate::lower::pattern::emit::lemma_bind_nodes_kept(pv_d, pv_e, ck, node);
            assert(roots_d.push(node).drop_last() =~= roots_d);
            assert(pv_e.clause(clause).binds == pv_d.clause(clause).binds);
            assert forall|j: int| 0 <= j < i + 1 implies pv_e.shape(
                #[trigger] pv_e.clause(clause).roots[j],
            ) == canon_shape(cs[j], cl.keys(fv_d)) by {
                let r = pv_e.clause(clause).roots[j];
                if j < i {
                    assert(r == pv_c.clause(clause).roots[j]);
                    assert(pv_c.clause_wf(clause));
                    assert(pv_c.has_node(r));
                    pv_c.lemma_shape_kept(pv_d, r);
                    pv_d.lemma_shape_kept(pv_e, r);
                    lemma_terms_cover(Seq::empty(), cs, i as int, j);
                    lemma_canon_shape_prefix(cs[j], cl_c.keys(fv_c), cl.keys(fv_d));
                } else {
                    assert(r == node);
                    pv_d.lemma_shape_kept(pv_e, node);
                }
            }
            assert(pv0.kept_from(pv_e, 0)) by {
                assert forall|x: int| 0 <= x < pv0.nodes.len() implies #[trigger] pv_e.nodes[x]
                    == pv0.nodes[x] by {
                    assert(pv_c.nodes[x] == pv0.nodes[x]);
                    assert(pv_d.nodes[x] == pv_c.nodes[x]);
                }
            }
            assert forall|k: PatternClause|
                k != clause && #[trigger] pv0.has_clause(k) implies pv_e.clause(k) == pv0.clause(
                k,
            ) by {
                assert(pv_c.has_clause(k));
                assert(pv_d.clause(k) == pv_c.clause(k));
            }
        }
        i += 1;
    }
    proof {
        assert(cs.take(n as int) =~= cs);
    }
}

/// The clause that lowering leaves in the pattern container.
pub open spec fn clause_ok(
    pv: ContainerView,
    clause: PatternClause,
    cs: Seq<Canon>,
    binds: nat,
) -> bool {
    let keys = slot_terms(Seq::empty(), walk_terms_all(cs));
    let cl = pv.clause(clause);
    &&& cl.finished
    &&& cl.num_values == keys.len()
    &&& cl.binds.len() == binds
    &&& cl.roots.len() == cs.len()
    &&& forall|i: int|
        0 <= i < cs.len() ==> pv.shape(#[trigger] cl.roots[i]) == canon_shape(cs[i], keys)
    &&& cl.binds == bind_nodes_all(pv, cs, cl.roots)
}

/// What a successful lowering of the patterns `patterns` with the guard
/// sequence `guard` leaves, where `fv0`, `pv0`, `frames0` and `errors0`
/// are the function, the pattern container, the scope and the reported
/// errors before, and `fv1`, `pv1`, `frames1` and `errors1` after:
/// - the patterns have canonical forms;
/// - the pattern container has one more clause, which is frozen and whose
///   roots match the shapes of the canonical forms;
/// - `values` holds, for each value slot of the clause, the value of its
///   constant;
/// - the function has the guard lambda, whose value is `guard_val`, and
///   after it the empty body block `body` with one argument for each bind;
/// - the function has nothing else that is new but the arguments and the
///   values of the new blocks and the constants that were interned;
/// - the scope has one more frame, in which every named bind is bound to
///   its argument of the body block;
/// - the errors of the guard sequence are reported.
pub open spec fn clause_lowered(
    patterns: Seq<Pattern>,
    guard: Option<Seq<Guard>>,
    fv0: FunctionView,
    fv1: FunctionView,
    pv0: ContainerView,
    pv1: ContainerView,
    frames0: Seq<Seq<(Symbol, Value)>>,
    frames1: Seq<Seq<(Symbol, Value)>>,
    errors0: Seq<LowerError>,
    errors1: Seq<LowerError>,
    clause: PatternClause,
    body: Block,
    guard_val: Value,
    token: ScopeToken,
    values: Seq<Value>,
) -> bool {
    let cs = canon_all(patterns)->0;
    let keys = slot_terms(Seq::empty(), walk_terms_all(cs));
    let st = BindState::initial().steps(frames0, walk_names_all(cs));
    let lay = GuardLayout {
        base: fv0.blocks.len() as int,
        binds: st.binds.len() as int,
        eqs: st.guards.len() as int,
    };
    let inner = frames0.push(bind_frame(st.binds, fv1.block(lay.entry()).args, 1));
    &&& canon_all(patterns) is Some
    // the pattern container
    &&& clause.idx() == pv0.clauses.len()
    &&& pv1.clauses.len() == pv0.clauses.len() + 1
    &&& forall|k: PatternClause| #[trigger] pv0.has_clause(k) ==> pv1.clause(k) == pv0.clause(k)
    &&& pv0.kept_from(pv1, 0)
    &&& pv1.nodes.len() == pv0.nodes.len() + canon_sizes(cs)
    &&& clause_ok(pv1, clause, cs, st.binds.len())
    // the values of the slots
    &&& values.len() == keys.len()
    &&& forall|i: int|
        0 <= i < values.len() ==> keys[i] is Term && fv1.is_constant(
            #[trigger] values[i],
            keys[i]->Term_0,
        )
    // the guard lambda
    &&& lay.built(fv1, inner, st.guards, guard)
    &&& guard_val == fv1.block(lay.entry()).value
    // the body
    &&& fv1.blocks.len() == fv0.blocks.len() + lay.size(guard) + 1
    &&& body == blk(fv0.blocks.len() as int + lay.size(guard))
    &&& fv1.block(body).op is None
    &&& fv1.block(body).reads.len() == 0
    &&& fv1.block(body).args.len() == st.binds.len()
    &&& only_new(fv0, fv1)
    // the scope
    &&& frames1 == frames0.push(bind_frame(st.binds, fv1.block(body).args, 0))
    &&& token.height == frames1.len()
    // the errors
    &&& errors1 == errors0 + match guard {
        Some(gs) => guards_errors(inner, gs),
        None => Seq::empty(),
    }
}

/// What a failed lowering of the patterns `patterns` leaves: the patterns
/// have no canonical form; the scope has one more frame, which binds every
/// variable of the patterns that was not bound; the function has one more
/// block, which is empty and whose arguments are the values of these
/// pseudo-binds; and the pattern container has one more clause, which is
/// empty.
pub open spec fn clause_failed(
    patterns: Seq<Pattern>,
    fv0: FunctionView,
    fv1: FunctionView,
    pv0: ContainerView,
    pv1: ContainerView,
    frames0: Seq<Seq<(Symbol, Value)>>,
    frames1: Seq<Seq<(Symbol, Value)>>,
    errors0: Seq<LowerError>,
    errors1: Seq<LowerError>,
    token: ScopeToken,
) -> bool {
    let frame = pseudo_frame(frames0, vars_all(patterns), fv0.values.len() as int + 1);
    &&& canon_all(patterns) is None
    &&& frames1 == frames0.push(frame)
    &&& token.height == frames1.len()
    &&& forall|i: int|
        0 <= i < vars_all(patterns).len() ==> scope_lookup(
            frames1,
            (#[trigger] vars_all(patterns)[i]).name,
        ) is Some
    &&& fv1 == fv0.block_inserted().args_inserted(fv0.next_block(), frame.len())
    &&& pv1.nodes == pv0.nodes
    &&& pv1.clauses == pv0.clauses.push(
        ClauseView { roots: Seq::empty(), binds: Seq::empty(), num_values: 0, finished: false },
    )
    &&& errors1 == errors0
}

/// After a failed lowering the scope is the scope from
/// before with one more frame, which the returned token stands for, so
/// that popping the token restores exactly the scope from before.
pub proof fn lemma_failed_clause_scope(
    patterns: Seq<Pattern>,
    fv0: FunctionView,
    fv1: FunctionView,
    pv0: ContainerView,
    pv1: ContainerView,
    frames0: Seq<Seq<(Symbol, Value)>>,
    frames1: Seq<Seq<(Symbol, Value)>>,
    errors0: Seq<LowerError>,
    errors1: Seq<LowerError>,
    token: ScopeToken,
)
    requires
        clause_failed(patterns, fv0, fv1, pv0, pv1, frames0, frames1, errors0, errors1, token),
    ensures
        frames1.len() > 0,
        token.height == frames1.len(),
        frames1.drop_last() == frames0,
{
    let frame = pseudo_frame(frames0, vars_all(patterns), fv0.values.len() as int + 1);
    assert(frames0.push(frame).drop_last() =~= frames0);
}

/// What lowering a clause asks: the function and the pattern container
/// are well-formed, the scope binds values of the function, the block
/// before the case is an open block of the function, and the new blocks,
/// values, nodes and the new clause fit into the 32-bit handle spaces.
pub open spec fn lower_pre(
    fv: FunctionView,
    pv: ContainerView,
    frames: Seq<Seq<(Symbol, Value)>>,
    pre_case: Block,
    patterns: Seq<Pattern>,
    guard: Option<Seq<Guard>>,
) -> bool {
    &&& fv.wf()
    &&& pv.wf()
    &&& frames_ok(frames, fv)
    &&& fv.has_block(pre_case)
    &&& fv.block(pre_case).op is None
    &&& fv.blocks.len() + clause_room(patterns, guard) <= u32::MAX
    &&& fv.values.len() + clause_room(patterns, guard) <= u32::MAX
    &&& pv.nodes.len() + pattern_sizes(patterns) <= u32::MAX
    &&& pv.clauses.len() < u32::MAX
}

/// Keeping the blocks and values of a function twice is keeping them.
pub proof fn lemma_extended_trans(a: FunctionView, b: FunctionView, c: FunctionView)
    requires
        a.extended_by(b),
        b.extended_by(c),
    ensures
        a.extended_by(c),
{
    assert forall|i: int| 0 <= i < a.blocks.len() implies #[trigger] c.blocks[i] == a.blocks[i] by {
        assert(b.blocks[i] == a.blocks[i]);
    }
    assert forall|i: int| 0 <= i < a.values.len() implies #[trigger] c.values[i] == a.values[i] by {
        assert(b.values[i] == a.values[i]);
    }
}

/// Lowers a clause: the patterns of its matched terms and its guard
/// sequence.
///
/// When this returns `Ok`:
/// * the clause is in the pattern container, frozen;
/// * the guard lambda is built;
/// * a scope is pushed with the bound variables in the body block;
/// * the body is empty.
///
/// When this returns `Err`, no term can match the patterns. A scope is
/// pushed that binds the variables of the patterns to placeholders.
///
/// In both cases popping the returned scope token gives back the scope
/// from before the call.
#[verifier::rlimit(40)]
pub fn lower_clause(
    ctx: &mut LowerCtx,
    b: &mut FunctionBuilder,
    pre_case: &mut Block,
    patterns: &Vec<Pattern>,
    guard: Option<&Vec<Guard>>,
) -> (r: Result<LoweredClause, LoweredClauseFail>)
    requires
        lower_pre(
            old(b).fun@,
            old(b).pat@,
            old(ctx).scope@,
            *old(pre_case),
            patterns@,
            guard_view(guard),
        ),
    ensures
        final(b).wf(),
        final(b).pat.wf(),
        old(b).fun@.extended_by(final(b).fun@),
        final(b).fun@.ident == old(b).fun@.ident,
        final(b).fun@.span == old(b).fun@.span,
        final(b).fun@.entry == old(b).fun@.entry,
        *final(pre_case) == *old(pre_case),
        final(ctx).exc_stack@ == old(ctx).exc_stack@,
        frames_ok(final(ctx).scope@, final(b).fun@),
        final(ctx).scope@.len() == old(ctx).scope@.len() + 1,
        final(ctx).scope@.drop_last() == old(ctx).scope@,
        r is Ok <==> canon_all(patterns@) is Some,
        match r {
            Ok(lc) => clause_lowered(
                patterns@,
                guard_view(guard),
                old(b).fun@,
                final(b).fun@,
                old(b).pat@,
                final(b).pat@,
                old(ctx).scope@,
                final(ctx).scope@,
                old(ctx).errors@,
                final(ctx).errors@,
                lc.clause,
                lc.body,
                lc.guard,
                lc.scope_token,
                lc.values@,
            ),
            Err(fail) => clause_failed(
                patterns@,
                old(b).fun@,
                final(b).fun@,
                old(b).pat@,
                final(b).pat@,
                old(ctx).scope@,
                final(ctx).scope@,
                old(ctx).errors@,
                final(ctx).errors@,
                fail.scope_token,
            ),
        },
{
    let ghost fv0 = b.fun@;
    let ghost pv0 = b.pat@;
    let ghost frames0 = ctx.scope@;
    let ghost e0 = ctx.errors@;
    let ghost gv = guard_view(guard);
    let ghost ps = patterns@;
    proof {
        lemma_canon_all_names(ps);
        if let Some(gs) = gv {
            lemma_guards_blocks_cost(gs);
        }
    }

    let pat_clause = b.pat.clause_start();
    let ghost pv_s = b.pat@;

    let mut tree = Tree::new();
    let n = patterns.len();
    let mut i: usize = 0;
    proof {
        assert(patterns@.take(0) =~= Seq::<Pattern>::empty());
    }
    while i < n
        invariant
            n == patterns@.len(),
            i <= n,
            tree.inv(),
            tree.patterns@ == patterns@.take(i as int),
        decreases n - i,
    {
        tree.add_root(&patterns[i]);
        proof {
            assert(patterns@.take(i + 1) =~= patterns@.take(i as int).push(patterns@[i as int]));
        }
        i += 1;
    }
    proof {
        assert(patterns@.take(n as int) =~= patterns@);
    }

    if tree.unmatchable {
        let scope_tok = ctx.scope.push();
        pseudo_bind(ctx, b, &tree.names, Ghost(frames0));
        proof {
            let frame = pseudo_frame(frames0, vars_all(ps), fv0.values.len() as int + 1);
            assert(frames0.push(frame).drop_last() =~= frames0);
            assert forall|k: int| 0 <= k < vars_all(ps).len() implies scope_lookup(
                frames0.push(frame),
                (#[trigger] vars_all(ps)[k]).name,
            ) is Some by {
                lemma_pseudo_frame_binds(frames0, vars_all(ps), fv0.values.len() as int + 1, k);
            }
            if vars_all(ps).len() > 0 {
                lemma_pseudo_frame_binds(frames0, vars_all(ps), fv0.values.len() as int + 1, 0);
            }
            fv0.lemma_block_inserted_wf();
            let mid = fv0.block_inserted();
            mid.lemma_args_inserted(fv0.next_block(), frame.len());
            let fin = b.fun@;
            assert(fv0.extended_by(fin)) by {
                assert forall|k: int| 0 <= k < fv0.blocks.len() implies #[trigger] fin.blocks[k]
                    == fv0.blocks[k] by {
                    assert(mid.blocks[k] == fv0.blocks[k]);
                }
                assert forall|k: int| 0 <= k < fv0.values.len() implies #[trigger] fin.values[k]
                    == fv0.values[k] by {
                    assert(mid.values[k] == fv0.values[k]);
                }
            }
        }
        return Err(LoweredClauseFail { scope_token: scope_tok });
    }
    let ghost cs = tree_views(tree.roots@);
    let mut clause_ctx = ClauseLowerCtx::new(pat_clause, *pre_case);
    proof {
        lemma_canon_all_size(ps);
        assert(pv_s.has_clause(pat_clause));
        assert(clause_ctx.inv(fv0, pv_s));
    }

    lower_roots(&tree.roots, ctx, b, &mut clause_ctx);
    let ghost fv_r = b.fun@;
    let ghost pv_r = b.pat@;
    let ghost st = clause_ctx.bind_state();
    let ghost keys = clause_ctx.keys(fv_r);

    // Since the trees are in canonical form, every bind refers to a node
    // of the pattern, and the clause can be frozen.
    b.pat.clause_finish(pat_clause);
    let ghost pv_f = b.pat@;
    proof {
        BindState::initial().lemma_steps_len(frames0, walk_names_all(cs));
        lemma_walk_terms_all_len(cs);
        fv0.lemma_interned_all(walk_terms_all(cs));
        lemma_slot_terms(Seq::empty(), walk_terms_all(cs));
        assert(eqs_valid(clause_ctx.eq_guards@, clause_ctx.binds@.len() as int, fv_r));
    }

    // Construct guard lambda
    let guard_lambda_block = build_guard_lambda(
        ctx,
        b,
        &clause_ctx.binds,
        &clause_ctx.eq_guards,
        guard,
    );
    let ghost fv_g = b.fun@;
    let ghost lay = GuardLayout {
        base: fv0.blocks.len() as int,
        binds: st.binds.len() as int,
        eqs: st.guards.len() as int,
    };

    *pre_case = clause_ctx.pre_case;

    // Construct body
    let scope_token = ctx.scope.push();

    // Binds
    proof {
        fv_g.lemma_block_inserted_wf();
        fv_g.block_inserted().lemma_args_inserted(fv_g.next_block(), st.binds.len());
    }
    let body_block = b.block_insert();
    b.block_args_insert(body_block, clause_ctx.binds.len());
    let ghost fv_b = b.fun@;
    proof {
        lemma_quiet_interned_all(fv0, walk_terms_all(cs));
        lemma_quiet_trans(fv0, fv_r, fv_g);
        lemma_quiet_then_block(fv0, fv_g);
        lemma_quiet_then_args(fv0, fv_g.block_inserted(), fv_g.next_block(), st.binds.len());
        lemma_frames_grown(frames0, fv_r, fv_b);
        lemma_frames_push_pop(frames0, fv_b);
        assert(fv_g.extended_by(fv_b)) by {
            assert forall|k: int| 0 <= k < fv_g.blocks.len() implies #[trigger] fv_b.blocks[k]
                == fv_g.blocks[k] by {
                assert(fv_g.block_inserted().blocks[k] == fv_g.blocks[k]);
            }
            assert forall|k: int| 0 <= k < fv_g.values.len() implies #[trigger] fv_b.values[k]
                == fv_g.values[k] by {
                assert(fv_g.block_inserted().values[k] == fv_g.values[k]);
            }
        }
    }
    bind_args(ctx, b, body_block, &clause_ctx.binds, 0);

    let guard_val = b.value(ValueItem::Block(guard_lambda_block));
    proof {
        let inner = frames0.push(bind_frame(st.binds, fv_g.block(lay.entry()).args, 1));
        lay.lemma_built_extended(fv_g, fv_b, inner, st.guards, gv);
        assert(fv_g.has_block(lay.entry()));
        assert(fv_b.block(lay.entry()) == fv_g.block(lay.entry()));
        lemma_extended_trans(fv0, fv_r, fv_g);
        lemma_extended_trans(fv0, fv_g, fv_b);
        lemma_only_new(fv0, fv_b);
        assert(ctx.scope@ =~= frames0.push(bind_frame(st.binds, fv_b.block(body_block).args, 0)))
            by {
            assert(frames0.push(Seq::<(Symbol, Value)>::empty()).drop_last() =~= frames0);
            assert(Seq::<(Symbol, Value)>::empty() + bind_frame(
                st.binds,
                fv_b.block(body_block).args,
                0,
            ) =~= bind_frame(st.binds, fv_b.block(body_block).args, 0));
        }
        assert(ctx.scope@.drop_last() =~= frames0);
        assert forall|k: int| 0 <= k < clause_ctx.values@.len() implies keys[k] is Term
            && fv_b.is_constant(#[trigger] clause_ctx.values@[k], keys[k]->Term_0) by {
            assert(keys.contains(keys[k]));
            assert(!Seq::<SlotKey>::empty().contains(keys[k]));
            assert(fv_r.has_value(clause_ctx.values@[k]));
            assert(keys[k] == slot_key(fv_r, clause_ctx.values@[k]));
            assert(fv_r.is_constant(clause_ctx.values@[k], keys[k]->Term_0));
            assert(fv_g.values[clause_ctx.values@[k].idx()] == fv_r.values[clause_ctx.values@[k].idx()]);
            assert(fv_b.values[clause_ctx.values@[k].idx()] == fv_g.values[clause_ctx.values@[k].idx()]);
        }
        // the pattern container
        assert forall|k: PatternClause| #[trigger] pv0.has_clause(k) implies pv_f.clause(k)
            == pv0.clause(k) by {
            assert(pv_s.has_clause(k));
            assert(pv_s.clause(k) == pv0.clause(k));
            assert(pv_r.clause(k) == pv_s.clause(k));
        }
        assert(pv0.kept_from(pv_f, 0)) by {
            assert forall|x: int| 0 <= x < pv0.nodes.len() implies #[trigger] pv_f.nodes[x]
                == pv0.nodes[x] by {
                assert(pv_r.nodes[x] == pv_s.nodes[x]);
            }
        }
        assert(clause_ok(pv_f, pat_clause, cs, st.binds.len())) by {
            let cl = pv_f.clause(pat_clause);
            assert forall|k: int| 0 <= k < cs.len() implies pv_f.shape(#[trigger] cl.roots[k])
                == canon_shape(cs[k], keys) by {
                assert(cl.roots[k] == pv_r.clause(pat_clause).roots[k]);
                assert(pv_r.kept_from(pv_f, 0));
                assert(pv_r.clause_wf(pat_clause));
                assert(pv_r.has_node(pv_r.clause(pat_clause).roots[k]));
                pv_r.lemma_shape_kept(pv_f, cl.roots[k]);
            }
            assert(pv_r.kept_from(pv_f, 0));
            assert(pv_r.clause_wf(pat_clause));
            lemma_bind_nodes_roots_kept(pv_r, pv_f, cs, pv_r.clause(pat_clause).roots);
        }
    }
    Ok(
        LoweredClause {
            clause: pat_clause,
            body: body_block,
            guard: guard_val,
            scope_token,
            values: clause_ctx.values,
        },
    )
}

} // verus!
