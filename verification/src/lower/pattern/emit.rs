//! Emission of a canonical pattern tree into the pattern container,
//! together with the binds, equality guards and value slots of the clause.

use crate::constant::ConstantTerm;
use crate::entity::{Block, Value};
use crate::fun::builder::{FunctionBuilder, ValueItem};
use crate::fun::model::FunctionView;
use crate::intern::{Ident, Symbol};
use crate::lower::pattern::model::{
    canon_shape, canon_shapes, canon_size, canon_sizes, find_named, lemma_canon_shape_prefix,
    lemma_slot_keys, lemma_slot_keys_distinct, lemma_slot_keys_extended, lemma_slot_terms, lemma_slot_terms_concat,
    lemma_walk_terms_all_len, lemma_walk_terms_len, slot_key, slot_keys, slot_terms, walk_names,
    walk_names_all, walk_terms, walk_terms_all, BindState, Canon, EqGuard, SlotKey,
};
use crate::lower::pattern::tree::{lemma_tree_views, tree_view, tree_views, TreeNode};
use crate::lower::scope::{frame_lookup, scope_lookup};
use crate::lower::LowerCtx;
use crate::pattern::{ContainerView, PatternClause, PatternNode, PatternValue};
use vstd::prelude::*;

verus! {

/// The state of the clause that is being lowered.
pub struct ClauseLowerCtx {
    /// The clause we are constructing.
    pub pat_clause: PatternClause,
    /// The block that ends the chain of values computed before the case.
    pub pre_case: Block,
    /// When values are bound when lowering patterns, they are added
    /// here in the same order as they are referenced in the pattern.
    pub binds: Vec<Option<Ident>>,
    /// Corresponds to the value slots of the clause.
    pub values: Vec<Value>,
    /// Auxiliary equality guards.
    /// The first value represents the position in the bind list.
    pub eq_guards: Vec<EqGuard>,
}

/// Every value that the scope binds is a value of the function.
pub open spec fn frames_ok(frames: Seq<Seq<(Symbol, Value)>>, fv: FunctionView) -> bool {
    forall|i: int, j: int|
        0 <= i < frames.len() && 0 <= j < frames[i].len() ==> fv.has_value(
            (#[trigger] frames[i][j]).1,
        )
}

/// A value that a frame binds is a value of the frame.
pub proof fn lemma_frame_lookup(frame: Seq<(Symbol, Value)>, name: Symbol)
    ensures
        match frame_lookup(frame, name) {
            Some(v) => exists|j: int| 0 <= j < frame.len() && (#[trigger] frame[j]).1 == v,
            None => true,
        },
    decreases frame.len(),
{
    if frame.len() > 0 {
        if frame.last().0 == name {
            assert(frame[frame.len() - 1].1 == frame.last().1);
        } else {
            lemma_frame_lookup(frame.drop_last(), name);
            if let Some(v) = frame_lookup(frame.drop_last(), name) {
                let j = choose|j: int|
                    0 <= j < frame.drop_last().len() && (#[trigger] frame.drop_last()[j]).1 == v;
                assert(frame[j].1 == v);
            }
        }
    }
}

/// A value that the scope resolves a name to is a value of the function.
pub proof fn lemma_scope_lookup_valid(
    frames: Seq<Seq<(Symbol, Value)>>,
    fv: FunctionView,
    name: Symbol,
)
    requires
        frames_ok(frames, fv),
    ensures
        match scope_lookup(frames, name) {
            Some(v) => fv.has_value(v),
            None => true,
        },
    decreases frames.len(),
{
    if frames.len() > 0 {
        lemma_frame_lookup(frames.last(), name);
        match frame_lookup(frames.last(), name) {
            Some(v) => {
                let j = choose|j: int|
                    0 <= j < frames.last().len() && (#[trigger] frames.last()[j]).1 == v;
                assert(fv.has_value(frames[frames.len() - 1][j].1));
            },
            None => {
                assert forall|i: int, j: int|
                    0 <= i < frames.drop_last().len() && 0 <= j
                        < frames.drop_last()[i].len() implies fv.has_value(
                    (#[trigger] frames.drop_last()[i][j]).1,
                ) by {
                    assert(fv.has_value(frames[i][j].1));
                }
                lemma_scope_lookup_valid(frames.drop_last(), fv, name);
            },
        }
    }
}

impl ClauseLowerCtx {
    /// The binds and equality guards collected so far.
    pub open spec fn bind_state(&self) -> BindState {
        BindState { binds: self.binds@, guards: self.eq_guards@ }
    }

    /// Every equality guard speaks of binds that exist and of values of
    /// the function.
    pub open spec fn guards_ok(&self, fv: FunctionView) -> bool {
        forall|g: int|
            0 <= g < self.eq_guards@.len() ==> match #[trigger] self.eq_guards@[g] {
                EqGuard::EqValue(i, v) => i < self.binds@.len() && fv.has_value(v),
                EqGuard::EqBind(i, j) => i < self.binds@.len() && j < self.binds@.len(),
            }
    }

    /// What the value slots of the clause hold, slot by slot.
    pub open spec fn keys(&self, fv: FunctionView) -> Seq<SlotKey> {
        slot_keys(fv, self.values@)
    }

    /// The state of the clause agrees with the function `fv` and the
    /// pattern container `pv`: the clause is open, it has one slot for
    /// each value and one bind node for each bind, and no value of the
    /// function has two slots.
    pub open spec fn inv(&self, fv: FunctionView, pv: ContainerView) -> bool {
        &&& fv.wf()
        &&& pv.wf()
        &&& pv.has_clause(self.pat_clause)
        &&& !pv.clause(self.pat_clause).finished
        &&& pv.clause(self.pat_clause).num_values == self.values@.len()
        &&& pv.clause(self.pat_clause).binds.len() == self.binds@.len()
        &&& self.values@.no_duplicates()
        &&& forall|i: int| 0 <= i < self.values@.len() ==> fv.has_value(#[trigger] self.values@[i])
        &&& self.guards_ok(fv)
    }

    /// The state of a clause that was started and has nothing yet.
    pub fn new(pat_clause: PatternClause, pre_case: Block) -> (r: ClauseLowerCtx)
        ensures
            r.pat_clause == pat_clause,
            r.pre_case == pre_case,
            r.binds@ == Seq::<Option<Ident>>::empty(),
            r.values@ == Seq::<Value>::empty(),
            r.eq_guards@ == Seq::<EqGuard>::empty(),
    {
        ClauseLowerCtx {
            pat_clause,
            pre_case,
            binds: Vec::new(),
            values: Vec::new(),
            eq_guards: Vec::new(),
        }
    }

    /// The position of the bind that carries the name `sym`, if there is
    /// one.
    fn find_bind(&self, sym: Symbol) -> (r: Option<usize>)
        ensures
            match r {
                Some(j) => find_named(self.binds@, sym) == Some(j as int) && j < self.binds@.len(),
                None => find_named(self.binds@, sym) is None,
            },
    {
        let mut i = self.binds.len();
        proof {
            assert(self.binds@.take(i as int) =~= self.binds@);
        }
        while i > 0
            invariant
                i <= self.binds@.len(),
                find_named(self.binds@, sym) == find_named(self.binds@.take(i as int), sym),
            decreases i,
        {
            i -= 1;
            proof {
                assert(self.binds@.take(i + 1).drop_last() =~= self.binds@.take(i as int));
                assert(self.binds@.take(i + 1).last() == self.binds@[i as int]);
            }
            match self.binds[i] {
                Some(x) => {
                    if x.name == sym {
                        return Some(i);
                    }
                },
                None => {},
            }
        }
        proof {
            assert(self.binds@.take(0) =~= Seq::<Option<Ident>>::empty());
        }
        None
    }

    /// Records one occurrence of the variable `name` at the node `node`.
    fn bind_name(&mut self, lctx: &LowerCtx, b: &mut FunctionBuilder, name: Ident, node: PatternNode)
        requires
            old(self).inv(old(b).fun@, old(b).pat@),
            frames_ok(lctx.scope@, old(b).fun@),
            old(b).pat@.has_node(node),
        ensures
            final(self).inv(final(b).fun@, final(b).pat@),
            final(self).bind_state() == old(self).bind_state().step(lctx.scope@, name),
            final(self).pat_clause == old(self).pat_clause,
            final(self).pre_case == old(self).pre_case,
            final(self).values == old(self).values,
            final(b).fun == old(b).fun,
            final(b).pat@.nodes == old(b).pat@.nodes,
            final(b).pat@.clauses == old(b).pat@.clauses.update(
                old(self).pat_clause.idx(),
                crate::pattern::ClauseView {
                    binds: old(b).pat@.clause(old(self).pat_clause).binds.push(node),
                    ..old(b).pat@.clause(old(self).pat_clause)
                },
            ),
    {
        let ghost fv = b.fun@;
        let ghost guards0 = self.eq_guards@;
        let ghost binds0 = self.binds@;
        let k = self.binds.len();
        match lctx.resolve(name) {
            Some(v) => {
                proof {
                    lemma_scope_lookup_valid(lctx.scope@, fv, name.name);
                }
                self.binds.push(None);
                self.eq_guards.push(EqGuard::EqValue(k, v));
            },
            None => {
                match self.find_bind(name.name) {
                    Some(j) => {
                        self.binds.push(None);
                        self.eq_guards.push(EqGuard::EqBind(j, k));
                    },
                    None => {
                        self.binds.push(Some(name));
                    },
                }
            },
        }
        b.pat.clause_bind_push(self.pat_clause, node);
        proof {
            assert forall|g: int| 0 <= g < self.eq_guards@.len() implies match #[trigger] self.eq_guards@[g] {
                EqGuard::EqValue(i, v) => i < self.binds@.len() && fv.has_value(v),
                EqGuard::EqBind(i, j) => i < self.binds@.len() && j < self.binds@.len(),
            } by {
                if g < guards0.len() {
                    assert(self.eq_guards@[g] == guards0[g]);
                }
            }
        }
    }

    /// The slot of the clause that holds `val`: the one that holds it
    /// already, or a new one.
    pub fn clause_value(&mut self, b: &mut FunctionBuilder, val: Value) -> (slot: PatternValue)
        requires
            old(self).inv(old(b).fun@, old(b).pat@),
            old(b).fun@.has_value(val),
            old(self).values@.len() < u32::MAX,
        ensures
            final(self).inv(final(b).fun@, final(b).pat@),
            final(self).values@ == if old(self).values@.contains(val) {
                old(self).values@
            } else {
                old(self).values@.push(val)
            },
            final(self).values@.contains(val),
            slot.idx() == final(self).values@.index_of(val),
            final(self).pat_clause == old(self).pat_clause,
            final(self).pre_case == old(self).pre_case,
            final(self).binds == old(self).binds,
            final(self).eq_guards == old(self).eq_guards,
            final(b).fun == old(b).fun,
            final(b).pat@.nodes == old(b).pat@.nodes,
            final(b).pat@.clauses.len() == old(b).pat@.clauses.len(),
            forall|c: PatternClause|
                c != old(self).pat_clause && #[trigger] old(b).pat@.has_clause(c)
                    ==> final(b).pat@.clause(c) == old(b).pat@.clause(c),
            final(b).pat@.clause(old(self).pat_clause).roots == old(b).pat@.clause(
                old(self).pat_clause,
            ).roots,
            final(b).pat@.clause(old(self).pat_clause).binds == old(b).pat@.clause(
                old(self).pat_clause,
            ).binds,
    {
        let ghost fv = b.fun@;
        let ghost values0 = self.values@;
        let n = self.values.len();
        let mut i: usize = 0;
        while i < n
            invariant
                n < u32::MAX,
                self.inv(fv, b.pat@),
                *self == *old(self),
                *b == *old(b),
                fv == b.fun@,
                values0 == self.values@,
                fv.has_value(val),
                n == values0.len(),
                i <= n,
                forall|k: int| 0 <= k < i ==> values0[k] != val,
            decreases n - i,
        {
            if self.values[i] == val {
                proof {
                    assert(values0.contains(val));
                    let k = values0.index_of(val);
                    assert(0 <= k < values0.len() && values0[k] == val);
                }
                return PatternValue(i as u32);
            }
            i += 1;
        }
        proof {
            assert(!values0.contains(val));
        }
        self.values.push(val);
        let slot = b.pat.clause_value(self.pat_clause);
        proof {
            let values1 = self.values@;
            assert(values1[n as int] == val);
            assert(values1.contains(val));
            let k = values1.index_of(val);
            assert(0 <= k < values1.len() && values1[k] == val);
            assert(k == n) by {
                if k < n {
                    assert(values0[k] == val);
                }
            }
            assert(values1.no_duplicates()) by {
                assert forall|x: int, y: int|
                    0 <= x < values1.len() && 0 <= y < values1.len() && x != y implies values1[x]
                    != values1[y] by {
                    if x < n && y < n {
                        assert(values0[x] != values0[y]);
                    } else if x < n {
                        assert(values0[x] != val);
                    } else {
                        assert(values0[y] != val);
                    }
                }
            }
            assert forall|j: int| 0 <= j < values1.len() implies fv.has_value(
                #[trigger] values1[j],
            ) by {
                if j < n {
                    assert(values1[j] == values0[j]);
                }
            }
        }
        slot
    }
}

/// The nodes that the binds of the canonical pattern `c` take their values
/// from, where `n` is the node of its root: `n` once for each variable at
/// the root, then the nodes of the binds of the children, from left to
/// right.
pub open spec fn bind_nodes(pv: ContainerView, c: Canon, n: PatternNode) -> Seq<PatternNode>
    decreases c,
{
    let own = Seq::new(c.names().len(), |i: int| n);
    match c {
        Canon::Any(_) => own,
        Canon::Literal(_, _) => own,
        Canon::Tuple(_, cs) => match pv.node(n) {
            crate::pattern::NodeView::Tuple(hs) => own + bind_nodes_all(pv, cs, hs),
            _ => own,
        },
        Canon::Cons(_, h, t) => match pv.node(n) {
            crate::pattern::NodeView::ListCell(hn, tn) => own + bind_nodes(pv, *h, hn)
                + bind_nodes(pv, *t, tn),
            _ => own,
        },
    }
}

/// The nodes of the binds of a list of canonical patterns whose roots are
/// the nodes `hs`.
pub open spec fn bind_nodes_all(pv: ContainerView, cs: Seq<Canon>, hs: Seq<PatternNode>) -> Seq<
    PatternNode,
>
    decreases cs,
{
    if cs.len() == 0 || hs.len() != cs.len() {
        Seq::empty()
    } else {
        bind_nodes_all(pv, cs.drop_last(), hs.drop_last()) + bind_nodes(pv, cs.last(), hs.last())
    }
}

/// The nodes of the binds of a tree depend on the nodes of the tree only.
pub proof fn lemma_bind_nodes_kept(pv: ContainerView, later: ContainerView, c: Canon, n: PatternNode)
    requires
        pv.wf(),
        pv.has_node(n),
        pv.kept_from(later, n.idx()),
    ensures
        bind_nodes(later, c, n) == bind_nodes(pv, c, n),
    decreases c,
{
    assert(pv.node_wf(n));
    assert(later.nodes[n.idx()] == pv.nodes[n.idx()]);
    match c {
        Canon::Tuple(_, cs) => {
            match pv.node(n) {
                crate::pattern::NodeView::Tuple(hs) => {
                    lemma_bind_nodes_all_kept(pv, later, cs, hs, n);
                },
                _ => {},
            }
        },
        Canon::Cons(_, h, t) => {
            match pv.node(n) {
                crate::pattern::NodeView::ListCell(hn, tn) => {
                    lemma_bind_nodes_kept(pv, later, *h, hn);
                    lemma_bind_nodes_kept(pv, later, *t, tn);
                },
                _ => {},
            }
        },
        _ => {},
    }
}

pub proof fn lemma_bind_nodes_all_kept(
    pv: ContainerView,
    later: ContainerView,
    cs: Seq<Canon>,
    hs: Seq<PatternNode>,
    parent: PatternNode,
)
    requires
        pv.wf(),
        pv.kept_from(later, parent.idx() + 1),
        forall|i: int| 0 <= i < hs.len() ==> pv.below(parent, #[trigger] hs[i]),
    ensures
        bind_nodes_all(later, cs, hs) == bind_nodes_all(pv, cs, hs),
    decreases cs,
{
    if cs.len() > 0 && hs.len() == cs.len() {
        assert forall|i: int| 0 <= i < hs.drop_last().len() implies pv.below(
            parent,
            #[trigger] hs.drop_last()[i],
        ) by {
            assert(hs.drop_last()[i] == hs[i]);
        }
        lemma_bind_nodes_all_kept(pv, later, cs.drop_last(), hs.drop_last(), parent);
        assert(pv.below(parent, hs[hs.len() - 1]));
        lemma_bind_nodes_kept(pv, later, cs.last(), hs.last());
    }
}

/// The nodes of the binds of a list of trees stay as they are when no node
/// is changed.
pub proof fn lemma_bind_nodes_roots_kept(
    pv: ContainerView,
    later: ContainerView,
    cs: Seq<Canon>,
    hs: Seq<PatternNode>,
)
    requires
        pv.wf(),
        pv.kept_from(later, 0),
        forall|i: int| 0 <= i < hs.len() ==> pv.has_node(#[trigger] hs[i]),
    ensures
        bind_nodes_all(later, cs, hs) == bind_nodes_all(pv, cs, hs),
    decreases cs,
{
    if cs.len() > 0 && hs.len() == cs.len() {
        assert forall|i: int| 0 <= i < hs.drop_last().len() implies pv.has_node(
            #[trigger] hs.drop_last()[i],
        ) by {
            assert(hs.drop_last()[i] == hs[i]);
        }
        lemma_bind_nodes_roots_kept(pv, later, cs.drop_last(), hs.drop_last());
        assert(pv.has_node(hs[hs.len() - 1]));
        lemma_bind_nodes_kept(pv, later, cs.last(), hs.last());
    }
}

/// What emitting the canonical pattern `c` does to the state of the
/// clause, to the function and to the pattern container: the constants of
/// the pattern are interned and given slots, its variables become binds,
/// and the container gets one new node for each node of the pattern, the
/// first of which, `r`, matches the shape of the pattern.
pub open spec fn emit_post(
    c: Canon,
    frames: Seq<Seq<(Symbol, Value)>>,
    cl0: ClauseLowerCtx,
    cl1: ClauseLowerCtx,
    fv0: FunctionView,
    fv1: FunctionView,
    pv0: ContainerView,
    pv1: ContainerView,
    r: PatternNode,
) -> bool {
    &&& fv1 == fv0.interned_all(walk_terms(c))
    &&& cl1.keys(fv1) == slot_terms(cl0.keys(fv0), walk_terms(c))
    &&& cl1.bind_state() == cl0.bind_state().steps(frames, walk_names(c))
    &&& cl1.pat_clause == cl0.pat_clause
    &&& cl1.pre_case == cl0.pre_case
    &&& cl1.inv(fv1, pv1)
    &&& pv0.kept_from(pv1, 0)
    &&& pv1.nodes.len() == pv0.nodes.len() + canon_size(c)
    &&& r.idx() == pv0.nodes.len()
    &&& pv1.shape(r) == canon_shape(c, cl1.keys(fv1))
    &&& clauses_kept(pv0, pv1, cl0.pat_clause)
    &&& pv1.clause(cl0.pat_clause).binds == pv0.clause(cl0.pat_clause).binds + bind_nodes(pv1, c, r)
}

/// The clauses other than `clause` are unchanged, and `clause` has the
/// same roots.
pub open spec fn clauses_kept(pv0: ContainerView, pv1: ContainerView, clause: PatternClause) -> bool {
    &&& pv1.clauses.len() == pv0.clauses.len()
    &&& forall|k: PatternClause|
        k != clause && #[trigger] pv0.has_clause(k) ==> pv1.clause(k) == pv0.clause(k)
    &&& pv1.clause(clause).roots == pv0.clause(clause).roots
}

/// Keeping the clauses twice is keeping them.
pub proof fn lemma_clauses_kept_trans(
    a: ContainerView,
    b: ContainerView,
    c: ContainerView,
    clause: PatternClause,
)
    requires
        clauses_kept(a, b, clause),
        clauses_kept(b, c, clause),
    ensures
        clauses_kept(a, c, clause),
{
    assert forall|k: PatternClause| k != clause && #[trigger] a.has_clause(k) implies c.clause(k)
        == a.clause(k) by {
        assert(b.has_clause(k));
    }
}

/// The room that emitting a pattern of `size` nodes needs: in the node
/// arena, in the value arena and among the slots of the clause.
pub open spec fn emit_room(cl: ClauseLowerCtx, fv: FunctionView, pv: ContainerView, size: nat) -> bool {
    &&& pv.nodes.len() + size <= u32::MAX
    &&& fv.values.len() + size <= u32::MAX
    &&& cl.values@.len() + size <= u32::MAX
}

impl ClauseLowerCtx {
    /// The state of the clause stays in agreement when the function gets
    /// more values.
    pub proof fn lemma_inv_extended(&self, fv: FunctionView, fv2: FunctionView, pv: ContainerView)
        requires
            self.inv(fv, pv),
            fv.extended_by(fv2),
            fv2.wf(),
        ensures
            self.inv(fv2, pv),
            self.keys(fv2) == self.keys(fv),
    {
        assert forall|i: int| 0 <= i < self.values@.len() implies fv2.has_value(
            #[trigger] self.values@[i],
        ) by {
            assert(fv.has_value(self.values@[i]));
        }
        lemma_slot_keys_extended(fv, fv2, self.values@);
        assert forall|g: int| 0 <= g < self.eq_guards@.len() implies match #[trigger] self.eq_guards@[g] {
            EqGuard::EqValue(i, v) => i < self.binds@.len() && fv2.has_value(v),
            EqGuard::EqBind(i, j) => i < self.binds@.len() && j < self.binds@.len(),
        } by {
            match self.eq_guards@[g] {
                EqGuard::EqValue(i, v) => {
                    assert(fv.has_value(v));
                },
                _ => {},
            }
        }
    }
}

/// What the scope binds stays valid when the function gets more values.
pub proof fn lemma_frames_extended(
    frames: Seq<Seq<(Symbol, Value)>>,
    fv: FunctionView,
    fv2: FunctionView,
)
    requires
        frames_ok(frames, fv),
        fv.extended_by(fv2),
    ensures
        frames_ok(frames, fv2),
{
    assert forall|i: int, j: int|
        0 <= i < frames.len() && 0 <= j < frames[i].len() implies fv2.has_value(
        (#[trigger] frames[i][j]).1,
    ) by {
        assert(fv.has_value(frames[i][j].1));
    }
}

/// The shapes of a list of children, given the shape of each.
pub proof fn lemma_shapes_list(
    pv: ContainerView,
    parent: PatternNode,
    hs: Seq<PatternNode>,
    cs: Seq<Canon>,
    keys: Seq<SlotKey>,
)
    requires
        hs.len() == cs.len(),
        forall|k: int|
            0 <= k < hs.len() ==> pv.below(parent, #[trigger] hs[k]) && pv.shape(hs[k])
                == canon_shape(cs[k], keys),
    ensures
        pv.shapes(parent, hs) == canon_shapes(cs, keys),
    decreases hs.len(),
{
    if hs.len() > 0 {
        assert forall|k: int| 0 <= k < hs.drop_last().len() implies pv.below(
            parent,
            #[trigger] hs.drop_last()[k],
        ) && pv.shape(hs.drop_last()[k]) == canon_shape(cs.drop_last()[k], keys) by {
            assert(hs.drop_last()[k] == hs[k]);
        }
        lemma_shapes_list(pv, parent, hs.drop_last(), cs.drop_last(), keys);
        assert(pv.below(parent, hs[hs.len() - 1]));
    }
}

/// The variables at the root of a tree.
fn root_names(node: &TreeNode) -> (r: &Vec<Ident>)
    ensures
        r@ == tree_view(*node).names(),
{
    match node {
        TreeNode::Any(n) => n,
        TreeNode::Literal(n, _) => n,
        TreeNode::Tuple(n, _) => n,
        TreeNode::Cons(n, _, _) => n,
    }
}

/// Emits the tree below `node` into the pattern container and returns the
/// node that stands for its root.
pub fn emit(node: &TreeNode, lctx: &LowerCtx, b: &mut FunctionBuilder, cl: &mut ClauseLowerCtx) -> (r:
    PatternNode)
    requires
        old(cl).inv(old(b).fun@, old(b).pat@),
        frames_ok(lctx.scope@, old(b).fun@),
        emit_room(*old(cl), old(b).fun@, old(b).pat@, canon_size(tree_view(*node))),
    ensures
        emit_post(
            tree_view(*node),
            lctx.scope@,
            *old(cl),
            *final(cl),
            old(b).fun@,
            final(b).fun@,
            old(b).pat@,
            final(b).pat@,
            r,
        ),
    decreases node,
{
    let ghost c = tree_view(*node);
    let ghost frames = lctx.scope@;
    let ghost cl0 = *cl;
    let ghost fv0 = b.fun@;
    let ghost pv0 = b.pat@;
    let pn = b.pat.node_empty();
    let ghost pv_a = b.pat@;
    let ghost binds0 = pv0.clause(cl0.pat_clause).binds;

    // the variables bound at this node
    let names = root_names(node);
    let n_names = names.len();
    let mut i: usize = 0;
    proof {
        assert(names@.take(0) =~= Seq::<Ident>::empty());
        assert(pv_a.clause(cl0.pat_clause) == pv0.clause(cl0.pat_clause));
        assert(binds0 + Seq::new(0nat, |k: int| pn) =~= binds0);
    }
    while i < n_names
        invariant
            n_names == names@.len(),
            i <= n_names,
            names@ == c.names(),
            cl.inv(fv0, b.pat@),
            frames_ok(frames, fv0),
            frames == lctx.scope@,
            b.fun@ == fv0,
            b.pat@.nodes == pv_a.nodes,
            pv_a.has_node(pn),
            clauses_kept(pv_a, b.pat@, cl0.pat_clause),
            pv_a.has_clause(cl0.pat_clause),
            cl.pat_clause == cl0.pat_clause,
            cl.pre_case == cl0.pre_case,
            cl.values == cl0.values,
            cl.bind_state() == cl0.bind_state().steps(frames, names@.take(i as int)),
            b.pat@.clause(cl0.pat_clause).binds == pv0.clause(cl0.pat_clause).binds + Seq::new(
                i as nat,
                |k: int| pn,
            ),
        decreases n_names - i,
    {
        let ghost binds_a = b.pat@.clause(cl0.pat_clause).binds;
        proof {
            assert(names@.take(i + 1).drop_last() =~= names@.take(i as int));
            assert(names@.take(i + 1).last() == names@[i as int]);
        }
        cl.bind_name(lctx, b, names[i], pn);
        proof {
            assert(b.pat@.clause(cl0.pat_clause).binds == binds_a.push(pn));
            assert(binds_a.push(pn) =~= pv0.clause(cl0.pat_clause).binds + Seq::new(
                (i + 1) as nat,
                |k: int| pn,
            ));
        }
        i += 1;
    }
    let ghost cl_b = *cl;
    let ghost pv_b = b.pat@;
    let ghost own = Seq::new(c.names().len(), |k: int| pn);
    proof {
        assert(pv_b.clause(cl0.pat_clause).binds == binds0 + own);
        assert(names@.take(n_names as int) =~= names@);
        assert(clauses_kept(pv0, pv_a, cl0.pat_clause));
        lemma_clauses_kept_trans(pv0, pv_a, pv_b, cl0.pat_clause);
    }

    match node {
        TreeNode::Any(_) => {
            proof {
                assert(walk_names(c) =~= c.names());
                assert(fv0.interned_all(walk_terms(c)) == fv0);
                assert(pv0.kept_from(pv_b, 0));
                assert(bind_nodes(pv_b, c, pn) == own);
            }
        },
        TreeNode::Literal(_, term) => {
            let ghost t = *term;
            proof {
                assert(walk_terms(c) =~= seq![t]);
                assert(seq![t].drop_last() =~= Seq::<ConstantTerm>::empty());
                assert(fv0.interned_all(seq![t]) == fv0.interned(t));
                fv0.lemma_interned_wf(t);
            }
            let v = b.value(ValueItem::Constant(*term));
            let ghost fv1 = b.fun@;
            proof {
                cl.lemma_inv_extended(fv0, fv1, pv_b);
                fv0.lemma_interned_all(seq![t]);
                assert(fv1.is_constant(v, t));
            }
            let slot = cl.clause_value(b, v);
            let ghost pv_m = b.pat@;
            b.pat.value(pn, slot);
            proof {
                let pv_c = b.pat@;
                let keys0 = cl0.keys(fv0);
                assert(slot_key(fv1, v) == SlotKey::Term(t));
                assert(slot_terms(keys0, Seq::<ConstantTerm>::empty()) == keys0);
                assert(seq![t].last() == t);
                lemma_slot_keys(fv1, cl0.values@, v);
                lemma_slot_keys(fv1, cl.values@, v);
                lemma_slot_keys_distinct(fv1, cl.values@);
                assert(cl.keys(fv1) == slot_terms(keys0, seq![t]));
                assert(slot == PatternValue::at(cl.keys(fv1).index_of(SlotKey::Term(t))));
                assert(clauses_kept(pv_b, pv_m, cl0.pat_clause));
                assert(clauses_kept(pv_m, pv_c, cl0.pat_clause));
                lemma_clauses_kept_trans(pv0, pv_b, pv_m, cl0.pat_clause);
                lemma_clauses_kept_trans(pv0, pv_m, pv_c, cl0.pat_clause);
                assert(pv0.kept_from(pv_c, 0));
                assert(pv_c.node(pn) == crate::pattern::NodeView::Value(slot));
                assert(bind_nodes(pv_c, c, pn) == own);
                assert(pv_c.clause(cl0.pat_clause).binds == pv_b.clause(cl0.pat_clause).binds);
            }
        },
        TreeNode::Tuple(_, cs) => {
            let ghost cv = tree_views(cs@);
            let n = cs.len();
            let mut children: Vec<PatternNode> = Vec::new();
            let mut k: usize = 0;
            proof {
                lemma_tree_views(cs@);
                assert(cv.take(0) =~= Seq::<Canon>::empty());
                assert(binds0 + own + Seq::<PatternNode>::empty() =~= binds0 + own);
                assert(fv0.interned_all(Seq::<ConstantTerm>::empty()) == fv0);
                lemma_sizes_take(cv, 0);
            }
            while k < n
                invariant
                    n == cs@.len(),
                    n == cv.len(),
                    k <= n,
                    c == Canon::Tuple(c.names(), cv),
                    cv == tree_views(cs@),
                    forall|j: int| 0 <= j < n ==> decreases_to!(node => #[trigger] cs@[j]),
                    forall|j: int| 0 <= j < n ==> #[trigger] cv[j] == tree_view(cs@[j]),
                    cl0.inv(fv0, pv0),
                    frames == lctx.scope@,
                    frames_ok(frames, b.fun@),
                    emit_room(cl0, fv0, pv0, canon_size(c)),
                    cl0.values@ == cl_b.values@,
                    pn.idx() == pv0.nodes.len(),
                    pv_b.nodes == pv0.nodes.push(crate::pattern::NodeView::Wildcard),
                    b.fun@ == fv0.interned_all(walk_terms_all(cv.take(k as int))),
                    cl.keys(b.fun@) == slot_terms(cl0.keys(fv0), walk_terms_all(cv.take(k as int))),
                    cl.bind_state() == cl_b.bind_state().steps(
                        frames,
                        walk_names_all(cv.take(k as int)),
                    ),
                    cl.pat_clause == cl0.pat_clause,
                    cl.pre_case == cl0.pre_case,
                    cl.inv(b.fun@, b.pat@),
                    pv_b.kept_from(b.pat@, 0),
                    b.pat@.nodes.len() == pv_b.nodes.len() + canon_sizes(cv.take(k as int)),
                    clauses_kept(pv0, b.pat@, cl0.pat_clause),
                    pv0.has_clause(cl0.pat_clause),
                    children@.len() == k,
                    forall|j: int|
                        0 <= j < k ==> b.pat@.below(pn, #[trigger] children@[j]) && b.pat@.shape(
                            children@[j],
                        ) == canon_shape(cv[j], cl.keys(b.fun@)),
                    b.pat@.clause(cl0.pat_clause).binds == binds0 + own + bind_nodes_all(
                        b.pat@,
                        cv.take(k as int),
                        children@,
                    ),
                decreases n - k,
            {
                let ghost fv_c = b.fun@;
                let ghost pv_c = b.pat@;
                let ghost cl_c = *cl;
                let ghost children_c = children@;
                proof {
                    assert(cv.take(k + 1).drop_last() =~= cv.take(k as int));
                    assert(cv.take(k + 1).last() == cv[k as int]);
                    lemma_sizes_take(cv, k + 1);
                    lemma_walk_terms_all_len(cv.take(k as int));
                    lemma_slot_keys_distinct(fv0, cl0.values@);
                    lemma_slot_terms(cl0.keys(fv0), walk_terms_all(cv.take(k as int)));
                    fv0.lemma_interned_all(walk_terms_all(cv.take(k as int)));
                }
                let child = emit(&cs[k], lctx, b, cl);
                children.push(child);
                proof {
                    let ck = cv[k as int];
                    let fv_d = b.fun@;
                    let pv_d = b.pat@;
                    fv0.lemma_interned_all_concat(
                        walk_terms_all(cv.take(k as int)),
                        walk_terms(ck),
                    );
                    lemma_slot_terms_concat(
                        cl0.keys(fv0),
                        walk_terms_all(cv.take(k as int)),
                        walk_terms(ck),
                    );
                    cl_b.bind_state().lemma_steps_concat(
                        frames,
                        walk_names_all(cv.take(k as int)),
                        walk_names(ck),
                    );
                    lemma_walk_terms_len(ck);
                    fv_c.lemma_interned_all(walk_terms(ck));
                    lemma_frames_extended(frames, fv_c, fv_d);
                    lemma_slot_keys_distinct(fv_c, cl_c.values@);
                    lemma_slot_terms(cl_c.keys(fv_c), walk_terms(ck));
                    assert forall|j: int| 0 <= j < k + 1 implies pv_d.below(
                        pn,
                        #[trigger] children@[j],
                    ) && pv_d.shape(children@[j]) == canon_shape(cv[j], cl.keys(fv_d)) by {
                        if j < k {
                            assert(children@[j] == children_c[j]);
                            assert(pv_c.below(pn, children_c[j]));
                            pv_c.lemma_shape_kept(pv_d, children_c[j]);
                            lemma_terms_cover(cl0.keys(fv0), cv, k as int, j);
                            lemma_canon_shape_prefix(cv[j], cl_c.keys(fv_c), cl.keys(fv_d));
                        }
                    }
                    lemma_clauses_kept_trans(pv0, pv_c, pv_d, cl0.pat_clause);
                    // the binds
                    assert(children@.drop_last() =~= children_c);
                    assert(children@.last() == child);
                    lemma_bind_nodes_all_kept(pv_c, pv_d, cv.take(k as int), children_c, pn);
                    assert(pv_d.clause(cl0.pat_clause).binds =~= binds0 + own + bind_nodes_all(
                        pv_d,
                        cv.take(k + 1),
                        children@,
                    ));
                }
                k += 1;
            }
            proof {
                assert(cv.take(n as int) =~= cv);
                assert(walk_names(c) =~= c.names() + walk_names_all(cv));
                cl0.bind_state().lemma_steps_concat(frames, c.names(), walk_names_all(cv));
            }
            let ghost pv_e = b.pat@;
            let ghost hs = children@;
            b.pat.tuple(pn, children);
            proof {
                let pv_f = b.pat@;
                assert forall|j: int| 0 <= j < hs.len() implies pv_f.below(pn, #[trigger] hs[j])
                    && pv_f.shape(hs[j]) == canon_shape(cv[j], cl.keys(b.fun@)) by {
                    assert(pv_e.below(pn, hs[j]));
                    pv_e.lemma_shape_kept(pv_f, hs[j]);
                }
                lemma_shapes_list(pv_f, pn, hs, cv, cl.keys(b.fun@));
                lemma_bind_nodes_all_kept(pv_e, pv_f, cv, hs, pn);
                assert(pv_f.node(pn) == crate::pattern::NodeView::Tuple(hs));
                assert(pv_f.clause(cl0.pat_clause).binds == pv_e.clause(cl0.pat_clause).binds);
                assert(binds0 + own + bind_nodes_all(pv_f, cv, hs) =~= binds0 + (own
                    + bind_nodes_all(pv_f, cv, hs)));
                assert(clauses_kept(pv_e, pv_f, cl0.pat_clause));
                lemma_clauses_kept_trans(pv0, pv_e, pv_f, cl0.pat_clause);
                assert(pv0.kept_from(pv_f, 0)) by {
                    assert forall|x: int| 0 <= x < pv0.nodes.len() implies #[trigger] pv_f.nodes[x]
                        == pv0.nodes[x] by {
                        assert(pv_b.nodes[x] == pv0.nodes[x]);
                        assert(pv_e.nodes[x] == pv_b.nodes[x]);
                    }
                }
            }
        },
        TreeNode::Cons(_, h, t) => {
            let ghost ch = tree_view(**h);
            let ghost ct = tree_view(**t);
            proof {
                lemma_walk_terms_len(ch);
                lemma_walk_terms_len(ct);
            }
            let hn = emit(h, lctx, b, cl);
            let ghost fv_c = b.fun@;
            let ghost pv_c = b.pat@;
            let ghost cl_c = *cl;
            proof {
                fv0.lemma_interned_all(walk_terms(ch));
                lemma_frames_extended(frames, fv0, fv_c);
                lemma_slot_keys_distinct(fv0, cl0.values@);
                lemma_slot_terms(cl0.keys(fv0), walk_terms(ch));
            }
            let tn = emit(t, lctx, b, cl);
            let ghost pv_d = b.pat@;
            b.pat.list_cell(pn, hn, tn);
            proof {
                let pv_f = b.pat@;
                fv0.lemma_interned_all_concat(walk_terms(ch), walk_terms(ct));
                lemma_slot_terms_concat(cl0.keys(fv0), walk_terms(ch), walk_terms(ct));
                lemma_slot_keys_distinct(fv_c, cl_c.values@);
                lemma_slot_terms(cl_c.keys(fv_c), walk_terms(ct));
                assert(walk_names(c) =~= c.names() + (walk_names(ch) + walk_names(ct)));
                cl0.bind_state().lemma_steps_concat(
                    frames,
                    c.names(),
                    walk_names(ch) + walk_names(ct),
                );
                cl_b.bind_state().lemma_steps_concat(frames, walk_names(ch), walk_names(ct));
                assert(walk_terms(c) =~= walk_terms(ch) + walk_terms(ct));
                pv_c.lemma_shape_kept(pv_d, hn);
                pv_d.lemma_shape_kept(pv_f, hn);
                pv_d.lemma_shape_kept(pv_f, tn);
                lemma_bind_nodes_kept(pv_c, pv_d, ch, hn);
                lemma_bind_nodes_kept(pv_d, pv_f, ch, hn);
                lemma_bind_nodes_kept(pv_d, pv_f, ct, tn);
                assert(pv_f.node(pn) == crate::pattern::NodeView::ListCell(hn, tn));
                assert(pv_f.clause(cl0.pat_clause).binds == pv_d.clause(cl0.pat_clause).binds);
                assert(pv_f.clause(cl0.pat_clause).binds =~= binds0 + (own + bind_nodes(
                    pv_f,
                    ch,
                    hn,
                ) + bind_nodes(pv_f, ct, tn)));
                lemma_canon_shape_prefix(ch, cl_c.keys(fv_c), cl.keys(b.fun@));
                assert(pv0.kept_from(pv_f, 0)) by {
                    assert forall|x: int| 0 <= x < pv0.nodes.len() implies #[trigger] pv_f.nodes[x]
                        == pv0.nodes[x] by {
                        assert(pv_b.nodes[x] == pv0.nodes[x]);
                        assert(pv_c.nodes[x] == pv_b.nodes[x]);
                        assert(pv_d.nodes[x] == pv_c.nodes[x]);
                    }
                }
                lemma_clauses_kept_trans(pv0, pv_b, pv_c, cl0.pat_clause);
                lemma_clauses_kept_trans(pv0, pv_c, pv_d, cl0.pat_clause);
                assert(clauses_kept(pv_d, pv_f, cl0.pat_clause));
                lemma_clauses_kept_trans(pv0, pv_d, pv_f, cl0.pat_clause);
            }
        },
    }
    pn
}

/// The sizes of the first `k` patterns of a list are no more than those
/// of the list.
pub proof fn lemma_sizes_take(cs: Seq<Canon>, k: int)
    requires
        0 <= k <= cs.len(),
    ensures
        canon_sizes(cs.take(k)) <= canon_sizes(cs),
        k < cs.len() ==> canon_sizes(cs.take(k)) + canon_size(cs[k]) <= canon_sizes(cs),
    decreases cs.len() - k,
{
    if k < cs.len() {
        assert(cs.take(k + 1).drop_last() =~= cs.take(k));
        assert(cs.take(k + 1).last() == cs[k]);
        lemma_sizes_take(cs, k + 1);
    } else {
        assert(cs.take(k) =~= cs);
    }
}

/// Once the first `k` patterns of a list have their slots, every constant
/// of the `j`-th of them has a slot.
pub proof fn lemma_terms_cover(keys: Seq<SlotKey>, cs: Seq<Canon>, k: int, j: int)
    requires
        keys.no_duplicates(),
        0 <= j < k <= cs.len(),
    ensures
        forall|i: int|
            0 <= i < walk_terms(cs[j]).len() ==> slot_terms(
                keys,
                walk_terms_all(cs.take(k)),
            ).contains(SlotKey::Term(#[trigger] walk_terms(cs[j])[i])),
    decreases k,
{
    let all = walk_terms_all(cs.take(k));
    let init = walk_terms_all(cs.take(k - 1));
    assert(cs.take(k).drop_last() =~= cs.take(k - 1));
    assert(cs.take(k).last() == cs[k - 1]);
    lemma_slot_terms(keys, all);
    if j == k - 1 {
        assert forall|i: int| 0 <= i < walk_terms(cs[j]).len() implies slot_terms(
            keys,
            all,
        ).contains(SlotKey::Term(#[trigger] walk_terms(cs[j])[i])) by {
            assert(all[init.len() + i] == walk_terms(cs[j])[i]);
        }
    } else {
        lemma_terms_cover(keys, cs, k - 1, j);
        lemma_slot_terms_concat(keys, init, walk_terms(cs[k - 1]));
        lemma_slot_terms(keys, init);
        lemma_slot_terms(slot_terms(keys, init), walk_terms(cs[k - 1]));
        let mid = slot_terms(keys, init);
        let fin = slot_terms(keys, all);
        assert forall|i: int| 0 <= i < walk_terms(cs[j]).len() implies fin.contains(
            SlotKey::Term(#[trigger] walk_terms(cs[j])[i]),
        ) by {
            let t = SlotKey::Term(walk_terms(cs[j])[i]);
            assert(mid.contains(t));
            let x = choose|x: int| 0 <= x < mid.len() && mid[x] == t;
            assert(fin.take(mid.len() as int)[x] == fin[x]);
        }
    }
}

} // verus!
