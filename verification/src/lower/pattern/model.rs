//! What the lowering of a clause means: the canonical form of patterns,
//! their binds, and the equality guards between them.

use crate::constant::ConstantTerm;
use crate::entity::Value;
use crate::fun::model::FunctionView;
use crate::fun::ValueType;
use crate::intern::{Ident, Symbol};
use crate::lower::ast::{Guard, GuardTest, Pattern};
use crate::lower::scope::scope_lookup;
use crate::pattern::{PatternValue, Shape};
use vstd::prelude::*;

verus! {

/// A pattern in canonical form: `Left = Right` is resolved, and each node
/// carries the variables that are bound to the term at its position.
pub enum Canon {
    /// Any term.
    Any(Seq<Ident>),
    /// The given constant.
    Literal(Seq<Ident>, ConstantTerm),
    /// A tuple with the given elements.
    Tuple(Seq<Ident>, Seq<Canon>),
    /// A list cell with the given head and tail.
    Cons(Seq<Ident>, Box<Canon>, Box<Canon>),
}

impl Canon {
    /// The variables bound at the root.
    pub open spec fn names(self) -> Seq<Ident> {
        match self {
            Canon::Any(n) => n,
            Canon::Literal(n, _) => n,
            Canon::Tuple(n, _) => n,
            Canon::Cons(n, _, _) => n,
        }
    }

    /// The same pattern with other variables at the root.
    pub open spec fn with_names(self, names: Seq<Ident>) -> Canon {
        match self {
            Canon::Any(_) => Canon::Any(names),
            Canon::Literal(_, c) => Canon::Literal(names, c),
            Canon::Tuple(_, cs) => Canon::Tuple(names, cs),
            Canon::Cons(_, h, t) => Canon::Cons(names, h, t),
        }
    }
}

/// The canonical pattern that matches what both `a` and `b` match, or
/// `None` if no term has the shape of both. The variables of `a` come
/// before those of `b`.
pub open spec fn merge(a: Canon, b: Canon) -> Option<Canon>
    decreases a,
{
    let names = a.names() + b.names();
    match (a, b) {
        (Canon::Any(_), _) => Some(b.with_names(names)),
        (_, Canon::Any(_)) => Some(a.with_names(names)),
        (Canon::Literal(_, x), Canon::Literal(_, y)) => if x == y {
            Some(Canon::Literal(names, x))
        } else {
            None
        },
        (Canon::Tuple(_, xs), Canon::Tuple(_, ys)) => if xs.len() == ys.len() {
            match merge_all(xs, ys) {
                Some(zs) => Some(Canon::Tuple(names, zs)),
                None => None,
            }
        } else {
            None
        },
        (Canon::Cons(_, h1, t1), Canon::Cons(_, h2, t2)) => match (
            merge(*h1, *h2),
            merge(*t1, *t2),
        ) {
            (Some(h), Some(t)) => Some(Canon::Cons(names, Box::new(h), Box::new(t))),
            _ => None,
        },
        _ => None,
    }
}

/// The element-wise merge of two lists of the same length.
pub open spec fn merge_all(xs: Seq<Canon>, ys: Seq<Canon>) -> Option<Seq<Canon>>
    decreases xs,
{
    if xs.len() == 0 || xs.len() != ys.len() {
        Some(Seq::empty())
    } else {
        match (merge_all(xs.drop_last(), ys.drop_last()), merge(xs.last(), ys.last())) {
            (Some(zs), Some(z)) => Some(zs.push(z)),
            _ => None,
        }
    }
}

/// The canonical form of a surface pattern, or `None` if no term has the
/// shape that the pattern asks for.
pub open spec fn canon(p: Pattern) -> Option<Canon>
    decreases p,
{
    match p {
        Pattern::Wildcard => Some(Canon::Any(Seq::empty())),
        Pattern::Var(x) => Some(Canon::Any(seq![x])),
        Pattern::Literal(c) => Some(Canon::Literal(Seq::empty(), c)),
        Pattern::Tuple(ps) => match canon_all(ps@) {
            Some(cs) => Some(Canon::Tuple(Seq::empty(), cs)),
            None => None,
        },
        Pattern::Cons(h, t) => match (canon(*h), canon(*t)) {
            (Some(ch), Some(ct)) => Some(Canon::Cons(Seq::empty(), Box::new(ch), Box::new(ct))),
            _ => None,
        },
        Pattern::Match(l, r) => match (canon(*l), canon(*r)) {
            (Some(cl), Some(cr)) => merge(cl, cr),
            _ => None,
        },
    }
}

/// The canonical forms of a list of patterns, or `None` if one of them
/// has none.
pub open spec fn canon_all(ps: Seq<Pattern>) -> Option<Seq<Canon>>
    decreases ps,
{
    if ps.len() == 0 {
        Some(Seq::empty())
    } else {
        match (canon_all(ps.drop_last()), canon(ps.last())) {
            (Some(cs), Some(c)) => Some(cs.push(c)),
            _ => None,
        }
    }
}

/// The variables of a surface pattern, one entry for each occurrence, from
/// left to right.
pub open spec fn vars(p: Pattern) -> Seq<Ident>
    decreases p,
{
    match p {
        Pattern::Wildcard => Seq::empty(),
        Pattern::Var(x) => seq![x],
        Pattern::Literal(_) => Seq::empty(),
        Pattern::Tuple(ps) => vars_all(ps@),
        Pattern::Cons(h, t) => vars(*h) + vars(*t),
        Pattern::Match(l, r) => vars(*l) + vars(*r),
    }
}

/// The variables of a list of patterns, from left to right.
pub open spec fn vars_all(ps: Seq<Pattern>) -> Seq<Ident>
    decreases ps,
{
    if ps.len() == 0 {
        Seq::empty()
    } else {
        vars_all(ps.drop_last()) + vars(ps.last())
    }
}

/// The variables of a canonical pattern in the order in which its tree is
/// walked: those of a node before those of its children, children from
/// left to right.
pub open spec fn walk_names(c: Canon) -> Seq<Ident>
    decreases c,
{
    match c {
        Canon::Any(n) => n,
        Canon::Literal(n, _) => n,
        Canon::Tuple(n, cs) => n + walk_names_all(cs),
        Canon::Cons(n, h, t) => n + walk_names(*h) + walk_names(*t),
    }
}

pub open spec fn walk_names_all(cs: Seq<Canon>) -> Seq<Ident>
    decreases cs,
{
    if cs.len() == 0 {
        Seq::empty()
    } else {
        walk_names_all(cs.drop_last()) + walk_names(cs.last())
    }
}

/// The constants of a canonical pattern in the order in which its tree is
/// walked.
pub open spec fn walk_terms(c: Canon) -> Seq<ConstantTerm>
    decreases c,
{
    match c {
        Canon::Any(_) => Seq::empty(),
        Canon::Literal(_, t) => seq![t],
        Canon::Tuple(_, cs) => walk_terms_all(cs),
        Canon::Cons(_, h, t) => walk_terms(*h) + walk_terms(*t),
    }
}

pub open spec fn walk_terms_all(cs: Seq<Canon>) -> Seq<ConstantTerm>
    decreases cs,
{
    if cs.len() == 0 {
        Seq::empty()
    } else {
        walk_terms_all(cs.drop_last()) + walk_terms(cs.last())
    }
}

/// An equality that the guard of a clause must test beside what the
/// pattern tree matches.
#[derive(Debug, Copy, Clone, PartialEq, Eq, Structural)]
pub enum EqGuard {
    /// The bind at the position equals the value.
    EqValue(usize, Value),
    /// The binds at the two positions are equal.
    EqBind(usize, usize),
}

/// The position of the bind that carries the name `sym`, if there is one.
pub open spec fn find_named(binds: Seq<Option<Ident>>, sym: Symbol) -> Option<int>
    decreases binds.len(),
{
    if binds.len() == 0 {
        None
    } else {
        match binds.last() {
            Some(x) => if x.name == sym {
                Some(binds.len() - 1)
            } else {
                find_named(binds.drop_last(), sym)
            },
            None => find_named(binds.drop_last(), sym),
        }
    }
}

/// The binds and equality guards of a clause.
pub struct BindState {
    /// For each bind the variable that the body sees under its name, or
    /// `None` for a bind that only an equality guard reads.
    pub binds: Seq<Option<Ident>>,
    pub guards: Seq<EqGuard>,
}

impl BindState {
    pub open spec fn initial() -> BindState {
        BindState { binds: Seq::empty(), guards: Seq::empty() }
    }

    /// The state after one more occurrence of a variable:
    /// - a variable that the enclosing scope binds gets an unnamed bind
    ///   and a guard that equates it with the value in scope;
    /// - a variable that the clause has bound already gets an unnamed bind
    ///   and a guard that equates it with that first bind;
    /// - any other variable gets a bind of its name.
    pub open spec fn step(self, frames: Seq<Seq<(Symbol, Value)>>, name: Ident) -> BindState {
        let k = self.binds.len();
        match scope_lookup(frames, name.name) {
            Some(v) => BindState {
                binds: self.binds.push(None),
                guards: self.guards.push(EqGuard::EqValue(k as usize, v)),
            },
            None => match find_named(self.binds, name.name) {
                Some(j) => BindState {
                    binds: self.binds.push(None),
                    guards: self.guards.push(EqGuard::EqBind(j as usize, k as usize)),
                },
                None => BindState { binds: self.binds.push(Some(name)), guards: self.guards },
            },
        }
    }

    /// The state after the occurrences `names`, in order.
    pub open spec fn steps(self, frames: Seq<Seq<(Symbol, Value)>>, names: Seq<Ident>) -> BindState
        decreases names.len(),
    {
        if names.len() == 0 {
            self
        } else {
            self.steps(frames, names.drop_last()).step(frames, names.last())
        }
    }

    /// Taking two runs of occurrences one after the other is taking their
    /// concatenation.
    pub proof fn lemma_steps_concat(
        self,
        frames: Seq<Seq<(Symbol, Value)>>,
        a: Seq<Ident>,
        b: Seq<Ident>,
    )
        ensures
            self.steps(frames, a + b) == self.steps(frames, a).steps(frames, b),
        decreases b.len(),
    {
        if b.len() == 0 {
            assert(a + b =~= a);
        } else {
            self.lemma_steps_concat(frames, a, b.drop_last());
            assert((a + b).drop_last() =~= a + b.drop_last());
            assert((a + b).last() == b.last());
        }
    }

    /// Every occurrence adds one bind.
    pub proof fn lemma_steps_len(self, frames: Seq<Seq<(Symbol, Value)>>, names: Seq<Ident>)
        ensures
            self.steps(frames, names).binds.len() == self.binds.len() + names.len(),
            self.steps(frames, names).guards.len() <= self.guards.len() + names.len(),
            self.guards.len() <= self.steps(frames, names).guards.len(),
        decreases names.len(),
    {
        if names.len() > 0 {
            self.lemma_steps_len(frames, names.drop_last());
        }
    }
}

/// What a value slot of a clause holds: a constant, which is told by its
/// term, or another value.
pub enum SlotKey {
    Term(ConstantTerm),
    Other(Value),
}

/// What a slot that was made for the value `v` holds.
pub open spec fn slot_key(fv: FunctionView, v: Value) -> SlotKey {
    match fv.values[v.idx()] {
        ValueType::Constant(t) => SlotKey::Term(t),
        _ => SlotKey::Other(v),
    }
}

/// What the slots that were made for `values` hold, slot by slot.
pub open spec fn slot_keys(fv: FunctionView, values: Seq<Value>) -> Seq<SlotKey> {
    Seq::new(values.len(), |i: int| slot_key(fv, values[i]))
}

/// The value slots of a clause after the constants `more` were given
/// slots in order: a constant that has a slot keeps it, any other gets
/// the next one.
pub open spec fn slot_terms(keys: Seq<SlotKey>, more: Seq<ConstantTerm>) -> Seq<SlotKey>
    decreases more.len(),
{
    if more.len() == 0 {
        keys
    } else {
        let init = slot_terms(keys, more.drop_last());
        if init.contains(SlotKey::Term(more.last())) {
            init
        } else {
            init.push(SlotKey::Term(more.last()))
        }
    }
}

/// The shape that a canonical pattern matches, where each constant is
/// named by the slot that holds it.
pub open spec fn canon_shape(c: Canon, keys: Seq<SlotKey>) -> Shape
    decreases c,
{
    match c {
        Canon::Any(_) => Shape::Any,
        Canon::Literal(_, t) => Shape::Value(PatternValue::at(keys.index_of(SlotKey::Term(t)))),
        Canon::Tuple(_, cs) => Shape::Tuple(canon_shapes(cs, keys)),
        Canon::Cons(_, h, t) => Shape::Cons(
            Box::new(canon_shape(*h, keys)),
            Box::new(canon_shape(*t, keys)),
        ),
    }
}

pub open spec fn canon_shapes(cs: Seq<Canon>, keys: Seq<SlotKey>) -> Seq<Shape>
    decreases cs,
{
    if cs.len() == 0 {
        Seq::empty()
    } else {
        canon_shapes(cs.drop_last(), keys).push(canon_shape(cs.last(), keys))
    }
}

/// The number of nodes of a canonical pattern.
pub open spec fn canon_size(c: Canon) -> nat
    decreases c,
{
    match c {
        Canon::Any(_) => 1,
        Canon::Literal(_, _) => 1,
        Canon::Tuple(_, cs) => 1 + canon_sizes(cs),
        Canon::Cons(_, h, t) => 1 + canon_size(*h) + canon_size(*t),
    }
}

pub open spec fn canon_sizes(cs: Seq<Canon>) -> nat
    decreases cs,
{
    if cs.len() == 0 {
        0
    } else {
        canon_sizes(cs.drop_last()) + canon_size(cs.last())
    }
}

/// The number of nodes of a surface pattern.
pub open spec fn pattern_size(p: Pattern) -> nat
    decreases p,
{
    match p {
        Pattern::Wildcard => 1,
        Pattern::Var(_) => 1,
        Pattern::Literal(_) => 1,
        Pattern::Tuple(ps) => 1 + pattern_sizes(ps@),
        Pattern::Cons(h, t) => 1 + pattern_size(*h) + pattern_size(*t),
        Pattern::Match(l, r) => 1 + pattern_size(*l) + pattern_size(*r),
    }
}

pub open spec fn pattern_sizes(ps: Seq<Pattern>) -> nat
    decreases ps,
{
    if ps.len() == 0 {
        0
    } else {
        pattern_sizes(ps.drop_last()) + pattern_size(ps.last())
    }
}

/// `a` is the beginning of `b`.
pub open spec fn is_prefix<A>(a: Seq<A>, b: Seq<A>) -> bool {
    a.len() <= b.len() && a == b.take(a.len() as int)
}

/// Giving slots to more constants keeps the slots that exist, gives every
/// new constant a slot, and gives no constant two.
pub proof fn lemma_slot_terms(keys: Seq<SlotKey>, more: Seq<ConstantTerm>)
    requires
        keys.no_duplicates(),
    ensures
        slot_terms(keys, more).no_duplicates(),
        is_prefix(keys, slot_terms(keys, more)),
        slot_terms(keys, more).len() <= keys.len() + more.len(),
        forall|i: int|
            0 <= i < more.len() ==> slot_terms(keys, more).contains(
                SlotKey::Term(#[trigger] more[i]),
            ),
        forall|k: SlotKey|
            slot_terms(keys, more).contains(k) ==> keys.contains(k) || (k is Term && more.contains(
                k->Term_0,
            )),
    decreases more.len(),
{
    if more.len() == 0 {
        assert(keys.take(keys.len() as int) =~= keys);
    } else {
        let init = slot_terms(keys, more.drop_last());
        lemma_slot_terms(keys, more.drop_last());
        let fin = slot_terms(keys, more);
        let last = SlotKey::Term(more.last());
        assert(init.take(keys.len() as int) == keys);
        assert(fin.take(keys.len() as int) =~= init.take(keys.len() as int));
        assert forall|i: int| 0 <= i < more.len() implies fin.contains(
            SlotKey::Term(#[trigger] more[i]),
        ) by {
            if i < more.len() - 1 {
                assert(more.drop_last()[i] == more[i]);
                let k = choose|k: int| 0 <= k < init.len() && init[k] == SlotKey::Term(more[i]);
                assert(fin[k] == SlotKey::Term(more[i]));
            } else {
                if init.contains(last) {
                } else {
                    assert(fin[init.len() as int] == last);
                }
            }
        }
        assert forall|k: SlotKey| fin.contains(k) implies keys.contains(k) || (k is Term
            && more.contains(k->Term_0)) by {
            let x = choose|x: int| 0 <= x < fin.len() && fin[x] == k;
            if x < init.len() {
                assert(init[x] == k);
                assert(init.contains(k));
                if k is Term && more.drop_last().contains(k->Term_0) {
                    let j = choose|j: int|
                        0 <= j < more.drop_last().len() && more.drop_last()[j] == k->Term_0;
                    assert(more[j] == k->Term_0);
                }
            } else {
                assert(more[more.len() - 1] == k->Term_0);
            }
        }
    }
}

/// Giving slots to two lists of constants one after the other is giving
/// slots to their concatenation.
pub proof fn lemma_slot_terms_concat(keys: Seq<SlotKey>, a: Seq<ConstantTerm>, b: Seq<ConstantTerm>)
    ensures
        slot_terms(keys, a + b) == slot_terms(slot_terms(keys, a), b),
    decreases b.len(),
{
    if b.len() == 0 {
        assert(a + b =~= a);
    } else {
        lemma_slot_terms_concat(keys, a, b.drop_last());
        assert((a + b).drop_last() =~= a + b.drop_last());
        assert((a + b).last() == b.last());
    }
}

/// What has a slot keeps it when more slots are added.
pub proof fn lemma_index_of_prefix<A>(a: Seq<A>, b: Seq<A>, t: A)
    requires
        is_prefix(a, b),
        b.no_duplicates(),
        a.contains(t),
    ensures
        b.index_of(t) == a.index_of(t),
        0 <= a.index_of(t) < a.len(),
{
    let i = a.index_of(t);
    assert(0 <= i < a.len() && a[i] == t);
    assert(b.take(a.len() as int)[i] == b[i]);
    let j = b.index_of(t);
    assert(b.contains(t));
    assert(0 <= j < b.len() && b[j] == t);
}

/// In a well-formed function two values of which each holds what the
/// other holds are one value.
pub proof fn lemma_slot_key_unique(fv: FunctionView, x: Value, y: Value)
    requires
        fv.wf(),
        fv.has_value(x),
        fv.has_value(y),
        slot_key(fv, x) == slot_key(fv, y),
    ensures
        x == y,
{
    match fv.values[x.idx()] {
        ValueType::Constant(t) => {
            fv.lemma_constant_unique(x, y, t);
        },
        _ => {},
    }
}

/// In a well-formed function the slots of distinct values hold distinct
/// things.
pub proof fn lemma_slot_keys_distinct(fv: FunctionView, values: Seq<Value>)
    requires
        fv.wf(),
        values.no_duplicates(),
        forall|i: int| 0 <= i < values.len() ==> fv.has_value(#[trigger] values[i]),
    ensures
        slot_keys(fv, values).no_duplicates(),
{
    let keys = slot_keys(fv, values);
    assert forall|i: int, j: int| 0 <= i < keys.len() && 0 <= j < keys.len() && i != j implies keys[i]
        != keys[j] by {
        assert(fv.has_value(values[i]));
        assert(fv.has_value(values[j]));
        if keys[i] == keys[j] {
            lemma_slot_key_unique(fv, values[i], values[j]);
        }
    }
}

/// In a well-formed function a value has a slot exactly where what it
/// holds has one: the same one.
pub proof fn lemma_slot_keys(fv: FunctionView, values: Seq<Value>, v: Value)
    requires
        fv.wf(),
        values.no_duplicates(),
        forall|i: int| 0 <= i < values.len() ==> fv.has_value(#[trigger] values[i]),
        fv.has_value(v),
    ensures
        slot_keys(fv, values).contains(slot_key(fv, v)) <==> values.contains(v),
        values.contains(v) ==> slot_keys(fv, values).index_of(slot_key(fv, v)) == values.index_of(
            v,
        ),
        slot_keys(fv, values.push(v)) == slot_keys(fv, values).push(slot_key(fv, v)),
{
    let keys = slot_keys(fv, values);
    lemma_slot_keys_distinct(fv, values);
    if values.contains(v) {
        let i = values.index_of(v);
        assert(0 <= i < values.len() && values[i] == v);
        assert(keys[i] == slot_key(fv, v));
        assert(keys.contains(slot_key(fv, v)));
        let j = keys.index_of(slot_key(fv, v));
        assert(0 <= j < keys.len() && keys[j] == slot_key(fv, v));
    }
    if keys.contains(slot_key(fv, v)) {
        let j = choose|j: int| 0 <= j < keys.len() && keys[j] == slot_key(fv, v);
        assert(fv.has_value(values[j]));
        lemma_slot_key_unique(fv, values[j], v);
    }
    assert(slot_keys(fv, values.push(v)) =~= keys.push(slot_key(fv, v)));
}

/// The slots hold what they held when the function gets more values.
pub proof fn lemma_slot_keys_extended(fv: FunctionView, later: FunctionView, values: Seq<Value>)
    requires
        fv.extended_by(later),
        forall|i: int| 0 <= i < values.len() ==> fv.has_value(#[trigger] values[i]),
    ensures
        slot_keys(later, values) == slot_keys(fv, values),
{
    assert forall|i: int| 0 <= i < values.len() implies slot_key(later, values[i]) == slot_key(
        fv,
        values[i],
    ) by {
        assert(fv.has_value(values[i]));
        assert(later.values[values[i].idx()] == fv.values[values[i].idx()]);
    }
    assert(slot_keys(later, values) =~= slot_keys(fv, values));
}

/// The shape of a canonical pattern does not change when more slots are
/// added, once every constant of the pattern has a slot.
pub proof fn lemma_canon_shape_prefix(c: Canon, a: Seq<SlotKey>, b: Seq<SlotKey>)
    requires
        is_prefix(a, b),
        b.no_duplicates(),
        forall|i: int|
            0 <= i < walk_terms(c).len() ==> a.contains(SlotKey::Term(#[trigger] walk_terms(c)[i])),
    ensures
        canon_shape(c, b) == canon_shape(c, a),
    decreases c,
{
    match c {
        Canon::Any(_) => {},
        Canon::Literal(_, t) => {
            assert(walk_terms(c)[0] == t);
            lemma_index_of_prefix(a, b, SlotKey::Term(t));
        },
        Canon::Tuple(_, cs) => {
            lemma_canon_shapes_prefix(cs, a, b);
        },
        Canon::Cons(_, h, t) => {
            let wh = walk_terms(*h);
            let wt = walk_terms(*t);
            assert forall|i: int| 0 <= i < wh.len() implies a.contains(
                SlotKey::Term(#[trigger] wh[i]),
            ) by {
                assert(walk_terms(c)[i] == wh[i]);
            }
            assert forall|i: int| 0 <= i < wt.len() implies a.contains(
                SlotKey::Term(#[trigger] wt[i]),
            ) by {
                assert(walk_terms(c)[wh.len() + i] == wt[i]);
            }
            lemma_canon_shape_prefix(*h, a, b);
            lemma_canon_shape_prefix(*t, a, b);
        },
    }
}

pub proof fn lemma_canon_shapes_prefix(cs: Seq<Canon>, a: Seq<SlotKey>, b: Seq<SlotKey>)
    requires
        is_prefix(a, b),
        b.no_duplicates(),
        forall|i: int|
            0 <= i < walk_terms_all(cs).len() ==> a.contains(
                SlotKey::Term(#[trigger] walk_terms_all(cs)[i]),
            ),
    ensures
        canon_shapes(cs, b) == canon_shapes(cs, a),
    decreases cs,
{
    if cs.len() > 0 {
        let wi = walk_terms_all(cs.drop_last());
        let wl = walk_terms(cs.last());
        assert forall|i: int| 0 <= i < wi.len() implies a.contains(
            SlotKey::Term(#[trigger] wi[i]),
        ) by {
            assert(walk_terms_all(cs)[i] == wi[i]);
        }
        assert forall|i: int| 0 <= i < wl.len() implies a.contains(
            SlotKey::Term(#[trigger] wl[i]),
        ) by {
            assert(walk_terms_all(cs)[wi.len() + i] == wl[i]);
        }
        lemma_canon_shapes_prefix(cs.drop_last(), a, b);
        lemma_canon_shape_prefix(cs.last(), a, b);
    }
}

/// Merging adds no nodes.
pub proof fn lemma_merge_size(a: Canon, b: Canon)
    requires
        merge(a, b) is Some,
    ensures
        canon_size(merge(a, b)->0) <= canon_size(a) + canon_size(b),
    decreases a,
{
    match (a, b) {
        (Canon::Tuple(_, xs), Canon::Tuple(_, ys)) => {
            lemma_merge_all_size(xs, ys);
        },
        (Canon::Cons(_, h1, t1), Canon::Cons(_, h2, t2)) => {
            lemma_merge_size(*h1, *h2);
            lemma_merge_size(*t1, *t2);
        },
        _ => {},
    }
}

pub proof fn lemma_merge_all_size(xs: Seq<Canon>, ys: Seq<Canon>)
    requires
        xs.len() == ys.len(),
        merge_all(xs, ys) is Some,
    ensures
        canon_sizes(merge_all(xs, ys)->0) <= canon_sizes(xs) + canon_sizes(ys),
        merge_all(xs, ys)->0.len() == xs.len(),
    decreases xs,
{
    if xs.len() > 0 {
        lemma_merge_all_size(xs.drop_last(), ys.drop_last());
        lemma_merge_size(xs.last(), ys.last());
        let zs = merge_all(xs.drop_last(), ys.drop_last())->0;
        let z = merge(xs.last(), ys.last())->0;
        assert(zs.push(z).drop_last() =~= zs);
    }
}

/// The canonical form of a pattern has no more nodes than the pattern.
pub proof fn lemma_canon_size(p: Pattern)
    requires
        canon(p) is Some,
    ensures
        canon_size(canon(p)->0) <= pattern_size(p),
    decreases p,
{
    match p {
        Pattern::Tuple(ps) => {
            lemma_canon_all_size(ps@);
        },
        Pattern::Cons(h, t) => {
            lemma_canon_size(*h);
            lemma_canon_size(*t);
        },
        Pattern::Match(l, r) => {
            lemma_canon_size(*l);
            lemma_canon_size(*r);
            lemma_merge_size(canon(*l)->0, canon(*r)->0);
        },
        _ => {},
    }
}

pub proof fn lemma_canon_all_size(ps: Seq<Pattern>)
    requires
        canon_all(ps) is Some,
    ensures
        canon_sizes(canon_all(ps)->0) <= pattern_sizes(ps),
        canon_all(ps)->0.len() == ps.len(),
    decreases ps,
{
    if ps.len() > 0 {
        lemma_canon_all_size(ps.drop_last());
        lemma_canon_size(ps.last());
        let cs = canon_all(ps.drop_last())->0;
        let c = canon(ps.last())->0;
        assert(cs.push(c).drop_last() =~= cs);
    }
}

/// A canonical pattern has no more constants than nodes.
pub proof fn lemma_walk_terms_len(c: Canon)
    ensures
        walk_terms(c).len() <= canon_size(c),
    decreases c,
{
    match c {
        Canon::Tuple(_, cs) => {
            lemma_walk_terms_all_len(cs);
        },
        Canon::Cons(_, h, t) => {
            lemma_walk_terms_len(*h);
            lemma_walk_terms_len(*t);
        },
        _ => {},
    }
}

pub proof fn lemma_walk_terms_all_len(cs: Seq<Canon>)
    ensures
        walk_terms_all(cs).len() <= canon_sizes(cs),
    decreases cs,
{
    if cs.len() > 0 {
        lemma_walk_terms_all_len(cs.drop_last());
        lemma_walk_terms_len(cs.last());
    }
}

/// Merging keeps every variable.
pub proof fn lemma_merge_names(a: Canon, b: Canon)
    requires
        merge(a, b) is Some,
    ensures
        walk_names(merge(a, b)->0).len() == walk_names(a).len() + walk_names(b).len(),
    decreases a,
{
    match (a, b) {
        (Canon::Tuple(_, xs), Canon::Tuple(_, ys)) => {
            lemma_merge_all_names(xs, ys);
        },
        (Canon::Cons(_, h1, t1), Canon::Cons(_, h2, t2)) => {
            lemma_merge_names(*h1, *h2);
            lemma_merge_names(*t1, *t2);
        },
        _ => {},
    }
}

pub proof fn lemma_merge_all_names(xs: Seq<Canon>, ys: Seq<Canon>)
    requires
        xs.len() == ys.len(),
        merge_all(xs, ys) is Some,
    ensures
        walk_names_all(merge_all(xs, ys)->0).len() == walk_names_all(xs).len() + walk_names_all(
            ys,
        ).len(),
    decreases xs,
{
    if xs.len() > 0 {
        lemma_merge_all_names(xs.drop_last(), ys.drop_last());
        lemma_merge_names(xs.last(), ys.last());
        let zs = merge_all(xs.drop_last(), ys.drop_last())->0;
        let z = merge(xs.last(), ys.last())->0;
        assert(zs.push(z).drop_last() =~= zs);
    }
}

/// The canonical form of a pattern has one variable for each occurrence
/// of a variable in the pattern, and a pattern has no more occurrences
/// than nodes.
pub proof fn lemma_canon_names(p: Pattern)
    ensures
        canon(p) is Some ==> walk_names(canon(p)->0).len() == vars(p).len(),
        vars(p).len() <= pattern_size(p),
    decreases p,
{
    match p {
        Pattern::Tuple(ps) => {
            lemma_canon_all_names(ps@);
        },
        Pattern::Cons(h, t) => {
            lemma_canon_names(*h);
            lemma_canon_names(*t);
        },
        Pattern::Match(l, r) => {
            lemma_canon_names(*l);
            lemma_canon_names(*r);
            if canon(p) is Some {
                lemma_merge_names(canon(*l)->0, canon(*r)->0);
            }
        },
        _ => {},
    }
}

pub proof fn lemma_canon_all_names(ps: Seq<Pattern>)
    ensures
        canon_all(ps) is Some ==> walk_names_all(canon_all(ps)->0).len() == vars_all(ps).len(),
        vars_all(ps).len() <= pattern_sizes(ps),
    decreases ps,
{
    if ps.len() > 0 {
        lemma_canon_all_names(ps.drop_last());
        lemma_canon_names(ps.last());
        if canon_all(ps) is Some {
            let cs = canon_all(ps.drop_last())->0;
            let c = canon(ps.last())->0;
            assert(cs.push(c).drop_last() =~= cs);
        }
    }
}

/// The cost of a guard test: one for the call and one for each operand.
pub open spec fn test_cost(t: GuardTest) -> nat {
    1 + t.args@.len()
}

pub open spec fn tests_cost(ts: Seq<GuardTest>) -> nat
    decreases ts.len(),
{
    if ts.len() == 0 {
        0
    } else {
        tests_cost(ts.drop_last()) + test_cost(ts.last())
    }
}

/// The cost of a guard sequence: one for each guard and the cost of its
/// tests.
pub open spec fn guards_cost(gs: Seq<Guard>) -> nat
    decreases gs.len(),
{
    if gs.len() == 0 {
        0
    } else {
        guards_cost(gs.drop_last()) + 1 + tests_cost(gs.last().conditions@)
    }
}

/// An upper bound of the number of blocks, and of values, that lowering a
/// clause adds to the function.
pub open spec fn clause_room(patterns: Seq<Pattern>, guard: Option<Seq<Guard>>) -> nat {
    16 + 12 * pattern_sizes(patterns) + 8 * (match guard {
        Some(gs) => guards_cost(gs),
        None => 0,
    })
}

/// The cost of the first `k` tests of a list is no more than that of the
/// list.
pub proof fn lemma_tests_cost_take(ts: Seq<GuardTest>, k: int)
    requires
        0 <= k <= ts.len(),
    ensures
        tests_cost(ts.take(k)) <= tests_cost(ts),
        k < ts.len() ==> tests_cost(ts.take(k)) + test_cost(ts[k]) <= tests_cost(ts),
    decreases ts.len() - k,
{
    if k < ts.len() {
        assert(ts.take(k + 1).drop_last() =~= ts.take(k));
        assert(ts.take(k + 1).last() == ts[k]);
        lemma_tests_cost_take(ts, k + 1);
    } else {
        assert(ts.take(k) =~= ts);
    }
}

/// The cost of the first `k` guards of a sequence is no more than that of
/// the sequence.
pub proof fn lemma_guards_cost_take(gs: Seq<Guard>, k: int)
    requires
        0 <= k <= gs.len(),
    ensures
        guards_cost(gs.take(k)) <= guards_cost(gs),
        k < gs.len() ==> guards_cost(gs.take(k)) + 1 + tests_cost(gs[k].conditions@)
            <= guards_cost(gs),
    decreases gs.len() - k,
{
    if k < gs.len() {
        assert(gs.take(k + 1).drop_last() =~= gs.take(k));
        assert(gs.take(k + 1).last() == gs[k]);
        lemma_guards_cost_take(gs, k + 1);
    } else {
        assert(gs.take(k) =~= gs);
    }
}

} // verus!
