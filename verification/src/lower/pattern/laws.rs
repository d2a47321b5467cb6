//! What the canonical form of a pattern means: the terms that have the
//! shape of the canonical form are the terms that have the shape of the
//! pattern, and a pattern has a canonical form exactly when some term has
//! its shape.

use crate::constant::ConstantTerm;
use crate::lower::ast::Pattern;
use crate::lower::pattern::model::{canon, canon_all, merge, merge_all, Canon};
use vstd::prelude::*;

verus! {

/// A term that a pattern is matched against.
pub enum Term {
    Constant(ConstantTerm),
    Tuple(Seq<Term>),
    Cons(Box<Term>, Box<Term>),
}

/// `t` has the shape that the pattern `p` asks for. A variable and the
/// wildcard admit every term; what the variables are compared with is the
/// business of the equality guards.
pub open spec fn has_shape(t: Term, p: Pattern) -> bool
    decreases p,
{
    match p {
        Pattern::Wildcard => true,
        Pattern::Var(_) => true,
        Pattern::Literal(c) => t == Term::Constant(c),
        Pattern::Tuple(ps) => match t {
            Term::Tuple(ts) => have_shapes(ts, ps@),
            _ => false,
        },
        Pattern::Cons(h, tl) => match t {
            Term::Cons(th, tt) => has_shape(*th, *h) && has_shape(*tt, *tl),
            _ => false,
        },
        Pattern::Match(l, r) => has_shape(t, *l) && has_shape(t, *r),
    }
}

/// The terms `ts` have, one by one, the shapes that the patterns `ps` ask
/// for.
pub open spec fn have_shapes(ts: Seq<Term>, ps: Seq<Pattern>) -> bool
    decreases ps,
{
    if ts.len() != ps.len() {
        false
    } else if ps.len() == 0 {
        true
    } else {
        have_shapes(ts.drop_last(), ps.drop_last()) && has_shape(ts.last(), ps.last())
    }
}

/// `t` has the shape of the canonical pattern `c`.
pub open spec fn fits(t: Term, c: Canon) -> bool
    decreases c,
{
    match c {
        Canon::Any(_) => true,
        Canon::Literal(_, k) => t == Term::Constant(k),
        Canon::Tuple(_, cs) => match t {
            Term::Tuple(ts) => fit_all(ts, cs),
            _ => false,
        },
        Canon::Cons(_, h, tl) => match t {
            Term::Cons(th, tt) => fits(*th, *h) && fits(*tt, *tl),
            _ => false,
        },
    }
}

pub open spec fn fit_all(ts: Seq<Term>, cs: Seq<Canon>) -> bool
    decreases cs,
{
    if ts.len() != cs.len() {
        false
    } else if cs.len() == 0 {
        true
    } else {
        fit_all(ts.drop_last(), cs.drop_last()) && fits(ts.last(), cs.last())
    }
}

/// A term that has the shape of `c`.
pub open spec fn witness(c: Canon) -> Term
    decreases c,
{
    match c {
        Canon::Any(_) => Term::Constant(ConstantTerm::Nil),
        Canon::Literal(_, k) => Term::Constant(k),
        Canon::Tuple(_, cs) => Term::Tuple(witnesses(cs)),
        Canon::Cons(_, h, t) => Term::Cons(Box::new(witness(*h)), Box::new(witness(*t))),
    }
}

pub open spec fn witnesses(cs: Seq<Canon>) -> Seq<Term>
    decreases cs,
{
    if cs.len() == 0 {
        Seq::empty()
    } else {
        witnesses(cs.drop_last()).push(witness(cs.last()))
    }
}

/// Some term has the shape of every canonical pattern.
pub proof fn lemma_witness_fits(c: Canon)
    ensures
        fits(witness(c), c),
    decreases c,
{
    match c {
        Canon::Tuple(_, cs) => {
            lemma_witnesses_fit(cs);
        },
        Canon::Cons(_, h, t) => {
            lemma_witness_fits(*h);
            lemma_witness_fits(*t);
        },
        _ => {},
    }
}

pub proof fn lemma_witnesses_fit(cs: Seq<Canon>)
    ensures
        witnesses(cs).len() == cs.len(),
        fit_all(witnesses(cs), cs),
    decreases cs,
{
    if cs.len() > 0 {
        lemma_witnesses_fit(cs.drop_last());
        lemma_witness_fits(cs.last());
        assert(witnesses(cs).drop_last() =~= witnesses(cs.drop_last()));
    }
}

/// The variables at the root of a canonical pattern have no part in its
/// shape.
pub proof fn lemma_fits_names(t: Term, c: Canon, names: Seq<crate::intern::Ident>)
    ensures
        fits(t, c.with_names(names)) == fits(t, c),
{
}

/// The merge of two canonical patterns has the shape of both: a term
/// fits the merge exactly when it fits the one and the other, and if
/// there is no merge no term fits both.
pub proof fn lemma_merge_fits(a: Canon, b: Canon, t: Term)
    ensures
        match merge(a, b) {
            Some(m) => fits(t, m) == (fits(t, a) && fits(t, b)),
            None => !(fits(t, a) && fits(t, b)),
        },
    decreases a,
{
    let names = a.names() + b.names();
    match (a, b) {
        (Canon::Any(_), _) => {
            lemma_fits_names(t, b, names);
        },
        (_, Canon::Any(_)) => {
            lemma_fits_names(t, a, names);
        },
        (Canon::Tuple(_, xs), Canon::Tuple(_, ys)) => {
            match t {
                Term::Tuple(ts) => {
                    if xs.len() == ys.len() {
                        lemma_merge_all_fits(xs, ys, ts);
                    }
                },
                _ => {},
            }
        },
        (Canon::Cons(_, h1, t1), Canon::Cons(_, h2, t2)) => {
            match t {
                Term::Cons(th, tt) => {
                    lemma_merge_fits(*h1, *h2, *th);
                    lemma_merge_fits(*t1, *t2, *tt);
                },
                _ => {},
            }
        },
        _ => {},
    }
}

pub proof fn lemma_merge_all_fits(xs: Seq<Canon>, ys: Seq<Canon>, ts: Seq<Term>)
    requires
        xs.len() == ys.len(),
    ensures
        match merge_all(xs, ys) {
            Some(zs) => zs.len() == xs.len() && fit_all(ts, zs) == (fit_all(ts, xs) && fit_all(
                ts,
                ys,
            )),
            None => !(fit_all(ts, xs) && fit_all(ts, ys)),
        },
    decreases xs,
{
    if xs.len() > 0 {
        if ts.len() == xs.len() {
            lemma_merge_all_fits(xs.drop_last(), ys.drop_last(), ts.drop_last());
            lemma_merge_fits(xs.last(), ys.last(), ts.last());
            match (merge_all(xs.drop_last(), ys.drop_last()), merge(xs.last(), ys.last())) {
                (Some(zs), Some(z)) => {
                    assert(zs.push(z).drop_last() =~= zs);
                },
                _ => {},
            }
        } else {
            lemma_merge_all_len(xs, ys);
        }
    }
}

/// The merge of two lists has their length.
pub proof fn lemma_merge_all_len(xs: Seq<Canon>, ys: Seq<Canon>)
    requires
        xs.len() == ys.len(),
    ensures
        merge_all(xs, ys) is Some ==> merge_all(xs, ys)->0.len() == xs.len(),
    decreases xs,
{
    if xs.len() > 0 {
        lemma_merge_all_len(xs.drop_last(), ys.drop_last());
    }
}

/// The canonical form of a pattern has the shape of the pattern: a term
/// fits the canonical form exactly when it has the shape of the pattern,
/// and if there is no canonical form no term has the shape.
pub proof fn lemma_canon_fits(p: Pattern, t: Term)
    ensures
        match canon(p) {
            Some(c) => fits(t, c) == has_shape(t, p),
            None => !has_shape(t, p),
        },
    decreases p,
{
    match p {
        Pattern::Tuple(ps) => {
            match t {
                Term::Tuple(ts) => {
                    lemma_canon_all_fits(ps@, ts);
                },
                _ => {},
            }
        },
        Pattern::Cons(h, tl) => {
            match t {
                Term::Cons(th, tt) => {
                    lemma_canon_fits(*h, *th);
                    lemma_canon_fits(*tl, *tt);
                },
                _ => {},
            }
        },
        Pattern::Match(l, r) => {
            lemma_canon_fits(*l, t);
            lemma_canon_fits(*r, t);
            match (canon(*l), canon(*r)) {
                (Some(cl), Some(cr)) => {
                    lemma_merge_fits(cl, cr, t);
                },
                _ => {},
            }
        },
        _ => {},
    }
}

pub proof fn lemma_canon_all_fits(ps: Seq<Pattern>, ts: Seq<Term>)
    ensures
        match canon_all(ps) {
            Some(cs) => cs.len() == ps.len() && fit_all(ts, cs) == have_shapes(ts, ps),
            None => !have_shapes(ts, ps),
        },
    decreases ps,
{
    if ps.len() > 0 {
        if ts.len() == ps.len() {
            lemma_canon_all_fits(ps.drop_last(), ts.drop_last());
            lemma_canon_fits(ps.last(), ts.last());
            match (canon_all(ps.drop_last()), canon(ps.last())) {
                (Some(cs), Some(c)) => {
                    assert(cs.push(c).drop_last() =~= cs);
                },
                _ => {},
            }
        } else {
            lemma_canon_all_len(ps);
        }
    }
}

/// The canonical forms of a list of patterns are as many as the patterns.
pub proof fn lemma_canon_all_len(ps: Seq<Pattern>)
    ensures
        canon_all(ps) is Some ==> canon_all(ps)->0.len() == ps.len(),
    decreases ps,
{
    if ps.len() > 0 {
        lemma_canon_all_len(ps.drop_last());
    }
}

/// A clause cannot match exactly when no terms have the shapes of its
/// patterns: the patterns have canonical forms if and only if there are
/// terms, one for each pattern, that have the shapes the patterns ask for.
pub proof fn lemma_unmatchable(ps: Seq<Pattern>)
    ensures
        canon_all(ps) is Some <==> exists|ts: Seq<Term>| have_shapes(ts, ps),
{
    match canon_all(ps) {
        Some(cs) => {
            lemma_witnesses_fit(cs);
            lemma_canon_all_fits(ps, witnesses(cs));
            assert(have_shapes(witnesses(cs), ps));
        },
        None => {
            assert forall|ts: Seq<Term>| !have_shapes(ts, ps) by {
                lemma_canon_all_fits(ps, ts);
            }
        },
    }
}

} // verus!
