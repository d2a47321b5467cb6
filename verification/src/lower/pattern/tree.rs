//! The pattern tree of a clause in canonical form.

use crate::constant::ConstantTerm;
use crate::intern::Ident;
use crate::lower::ast::Pattern;
use crate::lower::pattern::model::{canon, canon_all, merge, merge_all, vars, vars_all, Canon};
use vstd::prelude::*;

verus! {

/// A node of the canonical tree with the variables bound at it.
#[derive(Debug)]
pub enum TreeNode {
    Any(Vec<Ident>),
    Literal(Vec<Ident>, ConstantTerm),
    Tuple(Vec<Ident>, Vec<TreeNode>),
    Cons(Vec<Ident>, Box<TreeNode>, Box<TreeNode>),
}

/// The canonical pattern that a tree stands for.
pub open spec fn tree_view(n: TreeNode) -> Canon
    decreases n,
{
    match n {
        TreeNode::Any(names) => Canon::Any(names@),
        TreeNode::Literal(names, c) => Canon::Literal(names@, c),
        TreeNode::Tuple(names, cs) => Canon::Tuple(names@, tree_views(cs@)),
        TreeNode::Cons(names, h, t) => Canon::Cons(
            names@,
            Box::new(tree_view(*h)),
            Box::new(tree_view(*t)),
        ),
    }
}

pub open spec fn tree_views(ns: Seq<TreeNode>) -> Seq<Canon>
    decreases ns,
{
    if ns.len() == 0 {
        Seq::empty()
    } else {
        tree_views(ns.drop_last()).push(tree_view(ns.last()))
    }
}

/// The views of a list of trees, element by element.
pub proof fn lemma_tree_views(ns: Seq<TreeNode>)
    ensures
        tree_views(ns).len() == ns.len(),
        forall|i: int| 0 <= i < ns.len() ==> #[trigger] tree_views(ns)[i] == tree_view(ns[i]),
    decreases ns.len(),
{
    if ns.len() > 0 {
        lemma_tree_views(ns.drop_last());
        assert forall|i: int| 0 <= i < ns.len() implies #[trigger] tree_views(ns)[i] == tree_view(
            ns[i],
        ) by {
            if i < ns.len() - 1 {
                assert(ns.drop_last()[i] == ns[i]);
            }
        }
    }
}

/// `b` appended to `a`.
fn concat_names(a: Vec<Ident>, b: Vec<Ident>) -> (r: Vec<Ident>)
    ensures
        r@ == a@ + b@,
{
    let mut out = a;
    let n = b.len();
    let mut i: usize = 0;
    while i < n
        invariant
            n == b@.len(),
            i <= n,
            out@ == a@ + b@.take(i as int),
        decreases n - i,
    {
        out.push(b[i]);
        proof {
            assert(b@.take(i + 1) =~= b@.take(i as int).push(b@[i as int]));
            assert(out@ =~= a@ + b@.take(i + 1));
        }
        i += 1;
    }
    proof {
        assert(b@.take(n as int) =~= b@);
    }
    out
}

impl TreeNode {
    /// Splits a tree into the variables at its root and the tree without
    /// them.
    fn split_names(self) -> (r: (Vec<Ident>, TreeNode))
        ensures
            r.0@ == tree_view(self).names(),
            tree_view(r.1) == tree_view(self).with_names(Seq::empty()),
    {
        match self {
            TreeNode::Any(names) => (names, TreeNode::Any(Vec::new())),
            TreeNode::Literal(names, c) => (names, TreeNode::Literal(Vec::new(), c)),
            TreeNode::Tuple(names, cs) => (names, TreeNode::Tuple(Vec::new(), cs)),
            TreeNode::Cons(names, h, t) => (names, TreeNode::Cons(Vec::new(), h, t)),
        }
    }

    /// The tree with `names` at its root, in place of those it has.
    fn with_names(self, names: Vec<Ident>) -> (r: TreeNode)
        ensures
            tree_view(r) == tree_view(self).with_names(names@),
    {
        match self {
            TreeNode::Any(_) => TreeNode::Any(names),
            TreeNode::Literal(_, c) => TreeNode::Literal(names, c),
            TreeNode::Tuple(_, cs) => TreeNode::Tuple(names, cs),
            TreeNode::Cons(_, h, t) => TreeNode::Cons(names, h, t),
        }
    }
}

/// The tree that matches what both `a` and `b` match, or `None` if no
/// term has the shape of both.
pub fn merge_nodes(a: TreeNode, b: TreeNode) -> (r: Option<TreeNode>)
    ensures
        match r {
            Some(n) => merge(tree_view(a), tree_view(b)) == Some(tree_view(n)),
            None => merge(tree_view(a), tree_view(b)) is None,
        },
    decreases a,
{
    let ghost va = tree_view(a);
    let ghost vb = tree_view(b);
    match a {
        TreeNode::Any(na) => {
            let (nb, rest) = b.split_names();
            Some(rest.with_names(concat_names(na, nb)))
        },
        TreeNode::Literal(na, x) => {
            match b {
                TreeNode::Any(nb) => Some(TreeNode::Literal(concat_names(na, nb), x)),
                TreeNode::Literal(nb, y) => {
                    if x == y {
                        Some(TreeNode::Literal(concat_names(na, nb), x))
                    } else {
                        None
                    }
                },
                _ => None,
            }
        },
        TreeNode::Tuple(na, xs) => {
            match b {
                TreeNode::Any(nb) => Some(TreeNode::Tuple(concat_names(na, nb), xs)),
                TreeNode::Tuple(nb, ys) => {
                    proof {
                        lemma_tree_views(xs@);
                        lemma_tree_views(ys@);
                    }
                    if xs.len() != ys.len() {
                        return None;
                    }
                    let ghost xv = tree_views(xs@);
                    let ghost yv = tree_views(ys@);
                    proof {
                        assert(va == Canon::Tuple(na@, xv));
                        assert(vb == Canon::Tuple(nb@, yv));
                    }
                    let ghost xs0 = xs@;
                    let mut xs = xs;
                    let mut ys = ys;
                    let n = xs.len();
                    let mut zs: Vec<TreeNode> = Vec::new();
                    let mut i: usize = 0;
                    proof {
                        lemma_tree_views(xs@);
                        lemma_tree_views(ys@);
                        assert(xv.take(0) =~= Seq::<Canon>::empty());
                        assert(yv.take(0) =~= Seq::<Canon>::empty());
                    }
                    while i < n
                        invariant
                            n == xs@.len(),
                            n == ys@.len(),
                            n == xv.len(),
                            n == yv.len(),
                            n == xs0.len(),
                            i <= n,
                            va == tree_view(a),
                            vb == tree_view(b),
                            va == Canon::Tuple(na@, xv),
                            vb == Canon::Tuple(nb@, yv),
                            forall|k: int| i <= k < n ==> tree_view(#[trigger] xs@[k]) == xv[k],
                            forall|k: int| i <= k < n ==> #[trigger] xs@[k] == xs0[k],
                            forall|k: int| i <= k < n ==> tree_view(#[trigger] ys@[k]) == yv[k],
                            forall|k: int| 0 <= k < n ==> decreases_to!(a => #[trigger] xs0[k]),
                            merge_all(xv.take(i as int), yv.take(i as int)) == Some(
                                tree_views(zs@),
                            ),
                        decreases n - i,
                    {
                        let mut x = TreeNode::Any(Vec::new());
                        let mut y = TreeNode::Any(Vec::new());
                        std::mem::swap(&mut x, &mut xs[i]);
                        std::mem::swap(&mut y, &mut ys[i]);
                        proof {
                            assert(xv.take(i + 1).drop_last() =~= xv.take(i as int));
                            assert(yv.take(i + 1).drop_last() =~= yv.take(i as int));
                            assert(xv.take(i + 1).last() == xv[i as int]);
                            assert(yv.take(i + 1).last() == yv[i as int]);
                            assert(x == xs0[i as int]);
                        }
                        match merge_nodes(x, y) {
                            Some(z) => {
                                let ghost zs0 = zs@;
                                zs.push(z);
                                proof {
                                    assert(zs@.drop_last() =~= zs0);
                                }
                            },
                            None => {
                                proof {
                                    assert(merge(xv[i as int], yv[i as int]) is None);
                                    assert(merge_all(xv.take(i + 1), yv.take(i + 1)) is None);
                                    lemma_merge_all_prefix(xv, yv, i + 1);
                                    assert(merge(va, vb) is None);
                                }
                                return None;
                            },
                        }
                        i += 1;
                    }
                    proof {
                        assert(xv.take(n as int) =~= xv);
                        assert(yv.take(n as int) =~= yv);
                    }
                    Some(TreeNode::Tuple(concat_names(na, nb), zs))
                },
                _ => None,
            }
        },
        TreeNode::Cons(na, h1, t1) => {
            match b {
                TreeNode::Any(nb) => Some(TreeNode::Cons(concat_names(na, nb), h1, t1)),
                TreeNode::Cons(nb, h2, t2) => {
                    let h = merge_nodes(*h1, *h2);
                    let t = merge_nodes(*t1, *t2);
                    match (h, t) {
                        (Some(h), Some(t)) => Some(
                            TreeNode::Cons(concat_names(na, nb), Box::new(h), Box::new(t)),
                        ),
                        _ => None,
                    }
                },
                _ => None,
            }
        },
    }
}

/// If a prefix of two lists cannot be merged, neither can the lists.
pub proof fn lemma_merge_all_prefix(xs: Seq<Canon>, ys: Seq<Canon>, k: int)
    requires
        xs.len() == ys.len(),
        0 <= k <= xs.len(),
        merge_all(xs.take(k), ys.take(k)) is None,
    ensures
        merge_all(xs, ys) is None,
    decreases xs.len() - k,
{
    if k < xs.len() {
        assert(xs.take(k + 1).drop_last() =~= xs.take(k));
        assert(ys.take(k + 1).drop_last() =~= ys.take(k));
        lemma_merge_all_prefix(xs, ys, k + 1);
    } else {
        assert(xs.take(k) =~= xs);
        assert(ys.take(k) =~= ys);
    }
}

/// If a prefix of a list of patterns has no canonical form, neither has
/// the list.
pub proof fn lemma_canon_all_prefix(ps: Seq<Pattern>, k: int)
    requires
        0 <= k <= ps.len(),
        canon_all(ps.take(k)) is None,
    ensures
        canon_all(ps) is None,
    decreases ps.len() - k,
{
    if k < ps.len() {
        assert(ps.take(k + 1).drop_last() =~= ps.take(k));
        lemma_canon_all_prefix(ps, k + 1);
    } else {
        assert(ps.take(k) =~= ps);
    }
}

/// Brings a surface pattern into canonical form and appends its variables
/// to `names`. Returns `None` if no term has the shape that the pattern
/// asks for; the variables are collected all the same.
pub fn canon_pattern(p: &Pattern, names: &mut Vec<Ident>) -> (r: Option<TreeNode>)
    ensures
        final(names)@ == old(names)@ + vars(*p),
        match r {
            Some(n) => canon(*p) == Some(tree_view(n)),
            None => canon(*p) is None,
        },
    decreases p,
{
    let ghost names0 = names@;
    match p {
        Pattern::Wildcard => {
            proof {
                assert(names0 + Seq::<Ident>::empty() =~= names0);
            }
            Some(TreeNode::Any(Vec::new()))
        },
        Pattern::Var(x) => {
            names.push(*x);
            let mut own: Vec<Ident> = Vec::new();
            own.push(*x);
            proof {
                assert(names@ =~= names0 + seq![*x]);
                assert(own@ =~= seq![*x]);
            }
            Some(TreeNode::Any(own))
        },
        Pattern::Literal(c) => {
            proof {
                assert(names0 + Seq::<Ident>::empty() =~= names0);
            }
            Some(TreeNode::Literal(Vec::new(), *c))
        },
        Pattern::Tuple(ps) => {
            let n = ps.len();
            let mut out: Vec<TreeNode> = Vec::new();
            let mut failed = false;
            let mut i: usize = 0;
            proof {
                assert(ps@.take(0) =~= Seq::<Pattern>::empty());
                assert(names0 + Seq::<Ident>::empty() =~= names0);
            }
            while i < n
                invariant
                    n == ps@.len(),
                    i <= n,
                    forall|k: int| 0 <= k < n ==> decreases_to!(p => #[trigger] ps@[k]),
                    names@ == names0 + vars_all(ps@.take(i as int)),
                    failed ==> canon_all(ps@.take(i as int)) is None,
                    !failed ==> canon_all(ps@.take(i as int)) == Some(tree_views(out@)),
                decreases n - i,
            {
                let ghost before = names@;
                proof {
                    assert(ps@.take(i + 1).drop_last() =~= ps@.take(i as int));
                    assert(ps@.take(i + 1).last() == ps@[i as int]);
                }
                match canon_pattern(&ps[i], names) {
                    Some(c) => {
                        if !failed {
                            let ghost out0 = out@;
                            out.push(c);
                            proof {
                                assert(out@.drop_last() =~= out0);
                            }
                        }
                    },
                    None => {
                        failed = true;
                    },
                }
                proof {
                    assert(names@ =~= names0 + vars_all(ps@.take(i + 1)));
                }
                i += 1;
            }
            proof {
                assert(ps@.take(n as int) =~= ps@);
            }
            if failed {
                None
            } else {
                Some(TreeNode::Tuple(Vec::new(), out))
            }
        },
        Pattern::Cons(h, t) => {
            let ch = canon_pattern(h, names);
            let ct = canon_pattern(t, names);
            proof {
                assert(names@ =~= names0 + (vars(**h) + vars(**t)));
            }
            match (ch, ct) {
                (Some(ch), Some(ct)) => Some(
                    TreeNode::Cons(Vec::new(), Box::new(ch), Box::new(ct)),
                ),
                _ => None,
            }
        },
        Pattern::Match(l, r) => {
            let cl = canon_pattern(l, names);
            let cr = canon_pattern(r, names);
            proof {
                assert(names@ =~= names0 + (vars(**l) + vars(**r)));
            }
            match (cl, cr) {
                (Some(cl), Some(cr)) => merge_nodes(cl, cr),
                _ => None,
            }
        },
    }
}

/// The pattern trees of a clause, one for each matched term, in canonical
/// form.
pub struct Tree {
    /// The canonical trees of the patterns added so far, unless one of
    /// them cannot match.
    pub roots: Vec<TreeNode>,
    /// Whether one of the patterns added so far cannot match any term.
    pub unmatchable: bool,
    /// The variables of the patterns added so far, one entry for each
    /// occurrence, from left to right.
    pub names: Vec<Ident>,
    /// The patterns added so far.
    pub patterns: Ghost<Seq<Pattern>>,
}

impl Tree {
    /// The tree holds the canonical forms and the variables of its
    /// patterns.
    pub open spec fn inv(&self) -> bool {
        &&& self.names@ == vars_all(self.patterns@)
        &&& self.unmatchable ==> canon_all(self.patterns@) is None
        &&& !self.unmatchable ==> canon_all(self.patterns@) == Some(tree_views(self.roots@))
    }

    /// A tree without patterns.
    pub fn new() -> (r: Self)
        ensures
            r.inv(),
            r.patterns@ == Seq::<Pattern>::empty(),
    {
        Tree { roots: Vec::new(), unmatchable: false, names: Vec::new(), patterns: Ghost(Seq::empty()) }
    }

    /// Adds the pattern of the next matched term.
    pub fn add_root(&mut self, pattern: &Pattern)
        requires
            old(self).inv(),
        ensures
            final(self).inv(),
            final(self).patterns@ == old(self).patterns@.push(*pattern),
    {
        let ghost before = self.patterns@;
        let ghost roots0 = self.roots@;
        let ghost after = before.push(*pattern);
        proof {
            assert(after.drop_last() =~= before);
            assert(after.last() == *pattern);
        }
        match canon_pattern(pattern, &mut self.names) {
            Some(node) => {
                if !self.unmatchable {
                    self.roots.push(node);
                    proof {
                        assert(self.roots@.drop_last() =~= roots0);
                    }
                }
            },
            None => {
                self.unmatchable = true;
            },
        }
        self.patterns = Ghost(after);
    }
}

} // verus!
