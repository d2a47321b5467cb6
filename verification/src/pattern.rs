//! The pattern container: clauses, the nodes of their pattern trees, and
//! their value slots.

use vstd::prelude::*;

verus! {

/// A match arm: pattern trees, binds and value slots.
#[derive(Copy, Clone, Debug, PartialEq, Eq, Structural, Hash, PartialOrd, Ord)]
pub struct PatternClause(pub u32);

/// A node of a pattern tree.
#[derive(Copy, Clone, Debug, PartialEq, Eq, Structural, Hash, PartialOrd, Ord)]
pub struct PatternNode(pub u32);

/// A slot of a clause for a value that is computed outside the match.
#[derive(Copy, Clone, Debug, PartialEq, Eq, Structural, Hash, PartialOrd, Ord)]
pub struct PatternValue(pub u32);

impl PatternClause {
    pub open spec fn idx(self) -> int {
        self.0 as int
    }
}

impl PatternNode {
    pub open spec fn idx(self) -> int {
        self.0 as int
    }
}

impl PatternValue {
    pub open spec fn idx(self) -> int {
        self.0 as int
    }

    /// The slot with the given index.
    pub open spec fn at(index: int) -> PatternValue {
        PatternValue(index as u32)
    }
}

/// The type of a binary segment.
#[derive(Debug, Copy, Clone, PartialEq, Eq, Structural)]
pub enum BinarySegmentKind {
    Integer,
    Float,
    Bytes,
    Bits,
    Utf8,
    Utf16,
    Utf32,
}

/// How a binary segment is read: its type, whether it is signed, its byte
/// order and the number of bits in one unit of its size.
#[derive(Debug, Copy, Clone, PartialEq, Eq, Structural)]
pub struct BinarySpecifier {
    pub kind: BinarySegmentKind,
    pub signed: bool,
    pub big_endian: bool,
    pub unit: u32,
}

/// What a node matches.
#[derive(Debug)]
pub enum PatternNodeKind {
    /// Any term.
    Wildcard,
    /// The value in the given slot.
    Value(PatternValue),
    /// A tuple whose elements match the given nodes.
    Tuple(Vec<PatternNode>),
    /// A list cell whose head and tail match the given nodes.
    ListCell(PatternNode, PatternNode),
    /// A map that holds, for each key in the given slots, an entry whose
    /// value matches the node at the same position.
    MapEntries(Vec<PatternValue>, Vec<PatternNode>),
    /// A binary that begins with a segment of the given specifier and
    /// size and goes on with what the last node matches. The segment
    /// matches the first node; a segment without a size takes the rest of
    /// the binary.
    Binary(BinarySpecifier, PatternNode, Option<PatternValue>, PatternNode),
}

/// A node as the contracts see it.
pub enum NodeView {
    Wildcard,
    Value(PatternValue),
    Tuple(Seq<PatternNode>),
    ListCell(PatternNode, PatternNode),
    MapEntries(Seq<PatternValue>, Seq<PatternNode>),
    Binary(BinarySpecifier, PatternNode, Option<PatternValue>, PatternNode),
}

impl View for PatternNodeKind {
    type V = NodeView;

    open spec fn view(&self) -> NodeView {
        match self {
            PatternNodeKind::Wildcard => NodeView::Wildcard,
            PatternNodeKind::Value(v) => NodeView::Value(*v),
            PatternNodeKind::Tuple(cs) => NodeView::Tuple(cs@),
            PatternNodeKind::ListCell(h, t) => NodeView::ListCell(*h, *t),
            PatternNodeKind::MapEntries(ks, vs) => NodeView::MapEntries(ks@, vs@),
            PatternNodeKind::Binary(spec, v, size, rest) => NodeView::Binary(
                *spec,
                *v,
                *size,
                *rest,
            ),
        }
    }
}

struct ClauseData {
    roots: Vec<PatternNode>,
    binds: Vec<PatternNode>,
    num_values: u32,
    finished: bool,
}

/// A clause as the contracts see it.
pub struct ClauseView {
    /// The roots of the pattern trees, one for each matched term.
    pub roots: Seq<PatternNode>,
    /// The node that each bind takes its value from, in bind order.
    pub binds: Seq<PatternNode>,
    /// The number of value slots.
    pub num_values: nat,
    /// Whether the clause is frozen.
    pub finished: bool,
}

impl View for ClauseData {
    type V = ClauseView;

    closed spec fn view(&self) -> ClauseView {
        ClauseView {
            roots: self.roots@,
            binds: self.binds@,
            num_values: self.num_values as nat,
            finished: self.finished,
        }
    }
}

/// The shape of the terms that a pattern tree matches.
pub enum Shape {
    Any,
    Value(PatternValue),
    Tuple(Seq<Shape>),
    Cons(Box<Shape>, Box<Shape>),
    /// The maps that hold an entry of the given shape for each key.
    MapEntries(Seq<PatternValue>, Seq<Shape>),
    /// The binaries that begin with a segment of the first shape and go on
    /// with a binary of the second.
    Binary(BinarySpecifier, Box<Shape>, Option<PatternValue>, Box<Shape>),
}

/// The container as the contracts see it.
pub struct ContainerView {
    pub nodes: Seq<NodeView>,
    pub clauses: Seq<ClauseView>,
}

impl ContainerView {
    pub open spec fn has_node(self, n: PatternNode) -> bool {
        n.idx() < self.nodes.len()
    }

    pub open spec fn has_clause(self, c: PatternClause) -> bool {
        c.idx() < self.clauses.len()
    }

    pub open spec fn node(self, n: PatternNode) -> NodeView {
        self.nodes[n.idx()]
    }

    pub open spec fn clause(self, c: PatternClause) -> ClauseView {
        self.clauses[c.idx()]
    }

    /// `child` may be a child of `parent`: it exists and was created later.
    pub open spec fn below(self, parent: PatternNode, child: PatternNode) -> bool {
        parent.idx() < child.idx() < self.nodes.len()
    }

    /// What a node of kind `kind` needs to stand at `n`: its children are
    /// nodes that were created after `n`, and a map has one child for each
    /// key.
    pub open spec fn kind_fits(self, n: PatternNode, kind: NodeView) -> bool {
        match kind {
            NodeView::Tuple(cs) => forall|i: int|
                0 <= i < cs.len() ==> self.below(n, #[trigger] cs[i]),
            NodeView::ListCell(h, t) => self.below(n, h) && self.below(n, t),
            NodeView::MapEntries(ks, vs) => ks.len() == vs.len() && forall|i: int|
                0 <= i < vs.len() ==> self.below(n, #[trigger] vs[i]),
            NodeView::Binary(_, v, _, rest) => self.below(n, v) && self.below(n, rest),
            _ => true,
        }
    }

    pub open spec fn node_wf(self, n: PatternNode) -> bool {
        self.kind_fits(n, self.node(n))
    }

    pub open spec fn clause_wf(self, c: PatternClause) -> bool {
        let cl = self.clause(c);
        &&& forall|i: int| 0 <= i < cl.roots.len() ==> self.has_node(#[trigger] cl.roots[i])
        &&& forall|i: int| 0 <= i < cl.binds.len() ==> self.has_node(#[trigger] cl.binds[i])
    }

    /// Handles fit into 32 bits, the children of a node are nodes that
    /// were created after it, and clauses refer to nodes of the container.
    pub open spec fn wf(self) -> bool {
        &&& self.nodes.len() <= u32::MAX
        &&& self.clauses.len() <= u32::MAX
        &&& forall|n: PatternNode| #[trigger] self.has_node(n) ==> self.node_wf(n)
        &&& forall|c: PatternClause| #[trigger] self.has_clause(c) ==> self.clause_wf(c)
    }

    /// The shape that the tree below `n` matches.
    pub open spec fn shape(self, n: PatternNode) -> Shape
        decreases self.nodes.len() - n.idx(), 1int, 0int,
    {
        if !self.has_node(n) {
            Shape::Any
        } else {
            match self.node(n) {
                NodeView::Wildcard => Shape::Any,
                NodeView::Value(v) => Shape::Value(v),
                NodeView::Tuple(cs) => Shape::Tuple(self.shapes(n, cs)),
                NodeView::ListCell(h, t) => if self.below(n, h) && self.below(n, t) {
                    Shape::Cons(Box::new(self.shape(h)), Box::new(self.shape(t)))
                } else {
                    Shape::Any
                },
                NodeView::MapEntries(ks, vs) => Shape::MapEntries(ks, self.shapes(n, vs)),
                NodeView::Binary(spec, v, size, rest) => if self.below(n, v) && self.below(
                    n,
                    rest,
                ) {
                    Shape::Binary(spec, Box::new(self.shape(v)), size, Box::new(self.shape(rest)))
                } else {
                    Shape::Any
                },
            }
        }
    }

    /// The shapes that the trees below the children `cs` of `parent`
    /// match.
    pub open spec fn shapes(self, parent: PatternNode, cs: Seq<PatternNode>) -> Seq<Shape>
        decreases self.nodes.len() - parent.idx(), 0int, cs.len(),
    {
        if cs.len() == 0 {
            Seq::empty()
        } else {
            let rest = self.shapes(parent, cs.drop_last());
            if self.below(parent, cs.last()) {
                rest.push(self.shape(cs.last()))
            } else {
                rest.push(Shape::Any)
            }
        }
    }

    /// `later` has every node of `self` from `from` on unchanged.
    pub open spec fn kept_from(self, later: ContainerView, from: int) -> bool {
        &&& self.nodes.len() <= later.nodes.len()
        &&& forall|i: int| from <= i < self.nodes.len() ==> #[trigger] later.nodes[i] == self.nodes[i]
    }

    /// The shape of a tree depends on the nodes of the tree only, all of
    /// which were created after its root.
    pub proof fn lemma_shape_kept(self, later: ContainerView, n: PatternNode)
        requires
            self.wf(),
            self.has_node(n),
            self.kept_from(later, n.idx()),
        ensures
            later.shape(n) == self.shape(n),
        decreases self.nodes.len() - n.idx(), 1int, 0int,
    {
        assert(self.node_wf(n));
        assert(later.nodes[n.idx()] == self.nodes[n.idx()]);
        match self.node(n) {
            NodeView::Tuple(cs) => {
                self.lemma_shapes_kept(later, n, cs);
            },
            NodeView::ListCell(h, t) => {
                self.lemma_shape_kept(later, h);
                self.lemma_shape_kept(later, t);
            },
            NodeView::MapEntries(_, vs) => {
                self.lemma_shapes_kept(later, n, vs);
            },
            NodeView::Binary(_, v, _, rest) => {
                self.lemma_shape_kept(later, v);
                self.lemma_shape_kept(later, rest);
            },
            _ => {},
        }
    }

    pub proof fn lemma_shapes_kept(self, later: ContainerView, parent: PatternNode, cs: Seq<PatternNode>)
        requires
            self.wf(),
            self.has_node(parent),
            self.kept_from(later, parent.idx()),
            forall|i: int| 0 <= i < cs.len() ==> self.below(parent, #[trigger] cs[i]),
        ensures
            later.shapes(parent, cs) == self.shapes(parent, cs),
        decreases self.nodes.len() - parent.idx(), 0int, cs.len(),
    {
        if cs.len() > 0 {
            self.lemma_shapes_kept(later, parent, cs.drop_last());
            assert(self.below(parent, cs[cs.len() - 1]));
            self.lemma_shape_kept(later, cs.last());
        }
    }
}

/// The arena of pattern entities.
pub struct PatternContainer {
    nodes: Vec<PatternNodeKind>,
    clauses: Vec<ClauseData>,
}

impl View for PatternContainer {
    type V = ContainerView;

    closed spec fn view(&self) -> ContainerView {
        ContainerView {
            nodes: self.nodes@.map_values(|k: PatternNodeKind| k@),
            clauses: self.clauses@.map_values(|c: ClauseData| c@),
        }
    }
}

impl PatternContainer {
    pub open spec fn wf(&self) -> bool {
        self@.wf()
    }

    /// A container without clauses and nodes.
    pub fn new() -> (r: Self)
        ensures
            r.wf(),
            r@.nodes.len() == 0,
            r@.clauses.len() == 0,
    {
        PatternContainer { nodes: Vec::new(), clauses: Vec::new() }
    }

    /// The number of nodes.
    pub fn node_count(&self) -> (r: usize)
        ensures
            r == self@.nodes.len(),
    {
        self.nodes.len()
    }

    /// The number of clauses.
    pub fn clause_count(&self) -> (r: usize)
        ensures
            r == self@.clauses.len(),
    {
        self.clauses.len()
    }

    /// Starts a clause without roots, binds and value slots.
    pub fn clause_start(&mut self) -> (c: PatternClause)
        requires
            old(self).wf(),
            old(self)@.clauses.len() < u32::MAX,
        ensures
            final(self).wf(),
            c.idx() == old(self)@.clauses.len(),
            final(self)@.nodes == old(self)@.nodes,
            final(self)@.clauses == old(self)@.clauses.push(
                ClauseView {
                    roots: Seq::empty(),
                    binds: Seq::empty(),
                    num_values: 0,
                    finished: false,
                },
            ),
    {
        let ghost before = self@;
        let c = PatternClause(self.clauses.len() as u32);
        self.clauses.push(
            ClauseData { roots: Vec::new(), binds: Vec::new(), num_values: 0, finished: false },
        );
        proof {
            assert(self@.nodes =~= before.nodes);
            assert(self@.clauses =~= before.clauses.push(
                ClauseView {
                    roots: Seq::empty(),
                    binds: Seq::empty(),
                    num_values: 0,
                    finished: false,
                },
            ));
            assert forall|n: PatternNode| #[trigger] self@.has_node(n) implies self@.node_wf(n) by {
                assert(before.has_node(n));
                assert(before.node_wf(n));
            }
            assert forall|k: PatternClause| #[trigger] self@.has_clause(k) implies self@.clause_wf(
                k,
            ) by {
                if k != c {
                    assert(before.has_clause(k));
                    assert(before.clause_wf(k));
                    assert(self@.clause(k) == before.clause(k));
                } else {
                    assert(self@.clause(k).roots.len() == 0);
                    assert(self@.clause(k).binds.len() == 0);
                }
            }
        }
        c
    }

    /// Adds a value slot to the clause and returns it.
    pub fn clause_value(&mut self, clause: PatternClause) -> (v: PatternValue)
        requires
            old(self).wf(),
            old(self)@.has_clause(clause),
            !old(self)@.clause(clause).finished,
            old(self)@.clause(clause).num_values < u32::MAX,
        ensures
            final(self).wf(),
            v.idx() == old(self)@.clause(clause).num_values,
            final(self)@.nodes == old(self)@.nodes,
            final(self)@.clauses == old(self)@.clauses.update(
                clause.idx(),
                ClauseView {
                    num_values: old(self)@.clause(clause).num_values + 1,
                    ..old(self)@.clause(clause)
                },
            ),
    {
        let ghost before = self@;
        let v = PatternValue(self.clauses[clause.0 as usize].num_values);
        let mut data = self.take_clause(clause);
        data.num_values = data.num_values + 1;
        self.put_clause(clause, data, Ghost(before));
        v
    }

    /// Adds a node that matches any term.
    pub fn node_empty(&mut self) -> (n: PatternNode)
        requires
            old(self).wf(),
            old(self)@.nodes.len() < u32::MAX,
        ensures
            final(self).wf(),
            n.idx() == old(self)@.nodes.len(),
            final(self)@.nodes == old(self)@.nodes.push(NodeView::Wildcard),
            final(self)@.clauses == old(self)@.clauses,
    {
        let ghost before = self@;
        let n = PatternNode(self.nodes.len() as u32);
        self.nodes.push(PatternNodeKind::Wildcard);
        proof {
            assert(self@.nodes =~= before.nodes.push(NodeView::Wildcard));
            assert(self@.clauses =~= before.clauses);
            assert forall|k: PatternNode| #[trigger] self@.has_node(k) implies self@.node_wf(k) by {
                if k != n {
                    assert(before.has_node(k));
                    assert(before.node_wf(k));
                }
            }
            assert forall|k: PatternClause| #[trigger] self@.has_clause(k) implies self@.clause_wf(
                k,
            ) by {
                assert(before.has_clause(k));
                assert(before.clause_wf(k));
                let cl = before.clause(k);
                assert forall|i: int| 0 <= i < cl.roots.len() implies self@.has_node(
                    #[trigger] cl.roots[i],
                ) by {
                    assert(before.has_node(cl.roots[i]));
                }
                assert forall|i: int| 0 <= i < cl.binds.len() implies self@.has_node(
                    #[trigger] cl.binds[i],
                ) by {
                    assert(before.has_node(cl.binds[i]));
                }
            }
        }
        n
    }

    /// Makes `node` match the value in `slot`.
    pub fn value(&mut self, node: PatternNode, slot: PatternValue)
        requires
            old(self).wf(),
            old(self)@.has_node(node),
        ensures
            final(self).wf(),
            final(self)@.nodes == old(self)@.nodes.update(node.idx(), NodeView::Value(slot)),
            final(self)@.clauses == old(self)@.clauses,
    {
        self.node_set(node, PatternNodeKind::Value(slot));
    }

    /// Makes `node` match the tuples whose elements match `children`.
    pub fn tuple(&mut self, node: PatternNode, children: Vec<PatternNode>)
        requires
            old(self).wf(),
            old(self)@.has_node(node),
            forall|i: int|
                0 <= i < children@.len() ==> old(self)@.below(node, #[trigger] children@[i]),
        ensures
            final(self).wf(),
            final(self)@.nodes == old(self)@.nodes.update(
                node.idx(),
                NodeView::Tuple(children@),
            ),
            final(self)@.clauses == old(self)@.clauses,
    {
        self.node_set(node, PatternNodeKind::Tuple(children));
    }

    /// Makes `node` match the list cells whose head matches `head` and
    /// whose tail matches `tail`.
    pub fn list_cell(&mut self, node: PatternNode, head: PatternNode, tail: PatternNode)
        requires
            old(self).wf(),
            old(self)@.has_node(node),
            old(self)@.below(node, head),
            old(self)@.below(node, tail),
        ensures
            final(self).wf(),
            final(self)@.nodes == old(self)@.nodes.update(
                node.idx(),
                NodeView::ListCell(head, tail),
            ),
            final(self)@.clauses == old(self)@.clauses,
    {
        self.node_set(node, PatternNodeKind::ListCell(head, tail));
    }

    /// Makes `node` match the maps that hold, for each key in the slots
    /// `keys`, an entry whose value matches the node of `values` at the
    /// same position.
    pub fn map(&mut self, node: PatternNode, keys: Vec<PatternValue>, values: Vec<PatternNode>)
        requires
            old(self).wf(),
            old(self)@.has_node(node),
            keys@.len() == values@.len(),
            forall|i: int| 0 <= i < values@.len() ==> old(self)@.below(node, #[trigger] values@[i]),
        ensures
            final(self).wf(),
            final(self)@.nodes == old(self)@.nodes.update(
                node.idx(),
                NodeView::MapEntries(keys@, values@),
            ),
            final(self)@.clauses == old(self)@.clauses,
    {
        self.node_set(node, PatternNodeKind::MapEntries(keys, values));
    }

    /// Makes `node` match the binaries that begin with a segment read by
    /// `specifier`, of the size in the slot `size` or, without a size, of
    /// all that is there, which matches `value`, and that go on with what
    /// `remaining` matches.
    pub fn binary(
        &mut self,
        node: PatternNode,
        specifier: BinarySpecifier,
        value: PatternNode,
        size: Option<PatternValue>,
        remaining: PatternNode,
    )
        requires
            old(self).wf(),
            old(self)@.has_node(node),
            old(self)@.below(node, value),
            old(self)@.below(node, remaining),
        ensures
            final(self).wf(),
            final(self)@.nodes == old(self)@.nodes.update(
                node.idx(),
                NodeView::Binary(specifier, value, size, remaining),
            ),
            final(self)@.clauses == old(self)@.clauses,
    {
        self.node_set(node, PatternNodeKind::Binary(specifier, value, size, remaining));
    }

    fn node_set(&mut self, node: PatternNode, kind: PatternNodeKind)
        requires
            old(self).wf(),
            old(self)@.has_node(node),
            old(self)@.kind_fits(node, kind@),
        ensures
            final(self).wf(),
            final(self)@.nodes == old(self)@.nodes.update(node.idx(), kind@),
            final(self)@.clauses == old(self)@.clauses,
    {
        let ghost before = self@;
        let ghost kv = kind@;
        self.nodes[node.0 as usize] = kind;
        proof {
            assert(self@.nodes =~= before.nodes.update(node.idx(), kv));
            assert(self@.clauses =~= before.clauses);
            assert forall|k: PatternNode| #[trigger] self@.has_node(k) implies self@.node_wf(k) by {
                assert(before.has_node(k));
                assert(before.node_wf(k));
            }
            assert forall|k: PatternClause| #[trigger] self@.has_clause(k) implies self@.clause_wf(
                k,
            ) by {
                assert(before.has_clause(k));
                assert(before.clause_wf(k));
                let cl = before.clause(k);
                assert forall|i: int| 0 <= i < cl.roots.len() implies self@.has_node(
                    #[trigger] cl.roots[i],
                ) by {
                    assert(before.has_node(cl.roots[i]));
                }
                assert forall|i: int| 0 <= i < cl.binds.len() implies self@.has_node(
                    #[trigger] cl.binds[i],
                ) by {
                    assert(before.has_node(cl.binds[i]));
                }
            }
        }
    }

    /// Adds `node` as the root of the next pattern tree of the clause.
    pub fn clause_node_push(&mut self, clause: PatternClause, node: PatternNode)
        requires
            old(self).wf(),
            old(self)@.has_clause(clause),
            !old(self)@.clause(clause).finished,
            old(self)@.has_node(node),
        ensures
            final(self).wf(),
            final(self)@.nodes == old(self)@.nodes,
            final(self)@.clauses == old(self)@.clauses.update(
                clause.idx(),
                ClauseView {
                    roots: old(self)@.clause(clause).roots.push(node),
                    ..old(self)@.clause(clause)
                },
            ),
    {
        let ghost before = self@;
        let mut data = self.take_clause(clause);
        data.roots.push(node);
        self.put_clause(clause, data, Ghost(before));
    }

    /// Adds a bind to the clause that takes its value from `node`.
    pub fn clause_bind_push(&mut self, clause: PatternClause, node: PatternNode)
        requires
            old(self).wf(),
            old(self)@.has_clause(clause),
            !old(self)@.clause(clause).finished,
            old(self)@.has_node(node),
        ensures
            final(self).wf(),
            final(self)@.nodes == old(self)@.nodes,
            final(self)@.clauses == old(self)@.clauses.update(
                clause.idx(),
                ClauseView {
                    binds: old(self)@.clause(clause).binds.push(node),
                    ..old(self)@.clause(clause)
                },
            ),
    {
        let ghost before = self@;
        let mut data = self.take_clause(clause);
        data.binds.push(node);
        self.put_clause(clause, data, Ghost(before));
    }

    /// Freezes the clause.
    pub fn clause_finish(&mut self, clause: PatternClause)
        requires
            old(self).wf(),
            old(self)@.has_clause(clause),
        ensures
            final(self).wf(),
            final(self)@.nodes == old(self)@.nodes,
            final(self)@.clauses == old(self)@.clauses.update(
                clause.idx(),
                ClauseView { finished: true, ..old(self)@.clause(clause) },
            ),
    {
        let ghost before = self@;
        let mut data = self.take_clause(clause);
        data.finished = true;
        self.put_clause(clause, data, Ghost(before));
    }

    /// Takes the data of a clause out of the container, leaving an empty
    /// clause in its place.
    fn take_clause(&mut self, clause: PatternClause) -> (data: ClauseData)
        requires
            old(self)@.has_clause(clause),
        ensures
            data@ == old(self)@.clause(clause),
            final(self).nodes == old(self).nodes,
            final(self).clauses@.len() == old(self).clauses@.len(),
            forall|i: int|
                0 <= i < old(self).clauses@.len() && i != clause.idx() ==> final(self).clauses@[i]
                    == old(self).clauses@[i],
    {
        let mut data = ClauseData {
            roots: Vec::new(),
            binds: Vec::new(),
            num_values: 0,
            finished: false,
        };
        std::mem::swap(&mut data, &mut self.clauses[clause.0 as usize]);
        data
    }

    /// Puts the data of a clause back. The roots and binds must be nodes
    /// of the container.
    fn put_clause(&mut self, clause: PatternClause, data: ClauseData, Ghost(before): Ghost<ContainerView>)
        requires
            before.wf(),
            before.has_clause(clause),
            old(self)@.nodes == before.nodes,
            old(self).clauses@.len() == before.clauses.len(),
            forall|i: int|
                0 <= i < before.clauses.len() && i != clause.idx() ==> (
                #[trigger] old(self).clauses@[i])@ == before.clauses[i],
            forall|i: int| 0 <= i < data@.roots.len() ==> before.has_node(#[trigger] data@.roots[i]),
            forall|i: int| 0 <= i < data@.binds.len() ==> before.has_node(#[trigger] data@.binds[i]),
        ensures
            final(self).wf(),
            final(self)@.nodes == before.nodes,
            final(self)@.clauses == before.clauses.update(clause.idx(), data@),
    {
        let ghost dv = data@;
        self.clauses[clause.0 as usize] = data;
        proof {
            assert(self@.clauses =~= before.clauses.update(clause.idx(), dv));
            assert forall|k: PatternNode| #[trigger] self@.has_node(k) implies self@.node_wf(k) by {
                assert(before.has_node(k));
                assert(before.node_wf(k));
            }
            assert forall|k: PatternClause| #[trigger] self@.has_clause(k) implies self@.clause_wf(
                k,
            ) by {
                assert(before.has_clause(k));
                assert(before.clause_wf(k));
                if k != clause {
                    assert(self@.clause(k) == before.clause(k));
                } else {
                    assert(self@.clause(k) == dv);
                }
            }
        }
    }

    /// What `node` matches.
    pub fn node_kind(&self, node: PatternNode) -> (r: &PatternNodeKind)
        requires
            self@.has_node(node),
        ensures
            r@ == self@.node(node),
    {
        &self.nodes[node.0 as usize]
    }

    /// The roots of the pattern trees of the clause.
    pub fn clause_roots(&self, clause: PatternClause) -> (r: &[PatternNode])
        requires
            self@.has_clause(clause),
        ensures
            r@ == self@.clause(clause).roots,
    {
        self.clauses[clause.0 as usize].roots.as_slice()
    }

    /// The nodes that the binds of the clause take their values from.
    pub fn clause_binds(&self, clause: PatternClause) -> (r: &[PatternNode])
        requires
            self@.has_clause(clause),
        ensures
            r@ == self@.clause(clause).binds,
    {
        self.clauses[clause.0 as usize].binds.as_slice()
    }

    /// The number of value slots of the clause.
    pub fn clause_value_count(&self, clause: PatternClause) -> (r: u32)
        requires
            self@.has_clause(clause),
        ensures
            r == self@.clause(clause).num_values,
    {
        self.clauses[clause.0 as usize].num_values
    }

    /// Whether the clause is frozen.
    pub fn clause_is_finished(&self, clause: PatternClause) -> (r: bool)
        requires
            self@.has_clause(clause),
        ensures
            r == self@.clause(clause).finished,
    {
        self.clauses[clause.0 as usize].finished
    }
}

} // verus!
