//! What a run of the mangler means: the normal form of the rename map, the
//! scope of the run, and the relation between the destination before and
//! after.

use crate::entity::{Block, Value};
use crate::fun::mangle::{ManglerView, RenameDest, RenameSource};
use crate::fun::model::FunctionView;
use crate::fun::ValueType;
use vstd::prelude::*;

verus! {

/// The rename map names `v` as a source, and `v` refers to block `b`.
pub open spec fn names_block(
    renames: Map<RenameSource, RenameDest>,
    src: FunctionView,
    v: Value,
    b: Block,
) -> bool {
    renames.contains_key(RenameSource::Value(v)) && src.kind(v) == ValueType::Block(b)
}

/// No two renames that name the same block, by value or by handle, differ
/// in their destination.
pub open spec fn conflict_free(renames: Map<RenameSource, RenameDest>, src: FunctionView) -> bool {
    &&& forall|v: Value, w: Value, b: Block|
        #![trigger names_block(renames, src, v, b), names_block(renames, src, w, b)]
        names_block(renames, src, v, b) && names_block(renames, src, w, b)
            ==> renames[RenameSource::Value(v)] == renames[RenameSource::Value(w)]
    &&& forall|v: Value, b: Block| #[trigger]
        names_block(renames, src, v, b) && renames.contains_key(RenameSource::Block(b))
            ==> renames[RenameSource::Block(b)] == renames[RenameSource::Value(v)]
}

/// The rename map in normal form: every rename whose source is a value that
/// refers to a block is keyed by that block instead.
pub open spec fn normalized(renames: Map<RenameSource, RenameDest>, src: FunctionView) -> Map<
    RenameSource,
    RenameDest,
> {
    Map::new(
        |s: RenameSource|
            match s {
                RenameSource::Value(v) => renames.contains_key(s) && !(src.kind(v) is Block),
                RenameSource::Block(b) => renames.contains_key(s) || exists|v: Value|
                    names_block(renames, src, v, b),
            },
        |s: RenameSource|
            match s {
                RenameSource::Value(v) => renames[s],
                RenameSource::Block(b) => if exists|v: Value| names_block(renames, src, v, b) {
                    renames[RenameSource::Value(choose|v: Value| names_block(renames, src, v, b))]
                } else {
                    renames[s]
                },
            },
    )
}

/// The blocks that a rename map names as sources. A walk of the graph stops
/// at them.
pub open spec fn frontier(renames: Map<RenameSource, RenameDest>) -> Set<Block> {
    Set::new(|b: Block| renames.contains_key(RenameSource::Block(b)))
}

/// A path in the block graph of `src` that avoids the frontier.
pub open spec fn scope_path(src: FunctionView, stop: Set<Block>, p: Seq<Block>) -> bool {
    &&& p.len() > 0
    &&& forall|i: int| 0 <= i < p.len() ==> src.has_block(#[trigger] p[i]) && !stop.contains(p[i])
    &&& forall|i: int| 0 <= i < p.len() - 1 ==> src.has_edge(#[trigger] p[i], p[i + 1])
}

/// `b` is in the scope of a run from `entry`: a path that avoids the
/// frontier leads from `entry` to `b`.
pub open spec fn in_scope(src: FunctionView, stop: Set<Block>, entry: Block, b: Block) -> bool {
    exists|p: Seq<Block>| #[trigger] scope_path(src, stop, p) && p[0] == entry && p.last() == b
}

/// `scope` lists the blocks in the scope of a run from `entry`, each once.
pub open spec fn is_scope(src: FunctionView, stop: Set<Block>, entry: Block, scope: Seq<Block>) -> bool {
    &&& scope.no_duplicates()
    &&& forall|b: Block| #[trigger] scope.contains(b) <==> in_scope(src, stop, entry, b)
}

/// What holds while the scope is walked: `scope` holds the blocks visited
/// so far, `to_walk` those that still wait.
pub open spec fn walk_inv(
    src: FunctionView,
    stop: Set<Block>,
    entry: Block,
    scope: Seq<Block>,
    to_walk: Seq<Block>,
) -> bool {
    &&& scope.no_duplicates()
    &&& forall|i: int|
        0 <= i < scope.len() ==> src.has_block(#[trigger] scope[i]) && !stop.contains(scope[i])
            && in_scope(src, stop, entry, scope[i])
    &&& forall|i: int|
        0 <= i < to_walk.len() ==> src.has_block(#[trigger] to_walk[i]) && found_from(
            src,
            entry,
            scope,
            to_walk[i],
        )
    &&& forall|u: Block, c: Block|
        scope.contains(u) && #[trigger] src.has_edge(u, c) ==> scope.contains(c) || stop.contains(
            c,
        ) || to_walk.contains(c)
    &&& scope.contains(entry) || stop.contains(entry) || to_walk.contains(entry)
}

/// `w` is the entry or a successor of a block of `scope`.
pub open spec fn found_from(src: FunctionView, entry: Block, scope: Seq<Block>, w: Block) -> bool {
    w == entry || exists|u: Block| scope.contains(u) && #[trigger] src.has_edge(u, w)
}

/// A list of distinct blocks of a function is no longer than the function
/// has blocks.
pub proof fn lemma_distinct_blocks_len(blocks: Seq<Block>, n: nat)
    requires
        blocks.no_duplicates(),
        forall|i: int| 0 <= i < blocks.len() ==> (#[trigger] blocks[i]).idx() < n,
    ensures
        blocks.len() <= n,
{
    let ids = blocks.map_values(|b: Block| b.idx());
    assert forall|i: int, j: int| 0 <= i < ids.len() && 0 <= j < ids.len() && i != j implies ids[i]
        != ids[j] by {
        assert(blocks[i] != blocks[j]);
    }
    ids.unique_seq_to_set();
    let range = vstd::set_lib::set_int_range(0, n as int);
    vstd::set_lib::lemma_int_range(0, n as int);
    assert forall|x: int| ids.to_set().contains(x) implies range.contains(x) by {
        let i = choose|i: int| 0 <= i < ids.len() && ids[i] == x;
        assert(blocks[i].idx() < n);
    }
    vstd::set_lib::lemma_len_subset(ids.to_set(), range);
}

/// Once no block waits, every block on a path from the entry that avoids
/// the frontier has been visited.
pub proof fn lemma_walk_complete(
    src: FunctionView,
    stop: Set<Block>,
    entry: Block,
    scope: Seq<Block>,
    p: Seq<Block>,
    i: int,
)
    requires
        walk_inv(src, stop, entry, scope, Seq::empty()),
        scope_path(src, stop, p),
        p[0] == entry,
        0 <= i < p.len(),
    ensures
        scope.contains(p[i]),
    decreases i,
{
    if i > 0 {
        lemma_walk_complete(src, stop, entry, scope, p, i - 1);
        assert(src.has_edge(p[i - 1], p[i - 1 + 1]));
    }
}

/// A path to a block of the scope, extended by a successor outside the
/// frontier, is a path again.
pub proof fn lemma_scope_step(
    src: FunctionView,
    stop: Set<Block>,
    entry: Block,
    u: Block,
    w: Block,
)
    requires
        in_scope(src, stop, entry, u),
        src.has_edge(u, w),
        src.has_block(w),
        !stop.contains(w),
    ensures
        in_scope(src, stop, entry, w),
{
    let p = choose|p: Seq<Block>| #[trigger] scope_path(src, stop, p) && p[0] == entry && p.last() == u;
    let q = p.push(w);
    assert forall|i: int| 0 <= i < q.len() implies src.has_block(#[trigger] q[i]) && !stop.contains(
        q[i],
    ) by {
        if i < p.len() {
            assert(q[i] == p[i]);
        }
    }
    assert forall|i: int| 0 <= i < q.len() - 1 implies src.has_edge(#[trigger] q[i], q[i + 1]) by {
        if i < p.len() - 1 {
            assert(q[i] == p[i]);
            assert(q[i + 1] == p[i + 1]);
        } else {
            assert(q[i] == u);
        }
    }
    assert(scope_path(src, stop, q) && q[0] == entry && q.last() == w);
}

/// The entry is in its own scope unless it is on the frontier.
pub proof fn lemma_scope_entry(src: FunctionView, stop: Set<Block>, entry: Block)
    requires
        src.has_block(entry),
        !stop.contains(entry),
    ensures
        in_scope(src, stop, entry, entry),
{
    let p = seq![entry];
    assert(scope_path(src, stop, p) && p[0] == entry && p.last() == entry);
}

/// Whether a rename destination refers to something that the destination
/// function holds, or to an argument that the new entry block will have.
pub open spec fn dest_valid(d0: FunctionView, num_args: nat, dest: RenameDest) -> bool {
    match dest {
        RenameDest::Value(v) => d0.has_value(v),
        RenameDest::Block(b) => d0.has_block(b),
        RenameDest::EntryArg(a) => a.0 < num_args,
    }
}

/// `b` is a block whose body a run copies: the entry or a block of the
/// scope.
pub open spec fn is_copied(src: FunctionView, stop: Set<Block>, entry: Block, b: Block) -> bool {
    b == entry || in_scope(src, stop, entry, b)
}

/// `v` is, once aliases are followed, an argument that is neither renamed
/// nor an argument of a block of the scope.
pub open spec fn is_free_arg(
    src: FunctionView,
    renames: Map<RenameSource, RenameDest>,
    entry: Block,
    v: Value,
) -> bool {
    let r = src.resolve(v);
    match src.raw_kind(r) {
        ValueType::Arg(o) => !renames.contains_key(RenameSource::Value(r)) && !in_scope(
            src,
            frontier(renames),
            entry,
            o,
        ),
        _ => false,
    }
}

/// What a run asks of the mangler, of the source function and of the
/// destination: the entry exists, rename sources and destinations exist, no
/// two renames of one block disagree, every block to be copied is complete
/// and refers only to blocks that are renamed or copied too, a copy across
/// functions has no free arguments, and the new entities fit into the
/// handle spaces of the destination.
pub open spec fn run_pre(m: ManglerView, src: FunctionView, d0: FunctionView, across: bool) -> bool {
    &&& src.wf()
    &&& d0.wf()
    &&& m.entry is Some
    &&& src.has_block(m.entry->0)
    &&& forall|v: Value| #[trigger]
        m.renames.contains_key(RenameSource::Value(v)) ==> src.has_value(v)
    &&& forall|s: RenameSource| #[trigger]
        m.renames.contains_key(s) ==> dest_valid(d0, m.num_args, m.renames[s])
    &&& conflict_free(m.renames, src)
    &&& run_pre_normal(normalized(m.renames, src), src, m.entry->0, across)
    &&& d0.blocks.len() + src.blocks.len() + 1 <= u32::MAX
    &&& d0.values.len() + m.num_args + src.blocks.len() + 1 + src.values.len() + (if across {
        src.values.len()
    } else {
        0
    }) <= u32::MAX
}

/// The part of `run_pre` that speaks of the rename map in normal form.
pub open spec fn run_pre_normal(
    renames: Map<RenameSource, RenameDest>,
    src: FunctionView,
    entry: Block,
    across: bool,
) -> bool {
    let stop = frontier(renames);
    &&& forall|b: Block| #[trigger] is_copied(src, stop, entry, b) ==> src.block(b).op is Some
    &&& forall|c: Block| #[trigger]
        src.has_edge(entry, c) ==> stop.contains(c) || in_scope(src, stop, entry, c)
    &&& across ==> forall|b: Block, j: int|
        #![trigger is_copied(src, stop, entry, b), src.block(b).reads[j]]
        is_copied(src, stop, entry, b) && 0 <= j < src.block(b).reads.len() ==> !is_free_arg(
            src,
            renames,
            entry,
            src.block(b).reads[j],
        )
}

/// The fixed data of one run.
pub struct MangleCtx {
    /// The source function when the run starts.
    pub src: FunctionView,
    /// The rename map in normal form.
    pub renames: Map<RenameSource, RenameDest>,
    /// The entry block in the source.
    pub entry: Block,
    /// The number of arguments of the new entry block.
    pub num_args: nat,
    /// The blocks of the scope, in the order in which they are copied.
    pub scope: Seq<Block>,
    /// The number of blocks of the destination when the run starts.
    pub base: nat,
    /// Whether source and destination are different functions.
    pub across: bool,
}

impl MangleCtx {
    /// The new entry block: the first block that the run inserts.
    pub open spec fn new_entry(self) -> Block {
        Block(self.base as u32)
    }

    /// The copy of the `i`-th block of the scope.
    pub open spec fn copy_of(self, i: int) -> Block {
        Block((self.base + 1 + i) as u32)
    }

    pub open spec fn stop(self) -> Set<Block> {
        frontier(self.renames)
    }

    /// The value in the destination `d` that a rename destination stands
    /// for.
    pub open spec fn dest_value(self, d: FunctionView, dest: RenameDest) -> Value {
        match dest {
            RenameDest::Value(v) => v,
            RenameDest::Block(b) => d.block(b).value,
            RenameDest::EntryArg(a) => d.block(self.new_entry()).args[a.0 as int],
        }
    }

    /// `w` is what the read `v` of the source becomes in the destination
    /// `d`:
    /// - a renamed argument or block becomes the destination of its rename;
    /// - an argument of a block of the scope becomes the argument at the
    ///   same position of the block's copy;
    /// - a block of the scope becomes the value of its copy;
    /// - a constant stays (within one function) or becomes the value that
    ///   holds the same term (across functions);
    /// - any other argument stays.
    pub open spec fn maps_to(self, d: FunctionView, v: Value, w: Value) -> bool {
        let r = self.src.resolve(v);
        match self.src.raw_kind(r) {
            ValueType::Arg(o) => if self.renames.contains_key(RenameSource::Value(r)) {
                w == self.dest_value(d, self.renames[RenameSource::Value(r)])
            } else if self.scope.contains(o) {
                w == d.block(self.copy_of(self.scope.index_of(o))).args[self.src.block(
                    o,
                ).args.index_of(r)]
            } else {
                w == r
            },
            ValueType::Constant(term) => if self.across {
                d.is_constant(w, term)
            } else {
                w == r
            },
            ValueType::Block(b) => if self.renames.contains_key(RenameSource::Block(b)) {
                w == self.dest_value(d, self.renames[RenameSource::Block(b)])
            } else {
                self.scope.contains(b) && w == d.block(
                    self.copy_of(self.scope.index_of(b)),
                ).value
            },
            ValueType::Alias(_) => false,
        }
    }

    /// Block `to` of the destination `d` has the operation and span of
    /// block `from` of the source, and its reads are those of `from`, each
    /// mapped.
    pub open spec fn body_copied(self, d: FunctionView, from: Block, to: Block) -> bool {
        &&& d.block(to).op == self.src.block(from).op
        &&& d.block(to).span == self.src.block(from).span
        &&& d.block(to).reads.len() == self.src.block(from).reads.len()
        &&& forall|j: int|
            0 <= j < self.src.block(from).reads.len() ==> self.maps_to(
                d,
                self.src.block(from).reads[j],
                #[trigger] d.block(to).reads[j],
            )
    }

    /// A value that the run added to the destination is an argument or the
    /// value of a block that the run added, or (across functions) a
    /// constant.
    pub open spec fn new_value_ok(self, d: FunctionView, v: Value) -> bool {
        match d.raw_kind(v) {
            ValueType::Arg(b) => self.base <= b.idx(),
            ValueType::Block(b) => self.base <= b.idx(),
            ValueType::Constant(_) => self.across,
            ValueType::Alias(_) => false,
        }
    }

    /// The destination `d1` after the run, given the destination `d0`
    /// before it.
    pub open spec fn post(self, d0: FunctionView, d1: FunctionView) -> bool {
        &&& d1.wf()
        &&& d0.extended_by(d1)
        &&& d1.ident == d0.ident
        &&& d1.entry == d0.entry
        &&& self.base == d0.blocks.len()
        &&& d1.blocks.len() == d0.blocks.len() + 1 + self.scope.len()
        &&& !self.across ==> d1.constants == d0.constants
        &&& d1.block(self.new_entry()).args.len() == self.num_args
        &&& self.body_copied(d1, self.entry, self.new_entry())
        &&& forall|i: int|
            0 <= i < self.scope.len() ==> d1.block(#[trigger] self.copy_of(i)).args.len()
                == self.src.block(self.scope[i]).args.len() && self.body_copied(
                d1,
                self.scope[i],
                self.copy_of(i),
            )
        &&& forall|v: Value|
            d0.values.len() <= v.idx() && #[trigger] d1.has_value(v) ==> self.new_value_ok(d1, v)
    }
}

/// The outcome of a run: `scope` lists the blocks of the scope, `new_entry`
/// is the first new block of the destination, and the destination `d1`
/// holds, beside what `d0` held, the new entry block and one copy of each
/// block of the scope.
pub open spec fn mangled(
    m: ManglerView,
    src: FunctionView,
    d0: FunctionView,
    d1: FunctionView,
    across: bool,
    scope: Seq<Block>,
    new_entry: Block,
) -> bool {
    let ctx = MangleCtx {
        src,
        renames: normalized(m.renames, src),
        entry: m.entry->0,
        num_args: m.num_args,
        scope,
        base: d0.blocks.len(),
        across,
    };
    &&& is_scope(src, ctx.stop(), ctx.entry, scope)
    &&& new_entry == ctx.new_entry()
    &&& ctx.post(d0, d1)
}

} // verus!
