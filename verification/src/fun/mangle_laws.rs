//! Laws of the mangler, each stated of every run.

use crate::entity::{Block, Value};
use crate::fun::mangle::{EntryArg, ManglerView, RenameDest, RenameSource};
use crate::fun::mangle_model::{
    frontier, in_scope, is_scope, mangled, names_block, normalized, run_pre, MangleCtx,
};
use crate::fun::model::FunctionView;
use crate::fun::ValueType;
use vstd::prelude::*;

verus! {

/// The data of a run of the mangler `m` from `src` into a destination that
/// was `d0`.
pub open spec fn run_ctx(
    m: ManglerView,
    src: FunctionView,
    d0: FunctionView,
    across: bool,
    scope: Seq<Block>,
) -> MangleCtx {
    MangleCtx {
        src,
        renames: normalized(m.renames, src),
        entry: m.entry->0,
        num_args: m.num_args,
        scope,
        base: d0.blocks.len(),
        across,
    }
}

/// `w` is the image of the read `v` under the bijection between the blocks
/// of the scope and their copies: a block of the scope goes to the value
/// of its copy, an argument of a block of the scope to the argument at the
/// same position of the copy, a constant to the value of the same term,
/// and any other argument to itself.
pub open spec fn copies_to(ctx: MangleCtx, d: FunctionView, v: Value, w: Value) -> bool {
    let r = ctx.src.resolve(v);
    match ctx.src.raw_kind(r) {
        ValueType::Arg(o) => if ctx.scope.contains(o) {
            w == d.block(ctx.copy_of(ctx.scope.index_of(o))).args[ctx.src.block(o).args.index_of(
                r,
            )]
        } else {
            w == r
        },
        ValueType::Constant(term) => if ctx.across {
            d.is_constant(w, term)
        } else {
            w == r
        },
        ValueType::Block(b) => ctx.scope.contains(b) && w == d.block(
            ctx.copy_of(ctx.scope.index_of(b)),
        ).value,
        ValueType::Alias(_) => false,
    }
}

/// Block `to` of the destination is block `from` of the source up to the
/// bijection: same arity unless `to` is the new entry, same operation and
/// span, and the reads of `from`, each mapped by the bijection.
pub open spec fn same_body(ctx: MangleCtx, d: FunctionView, from: Block, to: Block) -> bool {
    &&& d.block(to).op == ctx.src.block(from).op
    &&& d.block(to).span == ctx.src.block(from).span
    &&& d.block(to).reads.len() == ctx.src.block(from).reads.len()
    &&& forall|j: int|
        0 <= j < ctx.src.block(from).reads.len() ==> copies_to(
            ctx,
            d,
            ctx.src.block(from).reads[j],
            #[trigger] d.block(to).reads[j],
        )
}

/// A rename map in normal form names no value that refers to a block.
pub proof fn lemma_normalized_empty(src: FunctionView)
    ensures
        normalized(Map::<RenameSource, RenameDest>::empty(), src) == Map::<
            RenameSource,
            RenameDest,
        >::empty(),
{
    let e = Map::<RenameSource, RenameDest>::empty();
    assert forall|s: RenameSource| !normalized(e, src).contains_key(s) by {
        match s {
            RenameSource::Value(v) => {},
            RenameSource::Block(b) => {
                assert forall|v: Value| !names_block(e, src, v, b) by {}
            },
        }
    }
    assert(normalized(e, src) =~= e);
}

/// A run with an empty rename map copies exactly the
/// blocks that are reachable from the entry, each once, and every copy is
/// its block up to the bijection between blocks and copies: same arity,
/// same operation, reads mapped by the bijection. The new entry block has
/// the body of the entry, mapped the same way.
pub proof fn lemma_mangle_identity(
    m: ManglerView,
    src: FunctionView,
    d0: FunctionView,
    d1: FunctionView,
    across: bool,
    scope: Seq<Block>,
    new_entry: Block,
)
    requires
        m.renames == Map::<RenameSource, RenameDest>::empty(),
        mangled(m, src, d0, d1, across, scope, new_entry),
    ensures
        is_scope(src, Set::<Block>::empty(), m.entry->0, scope),
        d1.blocks.len() == d0.blocks.len() + 1 + scope.len(),
        same_body(run_ctx(m, src, d0, across, scope), d1, m.entry->0, new_entry),
        forall|i: int|
            0 <= i < scope.len() ==> d1.block(
                #[trigger] run_ctx(m, src, d0, across, scope).copy_of(i),
            ).args.len() == src.block(scope[i]).args.len() && same_body(
                run_ctx(m, src, d0, across, scope),
                d1,
                scope[i],
                run_ctx(m, src, d0, across, scope).copy_of(i),
            ),
{
    let ctx = run_ctx(m, src, d0, across, scope);
    lemma_normalized_empty(src);
    assert(ctx.stop() =~= Set::<Block>::empty());
    assert forall|from: Block, to: Block| ctx.body_copied(d1, from, to) implies same_body(
        ctx,
        d1,
        from,
        to,
    ) by {
        assert forall|j: int| 0 <= j < src.block(from).reads.len() implies copies_to(
            ctx,
            d1,
            src.block(from).reads[j],
            #[trigger] d1.block(to).reads[j],
        ) by {
            assert(ctx.maps_to(d1, src.block(from).reads[j], d1.block(to).reads[j]));
        }
    }
    assert forall|i: int| 0 <= i < scope.len() implies d1.block(
        #[trigger] ctx.copy_of(i),
    ).args.len() == src.block(scope[i]).args.len() && same_body(
        ctx,
        d1,
        scope[i],
        ctx.copy_of(i),
    ) by {
        assert(ctx.body_copied(d1, scope[i], ctx.copy_of(i)));
    }
}

/// What a read becomes when the only rename sends the argument `arg` to
/// the entry argument `to`: the argument becomes that argument of the new
/// entry block, every other read is mapped by the bijection.
pub open spec fn renamed_or_copied(
    ctx: MangleCtx,
    d: FunctionView,
    arg: Value,
    to: EntryArg,
    v: Value,
    w: Value,
) -> bool {
    if ctx.src.resolve(v) == arg {
        w == d.block(ctx.new_entry()).args[to.0 as int]
    } else {
        copies_to(ctx, d, v, w)
    }
}

/// If the rename map sends one
/// argument to an argument of the new entry block and holds nothing else,
/// then in every copied body each read that was the argument is that
/// argument of the new entry, and every other read is preserved up to the
/// bijection between blocks and copies.
pub proof fn lemma_mangle_renamed_argument(
    m: ManglerView,
    src: FunctionView,
    d0: FunctionView,
    d1: FunctionView,
    across: bool,
    scope: Seq<Block>,
    new_entry: Block,
    arg: Value,
    to: EntryArg,
)
    requires
        m.renames == Map::<RenameSource, RenameDest>::empty().insert(
            RenameSource::Value(arg),
            RenameDest::EntryArg(to),
        ),
        src.has_value(arg),
        src.raw_kind(arg) is Arg,
        mangled(m, src, d0, d1, across, scope, new_entry),
    ensures
        forall|j: int|
            0 <= j < src.block(m.entry->0).reads.len() ==> renamed_or_copied(
                run_ctx(m, src, d0, across, scope),
                d1,
                arg,
                to,
                src.block(m.entry->0).reads[j],
                #[trigger] d1.block(new_entry).reads[j],
            ),
        forall|i: int, j: int|
            0 <= i < scope.len() && 0 <= j < src.block(scope[i]).reads.len()
                ==> renamed_or_copied(
                run_ctx(m, src, d0, across, scope),
                d1,
                arg,
                to,
                src.block(scope[i]).reads[j],
                #[trigger] d1.block(run_ctx(m, src, d0, across, scope).copy_of(i)).reads[j],
            ),
{
    let ctx = run_ctx(m, src, d0, across, scope);
    let key = RenameSource::Value(arg);
    // the rename map is in normal form already
    assert(src.resolve(arg) == arg);
    assert forall|s: RenameSource| ctx.renames.contains_key(s) <==> s == key by {
        match s {
            RenameSource::Value(v) => {
                if m.renames.contains_key(s) {
                    assert(v == arg);
                }
            },
            RenameSource::Block(b) => {
                assert forall|v: Value| !names_block(m.renames, src, v, b) by {
                    if m.renames.contains_key(RenameSource::Value(v)) {
                        assert(v == arg);
                    }
                }
            },
        }
    }
    assert(ctx.renames[key] == RenameDest::EntryArg(to));
    assert(ctx.body_copied(d1, ctx.entry, new_entry));
    assert forall|j: int| 0 <= j < src.block(ctx.entry).reads.len() implies renamed_or_copied(
        ctx,
        d1,
        arg,
        to,
        src.block(ctx.entry).reads[j],
        #[trigger] d1.block(new_entry).reads[j],
    ) by {
        lemma_read_renamed(ctx, d1, arg, to, ctx.entry, new_entry, j);
    }
    assert forall|i: int, j: int|
        0 <= i < scope.len() && 0 <= j < src.block(
            scope[i],
        ).reads.len() implies renamed_or_copied(
        ctx,
        d1,
        arg,
        to,
        src.block(scope[i]).reads[j],
        #[trigger] d1.block(ctx.copy_of(i)).reads[j],
    ) by {
        assert(ctx.body_copied(d1, scope[i], ctx.copy_of(i)));
        lemma_read_renamed(ctx, d1, arg, to, scope[i], ctx.copy_of(i), j);
    }
}

/// One read of a copied body, where the only rename sends `arg` to the
/// entry argument `to`.
proof fn lemma_read_renamed(
    ctx: MangleCtx,
    d1: FunctionView,
    arg: Value,
    to: EntryArg,
    from: Block,
    dst: Block,
    j: int,
)
    requires
        forall|s: RenameSource| ctx.renames.contains_key(s) <==> s == RenameSource::Value(arg),
        ctx.renames[RenameSource::Value(arg)] == RenameDest::EntryArg(to),
        ctx.src.raw_kind(arg) is Arg,
        ctx.body_copied(d1, from, dst),
        0 <= j < ctx.src.block(from).reads.len(),
    ensures
        renamed_or_copied(ctx, d1, arg, to, ctx.src.block(from).reads[j], d1.block(dst).reads[j]),
{
    let src = ctx.src;
    let v = src.block(from).reads[j];
    let w = d1.block(dst).reads[j];
    assert(ctx.maps_to(d1, v, w));
    let r = src.resolve(v);
    if r != arg {
        assert(!ctx.renames.contains_key(RenameSource::Value(r)));
        match src.raw_kind(r) {
            ValueType::Block(b) => {
                assert(!ctx.renames.contains_key(RenameSource::Block(b)));
            },
            _ => {},
        }
    }
}

/// A block that the rename map in normal form names as a
/// source has no copy, and in every copied body each read that referred to
/// the block is the destination of its rename.
pub proof fn lemma_mangle_frontier(
    m: ManglerView,
    src: FunctionView,
    d0: FunctionView,
    d1: FunctionView,
    across: bool,
    scope: Seq<Block>,
    new_entry: Block,
    b: Block,
)
    requires
        normalized(m.renames, src).contains_key(RenameSource::Block(b)),
        mangled(m, src, d0, d1, across, scope, new_entry),
    ensures
        !scope.contains(b),
        forall|j: int|
            0 <= j < src.block(m.entry->0).reads.len() && src.kind(
                src.block(m.entry->0).reads[j],
            ) == ValueType::Block(b) ==> #[trigger] d1.block(new_entry).reads[j] == run_ctx(
                m,
                src,
                d0,
                across,
                scope,
            ).dest_value(d1, normalized(m.renames, src)[RenameSource::Block(b)]),
        forall|i: int, j: int|
            0 <= i < scope.len() && 0 <= j < src.block(scope[i]).reads.len() && src.kind(
                src.block(scope[i]).reads[j],
            ) == ValueType::Block(b) ==> #[trigger] d1.block(
                run_ctx(m, src, d0, across, scope).copy_of(i),
            ).reads[j] == run_ctx(m, src, d0, across, scope).dest_value(
                d1,
                normalized(m.renames, src)[RenameSource::Block(b)],
            ),
{
    let ctx = run_ctx(m, src, d0, across, scope);
    let stop = frontier(ctx.renames);
    if scope.contains(b) {
        assert(in_scope(src, stop, ctx.entry, b));
        let p = choose|p: Seq<Block>| #[trigger]
            crate::fun::mangle_model::scope_path(src, stop, p) && p[0] == ctx.entry && p.last()
                == b;
        assert(!stop.contains(p[p.len() - 1]));
    }
    assert(ctx.body_copied(d1, ctx.entry, new_entry));
    assert forall|j: int|
        0 <= j < src.block(m.entry->0).reads.len() && src.kind(src.block(m.entry->0).reads[j])
            == ValueType::Block(b) implies #[trigger] d1.block(new_entry).reads[j]
        == ctx.dest_value(d1, ctx.renames[RenameSource::Block(b)]) by {
        assert(ctx.maps_to(d1, src.block(ctx.entry).reads[j], d1.block(new_entry).reads[j]));
    }
    assert forall|i: int, j: int|
        0 <= i < scope.len() && 0 <= j < src.block(scope[i]).reads.len() && src.kind(
            src.block(scope[i]).reads[j],
        ) == ValueType::Block(b) implies #[trigger] d1.block(ctx.copy_of(i)).reads[j]
        == ctx.dest_value(d1, ctx.renames[RenameSource::Block(b)]) by {
        assert(ctx.body_copied(d1, scope[i], ctx.copy_of(i)));
        assert(ctx.maps_to(
            d1,
            src.block(scope[i]).reads[j],
            d1.block(ctx.copy_of(i)).reads[j],
        ));
    }
}

/// A rename map that names no value which refers to a block is in normal
/// form.
pub proof fn lemma_normalized_plain(renames: Map<RenameSource, RenameDest>, src: FunctionView)
    requires
        forall|v: Value| #[trigger]
            renames.contains_key(RenameSource::Value(v)) ==> !(src.kind(v) is Block),
    ensures
        normalized(renames, src) == renames,
        crate::fun::mangle_model::conflict_free(renames, src),
{
    assert forall|v: Value, b: Block| !names_block(renames, src, v, b) by {}
    assert(normalized(renames, src) =~= renames);
}

/// What a run within one function asks holds whenever the entry is no
/// rename source, no rename names a value that refers to a block, every
/// block of the function is complete, the rename sources and destinations
/// exist, and there is room for a copy of everything.
pub proof fn lemma_run_pre_plain(m: ManglerView, f: FunctionView)
    requires
        f.wf(),
        m.entry is Some,
        f.has_block(m.entry->0),
        !m.renames.contains_key(RenameSource::Block(m.entry->0)),
        forall|v: Value| #[trigger]
            m.renames.contains_key(RenameSource::Value(v)) ==> f.has_value(v) && !(f.kind(
                v,
            ) is Block),
        forall|s: RenameSource| #[trigger]
            m.renames.contains_key(s) ==> crate::fun::mangle_model::dest_valid(
                f,
                m.num_args,
                m.renames[s],
            ),
        forall|b: Block| #[trigger] f.has_block(b) ==> f.block(b).op is Some,
        2 * f.blocks.len() + 1 <= u32::MAX,
        2 * f.values.len() + m.num_args + f.blocks.len() + 1 <= u32::MAX,
    ensures
        run_pre(m, f, f, false),
        normalized(m.renames, f) == m.renames,
{
    lemma_normalized_plain(m.renames, f);
    let entry = m.entry->0;
    let stop = frontier(m.renames);
    assert forall|b: Block| #[trigger]
        crate::fun::mangle_model::is_copied(f, stop, entry, b) implies f.block(b).op is Some by {
        if b != entry {
            let p = choose|p: Seq<Block>| #[trigger]
                crate::fun::mangle_model::scope_path(f, stop, p) && p[0] == entry && p.last()
                    == b;
            assert(f.has_block(p[p.len() - 1]));
        }
    }
    assert forall|c: Block| #[trigger] f.has_edge(entry, c) implies stop.contains(c) || in_scope(
        f,
        stop,
        entry,
        c,
    ) by {
        if !stop.contains(c) {
            f.lemma_successor_valid(entry, c);
            crate::fun::mangle_model::lemma_scope_entry(f, stop, entry);
            crate::fun::mangle_model::lemma_scope_step(f, stop, entry, entry, c);
        }
    }
}

} // verus!
