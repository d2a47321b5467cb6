//! The lambda mangler: copies the part of a block graph that is reachable
//! from an entry block, replacing values and blocks as a rename map says.

use crate::entity::{Block, Value};
use crate::fun::builder::FunctionBuilder;
use crate::fun::mangle_model::{
    conflict_free, dest_valid, found_from, frontier, in_scope, is_scope,
    lemma_distinct_blocks_len, lemma_scope_entry, lemma_scope_step, lemma_walk_complete, mangled,
    names_block, normalized, run_pre, run_pre_normal, scope_path, walk_inv, MangleCtx,
};
use crate::fun::model::FunctionView;
use crate::fun::{Function, ValueType};
use std::collections::{HashMap, HashSet};
use vstd::prelude::*;
use vstd::std_specs::convert::IntoSpec;

verus! {

broadcast use vstd::std_specs::hash::group_hash_axioms;

/// An argument of the entry block that a run of the mangler will create.
#[derive(Debug, Copy, Clone, PartialEq, Eq, Structural, Hash)]
pub struct EntryArg(pub usize);

/// What a rename replaces its source with.
#[derive(Debug, Copy, Clone, PartialEq, Eq, Structural, Hash)]
pub enum RenameDest {
    Value(Value),
    Block(Block),
    EntryArg(EntryArg),
}

impl From<Value> for RenameDest {
    fn from(val: Value) -> (r: Self) {
        RenameDest::Value(val)
    }
}

impl vstd::std_specs::convert::FromSpecImpl<Value> for RenameDest {
    open spec fn obeys_from_spec() -> bool {
        true
    }

    open spec fn from_spec(val: Value) -> Self {
        RenameDest::Value(val)
    }
}

impl From<Block> for RenameDest {
    fn from(val: Block) -> (r: Self) {
        RenameDest::Block(val)
    }
}

impl vstd::std_specs::convert::FromSpecImpl<Block> for RenameDest {
    open spec fn obeys_from_spec() -> bool {
        true
    }

    open spec fn from_spec(val: Block) -> Self {
        RenameDest::Block(val)
    }
}

impl From<EntryArg> for RenameDest {
    fn from(val: EntryArg) -> (r: Self) {
        RenameDest::EntryArg(val)
    }
}

impl vstd::std_specs::convert::FromSpecImpl<EntryArg> for RenameDest {
    open spec fn obeys_from_spec() -> bool {
        true
    }

    open spec fn from_spec(val: EntryArg) -> Self {
        RenameDest::EntryArg(val)
    }
}

impl RenameDest {
    /// The block of a destination that is a block.
    pub fn block(&self) -> (r: Block)
        requires
            self is Block,
        ensures
            *self == RenameDest::Block(r),
    {
        match self {
            RenameDest::Block(block) => *block,
            _ => vstd::pervasive::unreached(),
        }
    }
}

/// What a rename replaces.
#[derive(Debug, Copy, Clone, PartialEq, Eq, Structural, Hash)]
pub enum RenameSource {
    Value(Value),
    Block(Block),
}

impl From<Value> for RenameSource {
    fn from(val: Value) -> (r: Self) {
        RenameSource::Value(val)
    }
}

impl vstd::std_specs::convert::FromSpecImpl<Value> for RenameSource {
    open spec fn obeys_from_spec() -> bool {
        true
    }

    open spec fn from_spec(val: Value) -> Self {
        RenameSource::Value(val)
    }
}

impl From<Block> for RenameSource {
    fn from(val: Block) -> (r: Self) {
        RenameSource::Block(val)
    }
}

impl vstd::std_specs::convert::FromSpecImpl<Block> for RenameSource {
    open spec fn obeys_from_spec() -> bool {
        true
    }

    open spec fn from_spec(val: Block) -> Self {
        RenameSource::Block(val)
    }
}

/// The mangler as the contracts see it.
pub struct ManglerView {
    /// The entry block of the graph to copy.
    pub entry: Option<Block>,
    /// The number of arguments that the new entry block will get.
    pub num_args: nat,
    pub renames: Map<RenameSource, RenameDest>,
}

impl ManglerView {
    /// The state of a mangler without entry, arguments and renames.
    pub open spec fn cleared() -> ManglerView {
        ManglerView { entry: None, num_args: 0, renames: Map::empty() }
    }
}

/// Utility struct implementing the lambda mangling primitive.
/// Supports both mangling within a single function container, and
/// across function containers, implemented by `run` and `run_across`
/// respectively.
pub struct Mangler {
    entry: Option<Block>,
    num_args: usize,
    value_map: HashMap<u32, RenameDest>,
    block_map: HashMap<u32, RenameDest>,
    source_buf: Vec<RenameSource>,
    scope: Vec<Block>,
    visited: HashSet<u32>,
    to_walk: Vec<Block>,
}

impl View for Mangler {
    type V = ManglerView;

    closed spec fn view(&self) -> ManglerView {
        ManglerView {
            entry: self.entry,
            num_args: self.num_args as nat,
            renames: Map::new(
                |s: RenameSource|
                    match s {
                        RenameSource::Value(v) => self.value_map@.contains_key(v.0),
                        RenameSource::Block(b) => self.block_map@.contains_key(b.0),
                    },
                |s: RenameSource|
                    match s {
                        RenameSource::Value(v) => self.value_map@[v.0],
                        RenameSource::Block(b) => self.block_map@[b.0],
                    },
            ),
        }
    }
}

impl Mangler {
    /// Every value that a rename names as its source is recorded in the
    /// buffer of sources.
    pub closed spec fn wf(&self) -> bool {
        forall|k: u32| #[trigger]
            self.value_map@.contains_key(k) ==> self.source_buf@.contains(
                RenameSource::Value(Value(k)),
            )
    }

    pub fn new() -> (r: Self)
        ensures
            r.wf(),
            r@ == ManglerView::cleared(),
    {
        let r = Mangler {
            entry: None,
            num_args: 0,
            value_map: HashMap::new(),
            block_map: HashMap::new(),
            source_buf: Vec::new(),
            scope: Vec::new(),
            visited: HashSet::new(),
            to_walk: Vec::new(),
        };
        proof {
            assert(r@.renames =~= Map::<RenameSource, RenameDest>::empty());
        }
        r
    }

    /// Clears the mangler for a new use.
    /// This is automatically done by the `start` method.
    pub fn clear(&mut self)
        ensures
            final(self).wf(),
            final(self)@ == ManglerView::cleared(),
    {
        self.entry = None;
        self.num_args = 0;
        self.value_map.clear();
        self.block_map.clear();
        self.source_buf.clear();
        self.scope.clear();
        self.visited.clear();
        self.to_walk.clear();
        proof {
            assert(self@.renames =~= Map::<RenameSource, RenameDest>::empty());
        }
    }

    /// Clears the mangler of all existing data, and starts a new transaction
    /// for the given entry block.
    pub fn start(&mut self, block: Block)
        ensures
            final(self).wf(),
            final(self)@ == (ManglerView { entry: Some(block), ..ManglerView::cleared() }),
    {
        self.clear();
        self.entry = Some(block);
    }

    /// Add an argument on the new entry block.
    /// The return value can be used to make renames using the `add_rename` method.
    pub fn add_argument(&mut self) -> (arg: EntryArg)
        requires
            old(self).wf(),
            old(self)@.num_args < usize::MAX,
        ensures
            final(self).wf(),
            arg == EntryArg(old(self)@.num_args as usize),
            final(self)@ == (ManglerView { num_args: old(self)@.num_args + 1, ..old(self)@ }),
    {
        let arg = EntryArg(self.num_args);
        self.num_args += 1;
        arg
    }

    /// Makes the mangler replace `from` by `to`. A later rename of the same
    /// source replaces an earlier one.
    pub fn add_rename<S, D>(&mut self, from: S, to: D)
        where
            S: Into<RenameSource>,
            D: Into<RenameDest>,
        requires
            old(self).wf(),
        ensures
            final(self).wf(),
            final(self)@.entry == old(self)@.entry,
            final(self)@.num_args == old(self)@.num_args,
            S::obeys_into_spec() && D::obeys_into_spec() ==> final(self)@.renames == old(
                self,
            )@.renames.insert(from.into_spec(), to.into_spec()),
    {
        let source: RenameSource = from.into();
        let dest: RenameDest = to.into();
        self.insert_rename(source, dest);
    }

    /// Some source among the first `upto` entries of `buf` is a value that
    /// `vm0` renames and that refers to the block with index `b`.
    spec fn named_by(
        vm0: Map<u32, RenameDest>,
        src: FunctionView,
        buf: Seq<RenameSource>,
        upto: int,
        b: u32,
    ) -> bool {
        exists|k: u32| Self::names_by(vm0, src, buf, upto, b, k)
    }

    spec fn names_by(
        vm0: Map<u32, RenameDest>,
        src: FunctionView,
        buf: Seq<RenameSource>,
        upto: int,
        b: u32,
        k: u32,
    ) -> bool {
        &&& vm0.contains_key(k)
        &&& buf.take(upto).contains(RenameSource::Value(Value(k)))
        &&& src.kind(Value(k)) == ValueType::Block(Block(b))
    }

    spec fn moved(
        vm0: Map<u32, RenameDest>,
        src: FunctionView,
        buf: Seq<RenameSource>,
        upto: int,
        k: u32,
    ) -> bool {
        &&& vm0.contains_key(k)
        &&& buf.take(upto).contains(RenameSource::Value(Value(k)))
        &&& src.kind(Value(k)) is Block
    }

    /// Brings the rename map into normal form: a rename whose source is a
    /// value that refers to a block becomes a rename of that block.
    fn normalize(&mut self, src: &Function)
        requires
            old(self).wf(),
            src.wf(),
            forall|v: Value| #[trigger]
                old(self)@.renames.contains_key(RenameSource::Value(v)) ==> src@.has_value(v),
            conflict_free(old(self)@.renames, src@),
        ensures
            final(self)@ == (ManglerView {
                renames: normalized(old(self)@.renames, src@),
                ..old(self)@
            }),
    {
        let ghost before = *self;
        let ghost vm0 = self.value_map@;
        let ghost bm0 = self.block_map@;
        let ghost buf = self.source_buf@;
        let ghost s = src@;
        let n = self.source_buf.len();
        let mut i: usize = 0;
        proof {
            assert(buf.take(0) =~= Seq::<RenameSource>::empty());
            assert forall|v: u32| vm0.contains_key(v) implies s.has_value(Value(v)) by {
                assert(before@.renames.contains_key(RenameSource::Value(Value(v))));
            }
        }
        while i < n
            invariant
                i <= n,
                n == buf.len(),
                self.source_buf@ == buf,
                self.entry == before.entry,
                self.num_args == before.num_args,
                vm0 == before.value_map@,
                bm0 == before.block_map@,
                s == src@,
                src.wf(),
                before.wf(),
                conflict_free(before@.renames, s),
                forall|v: u32| vm0.contains_key(v) ==> s.has_value(Value(v)),
                forall|k: u32| #[trigger]
                    self.value_map@.contains_key(k) <==> vm0.contains_key(k) && !Self::moved(
                        vm0,
                        s,
                        buf,
                        i as int,
                        k,
                    ),
                forall|k: u32| #[trigger]
                    self.value_map@.contains_key(k) ==> self.value_map@[k] == vm0[k],
                forall|b: u32| #[trigger]
                    self.block_map@.contains_key(b) <==> bm0.contains_key(b) || Self::named_by(
                        vm0,
                        s,
                        buf,
                        i as int,
                        b,
                    ),
                forall|b: u32, k: u32| #[trigger]
                    Self::names_by(vm0, s, buf, i as int, b, k) ==> self.block_map@[b] == vm0[k],
                forall|b: u32| #[trigger]
                    self.block_map@.contains_key(b) && !Self::named_by(vm0, s, buf, i as int, b)
                        ==> self.block_map@[b] == bm0[b],
            decreases n - i,
        {
            let key = self.source_buf[i];
            let ghost vm1 = self.value_map@;
            let ghost bm1 = self.block_map@;
            let ghost mut moved_now = false;
            let ghost mut mk: u32 = 0;
            let ghost mut mb: u32 = 0;
            proof {
                assert(buf.take(i + 1) =~= buf.take(i as int).push(key));
            }
            match key {
                RenameSource::Value(val) => {
                    if self.value_map.contains_key(&val.0) {
                        let dest = *self.value_map.get(&val.0).unwrap();
                        proof {
                            assert(vm0.contains_key(val.0));
                            assert(val == Value(val.0));
                        }
                        match src.value_block(val) {
                            Some(block) => {
                                self.block_map.insert(block.0, dest);
                                self.value_map.remove(&val.0);
                                proof {
                                    moved_now = true;
                                    mk = val.0;
                                    mb = block.0;
                                    assert(block == Block(block.0));
                                }
                            },
                            None => {},
                        }
                    }
                },
                RenameSource::Block(_) => {},
            }
            proof {
                let i0 = i as int;
                let i1 = i + 1;
                // what the step adds to the set of processed sources
                assert forall|k: u32|
                    buf.take(i1).contains(RenameSource::Value(Value(k))) <==> buf.take(
                        i0,
                    ).contains(RenameSource::Value(Value(k))) || key == RenameSource::Value(
                        Value(k),
                    ) by {
                    if buf.take(i0).contains(RenameSource::Value(Value(k))) {
                        let j = choose|j: int|
                            0 <= j < buf.take(i0).len() && buf.take(i0)[j] == RenameSource::Value(
                                Value(k),
                            );
                        assert(buf.take(i1)[j] == RenameSource::Value(Value(k)));
                    }
                    if key == RenameSource::Value(Value(k)) {
                        assert(buf.take(i1)[i0] == key);
                    }
                    if buf.take(i1).contains(RenameSource::Value(Value(k))) {
                        let j = choose|j: int|
                            0 <= j < buf.take(i1).len() && buf.take(i1)[j] == RenameSource::Value(
                                Value(k),
                            );
                        if j < i0 {
                            assert(buf.take(i0)[j] == RenameSource::Value(Value(k)));
                        }
                    }
                }
                assert forall|k: u32| #[trigger]
                    self.value_map@.contains_key(k) <==> vm0.contains_key(k) && !Self::moved(
                        vm0,
                        s,
                        buf,
                        i1,
                        k,
                    ) by {
                    assert(vm1.contains_key(k) <==> vm0.contains_key(k) && !Self::moved(
                        vm0,
                        s,
                        buf,
                        i0,
                        k,
                    ));
                }
                assert forall|b: u32, k: u32| #[trigger]
                    Self::names_by(vm0, s, buf, i1, b, k) implies self.block_map@[b] == vm0[k] by {
                    if Self::names_by(vm0, s, buf, i0, b, k) {
                        assert(bm1[b] == vm0[k]);
                        if moved_now && b == mb {
                            assert(names_block(
                                before@.renames,
                                s,
                                Value(k),
                                Block(b),
                            ));
                            assert(names_block(before@.renames, s, Value(mk), Block(b)));
                        }
                    } else {
                        assert(key == RenameSource::Value(Value(k)));
                        assert(vm1.contains_key(k)) by {
                            assert(!Self::moved(vm0, s, buf, i0, k));
                        }
                    }
                }
                assert forall|b: u32| #[trigger]
                    self.block_map@.contains_key(b) <==> bm0.contains_key(b) || Self::named_by(
                        vm0,
                        s,
                        buf,
                        i1,
                        b,
                    ) by {
                    assert(bm1.contains_key(b) <==> bm0.contains_key(b) || Self::named_by(
                        vm0,
                        s,
                        buf,
                        i0,
                        b,
                    ));
                    if Self::named_by(vm0, s, buf, i0, b) {
                        let k = choose|k: u32| Self::names_by(vm0, s, buf, i0, b, k);
                        assert(Self::names_by(vm0, s, buf, i1, b, k));
                    }
                    if moved_now && b == mb {
                        assert(Self::names_by(vm0, s, buf, i1, mb, mk));
                    }
                    if Self::named_by(vm0, s, buf, i1, b) {
                        let k = choose|k: u32| Self::names_by(vm0, s, buf, i1, b, k);
                        if !Self::names_by(vm0, s, buf, i0, b, k) {
                            assert(key == RenameSource::Value(Value(k)));
                            assert(vm1.contains_key(k)) by {
                                assert(!Self::moved(vm0, s, buf, i0, k));
                            }
                        }
                    }
                }
                assert forall|b: u32| #[trigger]
                    self.block_map@.contains_key(b) && !Self::named_by(
                        vm0,
                        s,
                        buf,
                        i1,
                        b,
                    ) implies self.block_map@[b] == bm0[b] by {
                    if moved_now && b == mb {
                        assert(Self::names_by(vm0, s, buf, i1, mb, mk));
                    }
                    if Self::named_by(vm0, s, buf, i0, b) {
                        let k = choose|k: u32| Self::names_by(vm0, s, buf, i0, b, k);
                        assert(Self::names_by(vm0, s, buf, i1, b, k));
                    }
                    assert(bm1.contains_key(b));
                }
            }
            i += 1;
        }
        proof {
            let r0 = before@.renames;
            let nr = normalized(r0, s);
            assert(buf.take(n as int) =~= buf);
            assert forall|src_key: RenameSource| #[trigger]
                self@.renames.contains_key(src_key) <==> nr.contains_key(src_key) by {
                match src_key {
                    RenameSource::Value(v) => {
                        assert(v == Value(v.0));
                        assert(self.value_map@.contains_key(v.0) <==> vm0.contains_key(v.0)
                            && !Self::moved(vm0, s, buf, n as int, v.0));
                    },
                    RenameSource::Block(b) => {
                        assert(b == Block(b.0));
                        assert(self.block_map@.contains_key(b.0) <==> bm0.contains_key(b.0)
                            || Self::named_by(vm0, s, buf, n as int, b.0));
                        if Self::named_by(vm0, s, buf, n as int, b.0) {
                            let k = choose|k: u32| Self::names_by(vm0, s, buf, n as int, b.0, k);
                            assert(names_block(r0, s, Value(k), b));
                        }
                        if exists|v: Value| names_block(r0, s, v, b) {
                            let v = choose|v: Value| names_block(r0, s, v, b);
                            assert(v == Value(v.0));
                            assert(Self::names_by(vm0, s, buf, n as int, b.0, v.0));
                        }
                    },
                }
            }
            assert forall|src_key: RenameSource| #[trigger]
                self@.renames.contains_key(src_key) implies self@.renames[src_key]
                == nr[src_key] by {
                match src_key {
                    RenameSource::Value(v) => {
                        assert(v == Value(v.0));
                    },
                    RenameSource::Block(b) => {
                        assert(b == Block(b.0));
                        if exists|v: Value| names_block(r0, s, v, b) {
                            let v = choose|v: Value| names_block(r0, s, v, b);
                            assert(v == Value(v.0));
                            assert(Self::names_by(vm0, s, buf, n as int, b.0, v.0));
                        } else {
                            if Self::named_by(vm0, s, buf, n as int, b.0) {
                                let k = choose|k: u32|
                                    Self::names_by(vm0, s, buf, n as int, b.0, k);
                                assert(names_block(r0, s, Value(k), b));
                            }
                        }
                    },
                }
            }
            assert(self@.renames =~= nr);
        }
    }

    /// Walks the block graph of `src` from `entry` and collects the scope:
    /// the blocks that are reached without passing a block that the rename
    /// map names.
    fn walk_scope(&mut self, src: &Function, entry: Block)
        requires
            src.wf(),
            src@.has_block(entry),
        ensures
            is_scope(src@, frontier(old(self)@.renames), entry, final(self).scope@),
            forall|i: int|
                0 <= i < final(self).scope@.len() ==> src@.has_block(
                    #[trigger] final(self).scope@[i],
                ),
            final(self).scope@.len() <= src@.blocks.len(),
            final(self).value_map == old(self).value_map,
            final(self).block_map == old(self).block_map,
            final(self).entry == old(self).entry,
            final(self).num_args == old(self).num_args,
    {
        let ghost s = src@;
        let ghost stop = frontier(self@.renames);
        let ghost bm = self.block_map@;
        self.scope.clear();
        self.visited.clear();
        self.to_walk.clear();
        self.to_walk.push(entry);
        let graph = src.block_graph();
        proof {
            assert(self.to_walk@[0] == entry);
            assert forall|b: Block| stop.contains(b) <==> bm.contains_key(b.0) by {}
        }
        while self.to_walk.len() > 0
            invariant
                src.wf(),
                s == src@,
                graph.function() == *src,
                bm == self.block_map@,
                self.value_map == old(self).value_map,
                self.block_map == old(self).block_map,
                self.entry == old(self).entry,
                self.num_args == old(self).num_args,
                forall|b: Block| stop.contains(b) <==> bm.contains_key(b.0),
                walk_inv(s, stop, entry, self.scope@, self.to_walk@),
                forall|k: u32| self.visited@.contains(k) <==> self.scope@.contains(Block(k)),
                self.scope@.len() <= s.blocks.len(),
            decreases s.blocks.len() - self.scope@.len(), self.to_walk@.len(),
        {
            let ghost scope0 = self.scope@;
            let ghost walk0 = self.to_walk@;
            let block = self.to_walk.pop().unwrap();
            let ghost walk1 = self.to_walk@;
            proof {
                assert(block == walk0[walk0.len() - 1]);
                assert(s.has_block(block) && found_from(s, entry, scope0, block));
                assert(block == Block(block.0));
                assert forall|c: Block| walk0.contains(c) implies walk1.contains(c) || c
                    == block by {
                    let j = choose|j: int| 0 <= j < walk0.len() && walk0[j] == c;
                    if j < walk1.len() {
                        assert(walk1[j] == c);
                    }
                }
            }
            if self.visited.contains(&block.0) || self.block_map.contains_key(&block.0) {
                proof {
                    assert(scope0.contains(block) || stop.contains(block));
                    assert(walk_inv(s, stop, entry, scope0, walk1));
                }
            } else {
                self.visited.insert(block.0);
                self.scope.push(block);
                let ghost scope1 = self.scope@;
                proof {
                    assert(!scope0.contains(block));
                    assert(!stop.contains(block));
                    assert(scope1[scope0.len() as int] == block);
                    assert forall|c: Block| scope0.contains(c) implies scope1.contains(c) by {
                        let j = choose|j: int| 0 <= j < scope0.len() && scope0[j] == c;
                        assert(scope1[j] == c);
                    }
                    assert forall|c: Block| scope1.contains(c) implies scope0.contains(c) || c
                        == block by {
                        let j = choose|j: int| 0 <= j < scope1.len() && scope1[j] == c;
                        if j < scope0.len() {
                            assert(scope0[j] == c);
                        }
                    }
                    // the new block is in the scope
                    if block == entry {
                        lemma_scope_entry(s, stop, entry);
                    } else {
                        let u = choose|u: Block| scope0.contains(u) && #[trigger] s.has_edge(u, block);
                        let j = choose|j: int| 0 <= j < scope0.len() && scope0[j] == u;
                        lemma_scope_step(s, stop, entry, u, block);
                    }
                    assert forall|i: int| 0 <= i < scope1.len() implies s.has_block(
                        #[trigger] scope1[i],
                    ) && !stop.contains(scope1[i]) && in_scope(s, stop, entry, scope1[i]) by {
                        if i < scope0.len() {
                            assert(scope1[i] == scope0[i]);
                        }
                    }
                    assert(scope1.no_duplicates()) by {
                        assert forall|i: int, j: int|
                            0 <= i < scope1.len() && 0 <= j < scope1.len() && i != j implies scope1[i]
                            != scope1[j] by {
                            if i < scope0.len() && j < scope0.len() {
                                assert(scope0[i] != scope0[j]);
                            } else if i < scope0.len() {
                                assert(scope0[i] == scope1[i]);
                            } else {
                                assert(scope0[j] == scope1[j]);
                            }
                        }
                    }
                    lemma_distinct_blocks_len(scope1, s.blocks.len());
                    assert forall|k: u32| self.visited@.contains(k) <==> scope1.contains(
                        Block(k),
                    ) by {
                        if k == block.0 {
                        } else {
                            assert(Block(k) != block);
                        }
                    }
                    assert forall|i: int| 0 <= i < walk1.len() implies found_from(
                        s,
                        entry,
                        scope1,
                        #[trigger] walk1[i],
                    ) by {
                        assert(found_from(s, entry, scope0, walk0[i]));
                    }
                }
                let outs = graph.outgoing(block);
                let m = outs.len();
                let mut j: usize = 0;
                while j < m
                    invariant
                        j <= m,
                        m == outs@.len(),
                        outs@ == s.successors(block),
                        src.wf(),
                        s == src@,
                        s.has_block(block),
                        scope1 == self.scope@,
                        scope1.contains(block),
                        forall|k: u32| self.visited@.contains(k) <==> scope1.contains(Block(k)),
                        self.value_map == old(self).value_map,
                        self.block_map == old(self).block_map,
                        self.entry == old(self).entry,
                        self.num_args == old(self).num_args,
                        forall|c: Block| walk1.contains(c) ==> self.to_walk@.contains(c),
                        forall|i: int|
                            0 <= i < self.to_walk@.len() ==> s.has_block(
                                #[trigger] self.to_walk@[i],
                            ) && found_from(s, entry, scope1, self.to_walk@[i]),
                        forall|i: int| 0 <= i < j ==> self.to_walk@.contains(#[trigger] outs@[i]),
                    decreases m - j,
                {
                    let ghost walk_a = self.to_walk@;
                    let out = outs[j];
                    self.to_walk.push(out);
                    proof {
                        let walk_b = self.to_walk@;
                        assert(walk_b[walk_a.len() as int] == out);
                        assert forall|c: Block| walk_a.contains(c) implies walk_b.contains(c) by {
                            let i = choose|i: int| 0 <= i < walk_a.len() && walk_a[i] == c;
                            assert(walk_b[i] == c);
                        }
                        assert(s.successors(block)[j as int] == out);
                        assert(s.has_edge(block, out));
                        s.lemma_successor_valid(block, out);
                        assert forall|i: int| 0 <= i < walk_b.len() implies s.has_block(
                            #[trigger] walk_b[i],
                        ) && found_from(s, entry, scope1, walk_b[i]) by {
                            if i < walk_a.len() {
                                assert(walk_b[i] == walk_a[i]);
                            }
                        }
                    }
                    j += 1;
                }
                proof {
                    let walk2 = self.to_walk@;
                    assert forall|u: Block, c: Block|
                        scope1.contains(u) && #[trigger] s.has_edge(
                            u,
                            c,
                        ) implies scope1.contains(c) || stop.contains(c) || walk2.contains(c) by {
                        if u == block {
                            let i = choose|i: int| 0 <= i < outs@.len() && outs@[i] == c;
                            assert(walk2.contains(outs@[i]));
                        } else {
                            assert(scope0.contains(u));
                            assert(scope0.contains(c) || stop.contains(c) || walk0.contains(c));
                        }
                    }
                    assert(walk_inv(s, stop, entry, scope1, walk2));
                }
            }
        }
        proof {
            assert(self.to_walk@ =~= Seq::<Block>::empty());
            let scope = self.scope@;
            assert forall|b: Block| #[trigger] scope.contains(b) <==> in_scope(
                s,
                stop,
                entry,
                b,
            ) by {
                if in_scope(s, stop, entry, b) {
                    let p = choose|p: Seq<Block>| #[trigger]
                        scope_path(s, stop, p) && p[0] == entry && p.last() == b;
                    lemma_walk_complete(s, stop, entry, scope, p, p.len() - 1);
                }
                if scope.contains(b) {
                    let i = choose|i: int| 0 <= i < scope.len() && scope[i] == b;
                    assert(in_scope(s, stop, entry, scope[i]));
                }
            }
        }
    }

    /// Inserts the new entry block and its arguments.
    fn alloc_entry(
        to: &mut FunctionBuilder,
        num_args: usize,
        Ghost(ctx): Ghost<MangleCtx>,
        Ghost(d0): Ghost<FunctionView>,
    ) -> (new_entry: Block)
        requires
            ctx.ok(d0),
            old(to).fun@ == d0,
            ctx.num_args == num_args,
        ensures
            new_entry == ctx.new_entry(),
            ctx.alloc_inv(d0, final(to).fun@, 0, 0, 0),
            final(to).pat == old(to).pat,
    {
        proof {
            d0.lemma_block_inserted_wf();
        }
        let new_entry = to.block_insert();
        let mut i: usize = 0;
        proof {
            let d = to.fun@;
            assert forall|v: Value|
                d0.values.len() <= v.idx() && #[trigger] d.has_value(v) implies ctx.new_value_ok(
                d,
                v,
            ) by {}
        }
        while i < num_args
            invariant
                ctx.ok(d0),
                ctx.num_args == num_args,
                new_entry == ctx.new_entry(),
                i <= num_args,
                to.pat == old(to).pat,
                to.fun@.wf(),
                d0.extended_by(to.fun@),
                to.fun@.ident == d0.ident,
                to.fun@.entry == d0.entry,
                to.fun@.constants == d0.constants,
                to.fun@.blocks.len() == ctx.base + 1,
                to.fun@.block(new_entry).args.len() == i,
                to.fun@.values.len() == d0.values.len() + 1 + i,
                forall|v: Value|
                    d0.values.len() <= v.idx() && #[trigger] to.fun@.has_value(v)
                        ==> ctx.new_value_ok(to.fun@, v),
            decreases num_args - i,
        {
            let ghost d = to.fun@;
            to.block_arg_insert(new_entry);
            proof {
                let d2 = to.fun@;
                assert forall|v: Value|
                    d0.values.len() <= v.idx() && #[trigger] d2.has_value(
                        v,
                    ) implies ctx.new_value_ok(d2, v) by {
                    if v.idx() < d.values.len() {
                        assert(d.has_value(v));
                        assert(ctx.new_value_ok(d, v));
                    }
                }
            }
            i += 1;
        }
        proof {
            assert(ctx.used(0, 0) =~= Set::<int>::empty());
        }
        new_entry
    }

    /// Inserts a copy of each block of the scope, with as many arguments as
    /// the block has, and records the renames from the blocks and their
    /// arguments to the copies.
    fn alloc_scope(
        &mut self,
        from: Option<&Function>,
        to: &mut FunctionBuilder,
        Ghost(ctx): Ghost<MangleCtx>,
        Ghost(d0): Ghost<FunctionView>,
    )
        requires
            ctx.ok(d0),
            source_ok(ctx, from, old(to).fun@),
            ctx.alloc_inv(d0, old(to).fun@, 0, 0, 0),
            old(self).scope@ == ctx.scope,
            ctx.blocks_mapped(old(self).block_map@, 0),
            ctx.values_mapped(old(self).value_map@, old(to).fun@, 0, 0),
        ensures
            final(to).pat == old(to).pat,
            source_ok(ctx, from, final(to).fun@),
            ctx.alloc_inv(
                d0,
                final(to).fun@,
                ctx.scope.len() as int,
                ctx.scope.len() as int,
                0,
            ),
            final(self).scope@ == ctx.scope,
            final(self).entry == old(self).entry,
            final(self).num_args == old(self).num_args,
            ctx.blocks_mapped(final(self).block_map@, ctx.scope.len() as int),
            ctx.values_mapped(
                final(self).value_map@,
                final(to).fun@,
                ctx.scope.len() as int,
                0,
            ),
    {
        let n = self.scope.len();
        let mut k: usize = 0;
        while k < n
            invariant
                ctx.ok(d0),
                n == ctx.scope.len(),
                k <= n,
                to.pat == old(to).pat,
                self.scope@ == ctx.scope,
                self.entry == old(self).entry,
                self.num_args == old(self).num_args,
                source_ok(ctx, from, to.fun@),
                ctx.alloc_inv(d0, to.fun@, k as int, k as int, 0),
                ctx.blocks_mapped(self.block_map@, k as int),
                ctx.values_mapped(self.value_map@, to.fun@, k as int, 0),
            decreases n - k,
        {
            let block = self.scope[k];
            let ghost d_a = to.fun@;
            let ghost bm_a = self.block_map@;
            proof {
                ctx.lemma_used_bound(k as int, 0);
                d_a.lemma_block_inserted_wf();
                assert(ctx.src.has_block(block));
            }
            let new_block = to.block_insert();
            self.block_map.insert(block.0, RenameDest::Block(new_block));
            let ghost d_b = to.fun@;
            proof {
                assert(new_block == ctx.copy_of(k as int));
                assert(block == Block(block.0));
                ctx.lemma_alloc_block(d0, d_a, bm_a, self.value_map@, k as int);
            }
            let n_args = source(from, to).block_args(block).len();
            let mut j: usize = 0;
            while j < n_args
                invariant
                    ctx.ok(d0),
                    n == ctx.scope.len(),
                    k < n,
                    block == ctx.scope[k as int],
                    new_block == ctx.copy_of(k as int),
                    n_args == ctx.src.block(block).args.len(),
                    j <= n_args,
                    to.pat == old(to).pat,
                    self.scope@ == ctx.scope,
                    self.entry == old(self).entry,
                    self.num_args == old(self).num_args,
                    source_ok(ctx, from, to.fun@),
                    ctx.alloc_inv(d0, to.fun@, k as int, k + 1, j as int),
                    ctx.blocks_mapped(self.block_map@, k + 1),
                    ctx.values_mapped(self.value_map@, to.fun@, k as int, j as int),
                decreases n_args - j,
            {
                let ghost d_c = to.fun@;
                let ghost vm_c = self.value_map@;
                let arg = source(from, to).block_args(block)[j];
                proof {
                    assert(arg == ctx.src.block(block).args[j as int]);
                    ctx.lemma_arg_step(d0, k as int, j as int);
                    ctx.lemma_used_bound(k as int, j + 1);
                    assert(d_c.has_block(new_block));
                    d_c.lemma_arg_inserted_wf(new_block);
                }
                let new_arg = to.block_arg_insert(new_block);
                if !self.value_map.contains_key(&arg.0) {
                    self.value_map.insert(arg.0, RenameDest::Value(new_arg));
                }
                proof {
                    assert(arg == Value(arg.0));
                    ctx.lemma_alloc_arg(d0, d_c, vm_c, self.value_map@, k as int, j as int);
                }
                j += 1;
            }
            proof {
                ctx.lemma_block_step(k as int);
                ctx.lemma_alloc_block_done(d0, to.fun@, self.value_map@, k as int);
            }
            k += 1;
        }
    }

    /// Maps one read of the source to its value in the destination.
    fn map_value(
        &self,
        from: Option<&Function>,
        to: &mut FunctionBuilder,
        orig_value: Value,
        new_entry: Block,
        Ghost(ctx): Ghost<MangleCtx>,
        Ghost(d0): Ghost<FunctionView>,
        Ghost(al): Ghost<FunctionView>,
        Ghost(cs): Ghost<Set<int>>,
    ) -> (r: (Value, Ghost<Set<int>>))
        requires
            ctx.ok(d0),
            source_ok(ctx, from, old(to).fun@),
            ctx.copy_inv(d0, al, old(to).fun@, cs),
            ctx.blocks_mapped(self.block_map@, ctx.scope.len() as int),
            ctx.values_mapped(self.value_map@, al, ctx.scope.len() as int, 0),
            new_entry == ctx.new_entry(),
            ctx.readable(orig_value),
        ensures
            final(to).pat == old(to).pat,
            source_ok(ctx, from, final(to).fun@),
            ctx.copy_inv(d0, al, final(to).fun@, r.1@),
            ctx.shape_kept(old(to).fun@, final(to).fun@),
            final(to).fun@.blocks == old(to).fun@.blocks,
            ctx.maps_to(final(to).fun@, orig_value, r.0),
            final(to).fun@.has_value(r.0),
    {
        let ghost d = to.fun@;
        let ghost src = ctx.src;
        let ghost n = ctx.scope.len() as int;
        let src_fun = source(from, to);
        proof {
            if from is None {
                src.lemma_extended_resolve(d, orig_value);
            }
            src.lemma_resolve(orig_value);
            assert(d.has_block(new_entry));
            assert(d.block_wf(new_entry));
        }
        let resolved = src_fun.value_resolve(orig_value);
        let kind = *src_fun.value(resolved);
        proof {
            assert(resolved == src.resolve(orig_value));
            assert(kind == src.raw_kind(resolved));
            assert(resolved == Value(resolved.0));
            assert(src.value_wf(resolved));
        }
        let mapped = match kind {
            ValueType::Arg(_) => {
                match self.value_map.get(&resolved.0) {
                    Some(dest) => MappedValue::RenameDest(*dest),
                    None => MappedValue::MapValue(resolved),
                }
            },
            ValueType::Constant(_) => MappedValue::MapConst(resolved),
            ValueType::Block(block) => {
                proof {
                    assert(block == Block(block.0));
                    if !ctx.renames.contains_key(RenameSource::Block(block)) {
                        let i = choose|i: int| 0 <= i < ctx.scope.len() && ctx.scope[i] == block;
                        assert(ctx.scope.take(n) =~= ctx.scope);
                    }
                }
                MappedValue::RenameDest(*self.block_map.get(&block.0).unwrap())
            },
            ValueType::Alias(_) => vstd::pervasive::unreached(),
        };
        match mapped {
            MappedValue::MapConst(val) => {
                match from {
                    None => {
                        proof {
                            assert(d0.has_value(val));
                        }
                        (val, Ghost(cs))
                    },
                    Some(f) => {
                        let term = *f.value_constant(val);
                        proof {
                            d.lemma_constant_of(term);
                            if d.constant_of(term) is None {
                                assert(!cs.contains(val.idx())) by {
                                    if cs.contains(val.idx()) {
                                        assert(ctx.is_interned(d, val.idx()));
                                    }
                                }
                                let range = vstd::set_lib::set_int_range(
                                    0,
                                    src.values.len() as int,
                                );
                                vstd::set_lib::lemma_int_range(0, src.values.len() as int);
                                assert(cs.insert(val.idx()).subset_of(range));
                                vstd::set_lib::lemma_len_subset(cs.insert(val.idx()), range);
                            }
                            d.lemma_interned_wf(term);
                        }
                        let w = to.value(crate::fun::builder::ValueItem::Constant(term));
                        let ghost cs2 = if d.constant_of(term) is None {
                            cs.insert(val.idx())
                        } else {
                            cs
                        };
                        proof {
                            ctx.lemma_interned_inv(d0, al, d, cs, term, val);
                        }
                        (w, Ghost(cs2))
                    },
                }
            },
            MappedValue::MapValue(val) => {
                proof {
                    assert(!self.value_map@.contains_key(val.0));
                    assert(!ctx.renames.contains_key(RenameSource::Value(val)));
                    assert(!ctx.arg_at(n, 0, val));
                    match kind {
                        ValueType::Arg(o) => {
                            if ctx.scope.contains(o) {
                                let i = choose|i: int| 0 <= i < ctx.scope.len() && ctx.scope[i] == o;
                                let j = choose|j: int|
                                    0 <= j < src.block(o).args.len() && src.block(o).args[j] == val;
                                assert(ctx.arg_done(n, 0, i, j));
                            }
                            if ctx.across {
                                assert(!ctx.scope.contains(o));
                                assert(!in_scope(src, ctx.stop(), ctx.entry, o));
                                assert(crate::fun::mangle_model::is_free_arg(
                                    src,
                                    ctx.renames,
                                    ctx.entry,
                                    orig_value,
                                ));
                            }
                            assert(d0.has_value(val));
                        },
                        _ => {},
                    }
                }
                (val, Ghost(cs))
            },
            MappedValue::RenameDest(dest) => {
                proof {
                    ctx.lemma_lookup(d0, al, d, self.value_map@, self.block_map@, orig_value, dest);
                }
                match dest {
                    RenameDest::Value(value) => (value, Ghost(cs)),
                    RenameDest::EntryArg(idx) => {
                        let w = to.block_args(new_entry)[idx.0];
                        (w, Ghost(cs))
                    },
                    RenameDest::Block(block) => {
                        let w = to.fun.block_value(block);
                        proof {
                            assert(d.block_wf(block));
                        }
                        (w, Ghost(cs))
                    },
                }
            },
        }
    }

    /// Gives block `to_block` of the destination the operation and span of
    /// block `from_block` of the source, and its reads, each mapped.
    fn copy_body(
        &self,
        from: Option<&Function>,
        to: &mut FunctionBuilder,
        from_block: Block,
        to_block: Block,
        new_entry: Block,
        Ghost(ctx): Ghost<MangleCtx>,
        Ghost(d0): Ghost<FunctionView>,
        Ghost(al): Ghost<FunctionView>,
        Ghost(cs): Ghost<Set<int>>,
    ) -> (r: Ghost<Set<int>>)
        requires
            ctx.ok(d0),
            source_ok(ctx, from, old(to).fun@),
            ctx.copy_inv(d0, al, old(to).fun@, cs),
            ctx.blocks_mapped(self.block_map@, ctx.scope.len() as int),
            ctx.values_mapped(self.value_map@, al, ctx.scope.len() as int, 0),
            new_entry == ctx.new_entry(),
            ctx.copied(from_block),
            ctx.base <= to_block.idx() < old(to).fun@.blocks.len(),
        ensures
            final(to).pat == old(to).pat,
            source_ok(ctx, from, final(to).fun@),
            ctx.copy_inv(d0, al, final(to).fun@, r@),
            ctx.shape_kept(old(to).fun@, final(to).fun@),
            ctx.body_copied(final(to).fun@, from_block, to_block),
            forall|b: Block|
                b != to_block && #[trigger] old(to).fun@.has_block(b) ==> final(to).fun@.block(b)
                    == old(to).fun@.block(b),
    {
        let ghost d_start = to.fun@;
        let ghost src = ctx.src;
        proof {
            ctx.lemma_reads_readable_block(d0, from_block);
            assert(crate::fun::mangle_model::is_copied(
                src,
                ctx.stop(),
                ctx.entry,
                from_block,
            )) by {
                if ctx.scope.contains(from_block) {
                }
            }
        }
        let src_fun = source(from, to);
        let op = src_fun.block_kind(from_block).unwrap();
        let span = src_fun.block_span(from_block);
        let n = src_fun.block_reads(from_block).len();
        let mut mapped: Vec<Value> = Vec::new();
        let mut cur: Ghost<Set<int>> = Ghost(cs);
        let mut j: usize = 0;
        while j < n
            invariant
                ctx.ok(d0),
                src == ctx.src,
                src.has_block(from_block),
                ctx.copied(from_block),
                n == src.block(from_block).reads.len(),
                j <= n,
                to.pat == old(to).pat,
                mapped@.len() == j,
                new_entry == ctx.new_entry(),
                source_ok(ctx, from, to.fun@),
                ctx.copy_inv(d0, al, to.fun@, cur@),
                ctx.blocks_mapped(self.block_map@, ctx.scope.len() as int),
                ctx.values_mapped(self.value_map@, al, ctx.scope.len() as int, 0),
                ctx.shape_kept(d_start, to.fun@),
                to.fun@.blocks == d_start.blocks,
                forall|i: int|
                    0 <= i < j ==> ctx.maps_to(
                        to.fun@,
                        src.block(from_block).reads[i],
                        #[trigger] mapped@[i],
                    ) && to.fun@.has_value(mapped@[i]),
            decreases n - j,
        {
            let ghost d_a = to.fun@;
            let ghost mapped_a = mapped@;
            let v = source(from, to).block_reads(from_block)[j];
            proof {
                assert(v == src.block(from_block).reads[j as int]);
                ctx.lemma_reads_readable(d0, from_block, j as int);
            }
            let (w, next) = self.map_value(
                from,
                to,
                v,
                new_entry,
                Ghost(ctx),
                Ghost(d0),
                Ghost(al),
                Ghost(cur@),
            );
            mapped.push(w);
            cur = next;
            proof {
                let d_b = to.fun@;
                assert forall|i: int| 0 <= i < j + 1 implies ctx.maps_to(
                    d_b,
                    src.block(from_block).reads[i],
                    #[trigger] mapped@[i],
                ) && d_b.has_value(mapped@[i]) by {
                    if i < j {
                        assert(mapped@[i] == mapped_a[i]);
                        ctx.lemma_reads_readable(d0, from_block, i);
                        ctx.lemma_maps_to_stable(
                            d0,
                            d_a,
                            d_b,
                            src.block(from_block).reads[i],
                            mapped_a[i],
                        );
                        assert(d_a.has_value(mapped_a[i]));
                    }
                }
                ctx.lemma_shape_trans(d_start, d_a, d_b);
            }
            j += 1;
        }
        let ghost d_c = to.fun@;
        proof {
            assert(d_c.has_block(to_block));
            d_c.lemma_with_span_wf(to_block, span);
            d_c.with_span(to_block, span).lemma_with_body_wf(to_block, op, mapped@);
        }
        to.fun.set_span(to_block, span);
        to.fun.set_body(to_block, op, mapped);
        proof {
            let d_e = to.fun@;
            ctx.lemma_body_written(d0, al, d_c, cur@, from_block, to_block, mapped@);
            ctx.lemma_shape_trans(d_start, d_c, d_e);
            if from is None {
                assert(ctx.src.extended_by(d_e));
            }
        }
        cur
    }

    /// Runs lambda mangling on a single function container: the scope of
    /// the entry block is copied within the function of `fun`. Returns the
    /// new entry block and clears the mangler.
    pub fn run(&mut self, fun: &mut FunctionBuilder) -> (new_entry: Block)
        requires
            old(self).wf(),
            run_pre(old(self)@, old(fun).fun@, old(fun).fun@, false),
        ensures
            final(self).wf(),
            final(self)@ == ManglerView::cleared(),
            final(fun).wf(),
            final(fun).pat == old(fun).pat,
            exists|scope: Seq<Block>| #[trigger]
                mangled(
                    old(self)@,
                    old(fun).fun@,
                    old(fun).fun@,
                    final(fun).fun@,
                    false,
                    scope,
                    new_entry,
                ),
    {
        self.run_inner(None, fun)
    }

    /// Runs lambda mangling while copying across function containers: the
    /// scope of the entry block in `from` is copied into the function of
    /// `to`. Returns the new entry block and clears the mangler.
    pub fn run_across(&mut self, from: &Function, to: &mut FunctionBuilder) -> (new_entry: Block)
        requires
            old(self).wf(),
            run_pre(old(self)@, from@, old(to).fun@, true),
        ensures
            final(self).wf(),
            final(self)@ == ManglerView::cleared(),
            final(to).wf(),
            final(to).pat == old(to).pat,
            exists|scope: Seq<Block>| #[trigger]
                mangled(old(self)@, from@, old(to).fun@, final(to).fun@, true, scope, new_entry),
    {
        self.run_inner(Some(from), to)
    }

    fn run_inner(&mut self, from: Option<&Function>, to: &mut FunctionBuilder) -> (new_entry: Block)
        requires
            old(self).wf(),
            run_pre(old(self)@, source_of(from, *old(to))@, old(to).fun@, from is Some),
        ensures
            final(self).wf(),
            final(self)@ == ManglerView::cleared(),
            final(to).wf(),
            final(to).pat == old(to).pat,
            exists|scope: Seq<Block>| #[trigger]
                mangled(
                    old(self)@,
                    source_of(from, *old(to))@,
                    old(to).fun@,
                    final(to).fun@,
                    from is Some,
                    scope,
                    new_entry,
                ),
    {
        let ghost m0 = self@;
        let ghost src = source_of(from, *to)@;
        let ghost d0 = to.fun@;
        let entry = self.entry.unwrap();
        let num_args = self.num_args;

        // Make sure no added rename sources are blocks
        self.normalize(source(from, to));

        // Walk scope
        self.walk_scope(source(from, to), entry);

        let ghost ctx = MangleCtx {
            src,
            renames: normalized(m0.renames, src),
            entry,
            num_args: num_args as nat,
            scope: self.scope@,
            base: d0.blocks.len(),
            across: from is Some,
        };
        proof {
            assert(self@.renames == ctx.renames);
            lemma_normalized_dests(m0.renames, src, d0, m0.num_args);
            assert forall|i: int| 0 <= i < ctx.scope.len() implies ctx.src.has_block(
                #[trigger] ctx.scope[i],
            ) && !ctx.renames.contains_key(RenameSource::Block(ctx.scope[i])) by {
                assert(ctx.scope.contains(ctx.scope[i]));
                assert(in_scope(src, ctx.stop(), entry, ctx.scope[i]));
                let p = choose|p: Seq<Block>| #[trigger]
                    scope_path(src, ctx.stop(), p) && p[0] == entry && p.last() == ctx.scope[i];
                assert(!ctx.stop().contains(p[p.len() - 1]));
            }
            assert(ctx.ok(d0));
            assert(ctx.scope.take(0) =~= Seq::<Block>::empty());
            assert forall|x: u32| #[trigger]
                self.block_map@.contains_key(x) <==> ctx.renames.contains_key(
                    RenameSource::Block(Block(x)),
                ) || ctx.scope.take(0).contains(Block(x)) by {}
            assert(ctx.blocks_mapped(self.block_map@, 0));
            assert(ctx.values_mapped(self.value_map@, d0, 0, 0));
        }

        // Insert new entry block
        let new_entry = Self::alloc_entry(to, num_args, Ghost(ctx), Ghost(d0));
        proof {
            assert(ctx.values_mapped(self.value_map@, to.fun@, 0, 0));
        }

        // Insert new blocks
        self.alloc_scope(from, to, Ghost(ctx), Ghost(d0));

        let ghost al = to.fun@;
        let ghost n = ctx.scope.len() as int;
        proof {
            ctx.lemma_used_bound(n, 0);
            assert(ctx.copy_inv(d0, al, al, Set::<int>::empty()));
        }

        // Set entry body
        let mut cs = self.copy_body(
            from,
            to,
            entry,
            new_entry,
            new_entry,
            Ghost(ctx),
            Ghost(d0),
            Ghost(al),
            Ghost(Set::<int>::empty()),
        );

        // Set new bodies
        let count = self.scope.len();
        let mut i: usize = 0;
        while i < count
            invariant
                ctx.ok(d0),
                count == ctx.scope.len(),
                i <= count,
                to.pat == old(to).pat,
                self.scope@ == ctx.scope,
                new_entry == ctx.new_entry(),
                source_ok(ctx, from, to.fun@),
                ctx.copy_inv(d0, al, to.fun@, cs@),
                ctx.blocks_mapped(self.block_map@, ctx.scope.len() as int),
                ctx.values_mapped(self.value_map@, al, ctx.scope.len() as int, 0),
                ctx.body_copied(to.fun@, ctx.entry, new_entry),
                forall|k: int|
                    0 <= k < i ==> ctx.body_copied(to.fun@, ctx.scope[k], #[trigger] ctx.copy_of(k)),
            decreases count - i,
        {
            let ghost d_a = to.fun@;
            let block = self.scope[i];
            proof {
                assert(ctx.scope.take(ctx.scope.len() as int) =~= ctx.scope);
                assert(block == Block(block.0));
                assert(ctx.scope.contains(block));
            }
            let new_block = self.block_map.get(&block.0).unwrap().block();
            proof {
                assert(new_block == ctx.copy_of(i as int));
            }
            cs =
            self.copy_body(
                from,
                to,
                block,
                new_block,
                new_entry,
                Ghost(ctx),
                Ghost(d0),
                Ghost(al),
                Ghost(cs@),
            );
            proof {
                let d_b = to.fun@;
                assert(d_a.has_block(new_entry));
                ctx.lemma_body_stable(d0, d_a, d_b, ctx.entry, new_entry);
                assert forall|k: int| 0 <= k < i + 1 implies ctx.body_copied(
                    d_b,
                    ctx.scope[k],
                    #[trigger] ctx.copy_of(k),
                ) by {
                    if k < i {
                        assert(ctx.scope.contains(ctx.scope[k]));
                        assert(d_a.has_block(ctx.copy_of(k)));
                        ctx.lemma_body_stable(d0, d_a, d_b, ctx.scope[k], ctx.copy_of(k));
                    }
                }
            }
            i += 1;
        }
        proof {
            let d1 = to.fun@;
            assert(d1.has_block(new_entry));
            assert(al.has_block(new_entry));
            assert forall|k: int| 0 <= k < ctx.scope.len() implies d1.block(
                #[trigger] ctx.copy_of(k),
            ).args.len() == ctx.src.block(ctx.scope[k]).args.len() && ctx.body_copied(
                d1,
                ctx.scope[k],
                ctx.copy_of(k),
            ) by {
                assert(al.has_block(ctx.copy_of(k)));
            }
            assert(ctx.post(d0, d1));
            assert(mangled(m0, src, d0, d1, from is Some, ctx.scope, new_entry));
        }
        self.clear();
        new_entry
    }

    fn insert_rename(&mut self, source: RenameSource, dest: RenameDest)
        requires
            old(self).wf(),
        ensures
            final(self).wf(),
            final(self)@ == (ManglerView {
                renames: old(self)@.renames.insert(source, dest),
                ..old(self)@
            }),
    {
        let ghost before = *self;
        match source {
            RenameSource::Value(v) => {
                self.value_map.insert(v.0, dest);
                self.source_buf.push(source);
                proof {
                    assert forall|k: u32| #[trigger]
                        self.value_map@.contains_key(k) implies self.source_buf@.contains(
                        RenameSource::Value(Value(k)),
                    ) by {
                        if k == v.0 {
                            assert(self.source_buf@[before.source_buf@.len() as int] == source);
                        } else {
                            assert(before.value_map@.contains_key(k));
                            let i = choose|i: int|
                                0 <= i < before.source_buf@.len() && before.source_buf@[i]
                                    == RenameSource::Value(Value(k));
                            assert(self.source_buf@[i] == RenameSource::Value(Value(k)));
                        }
                    }
                }
            },
            RenameSource::Block(b) => {
                self.block_map.insert(b.0, dest);
            },
        }
        proof {
            assert(self@.renames =~= before@.renames.insert(source, dest));
        }
    }
}

/// How a read is mapped: through a rename, as a constant, or as it is.
#[derive(Debug, Copy, Clone, PartialEq, Eq, Structural, Hash)]
enum MappedValue {
    RenameDest(RenameDest),
    MapConst(Value),
    MapValue(Value),
}

/// Every destination of the rename map in normal form is a destination of
/// the rename map.
proof fn lemma_normalized_dests(
    renames: Map<RenameSource, RenameDest>,
    src: FunctionView,
    d0: FunctionView,
    num_args: nat,
)
    requires
        forall|s: RenameSource| #[trigger]
            renames.contains_key(s) ==> dest_valid(d0, num_args, renames[s]),
    ensures
        forall|s: RenameSource| #[trigger]
            normalized(renames, src).contains_key(s) ==> dest_valid(
                d0,
                num_args,
                normalized(renames, src)[s],
            ),
{
    let nr = normalized(renames, src);
    assert forall|s: RenameSource| #[trigger] nr.contains_key(s) implies dest_valid(
        d0,
        num_args,
        nr[s],
    ) by {
        match s {
            RenameSource::Value(v) => {
                assert(renames.contains_key(s));
            },
            RenameSource::Block(b) => {
                if exists|v: Value| names_block(renames, src, v, b) {
                    let v = choose|v: Value| names_block(renames, src, v, b);
                    assert(renames.contains_key(RenameSource::Value(v)));
                } else {
                    assert(renames.contains_key(s));
                }
            },
        }
    }
}

/// In a list without duplicates an element is found where it stands.
proof fn lemma_index_of<A>(s: Seq<A>, i: int)
    requires
        s.no_duplicates(),
        0 <= i < s.len(),
    ensures
        s.index_of(s[i]) == i,
        s.contains(s[i]),
{
    let k = s.index_of(s[i]);
    assert(0 <= k < s.len() && s[k] == s[i]);
}

/// The function that a run reads: `from` across functions, else the
/// function of the builder.
fn source<'a>(from: Option<&'a Function>, to: &'a FunctionBuilder) -> (r: &'a Function)
    ensures
        *r == source_of(from, *to),
{
    match from {
        Some(f) => f,
        None => to.fun(),
    }
}

spec fn source_of(from: Option<&Function>, to: FunctionBuilder) -> Function {
    match from {
        Some(f) => *f,
        None => to.fun,
    }
}

/// The source that is read during a run agrees with the source at its
/// start: across functions it is that function, within one function it has
/// grown by the new entities only.
spec fn source_ok(ctx: MangleCtx, from: Option<&Function>, d: FunctionView) -> bool {
    match from {
        Some(f) => ctx.across && f@ == ctx.src,
        None => !ctx.across && ctx.src.extended_by(d),
    }
}

impl MangleCtx {
    /// What holds of the fixed data throughout a run into a destination
    /// that was `d0` at the start.
    spec fn ok(self, d0: FunctionView) -> bool {
        &&& self.src.wf()
        &&& d0.wf()
        &&& self.base == d0.blocks.len()
        &&& self.src.has_block(self.entry)
        &&& self.scope.no_duplicates()
        &&& forall|i: int|
            0 <= i < self.scope.len() ==> self.src.has_block(#[trigger] self.scope[i])
                && !self.renames.contains_key(RenameSource::Block(self.scope[i]))
        &&& is_scope(self.src, self.stop(), self.entry, self.scope)
        &&& self.scope.len() <= self.src.blocks.len()
        &&& d0.blocks.len() + self.src.blocks.len() + 1 <= u32::MAX
        &&& d0.values.len() + self.num_args + self.src.blocks.len() + 1 + self.src.values.len() + (
        if self.across {
            self.src.values.len()
        } else {
            0
        }) <= u32::MAX
        &&& forall|s: RenameSource| #[trigger]
            self.renames.contains_key(s) ==> dest_valid(d0, self.num_args, self.renames[s])
        &&& run_pre_normal(self.renames, self.src, self.entry, self.across)
        &&& !self.across ==> self.src == d0
    }

    /// Argument `j` of the `i`-th block of the scope has got its copy when
    /// `k` blocks are done and `jj` arguments of the next.
    spec fn arg_done(self, k: int, jj: int, i: int, j: int) -> bool {
        &&& 0 <= i < self.scope.len()
        &&& 0 <= j < self.src.block(self.scope[i]).args.len()
        &&& i < k || (i == k && j < jj)
    }

    spec fn arg_at(self, k: int, jj: int, a: Value) -> bool {
        exists|i: int, j: int| #[trigger]
            self.arg_done(k, jj, i, j) && self.src.block(self.scope[i]).args[j] == a
    }

    /// The indices of the source arguments that have got a copy.
    spec fn used(self, k: int, jj: int) -> Set<int> {
        Set::new(|x: int| 0 <= x < self.src.values.len() && self.arg_at(k, jj, Value(x as u32)))
    }

    /// The block renames while the scope is copied: those of the rename map
    /// and one for each of the first `nb` blocks of the scope.
    spec fn blocks_mapped(self, bm: Map<u32, RenameDest>, nb: int) -> bool {
        &&& forall|x: u32| #[trigger]
            bm.contains_key(x) <==> self.renames.contains_key(RenameSource::Block(Block(x)))
                || self.scope.take(nb).contains(Block(x))
        &&& forall|x: u32|
            self.renames.contains_key(RenameSource::Block(Block(x))) ==> #[trigger] bm[x]
                == self.renames[RenameSource::Block(Block(x))]
        &&& forall|i: int|
            0 <= i < nb ==> bm[(#[trigger] self.scope[i]).0] == RenameDest::Block(self.copy_of(i))
    }

    /// The value renames while the scope is copied: those of the rename map
    /// and one for each argument that has got a copy and was not renamed.
    spec fn values_mapped(self, vm: Map<u32, RenameDest>, d: FunctionView, k: int, jj: int) -> bool {
        &&& forall|x: u32| #[trigger]
            vm.contains_key(x) <==> self.renames.contains_key(RenameSource::Value(Value(x)))
                || self.arg_at(k, jj, Value(x))
        &&& forall|x: u32|
            self.renames.contains_key(RenameSource::Value(Value(x))) ==> #[trigger] vm[x]
                == self.renames[RenameSource::Value(Value(x))]
        &&& forall|i: int, j: int| #[trigger]
            self.arg_done(k, jj, i, j) && !self.renames.contains_key(
                RenameSource::Value(self.src.block(self.scope[i]).args[j]),
            ) ==> vm[self.src.block(self.scope[i]).args[j].0] == RenameDest::Value(
                d.block(self.copy_of(i)).args[j],
            )
    }

    /// The destination `d` while blocks and arguments are allocated: `k`
    /// blocks of the scope have their copy with all arguments, `nb` have a
    /// copy at all, and the last of them has `jj` arguments.
    spec fn alloc_inv(self, d0: FunctionView, d: FunctionView, k: int, nb: int, jj: int) -> bool {
        &&& d.wf()
        &&& d0.extended_by(d)
        &&& d.ident == d0.ident
        &&& d.entry == d0.entry
        &&& d.constants == d0.constants
        &&& 0 <= k <= nb <= k + 1
        &&& nb <= self.scope.len()
        &&& 0 <= jj
        &&& d.blocks.len() == self.base + 1 + nb
        &&& d.block(self.new_entry()).args.len() == self.num_args
        &&& forall|i: int|
            0 <= i < nb ==> d.block(#[trigger] self.copy_of(i)).args.len() == if i < k {
                self.src.block(self.scope[i]).args.len() as int
            } else {
                jj
            }
        &&& forall|v: Value|
            d0.values.len() <= v.idx() && #[trigger] d.has_value(v) ==> self.new_value_ok(d, v)
        &&& self.used(k, jj).finite()
        &&& d.values.len() == d0.values.len() + self.num_args + 1 + nb + self.used(k, jj).len()
    }

    /// The destination `d` while bodies are copied. `al` is the destination
    /// when allocation ended; `cs` holds the source constants whose terms
    /// the copy has interned.
    spec fn copy_inv(self, d0: FunctionView, al: FunctionView, d: FunctionView, cs: Set<int>) -> bool {
        &&& d.wf()
        &&& d0.extended_by(d)
        &&& d.ident == d0.ident
        &&& d.entry == d0.entry
        &&& d.blocks.len() == self.base + 1 + self.scope.len()
        &&& al.blocks.len() == d.blocks.len()
        &&& self.shape_kept(al, d)
        &&& al.block(self.new_entry()).args.len() == self.num_args
        &&& self.args_copied(al)
        &&& forall|v: Value|
            d0.values.len() <= v.idx() && #[trigger] d.has_value(v) ==> self.new_value_ok(d, v)
        &&& cs.finite()
        &&& d.values.len() == al.values.len() + cs.len()
        &&& al.values.len() <= d0.values.len() + self.num_args + 1 + self.scope.len()
            + self.src.values.len()
        &&& forall|x: int| #[trigger]
            cs.contains(x) ==> 0 <= x < self.src.values.len() && self.is_interned(d, x)
        &&& !self.across ==> d.constants == d0.constants && cs.len() == 0
    }

    /// The term of the source constant with index `x` is held by a value
    /// of `d`.
    spec fn is_interned(self, d: FunctionView, x: int) -> bool {
        match self.src.values[x] {
            ValueType::Constant(term) => d.constant_of(term) is Some,
            _ => false,
        }
    }

    /// `d` has the blocks of `al` with the same arguments and values, and
    /// the values of `al` unchanged.
    spec fn shape_kept(self, al: FunctionView, d: FunctionView) -> bool {
        &&& al.blocks.len() == d.blocks.len()
        &&& al.values.len() <= d.values.len()
        &&& forall|b: Block| #[trigger]
            al.has_block(b) ==> d.block(b).args == al.block(b).args && d.block(b).value
                == al.block(b).value
        &&& forall|i: int| 0 <= i < al.values.len() ==> #[trigger] d.values[i] == al.values[i]
    }

    /// What every read of a copied block satisfies: it is a value of the
    /// source; if it refers to a block, the block is renamed or in the
    /// scope; and across functions it is no free argument.
    spec fn readable(self, v: Value) -> bool {
        &&& self.src.has_value(v)
        &&& match self.src.kind(v) {
            ValueType::Block(b) => self.renames.contains_key(RenameSource::Block(b))
                || self.scope.contains(b),
            _ => true,
        }
        &&& self.across ==> !crate::fun::mangle_model::is_free_arg(
            self.src,
            self.renames,
            self.entry,
            v,
        )
    }

    /// A block of the scope or the entry.
    spec fn copied(self, b: Block) -> bool {
        b == self.entry || self.scope.contains(b)
    }

    /// Every read of a copied block is readable.
    proof fn lemma_reads_readable(self, d0: FunctionView, b: Block, j: int)
        requires
            self.ok(d0),
            self.copied(b),
            0 <= j < self.src.block(b).reads.len(),
        ensures
            self.src.has_block(b),
            self.readable(self.src.block(b).reads[j]),
    {
        let src = self.src;
        let stop = self.stop();
        if self.scope.contains(b) {
            let i = choose|i: int| 0 <= i < self.scope.len() && self.scope[i] == b;
            assert(src.has_block(self.scope[i]));
        }
        assert(src.has_block(b));
        assert(src.block_wf(b));
        let v = src.block(b).reads[j];
        assert(src.has_value(v));
        assert(crate::fun::mangle_model::is_copied(src, stop, self.entry, b));
        match src.kind(v) {
            ValueType::Block(c) => {
                src.lemma_blocks_among(src.block(b).reads, c);
                assert(src.has_edge(b, c));
                src.lemma_successor_valid(b, c);
                if !stop.contains(c) {
                    if self.scope.contains(b) {
                        lemma_scope_step(src, stop, self.entry, b, c);
                    }
                    assert(in_scope(src, stop, self.entry, c));
                }
            },
            _ => {},
        }
    }

    /// What a read maps to does not change while bodies are copied.
    proof fn lemma_maps_to_stable(
        self,
        d0: FunctionView,
        d: FunctionView,
        d2: FunctionView,
        v: Value,
        w: Value,
    )
        requires
            self.ok(d0),
            self.readable(v),
            self.maps_to(d, v, w),
            d0.extended_by(d),
            d.blocks.len() == self.base + 1 + self.scope.len(),
            self.shape_kept(d, d2),
        ensures
            self.maps_to(d2, v, w),
    {
        let r = self.src.resolve(v);
        assert(d.has_block(self.new_entry()));
        match self.src.raw_kind(r) {
            ValueType::Arg(o) => {
                if self.renames.contains_key(RenameSource::Value(r)) {
                    self.lemma_dest_stable(d0, d, d2, self.renames[RenameSource::Value(r)]);
                } else if self.scope.contains(o) {
                    let i = self.scope.index_of(o);
                    assert(d.has_block(self.copy_of(i)));
                }
            },
            ValueType::Block(b) => {
                if self.renames.contains_key(RenameSource::Block(b)) {
                    self.lemma_dest_stable(d0, d, d2, self.renames[RenameSource::Block(b)]);
                } else {
                    let i = self.scope.index_of(b);
                    assert(d.has_block(self.copy_of(i)));
                }
            },
            _ => {},
        }
    }

    proof fn lemma_dest_stable(
        self,
        d0: FunctionView,
        d: FunctionView,
        d2: FunctionView,
        dest: RenameDest,
    )
        requires
            self.ok(d0),
            dest_valid(d0, self.num_args, dest),
            d0.extended_by(d),
            d.blocks.len() == self.base + 1 + self.scope.len(),
            self.shape_kept(d, d2),
        ensures
            self.dest_value(d2, dest) == self.dest_value(d, dest),
    {
        assert(d.has_block(self.new_entry()));
        match dest {
            RenameDest::Block(b) => {
                assert(d.has_block(b));
            },
            _ => {},
        }
    }

    /// A body that was copied stays copied while other bodies are.
    proof fn lemma_body_stable(
        self,
        d0: FunctionView,
        d: FunctionView,
        d2: FunctionView,
        from: Block,
        to: Block,
    )
        requires
            self.ok(d0),
            self.copied(from),
            self.body_copied(d, from, to),
            d0.extended_by(d),
            d.blocks.len() == self.base + 1 + self.scope.len(),
            self.shape_kept(d, d2),
            d2.block(to) == d.block(to),
        ensures
            self.body_copied(d2, from, to),
    {
        assert forall|j: int| 0 <= j < self.src.block(from).reads.len() implies self.maps_to(
            d2,
            self.src.block(from).reads[j],
            #[trigger] d2.block(to).reads[j],
        ) by {
            self.lemma_reads_readable(d0, from, j);
            assert(self.maps_to(d, self.src.block(from).reads[j], d.block(to).reads[j]));
            self.lemma_maps_to_stable(
                d0,
                d,
                d2,
                self.src.block(from).reads[j],
                d.block(to).reads[j],
            );
        }
    }

    /// Every read of a copied block is readable, and the block is one of
    /// the source.
    proof fn lemma_reads_readable_block(self, d0: FunctionView, b: Block)
        requires
            self.ok(d0),
            self.copied(b),
        ensures
            self.src.has_block(b),
            self.src.block(b).op is Some,
    {
        if self.scope.contains(b) {
            let i = choose|i: int| 0 <= i < self.scope.len() && self.scope[i] == b;
            assert(self.src.has_block(self.scope[i]));
        }
        assert(crate::fun::mangle_model::is_copied(self.src, self.stop(), self.entry, b));
    }

    proof fn lemma_shape_trans(self, a: FunctionView, b: FunctionView, c: FunctionView)
        requires
            self.shape_kept(a, b),
            self.shape_kept(b, c),
        ensures
            self.shape_kept(a, c),
    {
        assert forall|x: Block| #[trigger] a.has_block(x) implies c.block(x).args == a.block(x).args
            && c.block(x).value == a.block(x).value by {
            assert(b.has_block(x));
        }
        assert forall|i: int| 0 <= i < a.values.len() implies #[trigger] c.values[i]
            == a.values[i] by {
            assert(b.values[i] == a.values[i]);
        }
    }

    /// Interning the term of a source constant keeps what holds while
    /// bodies are copied, and the value that holds the term is what the
    /// constant maps to.
    proof fn lemma_interned_inv(
        self,
        d0: FunctionView,
        al: FunctionView,
        d: FunctionView,
        cs: Set<int>,
        term: crate::constant::ConstantTerm,
        val: Value,
    )
        requires
            self.ok(d0),
            self.across,
            self.copy_inv(d0, al, d, cs),
            self.src.has_value(val),
            self.src.raw_kind(val) == ValueType::Constant(term),
            d.constant_of(term) is Some || d.values.len() < u32::MAX,
        ensures
            self.copy_inv(
                d0,
                al,
                d.interned(term),
                if d.constant_of(term) is None {
                    cs.insert(val.idx())
                } else {
                    cs
                },
            ),
            self.shape_kept(d, d.interned(term)),
            d.interned(term).blocks == d.blocks,
            d.interned(term).is_constant(d.intern_value(term), term),
            d.interned(term).has_value(d.intern_value(term)),
    {
        let d2 = d.interned(term);
        d.lemma_interned_wf(term);
        d.lemma_constant_of(term);
        if d.constant_of(term) is None {
            let cs2 = cs.insert(val.idx());
            assert(!cs.contains(val.idx())) by {
                if cs.contains(val.idx()) {
                    assert(self.is_interned(d, val.idx()));
                }
            }
            assert forall|v: Value|
                d0.values.len() <= v.idx() && #[trigger] d2.has_value(v) implies self.new_value_ok(
                d2,
                v,
            ) by {
                if v.idx() < d.values.len() {
                    assert(d.has_value(v));
                    assert(self.new_value_ok(d, v));
                }
            }
            assert forall|x: int| #[trigger] cs2.contains(x) implies 0 <= x
                < self.src.values.len() && self.is_interned(d2, x) by {
                if x == val.idx() {
                    assert(d2.is_constant(d.next_value(), term));
                } else {
                    assert(cs.contains(x));
                    assert(self.is_interned(d, x));
                    match self.src.values[x] {
                        ValueType::Constant(t) => {
                            d.lemma_constant_of(t);
                            let w = d.constant_of(t)->0;
                            assert(d2.is_constant(w, t));
                        },
                        _ => {},
                    }
                }
            }
            assert forall|i: int| 0 <= i < al.values.len() implies #[trigger] d2.values[i]
                == al.values[i] by {
                assert(d.values[i] == al.values[i]);
            }
            assert forall|b: Block| #[trigger] al.has_block(b) implies d2.block(b).args
                == al.block(b).args && d2.block(b).value == al.block(b).value by {
                assert(d.block(b).args == al.block(b).args);
            }
        }
    }

    /// What the rename maps hold for a read is what the read maps to.
    proof fn lemma_lookup(
        self,
        d0: FunctionView,
        al: FunctionView,
        d: FunctionView,
        vm: Map<u32, RenameDest>,
        bm: Map<u32, RenameDest>,
        v: Value,
        dest: RenameDest,
    )
        requires
            self.ok(d0),
            exists|cs: Set<int>| self.copy_inv(d0, al, d, cs),
            self.blocks_mapped(bm, self.scope.len() as int),
            self.values_mapped(vm, al, self.scope.len() as int, 0),
            self.readable(v),
            match self.src.kind(v) {
                ValueType::Arg(_) => vm.contains_key(self.src.resolve(v).0) && dest
                    == vm[self.src.resolve(v).0],
                ValueType::Block(b) => bm.contains_key(b.0) && dest == bm[b.0],
                _ => false,
            },
        ensures
            self.maps_to(d, v, self.dest_value(d, dest)),
            d.has_value(self.dest_value(d, dest)),
            match dest {
                RenameDest::Value(w) => true,
                RenameDest::EntryArg(a) => a.0 < d.block(self.new_entry()).args.len(),
                RenameDest::Block(b) => d.has_block(b),
            },
    {
        let src = self.src;
        let n = self.scope.len() as int;
        let r = src.resolve(v);
        src.lemma_resolve(v);
        assert(r == Value(r.0));
        assert(src.value_wf(r));
        assert(d.has_block(self.new_entry()));
        assert(al.has_block(self.new_entry()));
        assert(d.block_wf(self.new_entry()));
        assert(self.scope.take(n) =~= self.scope);
        match src.raw_kind(r) {
            ValueType::Arg(o) => {
                if self.renames.contains_key(RenameSource::Value(r)) {
                    assert(dest == self.renames[RenameSource::Value(r)]);
                    self.lemma_dest_valid(d0, d, dest);
                } else {
                    assert(self.arg_at(n, 0, r));
                    let (i, j) = choose|i: int, j: int| #[trigger]
                        self.arg_done(n, 0, i, j) && src.block(self.scope[i]).args[j] == r;
                    assert(src.has_block(self.scope[i]));
                    assert(src.block_wf(self.scope[i]));
                    assert(o == self.scope[i]);
                    lemma_index_of(self.scope, i);
                    lemma_index_of(src.block(o).args, j);
                    assert(dest == RenameDest::Value(al.block(self.copy_of(i)).args[j]));
                    assert(al.has_block(self.copy_of(i)));
                    assert(d.has_block(self.copy_of(i)));
                    assert(d.block_wf(self.copy_of(i)));
                    assert(d.block(self.copy_of(i)).args == al.block(self.copy_of(i)).args);
                    assert(self.src.block(self.scope[i]).args.len() == al.block(
                        self.copy_of(i),
                    ).args.len());
                    assert(d.has_value(d.block(self.copy_of(i)).args[j]));
                }
            },
            ValueType::Block(b) => {
                assert(b == Block(b.0));
                if self.renames.contains_key(RenameSource::Block(b)) {
                    assert(dest == self.renames[RenameSource::Block(b)]);
                    self.lemma_dest_valid(d0, d, dest);
                } else {
                    let i = choose|i: int| 0 <= i < self.scope.len() && self.scope[i] == b;
                    lemma_index_of(self.scope, i);
                    assert(bm[self.scope[i].0] == RenameDest::Block(self.copy_of(i)));
                    assert(d.has_block(self.copy_of(i)));
                    assert(d.block_wf(self.copy_of(i)));
                }
            },
            _ => {},
        }
    }

    /// Every copy has as many arguments as its block.
    spec fn args_copied(self, al: FunctionView) -> bool {
        forall|i: int|
            0 <= i < self.scope.len() ==> al.block(#[trigger] self.copy_of(i)).args.len()
                == self.src.block(self.scope[i]).args.len()
    }

    /// A valid rename destination stands for a value of the destination.
    proof fn lemma_dest_valid(self, d0: FunctionView, d: FunctionView, dest: RenameDest)
        requires
            self.ok(d0),
            dest_valid(d0, self.num_args, dest),
            d.wf(),
            d0.extended_by(d),
            d.blocks.len() == self.base + 1 + self.scope.len(),
            d.block(self.new_entry()).args.len() == self.num_args,
        ensures
            d.has_value(self.dest_value(d, dest)),
            match dest {
                RenameDest::Value(w) => true,
                RenameDest::EntryArg(a) => a.0 < d.block(self.new_entry()).args.len(),
                RenameDest::Block(b) => d.has_block(b),
            },
    {
        assert(d.has_block(self.new_entry()));
        assert(d.block_wf(self.new_entry()));
        match dest {
            RenameDest::Block(b) => {
                assert(d.has_block(b));
                assert(d.block_wf(b));
            },
            RenameDest::EntryArg(a) => {
                assert(d.has_value(d.block(self.new_entry()).args[a.0 as int]));
            },
            _ => {},
        }
    }

    /// Writing the mapped reads to a new block copies the body and keeps
    /// what holds while bodies are copied.
    proof fn lemma_body_written(
        self,
        d0: FunctionView,
        al: FunctionView,
        d: FunctionView,
        cs: Set<int>,
        from: Block,
        to: Block,
        mapped: Seq<Value>,
    )
        requires
            self.ok(d0),
            self.copy_inv(d0, al, d, cs),
            self.copied(from),
            self.src.has_block(from),
            self.src.block(from).op is Some,
            self.base <= to.idx() < d.blocks.len(),
            mapped.len() == self.src.block(from).reads.len(),
            forall|i: int|
                0 <= i < mapped.len() ==> self.maps_to(
                    d,
                    self.src.block(from).reads[i],
                    #[trigger] mapped[i],
                ) && d.has_value(mapped[i]),
        ensures
            self.copy_inv(
                d0,
                al,
                d.with_span(to, self.src.block(from).span).with_body(
                    to,
                    self.src.block(from).op->0,
                    mapped,
                ),
                cs,
            ),
            self.shape_kept(
                d,
                d.with_span(to, self.src.block(from).span).with_body(
                    to,
                    self.src.block(from).op->0,
                    mapped,
                ),
            ),
            self.body_copied(
                d.with_span(to, self.src.block(from).span).with_body(
                    to,
                    self.src.block(from).op->0,
                    mapped,
                ),
                from,
                to,
            ),
            forall|b: Block|
                b != to && #[trigger] d.has_block(b) ==> d.with_span(
                    to,
                    self.src.block(from).span,
                ).with_body(to, self.src.block(from).op->0, mapped).block(b) == d.block(b),
    {
        let span = self.src.block(from).span;
        let op = self.src.block(from).op->0;
        let d1 = d.with_span(to, span);
        let d2 = d1.with_body(to, op, mapped);
        assert(d.has_block(to));
        d.lemma_with_span_wf(to, span);
        d1.lemma_with_body_wf(to, op, mapped);
        assert forall|b: Block| #[trigger] d.has_block(b) implies d2.block(b).args == d.block(
            b,
        ).args && d2.block(b).value == d.block(b).value by {}
        assert(self.shape_kept(d, d2));
        assert forall|b: Block| #[trigger] al.has_block(b) implies d2.block(b).args == al.block(
            b,
        ).args && d2.block(b).value == al.block(b).value by {
            assert(d.has_block(b));
            assert(d.block(b).args == al.block(b).args);
        }
        assert forall|v: Value|
            d0.values.len() <= v.idx() && #[trigger] d2.has_value(v) implies self.new_value_ok(
            d2,
            v,
        ) by {
            assert(d.has_value(v));
            assert(self.new_value_ok(d, v));
        }
        assert forall|x: int| #[trigger] cs.contains(x) implies 0 <= x < self.src.values.len()
            && self.is_interned(d2, x) by {
            assert(self.is_interned(d, x));
            match self.src.values[x] {
                ValueType::Constant(t) => {
                    let w = choose|w: Value| d.is_constant(w, t);
                    assert(d2.is_constant(w, t));
                },
                _ => {},
            }
        }
        assert forall|i: int| 0 <= i < d0.blocks.len() implies #[trigger] d2.blocks[i]
            == d0.blocks[i] by {
            assert(d.blocks[i] == d0.blocks[i]);
        }
        assert forall|j: int| 0 <= j < self.src.block(from).reads.len() implies self.maps_to(
            d2,
            self.src.block(from).reads[j],
            #[trigger] d2.block(to).reads[j],
        ) by {
            self.lemma_reads_readable(d0, from, j);
            self.lemma_maps_to_stable(d0, d, d2, self.src.block(from).reads[j], mapped[j]);
        }
    }

    /// No more arguments have a copy than the source has values.
    proof fn lemma_used_bound(self, k: int, jj: int)
        ensures
            self.used(k, jj).finite(),
            self.used(k, jj).len() <= self.src.values.len(),
    {
        let range = vstd::set_lib::set_int_range(0, self.src.values.len() as int);
        vstd::set_lib::lemma_int_range(0, self.src.values.len() as int);
        assert(self.used(k, jj).subset_of(range));
        vstd::set_lib::lemma_len_subset(self.used(k, jj), range);
    }

    /// An argument of a block of the scope belongs to that block alone, at
    /// one position.
    proof fn lemma_arg_owner(self, d0: FunctionView, i: int, j: int, i2: int, j2: int)
        requires
            self.ok(d0),
            0 <= i < self.scope.len(),
            0 <= j < self.src.block(self.scope[i]).args.len(),
            0 <= i2 < self.scope.len(),
            0 <= j2 < self.src.block(self.scope[i2]).args.len(),
            self.src.block(self.scope[i]).args[j] == self.src.block(self.scope[i2]).args[j2],
        ensures
            i == i2,
            j == j2,
    {
        assert(self.src.has_block(self.scope[i]));
        assert(self.src.block_wf(self.scope[i]));
        assert(self.src.has_block(self.scope[i2]));
        assert(self.src.block_wf(self.scope[i2]));
        assert(self.src.args_disjoint());
        assert(self.scope[i] == self.scope[i2]);
    }

    /// The step from `jj` to `jj + 1` arguments of block `k` adds exactly
    /// the argument at position `jj`.
    proof fn lemma_arg_step(self, d0: FunctionView, k: int, jj: int)
        requires
            self.ok(d0),
            0 <= k < self.scope.len(),
            0 <= jj < self.src.block(self.scope[k]).args.len(),
        ensures
            !self.arg_at(k, jj, self.src.block(self.scope[k]).args[jj]),
            forall|a: Value|
                self.arg_at(k, jj + 1, a) <==> self.arg_at(k, jj, a) || a == self.src.block(
                    self.scope[k],
                ).args[jj],
            self.used(k, jj + 1) == self.used(k, jj).insert(
                self.src.block(self.scope[k]).args[jj].idx(),
            ),
            !self.used(k, jj).contains(self.src.block(self.scope[k]).args[jj].idx()),
    {
        let a0 = self.src.block(self.scope[k]).args[jj];
        assert(self.src.has_block(self.scope[k]));
        assert(self.src.block_wf(self.scope[k]));
        assert(self.src.has_value(a0));
        assert(a0 == Value(a0.idx() as u32));
        if self.arg_at(k, jj, a0) {
            let (i, j) = choose|i: int, j: int| #[trigger]
                self.arg_done(k, jj, i, j) && self.src.block(self.scope[i]).args[j] == a0;
            self.lemma_arg_owner(d0, i, j, k, jj);
        }
        assert forall|a: Value|
            self.arg_at(k, jj + 1, a) <==> self.arg_at(k, jj, a) || a == a0 by {
            if self.arg_at(k, jj + 1, a) {
                let (i, j) = choose|i: int, j: int| #[trigger]
                    self.arg_done(k, jj + 1, i, j) && self.src.block(self.scope[i]).args[j] == a;
                if !(i == k && j == jj) {
                    assert(self.arg_done(k, jj, i, j));
                }
            }
            if self.arg_at(k, jj, a) {
                let (i, j) = choose|i: int, j: int| #[trigger]
                    self.arg_done(k, jj, i, j) && self.src.block(self.scope[i]).args[j] == a;
                assert(self.arg_done(k, jj + 1, i, j));
            }
            if a == a0 {
                assert(self.arg_done(k, jj + 1, k, jj));
            }
        }
        assert(self.used(k, jj + 1) =~= self.used(k, jj).insert(a0.idx())) by {
            assert forall|x: int|
                self.used(k, jj + 1).contains(x) <==> self.used(k, jj).insert(
                    a0.idx(),
                ).contains(x) by {
                if 0 <= x < self.src.values.len() {
                    if Value(x as u32) == a0 {
                        assert(x == a0.idx());
                    }
                }
            }
        }
    }

    /// Inserting the copy of block `k` and its rename keeps what holds
    /// during allocation.
    proof fn lemma_alloc_block(
        self,
        d0: FunctionView,
        d: FunctionView,
        bm: Map<u32, RenameDest>,
        vm: Map<u32, RenameDest>,
        k: int,
    )
        requires
            self.ok(d0),
            0 <= k < self.scope.len(),
            self.alloc_inv(d0, d, k, k, 0),
            self.blocks_mapped(bm, k),
            self.values_mapped(vm, d, k, 0),
            d.blocks.len() < u32::MAX,
            d.values.len() < u32::MAX,
        ensures
            self.alloc_inv(d0, d.block_inserted(), k, k + 1, 0),
            self.blocks_mapped(
                bm.insert(self.scope[k].0, RenameDest::Block(self.copy_of(k))),
                k + 1,
            ),
            self.values_mapped(vm, d.block_inserted(), k, 0),
            !self.across ==> self.src.extended_by(d.block_inserted()),
    {
        let d2 = d.block_inserted();
        let bm2 = bm.insert(self.scope[k].0, RenameDest::Block(self.copy_of(k)));
        d.lemma_block_inserted_wf();
        assert(d2.block(self.new_entry()) == d.block(self.new_entry()));
        assert forall|i: int| 0 <= i < k + 1 implies d2.block(#[trigger] self.copy_of(i)).args.len()
            == if i < k {
            self.src.block(self.scope[i]).args.len() as int
        } else {
            0
        } by {
            if i < k {
                assert(d2.block(self.copy_of(i)) == d.block(self.copy_of(i)));
            }
        }
        assert forall|v: Value|
            d0.values.len() <= v.idx() && #[trigger] d2.has_value(v) implies self.new_value_ok(
            d2,
            v,
        ) by {
            if v.idx() < d.values.len() {
                assert(d.has_value(v));
                assert(self.new_value_ok(d, v));
            }
        }
        let t0 = self.scope.take(k);
        let t1 = self.scope.take(k + 1);
        assert(t1 =~= t0.push(self.scope[k]));
        assert forall|x: u32| #[trigger]
            bm2.contains_key(x) <==> self.renames.contains_key(RenameSource::Block(Block(x)))
                || t1.contains(Block(x)) by {
            assert(bm.contains_key(x) <==> self.renames.contains_key(
                RenameSource::Block(Block(x)),
            ) || t0.contains(Block(x)));
            assert(self.scope[k] == Block(self.scope[k].0));
            if t0.contains(Block(x)) {
                let i = choose|i: int| 0 <= i < t0.len() && t0[i] == Block(x);
                assert(t1[i] == Block(x));
            }
            if x == self.scope[k].0 {
                assert(t1[k] == Block(x));
            }
            if t1.contains(Block(x)) {
                let i = choose|i: int| 0 <= i < t1.len() && t1[i] == Block(x);
                if i < k {
                    assert(t0[i] == Block(x));
                }
            }
        }
        assert forall|x: u32|
            self.renames.contains_key(RenameSource::Block(Block(x))) implies #[trigger] bm2[x]
            == self.renames[RenameSource::Block(Block(x))] by {
            assert(self.scope[k] == Block(self.scope[k].0));
            assert(bm[x] == self.renames[RenameSource::Block(Block(x))]);
        }
        assert forall|i: int| 0 <= i < k + 1 implies bm2[(#[trigger] self.scope[i]).0]
            == RenameDest::Block(self.copy_of(i)) by {
            if i < k {
                assert(self.scope[i] != self.scope[k]);
                assert(bm[self.scope[i].0] == RenameDest::Block(self.copy_of(i)));
            }
        }
        assert forall|i: int, j: int| #[trigger]
            self.arg_done(k, 0, i, j) && !self.renames.contains_key(
                RenameSource::Value(self.src.block(self.scope[i]).args[j]),
            ) implies vm[self.src.block(self.scope[i]).args[j].0] == RenameDest::Value(
            d2.block(self.copy_of(i)).args[j],
        ) by {
            assert(d2.block(self.copy_of(i)) == d.block(self.copy_of(i)));
        }
    }

    /// Inserting the copy of argument `jj` of block `k` and, unless the
    /// argument is renamed already, its rename keeps what holds during
    /// allocation.
    proof fn lemma_alloc_arg(
        self,
        d0: FunctionView,
        d: FunctionView,
        vm: Map<u32, RenameDest>,
        vm2: Map<u32, RenameDest>,
        k: int,
        jj: int,
    )
        requires
            self.ok(d0),
            0 <= k < self.scope.len(),
            0 <= jj < self.src.block(self.scope[k]).args.len(),
            self.alloc_inv(d0, d, k, k + 1, jj),
            self.values_mapped(vm, d, k, jj),
            d.values.len() < u32::MAX,
            vm2 == if vm.contains_key(self.src.block(self.scope[k]).args[jj].0) {
                vm
            } else {
                vm.insert(
                    self.src.block(self.scope[k]).args[jj].0,
                    RenameDest::Value(d.next_value()),
                )
            },
        ensures
            self.alloc_inv(d0, d.arg_inserted(self.copy_of(k)), k, k + 1, jj + 1),
            self.values_mapped(vm2, d.arg_inserted(self.copy_of(k)), k, jj + 1),
            !self.across ==> self.src.extended_by(d.arg_inserted(self.copy_of(k))),
    {
        let c = self.copy_of(k);
        let d2 = d.arg_inserted(c);
        let a0 = self.src.block(self.scope[k]).args[jj];
        assert(d.has_block(c));
        d.lemma_arg_inserted_wf(c);
        self.lemma_arg_step(d0, k, jj);
        self.lemma_used_bound(k, jj);
        assert(a0 == Value(a0.0));
        assert(d2.block(self.new_entry()) == d.block(self.new_entry()));
        assert forall|i: int| 0 <= i < k + 1 implies d2.block(#[trigger] self.copy_of(i)).args.len()
            == if i < k {
            self.src.block(self.scope[i]).args.len() as int
        } else {
            jj + 1
        } by {
            if i < k {
                assert(d2.block(self.copy_of(i)) == d.block(self.copy_of(i)));
            } else {
                assert(d.block(self.copy_of(i)).args.len() == jj);
            }
        }
        assert forall|v: Value|
            d0.values.len() <= v.idx() && #[trigger] d2.has_value(v) implies self.new_value_ok(
            d2,
            v,
        ) by {
            if v.idx() < d.values.len() {
                assert(d.has_value(v));
                assert(self.new_value_ok(d, v));
            }
        }
        assert forall|x: u32| #[trigger]
            vm2.contains_key(x) <==> self.renames.contains_key(RenameSource::Value(Value(x)))
                || self.arg_at(k, jj + 1, Value(x)) by {
            assert(vm.contains_key(x) <==> self.renames.contains_key(
                RenameSource::Value(Value(x)),
            ) || self.arg_at(k, jj, Value(x)));
        }
        assert forall|x: u32|
            self.renames.contains_key(RenameSource::Value(Value(x))) implies #[trigger] vm2[x]
            == self.renames[RenameSource::Value(Value(x))] by {
            assert(vm[x] == self.renames[RenameSource::Value(Value(x))]);
            assert(vm.contains_key(x));
        }
        assert forall|i: int, j: int| #[trigger]
            self.arg_done(k, jj + 1, i, j) && !self.renames.contains_key(
                RenameSource::Value(self.src.block(self.scope[i]).args[j]),
            ) implies vm2[self.src.block(self.scope[i]).args[j].0] == RenameDest::Value(
            d2.block(self.copy_of(i)).args[j],
        ) by {
            let a = self.src.block(self.scope[i]).args[j];
            assert(a == Value(a.0));
            if i == k && j == jj {
                assert(!self.arg_at(k, jj, a0));
                assert(!vm.contains_key(a0.0));
                assert(d2.block(c).args[jj] == d.next_value());
            } else {
                assert(self.arg_done(k, jj, i, j));
                assert(self.arg_at(k, jj, a));
                assert(a != a0);
                assert(a.0 != a0.0);
                assert(vm[a.0] == RenameDest::Value(d.block(self.copy_of(i)).args[j]));
                if i < k {
                    assert(d2.block(self.copy_of(i)) == d.block(self.copy_of(i)));
                } else {
                    assert(d2.block(c).args[j] == d.block(c).args[j]);
                }
            }
        }
    }

    /// With all arguments of block `k` done, allocation stands at block
    /// `k + 1`.
    proof fn lemma_alloc_block_done(
        self,
        d0: FunctionView,
        d: FunctionView,
        vm: Map<u32, RenameDest>,
        k: int,
    )
        requires
            self.ok(d0),
            0 <= k < self.scope.len(),
            self.alloc_inv(d0, d, k, k + 1, self.src.block(self.scope[k]).args.len() as int),
            self.values_mapped(vm, d, k, self.src.block(self.scope[k]).args.len() as int),
        ensures
            self.alloc_inv(d0, d, k + 1, k + 1, 0),
            self.values_mapped(vm, d, k + 1, 0),
    {
        let n = self.src.block(self.scope[k]).args.len() as int;
        self.lemma_block_step(k);
        assert forall|i: int| 0 <= i < k + 1 implies d.block(#[trigger] self.copy_of(i)).args.len()
            == if i < k + 1 {
            self.src.block(self.scope[i]).args.len() as int
        } else {
            0
        } by {
            assert(d.block(self.copy_of(i)).args.len() == if i < k {
                self.src.block(self.scope[i]).args.len() as int
            } else {
                n
            });
        }
        assert forall|i: int, j: int| #[trigger]
            self.arg_done(k + 1, 0, i, j) && !self.renames.contains_key(
                RenameSource::Value(self.src.block(self.scope[i]).args[j]),
            ) implies vm[self.src.block(self.scope[i]).args[j].0] == RenameDest::Value(
            d.block(self.copy_of(i)).args[j],
        ) by {
            assert(self.arg_done(k, n, i, j));
        }
    }

    /// Block `k` with all its arguments done is the same state as block
    /// `k + 1` with none.
    proof fn lemma_block_step(self, k: int)
        requires
            0 <= k < self.scope.len(),
        ensures
            forall|a: Value|
                self.arg_at(k, self.src.block(self.scope[k]).args.len() as int, a)
                    <==> self.arg_at(k + 1, 0, a),
            forall|i: int, j: int|
                self.arg_done(k, self.src.block(self.scope[k]).args.len() as int, i, j)
                    <==> self.arg_done(k + 1, 0, i, j),
            self.used(k, self.src.block(self.scope[k]).args.len() as int) == self.used(k + 1, 0),
    {
        let n = self.src.block(self.scope[k]).args.len() as int;
        assert forall|a: Value| self.arg_at(k, n, a) <==> self.arg_at(k + 1, 0, a) by {
            if self.arg_at(k, n, a) {
                let (i, j) = choose|i: int, j: int| #[trigger]
                    self.arg_done(k, n, i, j) && self.src.block(self.scope[i]).args[j] == a;
                assert(self.arg_done(k + 1, 0, i, j));
            }
            if self.arg_at(k + 1, 0, a) {
                let (i, j) = choose|i: int, j: int| #[trigger]
                    self.arg_done(k + 1, 0, i, j) && self.src.block(self.scope[i]).args[j] == a;
                assert(self.arg_done(k, n, i, j));
            }
        }
        assert(self.used(k, n) =~= self.used(k + 1, 0));
    }
}

} // verus!
