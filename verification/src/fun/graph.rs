//! The block graph of a function: an edge leads from a block to each block
//! that one of its reads refers to.

use crate::entity::{Block, Value};
use crate::fun::model::FunctionView;
use crate::fun::{Function, ValueType};
use vstd::prelude::*;

verus! {

impl FunctionView {
    /// The blocks that the values of `vs` refer to, in the order of `vs`.
    pub open spec fn blocks_among(self, vs: Seq<Value>) -> Seq<Block>
        decreases vs.len(),
    {
        if vs.len() == 0 {
            Seq::empty()
        } else {
            let rest = self.blocks_among(vs.drop_last());
            match self.kind(vs.last()) {
                ValueType::Block(b) => rest.push(b),
                _ => rest,
            }
        }
    }

    /// The blocks that control can reach from `b` in one step: those that
    /// the reads of `b` refer to.
    pub open spec fn successors(self, b: Block) -> Seq<Block> {
        self.blocks_among(self.block(b).reads)
    }

    /// There is an edge from `a` to `b`.
    pub open spec fn has_edge(self, a: Block, b: Block) -> bool {
        self.has_block(a) && self.successors(a).contains(b)
    }

    /// A block is among `blocks_among(vs)` exactly when one of `vs` refers to it.
    pub proof fn lemma_blocks_among(self, vs: Seq<Value>, b: Block)
        ensures
            self.blocks_among(vs).contains(b) <==> exists|i: int|
                0 <= i < vs.len() && self.kind(#[trigger] vs[i]) == ValueType::Block(b),
        decreases vs.len(),
    {
        if vs.len() == 0 {
        } else {
            let rest = self.blocks_among(vs.drop_last());
            self.lemma_blocks_among(vs.drop_last(), b);
            let last = vs.len() - 1;
            if self.blocks_among(vs).contains(b) {
                if rest.contains(b) {
                    let i = choose|i: int|
                        0 <= i < vs.drop_last().len() && self.kind(#[trigger] vs.drop_last()[i])
                            == ValueType::Block(b);
                    assert(vs[i] == vs.drop_last()[i]);
                } else {
                    let k = choose|k: int|
                        0 <= k < self.blocks_among(vs).len() && self.blocks_among(vs)[k] == b;
                    match self.kind(vs.last()) {
                        ValueType::Block(c) => {
                            if k < rest.len() {
                                assert(rest[k] == b);
                            }
                            assert(self.kind(vs[last]) == ValueType::Block(b));
                        },
                        _ => {},
                    }
                }
            }
            if exists|i: int|
                0 <= i < vs.len() && self.kind(#[trigger] vs[i]) == ValueType::Block(b) {
                let i = choose|i: int|
                    0 <= i < vs.len() && self.kind(#[trigger] vs[i]) == ValueType::Block(b);
                if i < last {
                    assert(vs.drop_last()[i] == vs[i]);
                    assert(rest.contains(b));
                    let k = choose|k: int| 0 <= k < rest.len() && rest[k] == b;
                    match self.kind(vs.last()) {
                        ValueType::Block(c) => {
                            assert(rest.push(c)[k] == b);
                        },
                        _ => {},
                    }
                } else {
                    assert(self.blocks_among(vs) == rest.push(b));
                    assert(rest.push(b)[rest.len() as int] == b);
                }
            }
        }
    }

    /// In a well-formed function every successor is a block of the function.
    pub proof fn lemma_successor_valid(self, a: Block, b: Block)
        requires
            self.wf(),
            self.has_edge(a, b),
        ensures
            self.has_block(b),
    {
        self.lemma_blocks_among(self.block(a).reads, b);
        let reads = self.block(a).reads;
        let i = choose|i: int|
            0 <= i < reads.len() && self.kind(#[trigger] reads[i]) == ValueType::Block(b);
        assert(self.block_wf(a));
        assert(self.has_value(reads[i]));
        self.lemma_resolve(reads[i]);
        assert(self.value_wf(self.resolve(reads[i])));
    }
}

/// A view of a function as a graph of blocks.
pub struct BlockGraph<'a> {
    fun: &'a Function,
}

impl<'a> BlockGraph<'a> {
    pub closed spec fn function(&self) -> Function {
        *self.fun
    }

    /// The successors of `block`: the blocks that its reads refer to, in the
    /// order of the reads.
    pub fn outgoing(&self, block: Block) -> (r: Vec<Block>)
        requires
            self.function().wf(),
            self.function()@.has_block(block),
        ensures
            r@ == self.function()@.successors(block),
    {
        let reads = self.fun.block_reads(block);
        let mut out: Vec<Block> = Vec::new();
        let n = reads.len();
        let mut i: usize = 0;
        proof {
            assert(self.fun@.block_wf(block));
            assert(reads@.take(0) =~= Seq::<Value>::empty());
        }
        while i < n
            invariant
                self.fun.wf(),
                self.fun@.has_block(block),
                reads@ == self.fun@.block(block).reads,
                n == reads@.len(),
                i <= n,
                out@ == self.fun@.blocks_among(reads@.take(i as int)),
            decreases n - i,
        {
            proof {
                assert(self.fun@.block_wf(block));
                assert(self.fun@.has_value(reads@[i as int]));
                assert(reads@.take(i + 1).drop_last() =~= reads@.take(i as int));
                assert(reads@.take(i + 1).last() == reads@[i as int]);
            }
            match self.fun.value_block(reads[i]) {
                Some(b) => {
                    out.push(b);
                },
                None => {},
            }
            i += 1;
        }
        proof {
            assert(reads@.take(n as int) =~= reads@);
        }
        out
    }
}

impl<'a> BlockGraph<'a> {
    /// Whether the reads of `from` refer to `to`.
    fn has_edge(&self, from: Block, to: Block) -> (r: bool)
        requires
            self.function().wf(),
            self.function()@.has_block(from),
        ensures
            r == self.function()@.has_edge(from, to),
    {
        let outs = self.outgoing(from);
        let n = outs.len();
        let mut i: usize = 0;
        while i < n
            invariant
                n == outs@.len(),
                outs@ == self.function()@.successors(from),
                self.function()@.has_block(from),
                i <= n,
                forall|k: int| 0 <= k < i ==> outs@[k] != to,
            decreases n - i,
        {
            if outs[i] == to {
                proof {
                    assert(outs@[i as int] == to);
                }
                return true;
            }
            i += 1;
        }
        false
    }

    /// The predecessors of `block`: the blocks whose reads refer to it, in
    /// increasing order, each once.
    pub fn incoming(&self, block: Block) -> (r: Vec<Block>)
        requires
            self.function().wf(),
        ensures
            forall|a: Block|
                r@.contains(a) <==> self.function()@.has_block(a) && #[trigger]
                    self.function()@.has_edge(a, block),
            forall|i: int, j: int|
                0 <= i < j < r@.len() ==> (#[trigger] r@[i]).idx() < (#[trigger] r@[j]).idx(),
    {
        let ghost fv = self.fun@;
        let n = self.fun.block_count();
        let mut out: Vec<Block> = Vec::new();
        let mut i: usize = 0;
        while i < n
            invariant
                self.fun.wf(),
                fv == self.fun@,
                n == fv.blocks.len(),
                n <= u32::MAX,
                i <= n,
                forall|a: Block|
                    out@.contains(a) <==> a.idx() < i && #[trigger] fv.has_edge(a, block),
                forall|x: int| 0 <= x < out@.len() ==> (#[trigger] out@[x]).idx() < i,
                forall|x: int, y: int|
                    0 <= x < y < out@.len() ==> (#[trigger] out@[x]).idx() < (
                    #[trigger] out@[y]).idx(),
            decreases n - i,
        {
            let from = Block(i as u32);
            let ghost before = out@;
            if self.has_edge(from, block) {
                out.push(from);
            }
            proof {
                assert forall|a: Block|
                    out@.contains(a) <==> a.idx() < i + 1 && #[trigger] fv.has_edge(a, block) by {
                    if before.contains(a) {
                        let k = choose|k: int| 0 <= k < before.len() && before[k] == a;
                        assert(out@[k] == a);
                    }
                    if out@.contains(a) {
                        let k = choose|k: int| 0 <= k < out@.len() && out@[k] == a;
                        if k < before.len() {
                            assert(before[k] == a);
                        }
                    }
                    if a.idx() < i + 1 && fv.has_edge(a, block) {
                        if a.idx() == i {
                            assert(a == from);
                            assert(out@[before.len() as int] == from);
                        } else {
                            assert(before.contains(a));
                        }
                    }
                }
            }
            i += 1;
        }
        out
    }
}

impl Function {
    /// The block graph of the function. Adjacency is computed on demand.
    pub fn block_graph(&self) -> (r: BlockGraph<'_>)
        ensures
            r.function() == *self,
    {
        BlockGraph { fun: self }
    }
}

} // verus!
