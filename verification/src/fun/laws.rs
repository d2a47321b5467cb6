//! Laws of the function container: handles grow with every insertion, and
//! constants are interned.

use crate::constant::ConstantTerm;
use crate::entity::{Block, Value};
use crate::fun::model::FunctionView;
use vstd::prelude::*;

verus! {

/// A call that returns a handle.
pub enum Insertion {
    /// `block_insert()`, which returns a new block.
    Block,
    /// `block_arg_insert(b)`, which returns a new value.
    Arg(Block),
    /// `value(term)`, which returns the value of the constant: a new one
    /// or the one that holds the term already.
    Constant(ConstantTerm),
}

impl FunctionView {
    /// The function after one call.
    pub open spec fn inserted(self, step: Insertion) -> FunctionView {
        match step {
            Insertion::Block => self.block_inserted(),
            Insertion::Arg(b) => self.arg_inserted(b),
            Insertion::Constant(term) => self.interned(term),
        }
    }

    /// The function after a sequence of calls.
    pub open spec fn inserted_all(self, steps: Seq<Insertion>) -> FunctionView
        decreases steps.len(),
    {
        if steps.len() == 0 {
            self
        } else {
            self.inserted_all(steps.drop_last()).inserted(steps.last())
        }
    }

    /// Every argument insertion of `steps` names a block that exists when
    /// the insertion is made.
    pub open spec fn insertions_valid(self, steps: Seq<Insertion>) -> bool {
        forall|i: int|
            0 <= i < steps.len() ==> match #[trigger] steps[i] {
                Insertion::Arg(b) => self.inserted_all(steps.take(i)).has_block(b),
                _ => true,
            }
    }

    /// The index of the handle that call `i` of `steps` returns: the next
    /// block for a block insertion, the next value for an argument
    /// insertion, the value of the term for a constant.
    pub open spec fn returned_index(self, steps: Seq<Insertion>, i: int) -> int {
        let before = self.inserted_all(steps.take(i));
        match steps[i] {
            Insertion::Block => before.next_block().idx(),
            Insertion::Arg(_) => before.next_value().idx(),
            Insertion::Constant(term) => before.intern_value(term).idx(),
        }
    }

    /// A longer run of calls leaves no fewer blocks and values than a
    /// shorter one; one more block if the shorter one is followed by a
    /// block insertion, and one more value if it is followed by a block or
    /// an argument insertion.
    pub proof fn lemma_inserted_grow(self, steps: Seq<Insertion>, i: int, j: int)
        requires
            self.insertions_valid(steps),
            0 <= i < j <= steps.len(),
        ensures
            self.inserted_all(steps.take(i)).blocks.len() + (if steps[i] is Block {
                1int
            } else {
                0int
            }) <= self.inserted_all(steps.take(j)).blocks.len(),
            self.inserted_all(steps.take(i)).values.len() + (if steps[i] is Constant {
                0int
            } else {
                1int
            }) <= self.inserted_all(steps.take(j)).values.len(),
        decreases j - i,
    {
        let before = self.inserted_all(steps.take(j - 1));
        assert(steps.take(j).drop_last() =~= steps.take(j - 1));
        assert(steps.take(j).last() == steps[j - 1]);
        assert(self.inserted_all(steps.take(j)) == before.inserted(steps[j - 1]));
        match steps[j - 1] {
            Insertion::Arg(b) => {
                assert(before.has_block(b));
            },
            _ => {},
        }
        if i < j - 1 {
            self.lemma_inserted_grow(steps, i, j - 1);
        }
    }
}

/// In any sequence of block insertions, argument insertions and internings
/// of constants, the handles that two block insertions return are strictly
/// increasing in the order of the calls, and so are the handles that two
/// argument insertions return. A handle that an insertion returns is
/// therefore different from every handle of its kind that an earlier
/// insertion returned, and from every handle that existed before.
pub proof fn lemma_inserted_handles_increase(
    f: FunctionView,
    steps: Seq<Insertion>,
    i: int,
    j: int,
)
    requires
        f.insertions_valid(steps),
        f.inserted_all(steps).blocks.len() <= u32::MAX,
        f.inserted_all(steps).values.len() <= u32::MAX,
        0 <= i < j < steps.len(),
    ensures
        steps[i] is Block && steps[j] is Block ==> f.returned_index(steps, i) < f.returned_index(
            steps,
            j,
        ),
        steps[i] is Arg && steps[j] is Arg ==> f.returned_index(steps, i) < f.returned_index(
            steps,
            j,
        ),
        steps[j] is Block ==> f.returned_index(steps, j) >= f.blocks.len(),
        steps[j] is Arg ==> f.returned_index(steps, j) >= f.values.len(),
        steps[i] is Block ==> f.returned_index(steps, i) == f.inserted_all(
            steps.take(i),
        ).blocks.len(),
{
    f.lemma_inserted_grow(steps, i, j);
    assert(steps.take(steps.len() as int) =~= steps);
    f.lemma_inserted_grow(steps, j, steps.len() as int);
    f.lemma_inserted_grow(steps, i, steps.len() as int);
    assert(steps.take(0) =~= Seq::<Insertion>::empty());
    f.lemma_inserted_grow(steps, 0, j);
}

/// The number of block insertions among `steps`.
pub open spec fn block_insertions(steps: Seq<Insertion>) -> nat
    decreases steps.len(),
{
    if steps.len() == 0 {
        0
    } else {
        block_insertions(steps.drop_last()) + if steps.last() is Block {
            1nat
        } else {
            0nat
        }
    }
}

/// The values that the argument insertions on block `b` among `steps`
/// return, in the order of the calls, where `f` is the function before
/// the first call.
pub open spec fn inserted_args(f: FunctionView, steps: Seq<Insertion>, b: Block) -> Seq<Value>
    decreases steps.len(),
{
    if steps.len() == 0 {
        Seq::empty()
    } else {
        let init = inserted_args(f, steps.drop_last(), b);
        if steps.last() == Insertion::Arg(b) {
            init.push(f.inserted_all(steps.drop_last()).next_value())
        } else {
            init
        }
    }
}

/// The beginning of a valid sequence of calls is valid.
pub proof fn lemma_insertions_valid_take(f: FunctionView, steps: Seq<Insertion>, k: int)
    requires
        f.insertions_valid(steps),
        0 <= k <= steps.len(),
    ensures
        f.insertions_valid(steps.take(k)),
{
    assert forall|i: int| 0 <= i < k implies match #[trigger] steps.take(k)[i] {
        Insertion::Arg(b) => f.inserted_all(steps.take(k).take(i)).has_block(b),
        _ => true,
    } by {
        assert(steps.take(k).take(i) =~= steps.take(i));
        assert(steps.take(k)[i] == steps[i]);
    }
}

/// After a sequence of calls a block of the function has the arguments
/// that it had and after them the values that the argument insertions on
/// it returned, in the order of the calls.
pub proof fn lemma_inserted_args(f: FunctionView, steps: Seq<Insertion>, b: Block)
    requires
        f.insertions_valid(steps),
        f.has_block(b),
    ensures
        f.inserted_all(steps).has_block(b),
        f.inserted_all(steps).block(b).args == f.block(b).args + inserted_args(f, steps, b),
    decreases steps.len(),
{
    if steps.len() == 0 {
        assert(f.block(b).args + Seq::<Value>::empty() =~= f.block(b).args);
    } else {
        let init = steps.drop_last();
        assert(init =~= steps.take(steps.len() - 1));
        lemma_insertions_valid_take(f, steps, steps.len() - 1);
        lemma_inserted_args(f, init, b);
        let before = f.inserted_all(init);
        assert(steps[steps.len() - 1] == steps.last());
        match steps.last() {
            Insertion::Arg(c) => {
                assert(before.has_block(c));
                if c == b {
                    assert(before.arg_inserted(c).block(b).args =~= f.block(b).args
                        + inserted_args(f, steps, b));
                }
            },
            _ => {},
        }
    }
}

/// The block insertion that is call `i` of `steps` returns the block
/// whose index is the number of blocks before the first call plus the
/// number of block insertions before call `i`.
pub proof fn lemma_inserted_block_index(f: FunctionView, steps: Seq<Insertion>, i: int)
    requires
        f.insertions_valid(steps),
        f.inserted_all(steps).blocks.len() <= u32::MAX,
        0 <= i < steps.len(),
        steps[i] is Block,
    ensures
        f.returned_index(steps, i) == f.blocks.len() + block_insertions(steps.take(i)),
{
    lemma_insertions_valid_take(f, steps, i);
    assert(steps.take(steps.len() as int) =~= steps);
    f.lemma_inserted_grow(steps, i, steps.len() as int);
    lemma_inserted_block_count(f, steps.take(i));
}

/// A sequence of calls adds one block for each block insertion.
pub proof fn lemma_inserted_block_count(f: FunctionView, steps: Seq<Insertion>)
    requires
        f.insertions_valid(steps),
    ensures
        f.inserted_all(steps).blocks.len() == f.blocks.len() + block_insertions(steps),
    decreases steps.len(),
{
    if steps.len() > 0 {
        let init = steps.drop_last();
        assert(init =~= steps.take(steps.len() - 1));
        lemma_insertions_valid_take(f, steps, steps.len() - 1);
        lemma_inserted_block_count(f, init);
        assert(steps[steps.len() - 1] == steps.last());
        match steps.last() {
            Insertion::Arg(c) => {
                assert(f.inserted_all(init).has_block(c));
            },
            _ => {},
        }
    }
}

/// The values of `f` are values of `later`, unchanged.
pub open spec fn values_kept(f: FunctionView, later: FunctionView) -> bool {
    &&& f.values.len() <= later.values.len()
    &&& forall|i: int| 0 <= i < f.values.len() ==> #[trigger] later.values[i] == f.values[i]
}

/// After `t1` was interned, and whatever was done to the function since
/// that kept its values, interning `t2` returns the value of `t1` exactly
/// when the two terms are equal. The second interning of an equal term
/// adds no value.
pub proof fn lemma_interning(
    f: FunctionView,
    later: FunctionView,
    t1: ConstantTerm,
    t2: ConstantTerm,
)
    requires
        f.wf(),
        f.constant_of(t1) is Some || f.values.len() < u32::MAX,
        later.wf(),
        values_kept(f.interned(t1), later),
    ensures
        t1 == t2 <==> later.intern_value(t2) == f.intern_value(t1),
        t1 == t2 ==> later.interned(t2) == later,
        later.is_constant(f.intern_value(t1), t1),
{
    let v1 = f.intern_value(t1);
    f.lemma_interned_wf(t1);
    assert(f.interned(t1).is_constant(v1, t1));
    assert(later.is_constant(v1, t1));
    later.lemma_constant_of(t1);
    later.lemma_constant_of(t2);
}

} // verus!
