//! The scope stack of the lowering: frames of bindings from names to
//! values.

use crate::entity::Value;
use crate::intern::{Ident, Symbol};
use vstd::prelude::*;

verus! {

/// Stands for the frame that a `push` opened. Handing it to `pop` closes
/// the frame.
#[derive(Debug, Copy, Clone, PartialEq, Eq, Structural)]
pub struct ScopeToken {
    pub height: usize,
}

/// The value that the latest binding of `name` in `frame` gives.
pub open spec fn frame_lookup(frame: Seq<(Symbol, Value)>, name: Symbol) -> Option<Value>
    decreases frame.len(),
{
    if frame.len() == 0 {
        None
    } else if frame.last().0 == name {
        Some(frame.last().1)
    } else {
        frame_lookup(frame.drop_last(), name)
    }
}

/// The value that `name` resolves to: that of the innermost frame that
/// binds it.
pub open spec fn scope_lookup(frames: Seq<Seq<(Symbol, Value)>>, name: Symbol) -> Option<Value>
    decreases frames.len(),
{
    if frames.len() == 0 {
        None
    } else {
        match frame_lookup(frames.last(), name) {
            Some(v) => Some(v),
            None => scope_lookup(frames.drop_last(), name),
        }
    }
}

/// The frames after `name` was bound to `value` in the innermost frame.
pub open spec fn scope_bound(frames: Seq<Seq<(Symbol, Value)>>, name: Symbol, value: Value) -> Seq<
    Seq<(Symbol, Value)>,
> {
    frames.update(frames.len() - 1, frames.last().push((name, value)))
}

/// A stack of frames; the innermost frame is the last.
pub struct ScopeTracker {
    frames: Vec<Vec<(Symbol, Value)>>,
}

impl View for ScopeTracker {
    type V = Seq<Seq<(Symbol, Value)>>;

    closed spec fn view(&self) -> Seq<Seq<(Symbol, Value)>> {
        self.frames@.map_values(|f: Vec<(Symbol, Value)>| f@)
    }
}

impl ScopeTracker {
    /// A scope with one empty frame.
    pub fn new() -> (r: Self)
        ensures
            r@ == seq![Seq::<(Symbol, Value)>::empty()],
    {
        let mut frames: Vec<Vec<(Symbol, Value)>> = Vec::new();
        frames.push(Vec::new());
        let r = ScopeTracker { frames };
        proof {
            assert(r@ =~= seq![Seq::<(Symbol, Value)>::empty()]);
        }
        r
    }

    /// The number of open frames.
    pub fn height(&self) -> (r: usize)
        ensures
            r == self@.len(),
    {
        self.frames.len()
    }

    /// Opens an empty frame and returns its token.
    pub fn push(&mut self) -> (token: ScopeToken)
        ensures
            final(self)@ == old(self)@.push(Seq::empty()),
            token.height == final(self)@.len(),
    {
        let ghost before = self@;
        self.frames.push(Vec::new());
        proof {
            assert(self@ =~= before.push(Seq::empty()));
        }
        ScopeToken { height: self.frames.len() }
    }

    /// Closes the innermost frame, which must be the one that `token`
    /// stands for.
    pub fn pop(&mut self, token: ScopeToken)
        requires
            old(self)@.len() > 0,
            token.height == old(self)@.len(),
        ensures
            final(self)@ == old(self)@.drop_last(),
    {
        let ghost before = self@;
        self.frames.pop();
        proof {
            assert(self@ =~= before.drop_last());
        }
    }

    /// Binds `name` to `value` in the innermost frame.
    pub fn bind(&mut self, name: Ident, value: Value)
        requires
            old(self)@.len() > 0,
        ensures
            final(self)@ == scope_bound(old(self)@, name.name, value),
    {
        let ghost before = self@;
        let mut frame = self.frames.pop().unwrap();
        frame.push((name.name, value));
        self.frames.push(frame);
        proof {
            assert(self@ =~= scope_bound(before, name.name, value));
        }
    }

    /// The value that `name` is bound to, if it is bound.
    pub fn resolve(&self, name: Ident) -> (r: Option<Value>)
        ensures
            r == scope_lookup(self@, name.name),
    {
        let ghost all = self@;
        let ghost sym = name.name;
        let mut i = self.frames.len();
        proof {
            assert(all.take(i as int) =~= all);
        }
        while i > 0
            invariant
                all == self@,
                sym == name.name,
                i <= self.frames@.len(),
                scope_lookup(all, sym) == scope_lookup(all.take(i as int), sym),
            decreases i,
        {
            i -= 1;
            let frame = &self.frames[i];
            let mut j = frame.len();
            proof {
                assert(frame@.take(j as int) =~= frame@);
                assert(all.take(i + 1).last() == frame@);
                assert(all.take(i + 1).drop_last() =~= all.take(i as int));
            }
            while j > 0
                invariant
                    all == self@,
                    sym == name.name,
                    j <= frame@.len(),
                    all.take(i + 1).len() > 0,
                    all.take(i + 1).last() == frame@,
                    scope_lookup(all, sym) == scope_lookup(all.take(i + 1), sym),
                    frame_lookup(frame@, sym) == frame_lookup(frame@.take(j as int), sym),
                decreases j,
            {
                j -= 1;
                proof {
                    assert(frame@.take(j + 1).last() == frame@[j as int]);
                    assert(frame@.take(j + 1).drop_last() =~= frame@.take(j as int));
                }
                if frame[j].0 == name.name {
                    proof {
                        assert(frame_lookup(frame@.take(j + 1), sym) == Some(frame@[j as int].1));
                        assert(scope_lookup(all.take(i + 1), sym) == Some(frame@[j as int].1));
                    }
                    return Some(frame[j].1);
                }
            }
            proof {
                assert(frame@.take(0) =~= Seq::<(Symbol, Value)>::empty());
            }
        }
        proof {
            assert(all.take(0) =~= Seq::<Seq<(Symbol, Value)>>::empty());
        }
        None
    }
}

} // verus!
