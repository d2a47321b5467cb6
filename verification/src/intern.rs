//! Interned names, identifiers and source spans.

use vstd::prelude::*;

verus! {

/// The symbol of the atom `false`.
pub const SYM_FALSE: u32 = 0;

/// The symbol of the atom `true`.
pub const SYM_TRUE: u32 = 1;

/// The symbol of the module name `erlang`.
pub const SYM_ERLANG: u32 = 2;

/// The symbol of the exact-equality operator `=:=`.
pub const SYM_EXACT_EQ: u32 = 3;

/// The symbol of the intrinsic `bool_and`.
pub const SYM_BOOL_AND: u32 = 4;

/// The symbol of the intrinsic `bool_or`.
pub const SYM_BOOL_OR: u32 = 5;

/// An interned name. Two symbols of one table are equal exactly when their
/// names are.
#[derive(Copy, Clone, Debug, PartialEq, Eq, Structural, Hash, PartialOrd, Ord)]
pub struct Symbol(pub u32);

/// A region of a source file. The span with all three parts zero is the
/// unknown span.
#[derive(Copy, Clone, Debug, PartialEq, Eq, Structural, Hash)]
pub struct SourceSpan {
    pub start: u32,
    pub end: u32,
    pub source_id: u32,
}

impl SourceSpan {
    pub open spec fn unknown_spec() -> SourceSpan {
        SourceSpan { start: 0, end: 0, source_id: 0 }
    }

    /// The sentinel for "no known location".
    pub fn unknown() -> (r: SourceSpan)
        ensures
            r == Self::unknown_spec(),
    {
        SourceSpan { start: 0, end: 0, source_id: 0 }
    }

    pub fn new(start: u32, end: u32, source_id: u32) -> (r: SourceSpan)
        ensures
            r == (SourceSpan { start, end, source_id }),
    {
        SourceSpan { start, end, source_id }
    }

    pub fn is_unknown(&self) -> (r: bool)
        ensures
            r == (*self == Self::unknown_spec()),
    {
        self.start == 0 && self.end == 0 && self.source_id == 0
    }
}

/// A name together with the place where it was written.
#[derive(Copy, Clone, Debug, PartialEq, Eq, Structural, Hash)]
pub struct Ident {
    pub name: Symbol,
    pub span: SourceSpan,
}

impl Ident {
    pub fn new(name: Symbol, span: SourceSpan) -> (r: Ident)
        ensures
            r == (Ident { name, span }),
    {
        Ident { name, span }
    }

    /// An identifier with the unknown span.
    pub fn with_empty_span(name: Symbol) -> (r: Ident)
        ensures
            r == (Ident { name, span: SourceSpan::unknown_spec() }),
    {
        Ident { name, span: SourceSpan::unknown() }
    }
}

/// Identity of a function: module, name and arity. Equality is by component.
#[derive(Copy, Clone, Debug, PartialEq, Eq, Structural, Hash)]
pub struct FunctionIdent {
    pub module: Ident,
    pub name: Ident,
    pub arity: usize,
}

/// The table of interned names. A name keeps the symbol that it got when
/// it was first interned; the names of the well-known symbols are in the
/// table from the start.
pub struct SymbolTable {
    names: Vec<String>,
}

impl View for SymbolTable {
    type V = Seq<Seq<char>>;

    closed spec fn view(&self) -> Seq<Seq<char>> {
        self.names@.map_values(|s: String| s@)
    }
}

/// The position of `name` in `names`, if it is there.
pub open spec fn position_of(names: Seq<Seq<char>>, name: Seq<char>) -> Option<int> {
    if names.contains(name) {
        Some(names.index_of(name))
    } else {
        None
    }
}

impl SymbolTable {
    /// No name is in the table twice, and every name has a 32-bit symbol.
    pub open spec fn wf(&self) -> bool {
        &&& self@.no_duplicates()
        &&& self@.len() <= u32::MAX
    }

    /// The names that every table starts with, at the positions of their
    /// symbols.
    pub open spec fn well_known() -> Seq<Seq<char>> {
        seq!["false"@, "true"@, "erlang"@, "=:="@, "bool_and"@, "bool_or"@]
    }

    /// A table that holds the well-known names only.
    pub fn new() -> (r: Self)
        ensures
            r.wf(),
            r@ == Self::well_known(),
    {
        let mut names: Vec<String> = Vec::new();
        names.push("false".to_owned());
        names.push("true".to_owned());
        names.push("erlang".to_owned());
        names.push("=:=".to_owned());
        names.push("bool_and".to_owned());
        names.push("bool_or".to_owned());
        let r = SymbolTable { names };
        proof {
            reveal_strlit("false");
            reveal_strlit("true");
            reveal_strlit("erlang");
            reveal_strlit("=:=");
            reveal_strlit("bool_and");
            reveal_strlit("bool_or");
            assert(r@ =~= Self::well_known());
            assert("false"@.len() == 5);
            assert("true"@.len() == 4);
            assert("erlang"@.len() == 6);
            assert("=:="@.len() == 3);
            assert("bool_and"@.len() == 8);
            assert("bool_or"@.len() == 7);
        }
        r
    }

    /// The symbol of `name`: the one that it has already, or the next free
    /// one. Equal names give equal symbols, different names different
    /// ones.
    pub fn intern(&mut self, name: &str) -> (r: Symbol)
        requires
            old(self).wf(),
            old(self)@.contains(name@) || old(self)@.len() < u32::MAX,
        ensures
            final(self).wf(),
            match position_of(old(self)@, name@) {
                Some(i) => r.0 == i && final(self)@ == old(self)@,
                None => r.0 == old(self)@.len() && final(self)@ == old(self)@.push(name@),
            },
    {
        let owned = name.to_owned();
        let n = self.names.len();
        let mut i: usize = 0;
        while i < n
            invariant
                self.wf(),
                *self == *old(self),
                n == self.names@.len(),
                n == self@.len(),
                i <= n,
                owned@ == name@,
                forall|k: int| 0 <= k < i ==> self@[k] != name@,
            decreases n - i,
        {
            if self.names[i] == owned {
                proof {
                    assert(self@[i as int] == name@);
                    let k = self@.index_of(name@);
                    assert(self@.contains(name@));
                    assert(0 <= k < self@.len() && self@[k] == name@);
                }
                return Symbol(i as u32);
            }
            i += 1;
        }
        proof {
            assert(!self@.contains(name@));
        }
        let ghost before = self@;
        self.names.push(owned);
        proof {
            assert(self@ =~= before.push(name@));
        }
        Symbol(n as u32)
    }

    /// The symbol of `name`, if the name has been interned.
    pub fn lookup(&self, name: &str) -> (r: Option<Symbol>)
        requires
            self.wf(),
        ensures
            match position_of(self@, name@) {
                Some(i) => r == Some(Symbol(i as u32)),
                None => r is None,
            },
    {
        let owned = name.to_owned();
        let n = self.names.len();
        let mut i: usize = 0;
        while i < n
            invariant
                self.wf(),
                n == self.names@.len(),
                n == self@.len(),
                i <= n,
                owned@ == name@,
                forall|k: int| 0 <= k < i ==> self@[k] != name@,
            decreases n - i,
        {
            if self.names[i] == owned {
                proof {
                    assert(self@[i as int] == name@);
                    let k = self@.index_of(name@);
                    assert(self@.contains(name@));
                    assert(0 <= k < self@.len() && self@[k] == name@);
                }
                return Some(Symbol(i as u32));
            }
            i += 1;
        }
        proof {
            assert(!self@.contains(name@));
        }
        None
    }

    /// The name of `symbol`.
    pub fn name(&self, symbol: Symbol) -> (r: &str)
        requires
            symbol.0 < self@.len(),
        ensures
            r@ == self@[symbol.0 as int],
    {
        self.names[symbol.0 as usize].as_str()
    }

    /// The number of interned names.
    pub fn len(&self) -> (r: usize)
        ensures
            r == self@.len(),
    {
        self.names.len()
    }
}

} // verus!
