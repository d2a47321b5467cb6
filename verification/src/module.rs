//! The module container: a named collection of function definitions,
//! indexed by name and arity.

use crate::arena::{
    function_arena_get, function_arena_get_mut, function_arena_items, function_arena_len,
    function_arena_new, function_arena_push, function_arena_values_mut, FunctionArena,
};
use crate::entity::FunctionIndex;
use crate::fun::model::FunctionView;
use crate::fun::Function;
use crate::intern::{FunctionIdent, Ident, SourceSpan, Symbol};
use std::collections::BTreeMap;
use vstd::prelude::*;

verus! {

/// A function together with its handle in the module.
pub struct FunctionDefinition {
    index: FunctionIndex,
    fun: Function,
}

/// A definition as the contracts see it.
pub struct DefinitionView {
    pub index: FunctionIndex,
    pub fun: FunctionView,
}

impl View for FunctionDefinition {
    type V = DefinitionView;

    closed spec fn view(&self) -> DefinitionView {
        DefinitionView { index: self.index, fun: self.fun@ }
    }
}

impl FunctionDefinition {
    pub fn index(&self) -> (r: FunctionIndex)
        ensures
            r == self@.index,
    {
        self.index
    }

    pub fn function(&self) -> (r: &Function)
        ensures
            r@ == self@.fun,
    {
        &self.fun
    }

    /// A mutable borrow of the function. The definition keeps its handle.
    pub fn function_mut(&mut self) -> (r: &mut Function)
        ensures
            r@ == old(self)@.fun,
            final(self)@ == (DefinitionView { index: old(self)@.index, fun: final(r)@ }),
    {
        &mut self.fun
    }
}

/// A module as the contracts see it.
pub struct ModuleView {
    pub name: Ident,
    pub span: SourceSpan,
    /// The definitions, in the order in which they were added.
    pub functions: Seq<DefinitionView>,
    /// The handle registered for each name and arity.
    pub names: Map<(Symbol, usize), FunctionIndex>,
}

impl ModuleView {
    /// Every registered handle refers to a definition of the module, the
    /// definitions fit into the 32-bit handle space, and each definition
    /// holds as its index the handle under which the module holds it.
    pub open spec fn wf(self) -> bool {
        &&& self.functions.len() <= u32::MAX
        &&& forall|k: (Symbol, usize)| #[trigger]
            self.names.contains_key(k) ==> self.names[k].idx() < self.functions.len()
        &&& forall|i: int|
            0 <= i < self.functions.len() ==> (#[trigger] self.functions[i]).index.idx() == i
    }

    /// Every function of the module is well-formed.
    pub open spec fn functions_wf(self) -> bool {
        forall|i: int| 0 <= i < self.functions.len() ==> (#[trigger] self.functions[i]).fun.wf()
    }

    /// What a lookup of a name and arity gives.
    pub open spec fn lookup(self, name: Symbol, arity: usize) -> Option<FunctionIndex> {
        if self.names.contains_key((name, arity)) {
            Some(self.names[(name, arity)])
        } else {
            None
        }
    }
}

pub struct Module {
    name: Ident,
    span: SourceSpan,
    functions: FunctionArena,
    name_map: BTreeMap<(u32, usize), FunctionIndex>,
}

impl View for Module {
    type V = ModuleView;

    closed spec fn view(&self) -> ModuleView {
        ModuleView {
            name: self.name,
            span: self.span,
            functions: function_arena_items(self.functions).map_values(
                |d: FunctionDefinition| d@,
            ),
            names: Map::new(
                |k: (Symbol, usize)| self.name_map@.contains_key((k.0.0, k.1)),
                |k: (Symbol, usize)| self.name_map@[(k.0.0, k.1)],
            ),
        }
    }
}

impl Module {
    pub open spec fn wf(&self) -> bool {
        self@.wf()
    }

    /// A module of the given name without functions.
    pub fn new(name: Ident) -> (r: Self)
        ensures
            r.wf(),
            r@.functions_wf(),
            r@ == (ModuleView {
                name,
                span: SourceSpan::unknown_spec(),
                functions: Seq::empty(),
                names: Map::empty(),
            }),
    {
        Self::new_with_span(name, SourceSpan::unknown())
    }

    /// A module of the given name and span without functions.
    pub fn new_with_span(name: Ident, span: SourceSpan) -> (r: Self)
        ensures
            r.wf(),
            r@.functions_wf(),
            r@ == (ModuleView { name, span, functions: Seq::empty(), names: Map::empty() }),
    {
        let r = Self { name, span, functions: function_arena_new(), name_map: BTreeMap::new() };
        proof {
            assert(r@.functions =~= Seq::<DefinitionView>::empty());
            assert(r@.names =~= Map::<(Symbol, usize), FunctionIndex>::empty());
        }
        r
    }

    pub fn name(&self) -> (r: Ident)
        ensures
            r == self@.name,
    {
        self.name
    }

    pub fn span(&self) -> (r: SourceSpan)
        ensures
            r == self@.span,
    {
        self.span
    }

    /// Adds an empty function of the given name and arity and returns its
    /// definition. No function of that name and arity may exist yet.
    pub fn add_function(&mut self, span: SourceSpan, name: Ident, arity: usize) -> (def:
        &mut FunctionDefinition)
        requires
            old(self).wf(),
            !old(self)@.names.contains_key((name.name, arity)),
            old(self)@.functions.len() < u32::MAX,
        ensures
            def@ == (DefinitionView {
                index: FunctionIndex::at(old(self)@.functions.len()),
                fun: FunctionView {
                    span,
                    ..FunctionView::empty(
                        FunctionIdent { module: old(self)@.name, name, arity },
                    )
                },
            }),
            def@.fun.wf(),
            final(self)@ == (ModuleView {
                functions: old(self)@.functions.push(final(def)@),
                names: old(self)@.names.insert((name.name, arity), def@.index),
                ..old(self)@
            }),
            final(def)@.index == def@.index ==> final(self).wf(),
            old(self)@.functions_wf() && final(def)@.fun.wf() ==> final(self)@.functions_wf(),
    {
        broadcast use vstd::laws_cmp::group_laws_cmp;
        broadcast use vstd::std_specs::btree::group_btree_axioms;

        let ghost before = *self;
        let ident = FunctionIdent { module: self.name, name, arity };
        let fun = Function::new_with_span(span, ident);
        let next = FunctionIndex::from_index(function_arena_len(&self.functions));
        let def = FunctionDefinition { index: next, fun };
        let ghost def_view = def@;
        let index = function_arena_push(&mut self.functions, def);
        self.name_map.insert((name.name.0, arity), index);
        proof {
            assert(index == next);
            assert(self.name_map@ == before.name_map@.insert((name.name.0, arity), index));
            assert(function_arena_items(self.functions).map_values(|d: FunctionDefinition| d@)
                =~= before@.functions.push(def_view));
            assert(name.name == Symbol(name.name.0));
            assert(Map::new(
                |k: (Symbol, usize)| self.name_map@.contains_key((k.0.0, k.1)),
                |k: (Symbol, usize)| self.name_map@[(k.0.0, k.1)],
            ) =~= before@.names.insert((name.name, arity), index)) by {
                assert forall|k: (Symbol, usize)|
                    (k.0.0, k.1) == (name.name.0, arity) <==> k == (name.name, arity) by {
                    assert(k.0 == Symbol(k.0.0));
                }
            }
        }
        let ghost names = before@.names.insert((name.name, arity), index);
        let ghost mid = function_arena_items(self.functions);
        let def_mut = function_arena_get_mut(&mut self.functions, index);
        proof {
            assert(*def_mut == mid[index.idx()]);
            assert forall|k: (Symbol, usize)| #[trigger] names.contains_key(k) implies names[k].idx()
                < before@.functions.len() + 1 by {
                if k != (name.name, arity) {
                    assert(before@.names.contains_key(k));
                }
            }
            assert(mid.update(index.idx(), *final(def_mut)).map_values(
                |d: FunctionDefinition| d@,
            ) =~= before@.functions.push(final(def_mut)@));
            FunctionView::lemma_empty_wf(ident, span);
            Self::lemma_pushed(before@, names, final(def_mut)@);
        }
        def_mut
    }

    /// The handle of the function with the name and arity of `ident`.
    pub fn ident_index(&self, ident: &FunctionIdent) -> (r: Option<FunctionIndex>)
        ensures
            r == self@.lookup(ident.name.name, ident.arity),
    {
        self.name_arity_index(ident.name.name, ident.arity)
    }

    /// The handle of the function with the given name and arity.
    pub fn name_arity_index(&self, name: Symbol, arity: usize) -> (r: Option<FunctionIndex>)
        ensures
            r == self@.lookup(name, arity),
    {
        broadcast use vstd::laws_cmp::group_laws_cmp;
        broadcast use vstd::std_specs::btree::group_btree_axioms;

        let key = (name.0, arity);
        proof {
            assert(name == Symbol(name.0));
        }
        match self.name_map.get(&key) {
            Some(index) => Some(*index),
            None => None,
        }
    }

    /// The definitions, in the order of their handles.
    pub fn function_iter(&self) -> (r: Vec<&FunctionDefinition>)
        requires
            self.wf(),
        ensures
            r@.len() == self@.functions.len(),
            forall|i: int| 0 <= i < r@.len() ==> (#[trigger] r@[i])@ == self@.functions[i],
    {
        let n = function_arena_len(&self.functions);
        let mut out: Vec<&FunctionDefinition> = Vec::new();
        let mut i: usize = 0;
        while i < n
            invariant
                n == function_arena_items(self.functions).len(),
                n <= u32::MAX,
                i <= n,
                out@.len() == i,
                forall|k: int|
                    0 <= k < i ==> *(#[trigger] out@[k]) == function_arena_items(self.functions)[k],
            decreases n - i,
        {
            let def = function_arena_get(&self.functions, FunctionIndex::from_index(i));
            out.push(def);
            i += 1;
        }
        out
    }

    /// Mutable borrows of the definitions, in the order of their handles.
    /// The registered names stay as they are.
    pub fn function_iter_mut(&mut self) -> (r: Vec<&mut FunctionDefinition>)
        ensures
            r@.len() == old(self)@.functions.len(),
            forall|i: int|
                0 <= i < r@.len() ==> (*r@[i])@ == #[trigger] old(self)@.functions[i],
            final(self)@.functions.len() == r@.len(),
            forall|i: int|
                0 <= i < r@.len() ==> #[trigger] final(self)@.functions[i] == final(r@[i])@,
            final(self)@.names == old(self)@.names,
            final(self)@.name == old(self)@.name,
            final(self)@.span == old(self)@.span,
    {
        function_arena_values_mut(&mut self.functions)
    }

    /// The handles of the definitions, in increasing order.
    pub fn index_iter(&self) -> (r: Vec<FunctionIndex>)
        requires
            self.wf(),
        ensures
            r@.len() == self@.functions.len(),
            forall|i: int| 0 <= i < r@.len() ==> (#[trigger] r@[i]).idx() == i,
    {
        let n = function_arena_len(&self.functions);
        let mut out: Vec<FunctionIndex> = Vec::new();
        let mut i: usize = 0;
        while i < n
            invariant
                n == function_arena_items(self.functions).len(),
                n <= u32::MAX,
                i <= n,
                out@.len() == i,
                forall|k: int| 0 <= k < i ==> (#[trigger] out@[k]).idx() == k,
            decreases n - i,
        {
            out.push(FunctionIndex::from_index(i));
            i += 1;
        }
        out
    }

    /// Whether `idx` is the handle of a definition of this module.
    pub fn is_valid(&self, idx: FunctionIndex) -> (r: bool)
        ensures
            r == (idx.idx() < self@.functions.len()),
    {
        match usize::try_from(idx.0) {
            Ok(i) => i < function_arena_len(&self.functions),
            Err(_) => false,
        }
    }

    /// The definition with the handle `idx`.
    pub fn index(&self, idx: FunctionIndex) -> (r: &FunctionDefinition)
        requires
            idx.idx() < self@.functions.len(),
        ensures
            r@ == self@.functions[idx.idx()],
    {
        function_arena_get(&self.functions, idx)
    }

    /// A mutable borrow of the definition with the handle `idx`. The other
    /// definitions and the registered names stay as they are.
    pub fn index_mut(&mut self, idx: FunctionIndex) -> (r: &mut FunctionDefinition)
        requires
            idx.idx() < old(self)@.functions.len(),
        ensures
            r@ == old(self)@.functions[idx.idx()],
            final(self)@ == (ModuleView {
                functions: old(self)@.functions.update(idx.idx(), final(r)@),
                ..old(self)@
            }),
            old(self).wf() && final(r)@.index == r@.index ==> final(self).wf(),
            old(self)@.functions_wf() && final(r)@.fun.wf() ==> final(self)@.functions_wf(),
    {
        let ghost before = function_arena_items(self.functions);
        let def = function_arena_get_mut(&mut self.functions, idx);
        proof {
            assert(before.update(idx.idx(), *final(def)).map_values(|d: FunctionDefinition| d@)
                =~= before.map_values(|d: FunctionDefinition| d@).update(
                idx.idx(),
                final(def)@,
            ));
        }
        def
    }

    /// The definition of the function with the name and arity of `ident`.
    /// The function must be in the module.
    pub fn index_ident(&self, ident: &FunctionIdent) -> (r: &FunctionDefinition)
        requires
            self.wf(),
            self@.names.contains_key((ident.name.name, ident.arity)),
        ensures
            r@ == self@.functions[self@.names[(ident.name.name, ident.arity)].idx()],
    {
        let idx = self.ident_index(ident).unwrap();
        function_arena_get(&self.functions, idx)
    }
}

impl Module {
    /// A module stays well-formed when it gets a definition that holds the
    /// next handle as its index, and its functions stay well-formed when
    /// the function of the definition is.
    proof fn lemma_pushed(
        before: ModuleView,
        names: Map<(Symbol, usize), FunctionIndex>,
        def: DefinitionView,
    )
        requires
            before.wf(),
            before.functions.len() < u32::MAX,
            forall|k: (Symbol, usize)| #[trigger]
                names.contains_key(k) ==> names[k].idx() < before.functions.len() + 1,
        ensures
            def.index.idx() == before.functions.len() ==> (ModuleView {
                functions: before.functions.push(def),
                names,
                ..before
            }).wf(),
            before.functions_wf() && def.fun.wf() ==> (ModuleView {
                functions: before.functions.push(def),
                names,
                ..before
            }).functions_wf(),
    {
        let fin = before.functions.push(def);
        if def.index.idx() == before.functions.len() {
            assert forall|i: int| 0 <= i < fin.len() implies (#[trigger] fin[i]).index.idx()
                == i by {
                if i < before.functions.len() {
                    assert(fin[i] == before.functions[i]);
                }
            }
        }
        if before.functions_wf() && def.fun.wf() {
            assert forall|i: int| 0 <= i < fin.len() implies (#[trigger] fin[i]).fun.wf() by {
                if i < before.functions.len() {
                    assert(fin[i] == before.functions[i]);
                }
            }
        }
    }
}

impl Clone for Module {
    /// A deep copy: every function of the module is copied. The copy of a
    /// well-formed module with well-formed functions equals the module:
    /// it holds, under each handle, an equal function with that handle as
    /// index, and it registers the same names.
    fn clone(&self) -> (r: Self)
        ensures
            self.wf() && self@.functions_wf() ==> {
                &&& r@ == self@
                &&& r.wf()
                &&& r@.functions_wf()
                &&& r@.name == self@.name
                &&& r@.span == self@.span
                &&& r@.names == self@.names
                &&& r@.functions.len() == self@.functions.len()
                &&& forall|i: int|
                    0 <= i < self@.functions.len() ==> (#[trigger] r@.functions[i]).fun
                        == self@.functions[i].fun && r@.functions[i].index.idx() == i
            },
    {
        let mut functions = function_arena_new();
        let n = crate::fun::clamp_len(function_arena_len(&self.functions));
        let mut i: usize = 0;
        while i < n
            invariant
                n <= function_arena_items(self.functions).len(),
                n <= u32::MAX,
                i <= n,
                function_arena_items(functions).len() == i,
                forall|k: int|
                    0 <= k < i ==> (#[trigger] function_arena_items(functions)[k])@.index.idx()
                        == k,
                forall|k: int|
                    0 <= k < i && function_arena_items(self.functions)[k]@.fun.wf() ==> (
                    #[trigger] function_arena_items(functions)[k])@.fun == function_arena_items(
                        self.functions,
                    )[k]@.fun,
            decreases n - i,
        {
            let def = function_arena_get(&self.functions, FunctionIndex::from_index(i));
            let copy = FunctionDefinition {
                index: FunctionIndex::from_index(i),
                fun: def.fun.clone(),
            };
            let ghost before = function_arena_items(functions);
            function_arena_push(&mut functions, copy);
            proof {
                assert forall|k: int| 0 <= k < i + 1 implies (#[trigger] function_arena_items(
                    functions,
                )[k])@.index.idx() == k by {
                    if k < i {
                        assert(function_arena_items(functions)[k] == before[k]);
                    }
                }
                assert forall|k: int|
                    0 <= k < i + 1 && function_arena_items(
                        self.functions,
                    )[k]@.fun.wf() implies (#[trigger] function_arena_items(functions)[k])@.fun
                    == function_arena_items(self.functions)[k]@.fun by {
                    if k < i {
                        assert(function_arena_items(functions)[k] == before[k]);
                    }
                }
            }
            i += 1;
        }
        let r = Self {
            name: self.name,
            span: self.span,
            functions,
            name_map: self.name_map.clone(),
        };
        proof {
            if self.wf() && self@.functions_wf() {
                assert(r@.names =~= self@.names);
                assert(r@.functions.len() == self@.functions.len());
                assert forall|k: int| 0 <= k < self@.functions.len() implies (
                #[trigger] r@.functions[k]) == self@.functions[k] by {
                    assert(self@.functions[k].fun.wf());
                    assert(self@.functions[k].index.idx() == k);
                    assert(function_arena_items(functions)[k]@.index.idx() == k);
                    assert(r@.functions[k].index == self@.functions[k].index);
                }
                assert(r@.functions =~= self@.functions);
            }
        }
        r
    }
}

} // verus!
