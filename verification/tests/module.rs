use libeir_ir::{
    ConstantTerm, FunctionBuilder, FunctionIdent, FunctionIndex, Ident, Module, SourceSpan,
    SymbolTable,
};

#[test]
fn new_module_has_no_functions() {
    let mut symbols = SymbolTable::new();
    let name = Ident::with_empty_span(symbols.intern("lists"));
    let module = Module::new(name);
    assert_eq!(module.name(), name);
    assert!(module.span().is_unknown());
    assert!(module.index_iter().is_empty());
    assert!(module.function_iter().is_empty());

    let spanned = Module::new_with_span(name, SourceSpan::new(1, 2, 3));
    assert_eq!(spanned.span(), SourceSpan::new(1, 2, 3));
}

#[test]
fn added_functions_are_found_by_name_and_arity() {
    let mut symbols = SymbolTable::new();
    let lists = Ident::with_empty_span(symbols.intern("lists"));
    let map = Ident::new(symbols.intern("map"), SourceSpan::new(10, 13, 0));
    let foldl = Ident::with_empty_span(symbols.intern("foldl"));
    let mut module = Module::new(lists);

    let span = SourceSpan::new(10, 40, 0);
    let def = module.add_function(span, map, 2);
    assert_eq!(def.index(), FunctionIndex::from_u32(0));
    assert_eq!(
        *def.function().ident(),
        FunctionIdent { module: lists, name: map, arity: 2 }
    );
    assert_eq!(def.function().span(), span);
    assert_eq!(def.function().block_count(), 0);

    let second = module.add_function(SourceSpan::unknown(), foldl, 3).index();
    let third = module.add_function(SourceSpan::unknown(), map, 3).index();
    assert_eq!(second, FunctionIndex::from_u32(1));
    assert_eq!(third, FunctionIndex::from_u32(2));

    assert_eq!(module.name_arity_index(map.name, 2), Some(FunctionIndex::from_u32(0)));
    assert_eq!(module.name_arity_index(map.name, 3), Some(third));
    assert_eq!(module.name_arity_index(foldl.name, 3), Some(second));
    assert_eq!(module.name_arity_index(foldl.name, 2), None);
    let ident = FunctionIdent { module: lists, name: foldl, arity: 3 };
    assert_eq!(module.ident_index(&ident), Some(second));
    assert_eq!(module.index_ident(&ident).index(), second);
    assert_eq!(module.index(third).function().ident().arity, 3);

    assert_eq!(module.index_iter(), vec![FunctionIndex::from_u32(0), second, third]);
    let arities: Vec<usize> =
        module.function_iter().iter().map(|d| d.function().ident().arity).collect();
    assert_eq!(arities, vec![2, 3, 3]);
    assert!(module.is_valid(third));
    assert!(!module.is_valid(FunctionIndex::from_u32(3)));
}

#[test]
fn functions_of_a_module_can_be_built() {
    let mut symbols = SymbolTable::new();
    let name = Ident::with_empty_span(symbols.intern("m"));
    let f = Ident::with_empty_span(symbols.intern("f"));
    let mut module = Module::new(name);
    let idx = module.add_function(SourceSpan::unknown(), f, 0).index();

    // take the function out of its definition, build it, and put it back
    let def = module.index_mut(idx);
    let ident = *def.function().ident();
    let fun = std::mem::replace(def.function_mut(), libeir_ir::Function::new(ident));
    let mut b = FunctionBuilder::new(fun);
    let entry = b.block_insert();
    let ret = b.block_arg_insert(entry);
    let nil = b.value(ConstantTerm::Nil.into());
    b.op_call(entry, ret, &[nil]);
    b.block_set_entry(entry);
    *module.index_mut(idx).function_mut() = b.finish();

    assert_eq!(module.index(idx).function().block_count(), 1);
    assert_eq!(module.index(idx).function().block_entry(), entry);
    assert_eq!(module.index(idx).index(), idx);
}

#[test]
fn cloned_module_is_independent() {
    let mut symbols = SymbolTable::new();
    let name = Ident::with_empty_span(symbols.intern("m"));
    let f = Ident::with_empty_span(symbols.intern("f"));
    let g = Ident::with_empty_span(symbols.intern("g"));
    let mut module = Module::new_with_span(name, SourceSpan::new(0, 5, 2));
    module.add_function(SourceSpan::unknown(), f, 1).function_mut().block_insert();
    let g_idx = module.add_function(SourceSpan::unknown(), g, 0).index();

    let copy = module.clone();
    module.index_mut(g_idx).function_mut().block_insert();
    module.add_function(SourceSpan::unknown(), g, 7);

    assert_eq!(copy.name(), name);
    assert_eq!(copy.span(), SourceSpan::new(0, 5, 2));
    assert_eq!(copy.index_iter().len(), 2);
    assert_eq!(copy.index(FunctionIndex::from_u32(0)).function().block_count(), 1);
    assert_eq!(copy.index(g_idx).function().block_count(), 0);
    assert_eq!(copy.index(g_idx).index(), g_idx);
    assert_eq!(copy.name_arity_index(f.name, 1), Some(FunctionIndex::from_u32(0)));
    assert_eq!(copy.name_arity_index(g.name, 0), Some(g_idx));
    assert_eq!(copy.name_arity_index(g.name, 7), None);
    assert_eq!(module.index_iter().len(), 3);
}

#[test]
fn all_functions_can_be_changed_at_once() {
    let mut symbols = SymbolTable::new();
    let name = Ident::with_empty_span(symbols.intern("m"));
    let f = Ident::with_empty_span(symbols.intern("f"));
    let g = Ident::with_empty_span(symbols.intern("g"));
    let mut module = Module::new(name);
    module.add_function(SourceSpan::unknown(), f, 0);
    module.add_function(SourceSpan::unknown(), g, 1);

    let mut blocks = 0;
    for def in module.function_iter_mut() {
        blocks += 1;
        for _ in 0..blocks {
            def.function_mut().block_insert();
        }
    }
    let counts: Vec<usize> =
        module.function_iter().iter().map(|d| d.function().block_count()).collect();
    assert_eq!(counts, vec![1, 2]);
    assert_eq!(module.name_arity_index(g.name, 1), Some(FunctionIndex::from_u32(1)));
    assert_eq!(module.index(FunctionIndex::from_u32(1)).index(), FunctionIndex::from_u32(1));
}

#[test]
fn cloned_module_keeps_the_index_of_each_function() {
    let mut symbols = SymbolTable::new();
    let name = Ident::with_empty_span(symbols.intern("m"));
    let mut module = Module::new(name);
    let names = ["a", "b", "c", "d"];
    for (arity, n) in names.iter().enumerate() {
        let id = Ident::with_empty_span(symbols.intern(n));
        let def = module.add_function(SourceSpan::unknown(), id, arity);
        for _ in 0..arity {
            def.function_mut().block_insert();
        }
    }

    let copy = module.clone();
    let defs = copy.function_iter();
    assert_eq!(defs.len(), 4);
    for (i, def) in defs.iter().enumerate() {
        assert_eq!(def.index(), FunctionIndex::from_u32(i as u32));
        let source = module.index(def.index());
        assert_eq!(def.function().ident(), source.function().ident());
        assert_eq!(def.function().block_count(), i);
        assert_eq!(def.function().span(), source.function().span());
        assert_eq!(
            copy.name_arity_index(def.function().ident().name.name, i),
            Some(def.index())
        );
    }
}
