use libeir_ir::{
    Block, ConstantTerm, Function, FunctionBuilder, FunctionIdent, Ident, OpKind, SourceSpan,
    Symbol, SymbolTable, Value, ValueItem, ValueType,
};

fn ident(name: &str, arity: usize) -> FunctionIdent {
    let mut symbols = SymbolTable::new();
    let module = symbols.intern("m");
    let name = symbols.intern(name);
    FunctionIdent {
        module: Ident::with_empty_span(module),
        name: Ident::with_empty_span(name),
        arity,
    }
}

#[test]
fn new_function_is_empty() {
    let id = ident("f", 2);
    let fun = Function::new(id);
    assert_eq!(*fun.ident(), id);
    assert_eq!(fun.block_count(), 0);
    assert_eq!(fun.value_count(), 0);
    assert!(fun.iter_constants().is_empty());
    assert!(fun.span().is_unknown());
    assert!(!fun.block_is_valid(Block::from_u32(0)));
    assert!(!fun.value_is_valid(Value::from_u32(0)));
}

#[test]
fn function_ident_equality_is_by_component() {
    let mut symbols = SymbolTable::new();
    let m = Ident::with_empty_span(symbols.intern("m"));
    let n = Ident::with_empty_span(symbols.intern("n"));
    let f = Ident::with_empty_span(symbols.intern("f"));
    let g = Ident::with_empty_span(symbols.intern("g"));
    let base = FunctionIdent { module: m, name: f, arity: 1 };
    assert_eq!(base, FunctionIdent { module: m, name: f, arity: 1 });
    assert_ne!(base, FunctionIdent { module: m, name: f, arity: 2 });
    assert_ne!(base, FunctionIdent { module: m, name: g, arity: 1 });
    assert_ne!(base, FunctionIdent { module: n, name: f, arity: 1 });
    assert_eq!(ident("f", 1), ident("f", 1));
}

#[test]
fn inserted_handles_are_strictly_increasing() {
    let mut b = FunctionBuilder::new(Function::new(ident("f", 0)));
    let mut blocks = Vec::new();
    let mut args = Vec::new();
    for round in 0..4 {
        let block = b.block_insert();
        blocks.push(block);
        for _ in 0..round {
            args.push(b.block_arg_insert(block));
        }
        args.push(b.block_arg_insert(blocks[0]));
    }
    assert_eq!(
        blocks,
        vec![Block::from_u32(0), Block::from_u32(1), Block::from_u32(2), Block::from_u32(3)]
    );
    for pair in blocks.windows(2) {
        assert!(pair[0] < pair[1]);
    }
    for pair in args.windows(2) {
        assert!(pair[0] < pair[1]);
    }
    assert_eq!(args.len(), 10);
    assert_eq!(b.fun().block_count(), 4);
    // each block has a value of its own besides the ten arguments
    assert_eq!(b.fun().value_count(), 14);
}

#[test]
fn inserted_block_is_bare() {
    let mut b = FunctionBuilder::new(Function::new(ident("f", 0)));
    let block = b.block_insert();
    assert!(b.block_args(block).is_empty());
    assert!(b.block_reads(block).is_empty());
    assert_eq!(b.fun().block_kind(block), None);
    assert!(b.fun().block_span(block).is_unknown());
    assert!(b.fun().block_is_valid(block));
}

#[test]
fn block_arguments_keep_insertion_order() {
    let mut b = FunctionBuilder::new(Function::new(ident("f", 0)));
    let b0 = b.block_insert();
    let b1 = b.block_insert();
    let a0 = b.block_arg_insert(b0);
    let c0 = b.block_arg_insert(b1);
    let a1 = b.block_arg_insert(b0);
    assert_eq!(b.block_args(b0), &[a0, a1]);
    assert_eq!(b.block_args(b1), &[c0]);
    assert_eq!(*b.fun().value(a1), ValueType::Arg(b0));
    assert_eq!(*b.fun().value(c0), ValueType::Arg(b1));
    assert_eq!(b.fun().value_kind(c0), ValueType::Arg(b1));
}

#[test]
fn constant_dedup() {
    let mut b = FunctionBuilder::new(Function::new(ident("f", 0)));
    let first = b.value(ConstantTerm::Int(1).into());
    let values = b.fun().value_count();
    let second = b.value(ValueItem::Constant(ConstantTerm::Int(1)));
    assert_eq!(first, second);
    assert_eq!(b.fun().value_count(), values);
    let constants = b.fun().iter_constants();
    assert_eq!(constants.iter().filter(|v| **v == first).count(), 1);
    assert_eq!(constants.len(), 1);
}

#[test]
fn different_constants_get_different_values() {
    let mut b = FunctionBuilder::new(Function::new(ident("f", 0)));
    let one = b.value(ConstantTerm::Int(1).into());
    let two = b.value(ConstantTerm::Int(2).into());
    let nil = b.value(ConstantTerm::Nil.into());
    let atom = b.value(ConstantTerm::Atom(Symbol(1)).into());
    let truth = b.value(ConstantTerm::from_bool(true).into());
    let falsity = b.value(ConstantTerm::from_bool(false).into());
    assert_ne!(one, two);
    assert_ne!(one, nil);
    assert_ne!(two, nil);
    assert_eq!(atom, truth);
    assert_ne!(truth, falsity);
    assert_eq!(b.fun().iter_constants(), &vec![one, two, nil, atom, falsity]);
    assert_eq!(*b.fun().value_constant(two), ConstantTerm::Int(2));
    assert!(b.fun().value_is_constant(nil));
    assert!(!b.fun().value_is_constant(Value::from_u32(99)));
}

#[test]
fn block_values_are_interned() {
    let mut b = FunctionBuilder::new(Function::new(ident("f", 0)));
    let b0 = b.block_insert();
    let (b1, b1_val) = b.block_insert_get_val();
    let values = b.fun().value_count();
    let v0 = b.value(b0.into());
    let v0_again = b.value(ValueItem::Block(b0));
    assert_eq!(v0, v0_again);
    assert_ne!(v0, b1_val);
    assert_eq!(b.value(b1.into()), b1_val);
    assert_eq!(b.fun().value_count(), values);
    assert_eq!(b.fun().value_block(v0), Some(b0));
    assert_eq!(b.fun().value_block(b1_val), Some(b1));
    assert!(!b.fun().value_is_constant(v0));
    let arg = b.block_arg_insert(b0);
    assert_eq!(b.fun().value_block(arg), None);
}

#[test]
fn op_call_writes_target_and_arguments() {
    let mut b = FunctionBuilder::new(Function::new(ident("f", 0)));
    let b0 = b.block_insert();
    let ret = b.block_arg_insert(b0);
    let x = b.block_arg_insert(b0);
    let y = b.block_arg_insert(b0);
    b.op_call(b0, ret, &[x, y]);
    assert_eq!(b.fun().block_kind(b0), Some(OpKind::Call));
    assert_eq!(b.block_reads(b0), &[ret, x, y]);
    // a second write replaces the first
    b.op_call(b0, ret, &[]);
    assert_eq!(b.block_reads(b0), &[ret]);
}

#[test]
fn op_capture_function_continues_in_a_new_block() {
    let mut b = FunctionBuilder::new(Function::new(ident("f", 0)));
    let b0 = b.block_insert();
    let m = b.value(ConstantTerm::Atom(Symbol(2)).into());
    let f = b.value(ConstantTerm::Atom(Symbol(3)).into());
    let a = b.value(ConstantTerm::Int(2).into());
    let next = b.op_capture_function(b0, m, f, a);
    assert_ne!(next, b0);
    assert_eq!(b.fun().block_kind(b0), Some(OpKind::CaptureFunction));
    let next_val = b.fun().block_value(next);
    assert_eq!(b.block_reads(b0), &[next_val, m, f, a]);
    assert_eq!(b.block_args(next).len(), 1);
    assert_eq!(*b.fun().value(b.block_args(next)[0]), ValueType::Arg(next));
    assert_eq!(b.fun().block_kind(next), None);
}

#[test]
fn intrinsic_builder_collects_operands() {
    let mut b = FunctionBuilder::new(Function::new(ident("f", 0)));
    let b0 = b.block_insert();
    let (_b1, cont) = b.block_insert_get_val();
    let x = b.block_arg_insert(b0);
    let y = b.block_arg_insert(b0);
    let mut and = b.op_intrinsic_build(Symbol(4));
    and.push_value(cont);
    and.push_value(x);
    and.push_value(y);
    and.block = Some(b0);
    and.finish(&mut b);
    assert_eq!(b.fun().block_kind(b0), Some(OpKind::Intrinsic(Symbol(4))));
    assert_eq!(b.block_reads(b0), &[cont, x, y]);
}

#[test]
fn op_unreachable_has_no_reads() {
    let mut b = FunctionBuilder::new(Function::new(ident("f", 0)));
    let b0 = b.block_insert();
    let x = b.block_arg_insert(b0);
    b.op_call(b0, x, &[x]);
    b.op_unreachable(b0);
    assert_eq!(b.fun().block_kind(b0), Some(OpKind::Unreachable));
    assert!(b.block_reads(b0).is_empty());
}

#[test]
fn entry_block_and_its_arity() {
    let mut b = FunctionBuilder::new(Function::new(ident("f", 2)));
    let _other = b.block_insert();
    let entry = b.block_insert();
    b.block_arg_insert(entry);
    b.block_arg_insert(entry);
    b.block_set_entry(entry);
    let fun = b.finish();
    assert_eq!(fun.block_entry(), entry);
    assert_eq!(fun.entry_arg_num(), 2);
}

#[test]
fn block_graph_follows_block_reads() {
    let mut b = FunctionBuilder::new(Function::new(ident("f", 0)));
    let b0 = b.block_insert();
    let x = b.block_arg_insert(b0);
    let (b1, v1) = b.block_insert_get_val();
    let (b2, v2) = b.block_insert_get_val();
    let nil = b.value(ConstantTerm::Nil.into());
    b.op_call(b0, v1, &[x, v2, nil, v1]);
    b.op_call(b1, v2, &[]);
    b.op_unreachable(b2);
    let fun = b.finish();
    let graph = fun.block_graph();
    assert_eq!(graph.outgoing(b0), vec![b1, b2, b1]);
    assert_eq!(graph.outgoing(b1), vec![b2]);
    assert!(graph.outgoing(b2).is_empty());
}

#[test]
fn clone_is_a_deep_copy() {
    let mut b = FunctionBuilder::new(Function::new_with_span(
        SourceSpan::new(3, 9, 1),
        ident("f", 1),
    ));
    let b0 = b.block_insert();
    let x = b.block_arg_insert(b0);
    let one = b.value(ConstantTerm::Int(1).into());
    b.op_call(b0, x, &[one]);
    b.block_set_entry(b0);
    let fun = b.finish();
    let copy = fun.clone();

    let mut changed = FunctionBuilder::new(fun);
    let extra = changed.block_insert();
    changed.op_call(b0, x, &[]);
    let fun = changed.finish();

    assert_eq!(fun.block_count(), 2);
    assert!(fun.block_is_valid(extra));
    assert_eq!(copy.block_count(), 1);
    assert_eq!(copy.value_count(), 3);
    assert_eq!(copy.block_reads(b0), &[x, one]);
    assert_eq!(copy.block_args(b0), &[x]);
    assert_eq!(copy.block_kind(b0), Some(OpKind::Call));
    assert_eq!(copy.block_entry(), b0);
    assert_eq!(copy.iter_constants(), &vec![one]);
    assert_eq!(copy.span(), SourceSpan::new(3, 9, 1));
    assert_eq!(*copy.ident(), ident("f", 1));
}

#[test]
fn symbol_table_interns_names() {
    let mut symbols = SymbolTable::new();
    assert_eq!(symbols.len(), 6);
    assert_eq!(symbols.intern("false"), Symbol(libeir_ir::intern::SYM_FALSE));
    assert_eq!(symbols.intern("true"), Symbol(libeir_ir::intern::SYM_TRUE));
    assert_eq!(symbols.intern("erlang"), Symbol(libeir_ir::intern::SYM_ERLANG));
    assert_eq!(symbols.intern("=:="), Symbol(libeir_ir::intern::SYM_EXACT_EQ));
    assert_eq!(symbols.intern("bool_and"), Symbol(libeir_ir::intern::SYM_BOOL_AND));
    assert_eq!(symbols.intern("bool_or"), Symbol(libeir_ir::intern::SYM_BOOL_OR));
    let woo = symbols.intern("woo");
    let foo = symbols.intern("foo");
    assert_eq!(woo, Symbol(6));
    assert_eq!(foo, Symbol(7));
    assert_eq!(symbols.intern("woo"), woo);
    assert_eq!(symbols.lookup("foo"), Some(foo));
    assert_eq!(symbols.lookup("bar"), None);
    assert_eq!(symbols.name(woo), "woo");
    assert_eq!(symbols.len(), 8);
}

#[test]
fn aliases_are_chased() {
    let mut b = FunctionBuilder::new(Function::new(ident("f", 0)));
    let b0 = b.block_insert();
    let x = b.block_arg_insert(b0);
    let y = b.block_arg_insert(b0);
    let (b1, v1) = b.block_insert_get_val();
    let nil = b.value(ConstantTerm::Nil.into());

    // x forwards to y, y forwards to the block b1
    b.value_alias(x, y);
    b.value_alias(y, v1);
    assert_eq!(*b.fun().value(x), ValueType::Alias(y));
    assert_eq!(b.fun().value_resolve(x), v1);
    assert_eq!(b.fun().value_kind(x), ValueType::Block(b1));
    assert_eq!(b.fun().value_block(x), Some(b1));
    assert_eq!(b.fun().value_block(y), Some(b1));
    // the arguments keep their places
    assert_eq!(b.block_args(b0), &[x, y]);

    let z = b.block_arg_insert(b1);
    let late = b.value(ConstantTerm::Int(3).into());
    b.value_alias(z, late);
    assert_eq!(b.fun().value_kind(z), ValueType::Constant(ConstantTerm::Int(3)));
    assert!(!b.fun().value_is_constant(z));
    assert!(b.fun().value_is_constant(late));

    // the graph follows aliases
    b.op_call(b0, x, &[nil, z]);
    b.op_unreachable(b1);
    let fun = b.finish();
    assert_eq!(fun.block_graph().outgoing(b0), vec![b1]);
    assert_eq!(fun.block_graph().incoming(b1), vec![b0]);
    assert!(fun.block_graph().incoming(b0).is_empty());
}

#[test]
fn block_graph_lists_predecessors_once() {
    let mut b = FunctionBuilder::new(Function::new(ident("f", 0)));
    let (b0, v0) = b.block_insert_get_val();
    let (b1, v1) = b.block_insert_get_val();
    let (b2, v2) = b.block_insert_get_val();
    b.op_call(b0, v2, &[v2, v1]);
    b.op_call(b1, v2, &[v0]);
    b.op_call(b2, v2, &[]);
    let fun = b.finish();
    let graph = fun.block_graph();
    assert_eq!(graph.incoming(b2), vec![b0, b1, b2]);
    assert_eq!(graph.incoming(b1), vec![b0]);
    assert_eq!(graph.incoming(b0), vec![b1]);
    assert!(graph.incoming(Block::from_u32(9)).is_empty());
}

#[test]
fn value_data_knows_definition_and_usages() {
    let mut b = FunctionBuilder::new(Function::new(ident("f", 0)));
    let b0 = b.block_insert();
    let x = b.block_arg_insert(b0);
    let (b1, v1) = b.block_insert_get_val();
    let b2 = b.block_insert();
    let nil = b.value(ConstantTerm::Nil.into());
    b.op_call(b0, v1, &[x, nil, x]);
    b.op_call(b1, x, &[]);
    b.op_call(b2, v1, &[nil]);
    let fun = b.finish();

    let data = fun.value_data(x);
    assert_eq!(data.kind, ValueType::Arg(b0));
    assert_eq!(data.definition, Some(b0));
    assert_eq!(data.usages, vec![b0, b1]);

    let data = fun.value_data(v1);
    assert_eq!(data.kind, ValueType::Block(b1));
    assert_eq!(data.definition, None);
    assert_eq!(data.usages, vec![b0, b2]);

    let data = fun.value_data(nil);
    assert_eq!(data.kind, ValueType::Constant(ConstantTerm::Nil));
    assert_eq!(data.usages, vec![b0, b2]);
    assert!(fun.value_data(fun.block_value(b2)).usages.is_empty());
}

#[test]
fn handles_increase_between_interned_constants() {
    let mut b = FunctionBuilder::new(Function::new(ident("f", 0)));
    let b0 = b.block_insert();
    let one = b.value(ConstantTerm::Int(1).into());
    let a0 = b.block_arg_insert(b0);
    let one_again = b.value(ConstantTerm::Int(1).into());
    let b1 = b.block_insert();
    let two = b.value(ConstantTerm::Int(2).into());
    let a1 = b.block_arg_insert(b1);
    let a2 = b.block_arg_insert(b0);

    assert!(b0 < b1);
    assert!(a0 < a1 && a1 < a2);
    // a constant that is interned again is the value it was, and takes no
    // handle from the arguments that follow
    assert_eq!(one_again, one);
    assert!(one < a0 && a0 < two && two < a1);
    assert_eq!(b.block_args(b0), &[a0, a2]);
    assert_eq!(b.fun().value_count(), 7);
}

#[test]
fn function_references_are_kept_in_insertion_order() {
    let mut fun = Function::new(ident("f", 0));
    assert_eq!(fun.fun_ref_count(), 0);
    let g = fun.fun_ref_insert(ident("g", 1));
    let h = fun.fun_ref_insert(ident("h", 2));
    // a second reference to a function is a reference of its own
    let g_again = fun.fun_ref_insert(ident("g", 1));
    assert!(g < h && h < g_again);
    assert_eq!(g.as_u32(), 0);
    assert_eq!(g_again.as_u32(), 2);
    assert_eq!(fun.fun_ref_count(), 3);
    assert_eq!(*fun.fun_ref(g), ident("g", 1));
    assert_eq!(*fun.fun_ref(h), ident("h", 2));
    assert_eq!(*fun.fun_ref(g_again), ident("g", 1));
    // references are no blocks and no values
    assert_eq!(fun.block_count(), 0);
    assert_eq!(fun.value_count(), 0);

    let mut copy = fun.clone();
    copy.fun_ref_insert(ident("k", 0));
    assert_eq!(copy.fun_ref_count(), 4);
    assert_eq!(*copy.fun_ref(h), ident("h", 2));
    assert_eq!(fun.fun_ref_count(), 3);
}
