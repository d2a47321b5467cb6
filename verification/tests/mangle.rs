use libeir_ir::{
    Block, ConstantTerm, EntryArg, Function, FunctionBuilder, FunctionIdent, Ident, Mangler,
    OpKind, RenameDest, RenameSource, SymbolTable, Value, ValueType,
};

fn woo_ident(arity: usize) -> FunctionIdent {
    let mut symbols = SymbolTable::new();
    FunctionIdent {
        module: Ident::with_empty_span(symbols.intern("woo")),
        name: Ident::with_empty_span(symbols.intern("woo")),
        arity,
    }
}

#[test]
fn test_simple_mangle() {
    let ident = woo_ident(1);
    let fun = Function::new(ident);
    let mut b = FunctionBuilder::new(fun);

    let b1 = b.block_insert();
    let b1_ret = b.block_arg_insert(b1);
    let b1_arg = b.block_arg_insert(b1);

    let b2 = b.block_insert();

    let b2_val = b.value(b2.into());
    b.op_call(b1, b2_val, &[]);
    b.op_call(b2, b1_ret, &[b1_arg]);

    let mut mangler = Mangler::new();

    let nil_term = b.value(ConstantTerm::Nil.into());
    mangler.start(b1);
    let ret_narg = mangler.add_argument();
    mangler.add_rename(b1_ret, ret_narg);
    mangler.add_rename(b1_arg, nil_term);
    let new_b1 = mangler.run(&mut b);

    {
        let b1_args = b.block_args(new_b1);
        assert!(b1_args.len() == 1);

        let b1_reads = b.block_reads(new_b1);
        assert!(b1_reads.len() == 1);
        let new_b2 = b.fun().value_block(b1_reads[0]).unwrap();
        assert!(new_b2 != b2);

        let b2_args = b.block_args(new_b2);
        assert!(b2_args.len() == 0);

        let b2_reads = b.block_reads(new_b2);
        assert!(b2_reads.len() == 2);
        assert!(b2_reads[0] == b1_args[0]);
        assert!(b2_reads[1] == nil_term);
    }
}

#[test]
fn mangle_leaves_the_source_blocks_alone() {
    let mut b = FunctionBuilder::new(Function::new(woo_ident(1)));
    let b1 = b.block_insert();
    let b1_ret = b.block_arg_insert(b1);
    let b1_arg = b.block_arg_insert(b1);
    let b2 = b.block_insert();
    let b2_val = b.value(b2.into());
    b.op_call(b1, b2_val, &[]);
    b.op_call(b2, b1_ret, &[b1_arg]);
    let blocks_before = b.fun().block_count();

    let mut mangler = Mangler::new();
    mangler.start(b1);
    let new_b1 = mangler.run(&mut b);

    // one new entry and one copy of each of the two blocks in scope
    assert_eq!(b.fun().block_count(), blocks_before + 3);
    assert_eq!(new_b1, Block::from_u32(2));
    assert_eq!(b.block_args(b1), &[b1_ret, b1_arg]);
    assert_eq!(b.block_reads(b1), &[b2_val]);
    assert_eq!(b.block_reads(b2), &[b1_ret, b1_arg]);
    assert_eq!(b.fun().block_kind(b1), Some(OpKind::Call));
}

#[test]
fn mangle_with_empty_renames_copies_the_graph() {
    let mut b = FunctionBuilder::new(Function::new(woo_ident(1)));
    let b1 = b.block_insert();
    let b1_ret = b.block_arg_insert(b1);
    let b1_arg = b.block_arg_insert(b1);
    let b2 = b.block_insert();
    let b2_x = b.block_arg_insert(b2);
    let b2_val = b.value(b2.into());
    let one = b.value(ConstantTerm::Int(1).into());
    b.op_call(b1, b2_val, &[b1_arg, one]);
    b.op_call(b2, b1_ret, &[b2_x]);

    let mut mangler = Mangler::new();
    mangler.start(b1);
    let new_entry = mangler.run(&mut b);

    // the scope is visited from the entry: b1 first, then b2
    let copy_b1 = Block::from_u32(new_entry.as_u32() + 1);
    let copy_b2 = Block::from_u32(new_entry.as_u32() + 2);
    assert_eq!(b.fun().block_count(), 5);
    assert_eq!(b.block_args(new_entry).len(), 0);
    assert_eq!(b.block_args(copy_b1).len(), 2);
    assert_eq!(b.block_args(copy_b2).len(), 1);
    for block in [new_entry, copy_b1, copy_b2] {
        assert_eq!(b.fun().block_kind(block), Some(OpKind::Call));
    }
    let c1_args = b.block_args(copy_b1).to_vec();
    let c2_args = b.block_args(copy_b2).to_vec();
    let c2_val = b.fun().block_value(copy_b2);
    // the new entry and the copy of the entry read the same mapped values
    assert_eq!(b.block_reads(new_entry), &[c2_val, c1_args[1], one]);
    assert_eq!(b.block_reads(copy_b1), &[c2_val, c1_args[1], one]);
    assert_eq!(b.block_reads(copy_b2), &[c1_args[0], c2_args[0]]);
    assert_eq!(*b.fun().value(c1_args[0]), ValueType::Arg(copy_b1));
    assert_eq!(*b.fun().value(c2_val), ValueType::Block(copy_b2));
}

#[test]
fn mangle_renamed_argument_becomes_entry_argument() {
    let mut b = FunctionBuilder::new(Function::new(woo_ident(2)));
    let b1 = b.block_insert();
    let ret = b.block_arg_insert(b1);
    let x = b.block_arg_insert(b1);
    let y = b.block_arg_insert(b1);
    b.op_call(b1, ret, &[x, y, x]);

    let mut mangler = Mangler::new();
    mangler.start(b1);
    let _e0 = mangler.add_argument();
    let e1 = mangler.add_argument();
    assert_eq!(e1, EntryArg(1));
    mangler.add_rename(x, e1);
    let new_entry = mangler.run(&mut b);

    let entry_args = b.block_args(new_entry).to_vec();
    assert_eq!(entry_args.len(), 2);
    let copy = Block::from_u32(new_entry.as_u32() + 1);
    let copy_args = b.block_args(copy).to_vec();
    // the copy keeps the arity of the block although one argument is renamed
    assert_eq!(copy_args.len(), 3);
    assert_eq!(
        b.block_reads(new_entry),
        &[copy_args[0], entry_args[1], copy_args[2], entry_args[1]]
    );
    assert_eq!(
        b.block_reads(copy),
        &[copy_args[0], entry_args[1], copy_args[2], entry_args[1]]
    );
}

#[test]
fn mangle_stops_at_renamed_blocks() {
    let mut b = FunctionBuilder::new(Function::new(woo_ident(0)));
    let b1 = b.block_insert();
    let b2 = b.block_insert();
    let b3 = b.block_insert();
    let target = b.block_insert();
    let b2_val = b.value(b2.into());
    let b3_val = b.value(b3.into());
    let target_val = b.value(target.into());
    b.op_call(b1, b2_val, &[b3_val]);
    b.op_call(b2, b3_val, &[]);
    b.op_call(b3, b2_val, &[]);
    b.op_unreachable(target);

    let mut mangler = Mangler::new();
    mangler.start(b1);
    // name the block through its value: the rename is re-keyed to the block
    mangler.add_rename(b2_val, target);
    let new_entry = mangler.run(&mut b);

    // scope: b1, then b3 (b2 is a frontier, its successors are not walked
    // through it, but b3 is also reached from b1)
    assert_eq!(b.fun().block_count(), 4 + 3);
    let copy_b1 = Block::from_u32(new_entry.as_u32() + 1);
    let copy_b3 = Block::from_u32(new_entry.as_u32() + 2);
    let copy_b3_val = b.fun().block_value(copy_b3);
    assert_eq!(b.block_reads(new_entry), &[target_val, copy_b3_val]);
    assert_eq!(b.block_reads(copy_b1), &[target_val, copy_b3_val]);
    assert_eq!(b.block_reads(copy_b3), &[target_val]);
    // no new block refers to the renamed block
    for raw in new_entry.as_u32()..(new_entry.as_u32() + 3) {
        for read in b.block_reads(Block::from_u32(raw)) {
            assert_ne!(b.fun().value_block(*read), Some(b2));
        }
    }
}

#[test]
fn mangle_entry_argument_shape() {
    let mut b = FunctionBuilder::new(Function::new(woo_ident(5)));
    let entry = b.block_insert();
    for _ in 0..5 {
        b.block_arg_insert(entry);
    }
    b.op_unreachable(entry);

    let mut mangler = Mangler::new();
    mangler.start(entry);
    mangler.add_argument();
    mangler.add_argument();
    let new_entry = mangler.run(&mut b);
    assert_eq!(b.block_args(new_entry).len(), 2);
    assert_eq!(b.block_args(entry).len(), 5);
    assert_eq!(b.fun().block_kind(new_entry), Some(OpKind::Unreachable));
}

#[test]
fn mangle_across_functions() {
    let mut src_b = FunctionBuilder::new(Function::new(woo_ident(1)));
    let b1 = src_b.block_insert();
    let ret = src_b.block_arg_insert(b1);
    let b2 = src_b.block_insert();
    let b2_x = src_b.block_arg_insert(b2);
    let b2_val = src_b.value(b2.into());
    let nil = src_b.value(ConstantTerm::Nil.into());
    let seven = src_b.value(ConstantTerm::Int(7).into());
    src_b.op_call(b1, b2_val, &[nil, seven, nil]);
    src_b.op_call(b2, ret, &[b2_x]);
    let src = src_b.finish();
    let src_blocks = src.block_count();
    let src_values = src.value_count();

    let mut dst_b = FunctionBuilder::new(Function::new(woo_ident(1)));
    let pad = dst_b.block_insert();
    dst_b.op_unreachable(pad);
    let dst_seven = dst_b.value(ConstantTerm::Int(7).into());

    let mut mangler = Mangler::new();
    mangler.start(b1);
    let new_entry = mangler.run_across(&src, &mut dst_b);

    // the source is untouched
    assert_eq!(src.block_count(), src_blocks);
    assert_eq!(src.value_count(), src_values);
    assert_eq!(src.block_reads(b1), &[b2_val, nil, seven, nil]);

    let dst = dst_b.finish();
    assert_eq!(new_entry, Block::from_u32(1));
    assert_eq!(dst.block_count(), 1 + 3);
    let copy_b1 = Block::from_u32(2);
    let copy_b2 = Block::from_u32(3);
    assert_eq!(dst.block_args(copy_b1).len(), 1);
    assert_eq!(dst.block_args(copy_b2).len(), 1);
    let reads = dst.block_reads(copy_b1).to_vec();
    assert_eq!(reads.len(), 4);
    assert_eq!(dst.value_block(reads[0]), Some(copy_b2));
    // constants are interned in the destination: Nil once, 7 reused
    assert_eq!(*dst.value(reads[1]), ValueType::Constant(ConstantTerm::Nil));
    assert_eq!(reads[2], dst_seven);
    assert_eq!(reads[3], reads[1]);
    assert_eq!(dst.iter_constants().len(), 2);
    assert_eq!(
        dst.block_reads(copy_b2),
        &[dst.block_args(copy_b1)[0], dst.block_args(copy_b2)[0]]
    );
    assert_eq!(dst.block_reads(new_entry), dst.block_reads(copy_b1));
}

#[test]
fn mangler_is_cleared_after_a_run() {
    let mut b = FunctionBuilder::new(Function::new(woo_ident(0)));
    let entry = b.block_insert();
    let x = b.block_arg_insert(entry);
    let nil = b.value(ConstantTerm::Nil.into());
    b.op_call(entry, x, &[x]);

    let mut mangler = Mangler::new();
    mangler.start(entry);
    mangler.add_argument();
    mangler.add_rename(x, nil);
    let first = mangler.run(&mut b);
    assert_eq!(b.block_reads(first), &[nil, nil]);
    assert_eq!(b.block_args(first).len(), 1);

    // the second run has neither the argument nor the rename of the first
    mangler.start(entry);
    let second = mangler.run(&mut b);
    assert_eq!(b.block_args(second).len(), 0);
    let copy = Block::from_u32(second.as_u32() + 1);
    let copy_x = b.block_args(copy)[0];
    assert_eq!(b.block_reads(second), &[copy_x, copy_x]);
}

#[test]
fn later_rename_of_the_same_source_wins() {
    let mut b = FunctionBuilder::new(Function::new(woo_ident(0)));
    let entry = b.block_insert();
    let x = b.block_arg_insert(entry);
    let one = b.value(ConstantTerm::Int(1).into());
    let two = b.value(ConstantTerm::Int(2).into());
    b.op_call(entry, x, &[]);

    let mut mangler = Mangler::new();
    mangler.start(entry);
    mangler.add_rename(RenameSource::Value(x), RenameDest::Value(one));
    mangler.add_rename(RenameSource::Value(x), RenameDest::Value(two));
    let new_entry = mangler.run(&mut b);
    assert_eq!(b.block_reads(new_entry), &[two]);
}

#[test]
fn rename_dest_block_returns_the_block() {
    let dest = RenameDest::from(Block::from_u32(7));
    assert_eq!(dest.block(), Block::from_u32(7));
    assert_eq!(RenameDest::from(Value::from_u32(3)), RenameDest::Value(Value::from_u32(3)));
    assert_eq!(RenameDest::from(EntryArg(2)), RenameDest::EntryArg(EntryArg(2)));
    assert_eq!(RenameSource::from(Block::from_u32(1)), RenameSource::Block(Block::from_u32(1)));
    assert_eq!(RenameSource::from(Value::from_u32(1)), RenameSource::Value(Value::from_u32(1)));
}

#[test]
fn mangle_resolves_aliases_first() {
    let mut b = FunctionBuilder::new(Function::new(woo_ident(1)));
    let b1 = b.block_insert();
    let ret = b.block_arg_insert(b1);
    let x = b.block_arg_insert(b1);
    let b2 = b.block_insert();
    let b2_val = b.value(b2.into());
    let nil = b.value(ConstantTerm::Nil.into());
    // x stands for the block b2
    b.value_alias(x, b2_val);
    b.op_call(b1, x, &[ret]);
    b.op_call(b2, ret, &[nil]);

    let mut mangler = Mangler::new();
    mangler.start(b1);
    let new_entry = mangler.run(&mut b);

    // the read of x is the read of b2: b2 is in the scope and has a copy
    assert_eq!(b.fun().block_count(), 2 + 3);
    let copy_b1 = Block::from_u32(new_entry.as_u32() + 1);
    let copy_b2 = Block::from_u32(new_entry.as_u32() + 2);
    let copy_ret = b.block_args(copy_b1)[0];
    assert_eq!(b.block_args(copy_b1).len(), 2);
    assert_eq!(b.block_reads(new_entry), &[b.fun().block_value(copy_b2), copy_ret]);
    assert_eq!(b.block_reads(copy_b2), &[copy_ret, nil]);
}
