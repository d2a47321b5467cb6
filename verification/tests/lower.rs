use libeir_ir::{
    Block, ClauseLowerCtx, ConstantTerm, Function, FunctionBuilder, FunctionIdent, Guard,
    GuardOperand, GuardTest, Ident, LowerCtx, LowerError, OpKind, Pattern, PatternNodeKind,
    PatternValue, SourceSpan, Symbol, SymbolTable, Value, ValueItem, ValueType,
};
use libeir_ir::intern::{SYM_BOOL_AND, SYM_BOOL_OR, SYM_ERLANG, SYM_EXACT_EQ, SYM_FALSE};
use libeir_ir::lower_clause;

struct Setup {
    symbols: SymbolTable,
    ctx: LowerCtx,
    b: FunctionBuilder,
    entry: Block,
    args: Vec<Value>,
}

fn setup(module: &str, name: &str, arity: usize) -> Setup {
    let mut symbols = SymbolTable::new();
    let ident = FunctionIdent {
        module: Ident::with_empty_span(symbols.intern(module)),
        name: Ident::with_empty_span(symbols.intern(name)),
        arity,
    };
    let mut b = FunctionBuilder::new(Function::new(ident));
    let entry = b.block_insert();
    b.block_set_entry(entry);
    let mut args = Vec::new();
    for _ in 0..(arity + 2) {
        args.push(b.block_arg_insert(entry));
    }
    Setup { symbols, ctx: LowerCtx::new(), b, entry, args }
}

fn var(symbols: &mut SymbolTable, name: &str) -> Ident {
    Ident::new(symbols.intern(name), SourceSpan::new(0, name.len() as u32, 1))
}

fn lit(n: i64) -> Pattern {
    Pattern::Literal(ConstantTerm::Int(n))
}

#[test]
fn pat_1_lower() {
    // the head of `pat(A, A) -> 1.`
    let mut s = setup("pat", "pat", 2);
    let a = var(&mut s.symbols, "A");
    let mut pre_case = s.entry;
    let patterns = vec![Pattern::Var(a), Pattern::Var(a)];
    let lowered = lower_clause(&mut s.ctx, &mut s.b, &mut pre_case, &patterns, None);
    let lowered = match lowered {
        Ok(lowered) => lowered,
        Err(_) => panic!("the clause can match"),
    };
    assert_eq!(pre_case, s.entry);

    // two binds, at positions 0 and 1
    assert_eq!(s.b.pat().clause_binds(lowered.clause).len(), 2);
    assert_eq!(s.b.pat().clause_roots(lowered.clause).len(), 2);
    assert!(s.b.pat().clause_is_finished(lowered.clause));
    assert!(lowered.values.is_empty());
    assert_eq!(s.b.block_args(lowered.body).len(), 2);
    assert!(s.b.block_reads(lowered.body).is_empty());
    assert_eq!(s.b.fun().block_kind(lowered.body), None);

    // the guard lambda: return continuation and the two binds
    let guard = s.b.fun().value_block(lowered.guard).unwrap();
    let guard_args = s.b.block_args(guard).to_vec();
    assert_eq!(guard_args.len(), 3);

    // its body is erlang:'=:='(A0, A1)
    assert_eq!(s.b.fun().block_kind(guard), Some(OpKind::CaptureFunction));
    let capture = s.b.block_reads(guard).to_vec();
    assert_eq!(capture.len(), 4);
    assert_eq!(
        *s.b.fun().value(capture[1]),
        ValueType::Constant(ConstantTerm::Atom(Symbol(SYM_ERLANG)))
    );
    assert_eq!(
        *s.b.fun().value(capture[2]),
        ValueType::Constant(ConstantTerm::Atom(Symbol(SYM_EXACT_EQ)))
    );
    assert_eq!(*s.b.fun().value(capture[3]), ValueType::Constant(ConstantTerm::Int(2)));
    let call_block = s.b.fun().value_block(capture[0]).unwrap();
    assert_eq!(s.b.fun().block_kind(call_block), Some(OpKind::Call));
    let call = s.b.block_reads(call_block).to_vec();
    assert_eq!(call.len(), 5);
    assert_eq!(call[0], s.b.block_args(call_block)[0]);
    assert_eq!(call[3], guard_args[1]);
    assert_eq!(call[4], guard_args[2]);
    let error_cont = s.b.fun().value_block(call[2]).unwrap();
    assert_eq!(s.b.fun().block_kind(error_cont), Some(OpKind::Unreachable));
    assert_eq!(s.b.block_args(error_cont).len(), 3);

    // the outcome of the call is and-ed and returned
    let next = s.b.fun().value_block(call[1]).unwrap();
    assert_eq!(s.b.fun().block_kind(next), Some(OpKind::Intrinsic(Symbol(SYM_BOOL_AND))));
    let and = s.b.block_reads(next).to_vec();
    assert_eq!(and.len(), 2);
    assert_eq!(and[1], s.b.block_args(next)[0]);
    let cond = s.b.fun().value_block(and[0]).unwrap();
    assert_eq!(s.b.fun().block_kind(cond), Some(OpKind::Call));
    assert_eq!(s.b.block_reads(cond), &[guard_args[0], s.b.block_args(cond)[0]]);

    // the body scope binds A to the first argument of the body
    assert_eq!(s.ctx.resolve(a), Some(s.b.block_args(lowered.body)[0]));
    s.ctx.scope.pop(lowered.scope_token);
    assert_eq!(s.ctx.resolve(a), None);
    assert_eq!(s.ctx.exc_stack.len(), 0);
    assert!(s.ctx.errors.is_empty());
}

#[test]
fn fib_lower() {
    // the heads of `fib(X) when X < 2 -> 1; fib(X) -> fib(X - 1) + fib(X - 2).`
    let mut s = setup("fib", "fib", 1);
    let x = var(&mut s.symbols, "X");
    let less = s.symbols.intern("<");
    let mut pre_case = s.entry;

    // fib(X) when X < 2
    let guard = vec![Guard {
        conditions: vec![GuardTest {
            module: Symbol(SYM_ERLANG),
            name: less,
            args: vec![GuardOperand::Var(x), GuardOperand::Literal(ConstantTerm::Int(2))],
        }],
    }];
    let blocks_before = s.b.fun().block_count();
    let first = lower_clause(&mut s.ctx, &mut s.b, &mut pre_case, &vec![Pattern::Var(x)], Some(&guard));
    let first = match first {
        Ok(lowered) => lowered,
        Err(_) => panic!("the clause can match"),
    };
    // frame (3), the guard sequence (1), one guard (1), one test (2), the body (1)
    assert_eq!(s.b.fun().block_count(), blocks_before + 8);
    let guard_block = s.b.fun().value_block(first.guard).unwrap();
    assert_eq!(guard_block, Block::from_u32(blocks_before as u32));
    let guard_args = s.b.block_args(guard_block).to_vec();
    assert_eq!(guard_args.len(), 2);

    // the test: erlang:'<'(X, 2), with the fail handler as error continuation
    assert_eq!(s.b.fun().block_kind(guard_block), Some(OpKind::CaptureFunction));
    let capture = s.b.block_reads(guard_block).to_vec();
    assert_eq!(
        *s.b.fun().value(capture[1]),
        ValueType::Constant(ConstantTerm::Atom(Symbol(SYM_ERLANG)))
    );
    assert_eq!(*s.b.fun().value(capture[2]), ValueType::Constant(ConstantTerm::Atom(less)));
    assert_eq!(*s.b.fun().value(capture[3]), ValueType::Constant(ConstantTerm::Int(2)));
    let call_block = s.b.fun().value_block(capture[0]).unwrap();
    let call = s.b.block_reads(call_block).to_vec();
    assert_eq!(call.len(), 5);
    let fail_handler = Block::from_u32(guard_block.as_u32() + 1);
    assert_eq!(s.b.fun().value_block(call[2]), Some(fail_handler));
    assert_eq!(call[3], guard_args[1]);
    assert_eq!(*s.b.fun().value(call[4]), ValueType::Constant(ConstantTerm::Int(2)));

    // the fail handler returns false
    assert_eq!(s.b.block_args(fail_handler).len(), 3);
    let handler_reads = s.b.block_reads(fail_handler).to_vec();
    assert_eq!(handler_reads[0], guard_args[0]);
    assert_eq!(
        *s.b.fun().value(handler_reads[1]),
        ValueType::Constant(ConstantTerm::Atom(Symbol(SYM_FALSE)))
    );

    // the outcome of the test goes through bool_and, bool_or and bool_and
    let test_ok = s.b.fun().value_block(call[1]).unwrap();
    assert_eq!(s.b.fun().block_kind(test_ok), Some(OpKind::Intrinsic(Symbol(SYM_BOOL_AND))));
    let inner_and = s.b.block_reads(test_ok).to_vec();
    assert_eq!(inner_and.len(), 2);
    assert_eq!(inner_and[1], s.b.block_args(test_ok)[0]);
    let and_block = s.b.fun().value_block(inner_and[0]).unwrap();
    assert_eq!(s.b.fun().block_kind(and_block), Some(OpKind::Intrinsic(Symbol(SYM_BOOL_OR))));
    let or = s.b.block_reads(and_block).to_vec();
    assert_eq!(or.len(), 2);
    assert_eq!(or[1], s.b.block_args(and_block)[0]);
    let or_block = s.b.fun().value_block(or[0]).unwrap();
    assert_eq!(s.b.fun().block_kind(or_block), Some(OpKind::Intrinsic(Symbol(SYM_BOOL_AND))));
    let top = s.b.block_reads(or_block).to_vec();
    assert_eq!(top.len(), 2);
    assert_eq!(top[1], s.b.block_args(or_block)[0]);
    let cond = s.b.fun().value_block(top[0]).unwrap();
    assert_eq!(s.b.block_reads(cond), &[guard_args[0], s.b.block_args(cond)[0]]);

    assert_eq!(s.ctx.resolve(x), Some(s.b.block_args(first.body)[0]));
    s.ctx.scope.pop(first.scope_token);

    // fib(X)
    let second = lower_clause(&mut s.ctx, &mut s.b, &mut pre_case, &vec![Pattern::Var(x)], None);
    let second = match second {
        Ok(lowered) => lowered,
        Err(_) => panic!("the clause can match"),
    };
    assert_ne!(second.clause, first.clause);
    assert_ne!(second.body, first.body);
    let second_guard = s.b.fun().value_block(second.guard).unwrap();
    assert_eq!(
        s.b.fun().block_kind(second_guard),
        Some(OpKind::Intrinsic(Symbol(SYM_BOOL_AND)))
    );
    assert_eq!(s.b.block_reads(second_guard).len(), 1);
    s.ctx.scope.pop(second.scope_token);
    assert!(s.ctx.errors.is_empty());
    assert_eq!(s.ctx.scope.height(), 1);
}

#[test]
fn unmatchable_clause_fails_and_keeps_the_scope() {
    // pat(1, 2 = 3) -> _.
    let mut s = setup("pat", "pat", 2);
    let mut pre_case = s.entry;
    let outer = var(&mut s.symbols, "Outer");
    s.ctx.bind(outer, s.args[0]);
    let height = s.ctx.scope.height();
    let patterns = vec![lit(1), Pattern::Match(Box::new(lit(2)), Box::new(lit(3)))];
    let result = lower_clause(&mut s.ctx, &mut s.b, &mut pre_case, &patterns, None);
    let fail = match result {
        Ok(_) => panic!("no term matches 2 = 3"),
        Err(fail) => fail,
    };
    assert_eq!(s.ctx.scope.height(), height + 1);
    s.ctx.scope.pop(fail.scope_token);
    assert_eq!(s.ctx.scope.height(), height);
    assert_eq!(s.ctx.resolve(outer), Some(s.args[0]));
    assert_eq!(pre_case, s.entry);
    assert!(s.ctx.errors.is_empty());
    // no constant was interned, and the clause stays empty
    assert!(s.b.fun().iter_constants().is_empty());
    assert_eq!(s.b.pat().node_count(), 0);
}

#[test]
fn unmatchable_clause_issues_pseudo_binds() {
    // pat(X, {Y, X} = [Z | Outer]) -> _.
    let mut s = setup("pat", "pat", 2);
    let mut pre_case = s.entry;
    let x = var(&mut s.symbols, "X");
    let y = var(&mut s.symbols, "Y");
    let z = var(&mut s.symbols, "Z");
    let outer = var(&mut s.symbols, "Outer");
    s.ctx.bind(outer, s.args[1]);
    let patterns = vec![
        Pattern::Var(x),
        Pattern::Match(
            Box::new(Pattern::Tuple(vec![Pattern::Var(y), Pattern::Var(x)])),
            Box::new(Pattern::Cons(Box::new(Pattern::Var(z)), Box::new(Pattern::Var(outer)))),
        ),
    ];
    let blocks = s.b.fun().block_count();
    let result = lower_clause(&mut s.ctx, &mut s.b, &mut pre_case, &patterns, None);
    let fail = match result {
        Ok(_) => panic!("a tuple is no list cell"),
        Err(fail) => fail,
    };
    // X, Y and Z are bound to the arguments of a block that is never entered
    let sentinel = Block::from_u32(blocks as u32);
    assert_eq!(s.b.fun().block_count(), blocks + 1);
    assert_eq!(s.b.fun().block_kind(sentinel), None);
    let placeholders = s.b.block_args(sentinel).to_vec();
    assert_eq!(placeholders.len(), 3);
    assert_eq!(s.ctx.resolve(x), Some(placeholders[0]));
    assert_eq!(s.ctx.resolve(y), Some(placeholders[1]));
    assert_eq!(s.ctx.resolve(z), Some(placeholders[2]));
    assert_eq!(s.ctx.resolve(outer), Some(s.args[1]));
    s.ctx.scope.pop(fail.scope_token);
    assert_eq!(s.ctx.resolve(x), None);
    assert_eq!(s.ctx.resolve(y), None);
    assert_eq!(s.ctx.resolve(z), None);
    assert_eq!(s.ctx.resolve(outer), Some(s.args[1]));
}

#[test]
fn literals_share_value_slots() {
    // pat({1, foo, 1}, [foo | _]) -> ok.
    let mut s = setup("pat", "pat", 2);
    let mut pre_case = s.entry;
    let foo = ConstantTerm::Atom(s.symbols.intern("foo"));
    let patterns = vec![
        Pattern::Tuple(vec![lit(1), Pattern::Literal(foo), lit(1)]),
        Pattern::Cons(Box::new(Pattern::Literal(foo)), Box::new(Pattern::Wildcard)),
    ];
    let lowered = match lower_clause(&mut s.ctx, &mut s.b, &mut pre_case, &patterns, None) {
        Ok(lowered) => lowered,
        Err(_) => panic!("the clause can match"),
    };
    assert_eq!(lowered.values.len(), 2);
    assert_eq!(
        *s.b.fun().value(lowered.values[0]),
        ValueType::Constant(ConstantTerm::Int(1))
    );
    assert_eq!(*s.b.fun().value(lowered.values[1]), ValueType::Constant(foo));
    assert_eq!(s.b.pat().clause_value_count(lowered.clause), 2);

    let pat = s.b.pat();
    let roots = pat.clause_roots(lowered.clause).to_vec();
    assert_eq!(roots.len(), 2);
    match pat.node_kind(roots[0]) {
        PatternNodeKind::Tuple(children) => {
            assert_eq!(children.len(), 3);
            let slots: Vec<PatternValue> = children
                .iter()
                .map(|c| match pat.node_kind(*c) {
                    PatternNodeKind::Value(slot) => *slot,
                    other => panic!("a value node: {:?}", other),
                })
                .collect();
            assert_eq!(slots, vec![PatternValue(0), PatternValue(1), PatternValue(0)]);
        }
        other => panic!("a tuple node: {:?}", other),
    }
    match pat.node_kind(roots[1]) {
        PatternNodeKind::ListCell(head, tail) => {
            assert!(matches!(pat.node_kind(*head), PatternNodeKind::Value(PatternValue(1))));
            assert!(matches!(pat.node_kind(*tail), PatternNodeKind::Wildcard));
        }
        other => panic!("a list cell: {:?}", other),
    }
    assert_eq!(pat.node_count(), 7);
    assert!(pat.clause_binds(lowered.clause).is_empty());
}

#[test]
fn match_patterns_are_merged() {
    // pat({A, 2} = {1, B} = C) -> ok.
    let mut s = setup("pat", "pat", 1);
    let mut pre_case = s.entry;
    let a = var(&mut s.symbols, "A");
    let bb = var(&mut s.symbols, "B");
    let c = var(&mut s.symbols, "C");
    let patterns = vec![Pattern::Match(
        Box::new(Pattern::Tuple(vec![Pattern::Var(a), lit(2)])),
        Box::new(Pattern::Match(
            Box::new(Pattern::Tuple(vec![lit(1), Pattern::Var(bb)])),
            Box::new(Pattern::Var(c)),
        )),
    )];
    let lowered = match lower_clause(&mut s.ctx, &mut s.b, &mut pre_case, &patterns, None) {
        Ok(lowered) => lowered,
        Err(_) => panic!("the clause can match"),
    };
    let pat = s.b.pat();
    let root = pat.clause_roots(lowered.clause)[0];
    let children = match pat.node_kind(root) {
        PatternNodeKind::Tuple(children) => children.clone(),
        other => panic!("a tuple node: {:?}", other),
    };
    // one tuple with the elements 1 and 2: three nodes
    assert_eq!(pat.node_count(), 3);
    assert!(matches!(pat.node_kind(children[0]), PatternNodeKind::Value(PatternValue(0))));
    assert!(matches!(pat.node_kind(children[1]), PatternNodeKind::Value(PatternValue(1))));
    assert_eq!(
        *s.b.fun().value(lowered.values[0]),
        ValueType::Constant(ConstantTerm::Int(1))
    );
    assert_eq!(
        *s.b.fun().value(lowered.values[1]),
        ValueType::Constant(ConstantTerm::Int(2))
    );
    // the binds in the order of the walk: C at the root, then A, then B
    assert_eq!(pat.clause_binds(lowered.clause), &[root, children[0], children[1]]);
    let body_args = s.b.block_args(lowered.body).to_vec();
    assert_eq!(s.ctx.resolve(c), Some(body_args[0]));
    assert_eq!(s.ctx.resolve(a), Some(body_args[1]));
    assert_eq!(s.ctx.resolve(bb), Some(body_args[2]));
}

#[test]
fn bound_variable_in_a_pattern_is_compared() {
    // with Outer bound: pat(Outer) -> ok.
    let mut s = setup("pat", "pat", 1);
    let mut pre_case = s.entry;
    let outer = var(&mut s.symbols, "Outer");
    let bound = s.args[0];
    s.ctx.bind(outer, bound);
    let lowered = match lower_clause(
        &mut s.ctx,
        &mut s.b,
        &mut pre_case,
        &vec![Pattern::Var(outer)],
        None,
    ) {
        Ok(lowered) => lowered,
        Err(_) => panic!("the clause can match"),
    };
    let guard = s.b.fun().value_block(lowered.guard).unwrap();
    let guard_args = s.b.block_args(guard).to_vec();
    assert_eq!(guard_args.len(), 2);
    let capture = s.b.block_reads(guard).to_vec();
    let call_block = s.b.fun().value_block(capture[0]).unwrap();
    let call = s.b.block_reads(call_block).to_vec();
    // erlang:'=:='(bind 0, the value in scope)
    assert_eq!(call[3], guard_args[1]);
    assert_eq!(call[4], bound);
    // the bind has no name: the body still sees the outer binding
    assert_eq!(s.b.block_args(lowered.body).len(), 1);
    assert_eq!(s.ctx.resolve(outer), Some(bound));
}

#[test]
fn guard_sequence_is_a_disjunction_of_conjunctions() {
    // pat(X) when is_integer(X), X > 0; is_atom(X) -> ok.
    let mut s = setup("pat", "pat", 1);
    let mut pre_case = s.entry;
    let x = var(&mut s.symbols, "X");
    let is_integer = s.symbols.intern("is_integer");
    let greater = s.symbols.intern(">");
    let is_atom = s.symbols.intern("is_atom");
    let test = |name: Symbol, args: Vec<GuardOperand>| GuardTest {
        module: Symbol(SYM_ERLANG),
        name,
        args,
    };
    let guard = vec![
        Guard {
            conditions: vec![
                test(is_integer, vec![GuardOperand::Var(x)]),
                test(
                    greater,
                    vec![GuardOperand::Var(x), GuardOperand::Literal(ConstantTerm::Int(0))],
                ),
            ],
        },
        Guard { conditions: vec![test(is_atom, vec![GuardOperand::Var(x)])] },
    ];
    let base = s.b.fun().block_count() as u32;
    let lowered = match lower_clause(
        &mut s.ctx,
        &mut s.b,
        &mut pre_case,
        &vec![Pattern::Var(x)],
        Some(&guard),
    ) {
        Ok(lowered) => lowered,
        Err(_) => panic!("the clause can match"),
    };
    let fun = s.b.fun();
    // frame 3, or 1, guards 2, tests 2 * 3, body 1
    assert_eq!(fun.block_count() as u32, base + 13);
    assert_eq!(lowered.body, Block::from_u32(base + 12));
    let entry = Block::from_u32(base);
    let or_block = Block::from_u32(base + 3);
    let and_0 = Block::from_u32(base + 4);
    let test_0_0 = Block::from_u32(base + 5);
    let test_0_1 = Block::from_u32(base + 7);
    let and_1 = Block::from_u32(base + 9);
    let test_1_0 = Block::from_u32(base + 10);
    let arg0 = |block: Block| fun.block_args(block)[0];

    // the first guard starts in the entry and ends with bool_and
    assert_eq!(fun.block_kind(entry), Some(OpKind::CaptureFunction));
    assert_eq!(fun.block_kind(test_0_0), Some(OpKind::CaptureFunction));
    assert_eq!(fun.block_kind(test_0_1), Some(OpKind::Intrinsic(Symbol(SYM_BOOL_AND))));
    assert_eq!(
        fun.block_reads(test_0_1),
        &[fun.block_value(and_0), arg0(test_0_0), arg0(test_0_1)]
    );
    // the second guard starts where the first delivered its outcome
    assert_eq!(fun.block_kind(and_0), Some(OpKind::CaptureFunction));
    assert_eq!(fun.block_kind(test_1_0), Some(OpKind::Intrinsic(Symbol(SYM_BOOL_AND))));
    assert_eq!(fun.block_reads(test_1_0), &[fun.block_value(and_1), arg0(test_1_0)]);
    // the outcomes of the guards are or-ed
    assert_eq!(fun.block_kind(and_1), Some(OpKind::Intrinsic(Symbol(SYM_BOOL_OR))));
    assert_eq!(fun.block_reads(and_1), &[fun.block_value(or_block), arg0(and_0), arg0(and_1)]);
    // and the outcome of the sequence is returned
    assert_eq!(fun.block_kind(or_block), Some(OpKind::Intrinsic(Symbol(SYM_BOOL_AND))));
    let cond = Block::from_u32(base + 2);
    assert_eq!(fun.block_reads(or_block), &[fun.block_value(cond), arg0(or_block)]);
    assert_eq!(fun.block_reads(cond), &[arg0(entry), arg0(cond)]);
}

#[test]
fn unbound_guard_variable_is_reported() {
    // pat(X) when Y > X -> ok.
    let mut s = setup("pat", "pat", 1);
    let mut pre_case = s.entry;
    let x = var(&mut s.symbols, "X");
    let y = var(&mut s.symbols, "Y");
    let greater = s.symbols.intern(">");
    let guard = vec![Guard {
        conditions: vec![GuardTest {
            module: Symbol(SYM_ERLANG),
            name: greater,
            args: vec![GuardOperand::Var(y), GuardOperand::Var(x)],
        }],
    }];
    let lowered = match lower_clause(
        &mut s.ctx,
        &mut s.b,
        &mut pre_case,
        &vec![Pattern::Var(x)],
        Some(&guard),
    ) {
        Ok(lowered) => lowered,
        Err(_) => panic!("the clause can match"),
    };
    assert_eq!(s.ctx.errors, vec![LowerError::UnboundVariable(y)]);
    let guard_block = s.b.fun().value_block(lowered.guard).unwrap();
    let capture = s.b.block_reads(guard_block).to_vec();
    let call_block = s.b.fun().value_block(capture[0]).unwrap();
    let call = s.b.block_reads(call_block).to_vec();
    // the empty list stands in for the unbound variable
    assert_eq!(*s.b.fun().value(call[3]), ValueType::Constant(ConstantTerm::Nil));
    assert_eq!(call[4], s.b.block_args(guard_block)[1]);
    assert_eq!(s.ctx.exc_stack.len(), 0);
    let _ = SYM_BOOL_OR;
}

#[test]
fn lowering_leaves_existing_blocks_alone() {
    let mut s = setup("pat", "pat", 1);
    let mut pre_case = s.entry;
    let x = var(&mut s.symbols, "X");
    let entry_args = s.b.block_args(s.entry).to_vec();
    let values_before = s.b.fun().value_count();
    let result = lower_clause(
        &mut s.ctx,
        &mut s.b,
        &mut pre_case,
        &vec![Pattern::Tuple(vec![Pattern::Var(x), Pattern::Var(x), lit(7)])],
        None,
    );
    assert!(result.is_ok());
    assert_eq!(s.b.block_args(s.entry), &entry_args[..]);
    assert_eq!(s.b.fun().block_kind(s.entry), None);
    assert_eq!(s.b.fun().block_entry(), s.entry);
    for raw in 0..values_before as u32 {
        let value = Value::from_u32(raw);
        match *s.b.fun().value(value) {
            ValueType::Arg(block) | ValueType::Block(block) => assert_eq!(block, s.entry),
            other => panic!("an argument or the entry: {:?}", other),
        }
    }
}

#[test]
fn clause_value_gives_each_value_one_slot() {
    let mut s = setup("pat", "pat", 1);
    let clause = s.b.pat.clause_start();
    let mut cl = ClauseLowerCtx::new(clause, s.entry);
    assert!(cl.values.is_empty());
    assert!(cl.binds.is_empty());
    assert_eq!(cl.pat_clause, clause);
    assert_eq!(cl.pre_case, s.entry);

    let one = s.b.value(ValueItem::Constant(ConstantTerm::Int(1)));
    let arg = s.args[0];
    let entry_val = s.b.value(ValueItem::Block(s.entry));

    assert_eq!(cl.clause_value(&mut s.b, one), PatternValue(0));
    assert_eq!(cl.clause_value(&mut s.b, arg), PatternValue(1));
    // a value that has a slot gets the same slot again
    assert_eq!(cl.clause_value(&mut s.b, one), PatternValue(0));
    assert_eq!(cl.values, vec![one, arg]);
    assert_eq!(s.b.pat().clause_value_count(clause), 2);

    assert_eq!(cl.clause_value(&mut s.b, entry_val), PatternValue(2));
    assert_eq!(cl.clause_value(&mut s.b, arg), PatternValue(1));
    let one_again = s.b.value(ValueItem::Constant(ConstantTerm::Int(1)));
    assert_eq!(one_again, one);
    assert_eq!(cl.clause_value(&mut s.b, one_again), PatternValue(0));
    assert_eq!(cl.values, vec![one, arg, entry_val]);
    assert_eq!(s.b.pat().clause_value_count(clause), 3);
    assert_eq!(s.b.pat().node_count(), 0);
}

#[test]
fn clause_value_keeps_the_slots_of_other_clauses() {
    let mut s = setup("pat", "pat", 2);
    let first = s.b.pat.clause_start();
    let second = s.b.pat.clause_start();
    let mut cl_first = ClauseLowerCtx::new(first, s.entry);
    let mut cl_second = ClauseLowerCtx::new(second, s.entry);

    assert_eq!(cl_first.clause_value(&mut s.b, s.args[0]), PatternValue(0));
    assert_eq!(cl_second.clause_value(&mut s.b, s.args[1]), PatternValue(0));
    assert_eq!(cl_second.clause_value(&mut s.b, s.args[0]), PatternValue(1));
    assert_eq!(cl_first.clause_value(&mut s.b, s.args[0]), PatternValue(0));

    assert_eq!(cl_first.values, vec![s.args[0]]);
    assert_eq!(cl_second.values, vec![s.args[1], s.args[0]]);
    assert_eq!(s.b.pat().clause_value_count(first), 1);
    assert_eq!(s.b.pat().clause_value_count(second), 2);
}
