use libeir_ir::{
    canon_pattern, merge_nodes, BinarySegmentKind, BinarySpecifier, ConstantTerm,
    ExceptionHandlerStack, Function, FunctionBuilder, FunctionIdent, Ident, LowerCtx, Pattern,
    PatternClause, PatternContainer, PatternNode, PatternNodeKind, PatternValue, ScopeTracker,
    SymbolTable, Tree, TreeNode, Value,
};

fn ident(symbols: &mut SymbolTable, name: &str) -> Ident {
    Ident::with_empty_span(symbols.intern(name))
}

fn names_of(node: &TreeNode) -> Vec<Ident> {
    match node {
        TreeNode::Any(names) => names.clone(),
        TreeNode::Literal(names, _) => names.clone(),
        TreeNode::Tuple(names, _) => names.clone(),
        TreeNode::Cons(names, _, _) => names.clone(),
    }
}

#[test]
fn pattern_container_builds_clauses() {
    let mut pat = PatternContainer::new();
    assert_eq!(pat.node_count(), 0);
    assert_eq!(pat.clause_count(), 0);

    let first = pat.clause_start();
    let second = pat.clause_start();
    assert_eq!(first, PatternClause(0));
    assert_eq!(second, PatternClause(1));
    assert_eq!(pat.clause_count(), 2);

    assert_eq!(pat.clause_value(second), PatternValue(0));
    assert_eq!(pat.clause_value(second), PatternValue(1));
    assert_eq!(pat.clause_value(first), PatternValue(0));
    assert_eq!(pat.clause_value_count(second), 2);
    assert_eq!(pat.clause_value_count(first), 1);

    let root = pat.node_empty();
    let head = pat.node_empty();
    let tail = pat.node_empty();
    let elem = pat.node_empty();
    assert_eq!(root, PatternNode(0));
    assert_eq!(elem, PatternNode(3));
    assert!(matches!(pat.node_kind(root), PatternNodeKind::Wildcard));
    pat.value(head, PatternValue(1));
    pat.tuple(tail, vec![elem]);
    pat.list_cell(root, head, tail);
    assert!(matches!(pat.node_kind(head), PatternNodeKind::Value(PatternValue(1))));
    match pat.node_kind(tail) {
        PatternNodeKind::Tuple(children) => assert_eq!(children, &vec![elem]),
        other => panic!("a tuple: {:?}", other),
    }
    match pat.node_kind(root) {
        PatternNodeKind::ListCell(h, t) => assert_eq!((*h, *t), (head, tail)),
        other => panic!("a list cell: {:?}", other),
    }

    pat.clause_node_push(second, root);
    pat.clause_bind_push(second, elem);
    pat.clause_bind_push(second, root);
    assert_eq!(pat.clause_roots(second), &[root]);
    assert_eq!(pat.clause_binds(second), &[elem, root]);
    assert!(pat.clause_roots(first).is_empty());
    assert!(!pat.clause_is_finished(second));
    pat.clause_finish(second);
    assert!(pat.clause_is_finished(second));
    assert!(!pat.clause_is_finished(first));
    assert_eq!(pat.node_count(), 4);
}

#[test]
fn builder_gives_access_to_its_pattern_container() {
    let mut symbols = SymbolTable::new();
    let name = ident(&mut symbols, "f");
    let mut b = FunctionBuilder::new(Function::new(FunctionIdent {
        module: name,
        name,
        arity: 0,
    }));
    let clause = b.pat_mut().clause_start();
    let node = b.pat_mut().node_empty();
    b.pat_mut().clause_node_push(clause, node);
    assert_eq!(b.pat().clause_roots(clause), &[node]);
    let block = b.block_insert();
    b.block_args_insert(block, 3);
    assert_eq!(b.block_args(block).len(), 3);
    assert_eq!(b.pat().node_count(), 1);
}

#[test]
fn scope_frames_shadow_and_pop() {
    let mut symbols = SymbolTable::new();
    let x = ident(&mut symbols, "X");
    let y = ident(&mut symbols, "Y");
    let mut scope = ScopeTracker::new();
    assert_eq!(scope.height(), 1);
    assert_eq!(scope.resolve(x), None);
    scope.bind(x, Value::from_u32(1));
    scope.bind(y, Value::from_u32(2));
    scope.bind(x, Value::from_u32(3));
    // the latest binding of a frame wins
    assert_eq!(scope.resolve(x), Some(Value::from_u32(3)));
    let token = scope.push();
    assert_eq!(token.height, 2);
    assert_eq!(scope.resolve(y), Some(Value::from_u32(2)));
    scope.bind(y, Value::from_u32(7));
    // the innermost frame wins
    assert_eq!(scope.resolve(y), Some(Value::from_u32(7)));
    assert_eq!(scope.resolve(x), Some(Value::from_u32(3)));
    scope.pop(token);
    assert_eq!(scope.height(), 1);
    assert_eq!(scope.resolve(y), Some(Value::from_u32(2)));
}

#[test]
fn lowering_context_starts_empty() {
    let mut symbols = SymbolTable::new();
    let x = ident(&mut symbols, "X");
    let mut ctx = LowerCtx::new();
    assert_eq!(ctx.scope.height(), 1);
    assert_eq!(ctx.exc_stack.len(), 0);
    assert!(ctx.errors.is_empty());
    assert_eq!(ctx.resolve(x), None);
    ctx.bind(x, Value::from_u32(4));
    assert_eq!(ctx.resolve(x), Some(Value::from_u32(4)));
}

#[test]
fn exception_handlers_are_a_stack() {
    let mut stack = ExceptionHandlerStack::new();
    assert_eq!(stack.top(), None);
    stack.push_handler(Value::from_u32(5));
    stack.push_handler(Value::from_u32(9));
    assert_eq!(stack.len(), 2);
    assert_eq!(stack.top(), Some(Value::from_u32(9)));
    stack.pop_handler();
    assert_eq!(stack.top(), Some(Value::from_u32(5)));
    stack.pop_handler();
    assert_eq!(stack.len(), 0);
}

#[test]
fn canonical_form_collects_variables() {
    let mut symbols = SymbolTable::new();
    let a = ident(&mut symbols, "A");
    let b = ident(&mut symbols, "B");
    // {A, [B | 1]} = A
    let pattern = Pattern::Match(
        Box::new(Pattern::Tuple(vec![
            Pattern::Var(a),
            Pattern::Cons(
                Box::new(Pattern::Var(b)),
                Box::new(Pattern::Literal(ConstantTerm::Int(1))),
            ),
        ])),
        Box::new(Pattern::Var(a)),
    );
    let mut names = vec![b];
    let tree = canon_pattern(&pattern, &mut names).unwrap();
    assert_eq!(names, vec![b, a, b, a]);
    match &tree {
        TreeNode::Tuple(root_names, children) => {
            assert_eq!(root_names, &vec![a]);
            assert_eq!(children.len(), 2);
            assert_eq!(names_of(&children[0]), vec![a]);
            match &children[1] {
                TreeNode::Cons(cell_names, head, tail) => {
                    assert!(cell_names.is_empty());
                    assert_eq!(names_of(head), vec![b]);
                    assert!(matches!(**tail, TreeNode::Literal(_, ConstantTerm::Int(1))));
                }
                other => panic!("a list cell: {:?}", other),
            }
        }
        other => panic!("a tuple: {:?}", other),
    }
}

#[test]
fn merge_detects_contradictions() {
    let mut symbols = SymbolTable::new();
    let a = ident(&mut symbols, "A");
    let b = ident(&mut symbols, "B");
    let lit = |n: i64, names: Vec<Ident>| TreeNode::Literal(names, ConstantTerm::Int(n));

    // equal literals merge, and the variables of the left come first
    match merge_nodes(lit(1, vec![a]), lit(1, vec![b])) {
        Some(TreeNode::Literal(names, ConstantTerm::Int(1))) => assert_eq!(names, vec![a, b]),
        other => panic!("a literal: {:?}", other),
    }
    // different literals do not
    assert!(merge_nodes(lit(1, vec![]), lit(2, vec![])).is_none());
    // a literal and a tuple do not
    assert!(merge_nodes(lit(1, vec![]), TreeNode::Tuple(vec![], vec![])).is_none());
    // tuples of different sizes do not
    assert!(merge_nodes(
        TreeNode::Tuple(vec![], vec![lit(1, vec![])]),
        TreeNode::Tuple(vec![], vec![lit(1, vec![]), lit(2, vec![])]),
    )
    .is_none());
    // a contradiction in an element is a contradiction of the tuple
    assert!(merge_nodes(
        TreeNode::Tuple(vec![], vec![lit(1, vec![]), lit(2, vec![])]),
        TreeNode::Tuple(vec![], vec![lit(1, vec![]), lit(3, vec![])]),
    )
    .is_none());
    // a tuple and a list cell do not
    assert!(merge_nodes(
        TreeNode::Tuple(vec![], vec![]),
        TreeNode::Cons(
            vec![],
            Box::new(TreeNode::Any(vec![])),
            Box::new(TreeNode::Any(vec![]))
        ),
    )
    .is_none());
    // anything merges with a variable
    match merge_nodes(
        TreeNode::Any(vec![a]),
        TreeNode::Tuple(vec![b], vec![lit(4, vec![])]),
    ) {
        Some(TreeNode::Tuple(names, children)) => {
            assert_eq!(names, vec![a, b]);
            assert_eq!(children.len(), 1);
        }
        other => panic!("a tuple: {:?}", other),
    }
    // list cells merge head with head and tail with tail
    match merge_nodes(
        TreeNode::Cons(vec![], Box::new(TreeNode::Any(vec![a])), Box::new(lit(5, vec![]))),
        TreeNode::Cons(vec![], Box::new(lit(6, vec![])), Box::new(TreeNode::Any(vec![b]))),
    ) {
        Some(TreeNode::Cons(_, head, tail)) => {
            assert!(matches!(*head, TreeNode::Literal(_, ConstantTerm::Int(6))));
            assert!(matches!(*tail, TreeNode::Literal(_, ConstantTerm::Int(5))));
            assert_eq!(names_of(&head), vec![a]);
            assert_eq!(names_of(&tail), vec![b]);
        }
        other => panic!("a list cell: {:?}", other),
    }
}

#[test]
fn tree_remembers_an_unmatchable_root() {
    let mut symbols = SymbolTable::new();
    let a = ident(&mut symbols, "A");
    let b = ident(&mut symbols, "B");
    let mut tree = Tree::new();
    tree.add_root(&Pattern::Var(a));
    assert!(!tree.unmatchable);
    assert_eq!(tree.roots.len(), 1);
    tree.add_root(&Pattern::Match(
        Box::new(Pattern::Literal(ConstantTerm::Nil)),
        Box::new(Pattern::Tuple(vec![Pattern::Var(b)])),
    ));
    assert!(tree.unmatchable);
    tree.add_root(&Pattern::Wildcard);
    assert!(tree.unmatchable);
    // the variables are collected all the same
    assert_eq!(tree.names, vec![a, b]);
}

#[test]
fn pattern_container_builds_map_nodes() {
    // #{K0 := {_}, K1 := _}
    let mut pat = PatternContainer::new();
    let clause = pat.clause_start();
    let k0 = pat.clause_value(clause);
    let k1 = pat.clause_value(clause);
    let root = pat.node_empty();
    let first = pat.node_empty();
    let elem = pat.node_empty();
    let second = pat.node_empty();
    pat.tuple(first, vec![elem]);
    pat.map(root, vec![k0, k1], vec![first, second]);
    pat.clause_node_push(clause, root);
    pat.clause_finish(clause);

    match pat.node_kind(root) {
        PatternNodeKind::MapEntries(keys, values) => {
            assert_eq!(keys, &vec![PatternValue(0), PatternValue(1)]);
            assert_eq!(values, &vec![first, second]);
        }
        other => panic!("a map node: {:?}", other),
    }
    assert!(matches!(pat.node_kind(second), PatternNodeKind::Wildcard));
    assert_eq!(pat.clause_roots(clause), &[root]);
    assert_eq!(pat.clause_value_count(clause), 2);
    assert_eq!(pat.node_count(), 4);
}

#[test]
fn pattern_container_builds_binary_nodes() {
    // <<_:Size/integer, _/bytes>>
    let mut pat = PatternContainer::new();
    let clause = pat.clause_start();
    let size = pat.clause_value(clause);
    let root = pat.node_empty();
    let head = pat.node_empty();
    let rest = pat.node_empty();
    let rest_value = pat.node_empty();
    let end = pat.node_empty();
    let integer = BinarySpecifier {
        kind: BinarySegmentKind::Integer,
        signed: false,
        big_endian: true,
        unit: 1,
    };
    let bytes =
        BinarySpecifier { kind: BinarySegmentKind::Bytes, signed: false, big_endian: true, unit: 8 };
    pat.binary(rest, bytes, rest_value, None, end);
    pat.binary(root, integer, head, Some(size), rest);

    match pat.node_kind(root) {
        PatternNodeKind::Binary(spec, value, sz, remaining) => {
            assert_eq!(*spec, integer);
            assert_eq!(*value, head);
            assert_eq!(*sz, Some(PatternValue(0)));
            assert_eq!(*remaining, rest);
        }
        other => panic!("a binary node: {:?}", other),
    }
    match pat.node_kind(rest) {
        PatternNodeKind::Binary(spec, value, sz, remaining) => {
            assert_eq!(spec.kind, BinarySegmentKind::Bytes);
            assert_eq!(spec.unit, 8);
            assert_eq!(*value, rest_value);
            assert_eq!(*sz, None);
            assert_eq!(*remaining, end);
        }
        other => panic!("a binary node: {:?}", other),
    }
    assert!(matches!(pat.node_kind(end), PatternNodeKind::Wildcard));
    assert_eq!(pat.node_count(), 5);
}
