use wb_front::ast2cst::lower_block;
use wb_front::cst::{Expr, Stmt, Type, Typed};
use wb_front::front::parse_source;
use wb_front::solver::{check_declarations, first_unsolved_block, TypeError, TypeSolver};

fn lowered(src: &str) -> wb_front::cst::StatementBlock {
    lower_block(parse_source(src).unwrap())
}

#[test]
fn lowering_leaves_every_slot_unassigned() {
    let b = lowered("let a = (1 + x) * (f 2)\n");
    match &b.stmts[0].stmt {
        Stmt::NameDeclaration { value, .. } => {
            assert_eq!(value.ty, Type::Variable(0));
            assert!(!value.is_complete());
        }
        _ => panic!("expected a declaration"),
    }
    assert_eq!(Type::default(), Type::Variable(0));
}

#[test]
fn emplace_numbers_in_post_order() {
    let b = lowered("let b = a + 2\nlet c = (b)\n");
    let mut s = TypeSolver::new();
    let b = s.emplace_type_vars_in_block(b).unwrap();
    assert_eq!(s.counter, 5);
    match &b.stmts[0].stmt {
        Stmt::NameDeclaration { value, .. } => {
            assert_eq!(value.ty, Type::Variable(2));
            match &value.expr {
                Expr::Binop(x) => {
                    assert_eq!(x.lhs.ty, Type::Variable(1));
                    assert_eq!(x.rhs.ty, Type::Integer);
                }
                _ => panic!("expected +"),
            }
        }
        _ => panic!("expected a declaration"),
    }
    match &b.stmts[1].stmt {
        Stmt::NameDeclaration { value, .. } => assert_eq!(value.ty, Type::Variable(4)),
        _ => panic!("expected a declaration"),
    }
    assert_eq!(s.lookup(&"a".to_string()), Some(Type::Variable(1)));
    assert_eq!(s.lookup(&"b".to_string()), Some(Type::Variable(3)));
    s.emplace_block_bindings(&b);
    assert_eq!(s.lookup(&"b".to_string()), Some(Type::Variable(2)));
    assert_eq!(s.lookup(&"c".to_string()), Some(Type::Variable(4)));
    for k in 1..5u128 {
        assert_eq!(s.constraints.get(&k), Some(&Type::Variable(k)));
    }
}

#[test]
fn record_then_apply_resolves_a_chain() {
    let b = lowered("let a = 1\nlet b = a + 2\n");
    let mut s = TypeSolver::new();
    let b = s.emplace_type_vars_in_block(b).unwrap();
    s.emplace_block_bindings(&b);
    s.solve_stmt_block_recursive(&b).unwrap();
    assert_eq!(s.constraints.get(&1), Some(&Type::Integer));
    assert_eq!(s.constraints.get(&2), Some(&Type::Variable(2)));
    let b = s.apply_constraints_block(b);
    assert!(!b.is_complete());
    s.solve_stmt_block_recursive(&b).unwrap();
    assert_eq!(s.constraints.get(&2), Some(&Type::Integer));
    let b = s.apply_constraints_block(b);
    assert!(b.is_complete());
    assert!(first_unsolved_block(&b).is_none());
}

#[test]
fn solve_reports_unsolved_after_the_cap() {
    let b = lowered("let f = 1\nlet y = f 2\n");
    let mut s = TypeSolver::new();
    let b = s.emplace_type_vars_in_block(b).unwrap();
    s.emplace_block_bindings(&b);
    match s.solve(b) {
        Err(TypeError::Unsolved { span, .. }) => assert_eq!(span, (18, 21)),
        other => panic!("expected an unsolved node, got {:?}", other.map(|_| ())),
    }
}

#[test]
fn declarations_must_come_first() {
    let mut declared = Vec::new();
    assert!(check_declarations(&lowered("let a = 1\nwhile a:\n    let b = a\nlet c = b\n"), &mut declared).is_ok());
    assert_eq!(declared, vec!["a".to_string(), "b".to_string(), "c".to_string()]);
    let mut none = Vec::new();
    match check_declarations(&lowered("let a = a\n"), &mut none) {
        Err(TypeError::UnknownName { name, span, .. }) => {
            assert_eq!(name, "a");
            assert_eq!(span, (8, 9));
        }
        other => panic!("expected an unknown name, got {:?}", other),
    }
}

#[test]
fn resolve_follows_constraints() {
    let mut s = TypeSolver::new();
    let v1 = s.make_var_type();
    let v2 = s.make_var_type();
    s.constraints.insert(1, v2);
    assert_eq!(s.resolve_type(v1), v2);
    s.constraints.insert(2, Type::Integer);
    assert_eq!(s.resolve_type(v1), Type::Integer);
    assert_eq!(s.resolve_type(Type::Bool), Type::Bool);
}
