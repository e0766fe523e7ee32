use wb_front::ast;
use wb_front::cst::{Expr, Stmt, Type, Typed};
use wb_front::front::{check_source, parse_source, FrontEndError};
use wb_front::indent::{indented_tokens, omitted_spaces};
use wb_front::parser::{precedence_of, Parser};
use wb_front::solver::{TypeError, TypeSolver};
use wb_front::token::{Keyword, Operator, Punctuation, SourceLocation, TokenKind};
use wb_front::tokenizer::{tokenize, try_tokenize, ErrorAwareTokenStream};

fn kinds(src: &str) -> Vec<TokenKind> {
    tokenize(src).unwrap().into_iter().map(|t| t.kind).collect()
}

fn layout_kinds(src: &str) -> Vec<TokenKind> {
    let toks = tokenize(src).unwrap();
    omitted_spaces(indented_tokens(toks).unwrap()).into_iter().map(|t| t.kind).collect()
}

fn is_int(k: &TokenKind, text: &str) -> bool {
    matches!(k, TokenKind::Integer(d) if d == text)
}

fn is_ident(k: &TokenKind, text: &str) -> bool {
    matches!(k, TokenKind::Identifier(d) if d == text)
}

fn count(ks: &[TokenKind], f: fn(&TokenKind) -> bool) -> usize {
    ks.iter().filter(|k| f(k)).count()
}

#[test]
fn lex_declaration_tokens() {
    let ks = kinds("let x1 = 42");
    assert_eq!(ks.len(), 8);
    assert!(matches!(ks[0], TokenKind::Keyword(Keyword::Let)));
    assert!(matches!(ks[1], TokenKind::Whitespace(1)));
    assert!(is_ident(&ks[2], "x1"));
    assert!(matches!(ks[4], TokenKind::Operator(Operator::Equals)));
    assert!(is_int(&ks[6], "42"));
    assert!(matches!(ks[7], TokenKind::End));
}

#[test]
fn lex_keyword_before_identifier() {
    let ks = kinds("while lettuce");
    assert!(matches!(ks[0], TokenKind::Keyword(Keyword::While)));
    assert!(matches!(ks[2], TokenKind::Keyword(Keyword::Let)));
    assert!(is_ident(&ks[3], "tuce"));
}

#[test]
fn lex_compound_before_single_operator() {
    let ks = kinds("+= - /= % < >=");
    assert!(matches!(ks[0], TokenKind::CompoundOperator(Operator::Add)));
    assert!(matches!(ks[2], TokenKind::Operator(Operator::Sub)));
    assert!(matches!(ks[4], TokenKind::CompoundOperator(Operator::Div)));
    assert!(matches!(ks[6], TokenKind::Operator(Operator::Mod)));
    assert!(matches!(ks[8], TokenKind::Operator(Operator::Less)));
    assert!(matches!(ks[10], TokenKind::CompoundOperator(Operator::Greater)));
}

#[test]
fn lex_punctuation_parens_and_underscored_integer() {
    let ks = kinds("(1_000);:\t\t");
    assert!(matches!(ks[0], TokenKind::LeftParen));
    assert!(is_int(&ks[1], "1_000"));
    assert!(matches!(ks[2], TokenKind::RightParen));
    assert!(matches!(ks[3], TokenKind::Punctuation(Punctuation::Semicolon)));
    assert!(matches!(ks[4], TokenKind::Punctuation(Punctuation::Colon)));
    assert!(matches!(ks[5], TokenKind::Whitespace(2)));
}

#[test]
fn lex_spans_and_locations() {
    let toks = tokenize("let ab\n  9").unwrap();
    let spans: Vec<(usize, usize)> = toks.iter().map(|t| t.span).collect();
    assert_eq!(spans, vec![(0, 3), (3, 4), (4, 6), (6, 7), (7, 9), (9, 10), (10, 10)]);
    for t in &toks {
        assert_eq!(t.loc.index, t.span.0);
    }
    assert_eq!((toks[2].loc.lineno, toks[2].loc.col), (1, 5));
    assert_eq!((toks[5].loc.lineno, toks[5].loc.col), (2, 3));
    let src = "let ab\n  9";
    assert_eq!(&src[toks[2].span.0..toks[2].span.1], "ab");
    assert_eq!(&src[toks[5].span.0..toks[5].span.1], "9");
}

#[test]
fn lex_captures_rebuild_source_without_blanks() {
    let src = "let x = (1 +\t2)\nwhile x:\n    x";
    let toks = tokenize(src).unwrap();
    let mut rebuilt = String::new();
    for t in &toks {
        if !matches!(t.kind, TokenKind::Whitespace(_)) {
            rebuilt.push_str(&src[t.span.0..t.span.1]);
        }
    }
    let expected: String = src.chars().filter(|c| *c != ' ' && *c != '\t').collect();
    assert_eq!(rebuilt, expected);
}

#[test]
fn lex_error_span_on_bad_input() {
    let err = tokenize("@").unwrap_err();
    assert_eq!(err.span, (0, 1));
    assert_eq!(err.loc.index, 0);
    assert_eq!((err.loc.lineno, err.loc.col), (1, 1));
}

#[test]
fn lex_error_covers_rest_of_input() {
    let err = tokenize("let x = 1\nlet y = 2 $ 3").unwrap_err();
    assert_eq!(err.loc.index, 20);
    assert_eq!(err.span, (20, 23));
    assert_eq!((err.loc.lineno, err.loc.col), (2, 11));
}

#[test]
fn lex_empty_source_gives_end_only() {
    let ks = kinds("");
    assert_eq!(ks.len(), 1);
    assert!(matches!(ks[0], TokenKind::End));
    let mut stream = try_tokenize("");
    assert!(matches!(stream.next().unwrap().kind, TokenKind::End));
    assert!(stream.next().is_none());
}

#[test]
fn error_aware_stream_reports_once() {
    let mut stream = ErrorAwareTokenStream::new("1 ?");
    assert!(matches!(stream.next(), Some(Ok(_))));
    assert!(matches!(stream.next(), Some(Ok(_))));
    match stream.next() {
        Some(Err(e)) => assert_eq!(e.span, (2, 3)),
        _ => panic!("expected an error"),
    }
    assert!(stream.next().is_none());
}

#[test]
fn advance_counts_lines_and_columns() {
    let mut loc = SourceLocation::new();
    loc.advance("ab\r\ncd", 6);
    assert_eq!(loc.index, 6);
    assert_eq!(loc.lineno, 2);
    assert_eq!(loc.col, 3);
}

#[test]
fn layout_while_body_has_one_indent_and_dedent() {
    let ks = layout_kinds("while 1 > 0:\n    let x = 1");
    assert_eq!(count(&ks, |k| matches!(k, TokenKind::Indent)), 1);
    assert_eq!(count(&ks, |k| matches!(k, TokenKind::Dedent)), 1);
    assert!(matches!(ks[ks.len() - 1], TokenKind::Dedent));
}

#[test]
fn layout_trailing_newline_at_level_zero_has_no_dedent() {
    let ks = layout_kinds("let x = 1\n");
    assert_eq!(count(&ks, |k| matches!(k, TokenKind::Dedent)), 0);
    assert!(matches!(ks[ks.len() - 2], TokenKind::Newline));
    assert!(matches!(ks[ks.len() - 1], TokenKind::End));
}

#[test]
fn layout_file_ending_indented_emits_dedents() {
    let ks = layout_kinds("while 1:\n    while 2:\n        x");
    assert_eq!(count(&ks, |k| matches!(k, TokenKind::Indent)), 2);
    assert!(matches!(ks[ks.len() - 1], TokenKind::Dedent));
    assert!(matches!(ks[ks.len() - 2], TokenKind::Dedent));
    assert!(matches!(ks[ks.len() - 3], TokenKind::End));
}

#[test]
fn layout_prefixes_stay_balanced() {
    let ks = layout_kinds("while 1:\n    while 2:\n        x\n    y\nz\n");
    let mut depth: i64 = 0;
    for k in &ks {
        match k {
            TokenKind::Indent => depth += 1,
            TokenKind::Dedent => depth -= 1,
            _ => {}
        }
        assert!(depth >= 0);
    }
    assert_eq!(depth, 0);
}

#[test]
fn layout_rejects_indentation_jump() {
    let toks = tokenize("while 1:\n        x\n").unwrap();
    let err = indented_tokens(toks).unwrap_err();
    assert_eq!(err.span, (9, 17));
    match parse_source("while 1:\n        x\n") {
        Err(FrontEndError::Layout(e)) => assert_eq!(e.span, (9, 17)),
        _ => panic!("expected a layout error"),
    }
}

#[test]
fn layout_drops_whitespace_only() {
    let toks = tokenize("a  b").unwrap();
    let out = omitted_spaces(toks);
    assert_eq!(out.len(), 3);
    assert!(is_ident(&out[0].kind, "a"));
    assert!(is_ident(&out[1].kind, "b"));
}

#[test]
fn precedence_table() {
    assert_eq!(precedence_of(&Operator::Mul), 5);
    assert_eq!(precedence_of(&Operator::Div), 5);
    assert_eq!(precedence_of(&Operator::Mod), 5);
    assert_eq!(precedence_of(&Operator::Add), 6);
    assert_eq!(precedence_of(&Operator::Sub), 6);
    assert_eq!(precedence_of(&Operator::Greater), 9);
    assert_eq!(precedence_of(&Operator::Less), 9);
    assert_eq!(precedence_of(&Operator::Equals), 10);
}

fn parse_expr(src: &str) -> ast::Expression {
    let toks = omitted_spaces(indented_tokens(tokenize(src).unwrap()).unwrap());
    let mut p = Parser::new(toks);
    p.parse_expression().unwrap()
}

fn binop(e: &ast::Expression) -> &ast::BinopExpr {
    match &e.expr {
        ast::Expr::Binop(b) => b,
        _ => panic!("expected a binary operation"),
    }
}

fn int_text(e: &ast::Expression) -> &str {
    match &e.expr {
        ast::Expr::IntegerLiteral(d) => d.as_str(),
        _ => panic!("expected an integer"),
    }
}

#[test]
fn parse_left_associative_subtraction() {
    let e = parse_expr("1 - 2 - 3");
    let root = binop(&e);
    assert_eq!(root.op, Operator::Sub);
    assert_eq!(int_text(&root.rhs), "3");
    let left = binop(&root.lhs);
    assert_eq!(int_text(&left.lhs), "1");
    assert_eq!(int_text(&left.rhs), "2");
    assert_eq!(e.span, (0, 9));
}

#[test]
fn parse_tighter_operator_first() {
    let e = parse_expr("2 * 3 + 4");
    let root = binop(&e);
    assert_eq!(root.op, Operator::Add);
    assert_eq!(binop(&root.lhs).op, Operator::Mul);
}

#[test]
fn parse_function_application() {
    let e = parse_expr("f 1 (2) x");
    match &e.expr {
        ast::Expr::FunctionApplication(fa) => {
            assert!(matches!(&fa.func.expr, ast::Expr::Name(n) if n == "f"));
            assert_eq!(fa.args.len(), 3);
            assert!(matches!(&fa.args[1].expr, ast::Expr::Grouping { .. }));
        }
        _ => panic!("expected an application"),
    }
    assert_eq!(e.span, (0, 9));
}

#[test]
fn parse_fault_location() {
    match parse_source("let = 1\n") {
        Err(FrontEndError::Parse(f)) => assert_eq!(f.loc.index, 0),
        _ => panic!("expected a parser fault"),
    }
    let toks = omitted_spaces(indented_tokens(tokenize(")").unwrap()).unwrap());
    let mut p = Parser::new(toks);
    let f = p.parse_integer().unwrap_err();
    assert_eq!(f.loc.index, 0);
}

fn single_decl(b: &wb_front::cst::StatementBlock) -> (&str, &wb_front::cst::Expression) {
    match &b.stmts[0].stmt {
        Stmt::NameDeclaration { name, value } => (name.as_str(), value),
        _ => panic!("expected a declaration"),
    }
}

#[test]
fn typing_single_declaration() {
    let (b, solver) = check_source("let x = 2\n").unwrap();
    assert_eq!(b.stmts.len(), 1);
    let (name, value) = single_decl(&b);
    assert_eq!(name, "x");
    assert_eq!(value.ty, Type::Integer);
    assert_eq!(solver.lookup(&"x".to_string()), Some(Type::Integer));
}

#[test]
fn typing_precedence_tree() {
    let (b, _) = check_source("let y = 2 + 3 * 4\n").unwrap();
    let (_, value) = single_decl(&b);
    assert_eq!(value.ty, Type::Integer);
    match &value.expr {
        Expr::Binop(root) => {
            assert_eq!(root.op, Operator::Add);
            assert!(matches!(&root.lhs.expr, Expr::Integer(d) if d == "2"));
            match &root.rhs.expr {
                Expr::Binop(mul) => {
                    assert_eq!(mul.op, Operator::Mul);
                    assert!(matches!(&mul.lhs.expr, Expr::Integer(d) if d == "3"));
                    assert!(matches!(&mul.rhs.expr, Expr::Integer(d) if d == "4"));
                }
                _ => panic!("expected *"),
            }
        }
        _ => panic!("expected +"),
    }
}

#[test]
fn typing_name_through_symbol_table() {
    let (b, solver) = check_source("let a = 1\nlet b = a + 2\n").unwrap();
    assert!(b.is_complete());
    match &b.stmts[1].stmt {
        Stmt::NameDeclaration { name, value } => {
            assert_eq!(name, "b");
            assert_eq!(value.ty, Type::Integer);
            match &value.expr {
                Expr::Binop(x) => {
                    assert!(matches!(&x.lhs.expr, Expr::Name(n) if n == "a"));
                    assert_eq!(x.lhs.ty, Type::Integer);
                }
                _ => panic!("expected +"),
            }
        }
        _ => panic!("expected a declaration"),
    }
    assert_eq!(solver.lookup(&"a".to_string()), Some(Type::Integer));
    let b_ty = solver.lookup(&"b".to_string()).unwrap();
    assert_eq!(solver.resolve_type(b_ty), Type::Integer);
}

#[test]
fn typing_while_statement() {
    let (b, _) = check_source("while 1 > 0:\n    let x = 1\n").unwrap();
    assert_eq!(b.stmts.len(), 1);
    match &b.stmts[0].stmt {
        Stmt::While { pred, body } => {
            assert_eq!(body.stmts.len(), 1);
            match &pred.expr {
                Expr::Binop(x) => assert_eq!(x.op, Operator::Greater),
                _ => panic!("expected >"),
            }
        }
        _ => panic!("expected a while statement"),
    }
}

#[test]
fn typing_grouping() {
    let (b, _) = check_source("let z = (1 + 2) * 3\n").unwrap();
    let (_, value) = single_decl(&b);
    assert_eq!(value.ty, Type::Integer);
    match &value.expr {
        Expr::Binop(root) => {
            assert_eq!(root.op, Operator::Mul);
            assert_eq!(root.lhs.ty, Type::Integer);
            match &root.lhs.expr {
                Expr::Grouping { expr } => match &expr.expr {
                    Expr::Binop(inner) => {
                        assert_eq!(inner.op, Operator::Add);
                        assert_eq!(inner.lhs.ty, Type::Integer);
                    }
                    _ => panic!("expected +"),
                },
                _ => panic!("expected a grouping"),
            }
            assert!(matches!(&root.rhs.expr, Expr::Integer(d) if d == "3"));
        }
        _ => panic!("expected *"),
    }
}

#[test]
fn empty_source_gives_empty_tree() {
    let (b, _) = check_source("").unwrap();
    assert_eq!(b.stmts.len(), 0);
}

#[test]
fn lex_error_through_front_end() {
    match check_source("@") {
        Err(FrontEndError::Lex(e)) => assert_eq!(e.span, (0, 1)),
        _ => panic!("expected a lex error"),
    }
}

#[test]
fn unknown_name_is_reported() {
    match check_source("let x = y + 1\n") {
        Err(FrontEndError::Type(TypeError::UnknownName { name, loc, span })) => {
            assert_eq!(name, "y");
            assert_eq!(loc.index, 8);
            assert_eq!(span, (8, 9));
        }
        other => panic!("expected an unknown name, got {:?}", other),
    }
}

#[test]
fn function_application_stays_unsolved() {
    match check_source("let f = 1\nlet y = f 2\n") {
        Err(FrontEndError::Type(TypeError::Unsolved { span, .. })) => assert_eq!(span, (18, 21)),
        other => panic!("expected an unsolved node, got {:?}", other),
    }
}

#[test]
fn counter_exceeds_every_constraint_id() {
    let (_, solver) = check_source("let a = 1\nwhile a > 0:\n    let c = (a + 2)\n").unwrap();
    assert!(solver.counter >= 1);
    for (k, v) in &solver.constraints {
        assert!(*k < solver.counter);
        if let Type::Variable(x) = v {
            assert!(*x < solver.counter);
        }
    }
}

#[test]
fn make_var_type_mints_fresh_ids() {
    let mut s = TypeSolver::new();
    assert_eq!(s.make_var_type(), Type::Variable(1));
    assert_eq!(s.make_var_type(), Type::Variable(2));
    assert_eq!(s.counter, 3);
    assert_eq!(s.constraints.get(&2), Some(&Type::Variable(2)));
}

#[test]
fn apply_on_complete_tree_changes_nothing() {
    let (b, solver) = check_source("let a = 1\nlet b = (a + 2) * a\n").unwrap();
    let before = format!("{:?}", b);
    let again = solver.apply_constraints_block(b);
    assert!(again.is_complete());
    assert_eq!(format!("{:?}", again), before);
}

#[test]
fn flat_symbol_table_rebinding_is_unsolved() {
    match check_source("let x = 1\nlet x = x + 1\n") {
        Err(FrontEndError::Type(TypeError::Unsolved { .. })) => {}
        other => panic!("expected an unsolved node, got {:?}", other),
    }
}

#[test]
fn declaration_fault_at_missing_equals() {
    let toks = omitted_spaces(indented_tokens(tokenize("let x 2\n").unwrap()).unwrap());
    let mut p = Parser::new(toks);
    let f = p.parse_name_decl().unwrap_err();
    assert_eq!((f.loc.index, f.loc.col, f.loc.lineno), (6, 7, 1));
}

#[test]
fn application_falls_back_to_operations() {
    let e = parse_expr("a + 2");
    assert_eq!(binop(&e).op, Operator::Add);
    assert_eq!(e.span, (0, 5));
}
