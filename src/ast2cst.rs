use crate::ast;
use crate::cst::{
    block_nested, expr_nested, stmt_nested, BinopExpr, Expr, Expression, Statement,
    StatementBlock, Stmt, Type,
};
use crate::indent::into_reversed;
use vstd::prelude::*;

verus! {

/// `c` is `a` with every expression slot set to the sentinel `Variable(0)`.
pub open spec fn lowered_expr(a: ast::Expression, c: Expression) -> bool
    decreases a,
{
    &&& c.loc == a.loc
    &&& c.span == a.span
    &&& c.ty == Type::Variable(0)
    &&& match (a.expr, c.expr) {
        (ast::Expr::IntegerLiteral(d), Expr::Integer(d2)) => d2@ == d@,
        (ast::Expr::Name(n), Expr::Name(n2)) => n2@ == n@,
        (ast::Expr::Binop(b), Expr::Binop(b2)) => {
            &&& b2.op == b.op
            &&& lowered_expr(*b.lhs, *b2.lhs)
            &&& lowered_expr(*b.rhs, *b2.rhs)
        },
        (ast::Expr::Grouping { expr }, Expr::Grouping { expr: e2 }) => lowered_expr(*expr, *e2),
        (ast::Expr::FunctionApplication(fa), Expr::FunctionApplication { func, args }) => {
            &&& lowered_expr(*fa.func, *func)
            &&& args@.len() == fa.args@.len()
            &&& forall|i: int| 0 <= i < args@.len() ==> lowered_expr(#[trigger] fa.args@[i], args@[i])
        },
        _ => false,
    }
}

pub open spec fn lowered_stmt(a: ast::Statement, c: Statement) -> bool
    decreases a,
{
    &&& c.loc == a.loc
    &&& c.span == a.span
    &&& match (a.stmt, c.stmt) {
        (ast::Stmt::NameDeclaration { name, value }, Stmt::NameDeclaration { name: n2, value: v2 }) => {
            n2@ == name@ && lowered_expr(value, v2)
        },
        (ast::Stmt::WhileStmt { pred, body }, Stmt::While { pred: pred2, body: b2 }) => {
            lowered_expr(pred, pred2) && lowered_block(body, b2)
        },
        (ast::Stmt::Expression(e), Stmt::Expression(e2)) => lowered_expr(
            ast::Expression { loc: a.loc, span: a.span, expr: e },
            e2,
        ),
        _ => false,
    }
}

pub open spec fn lowered_block(a: ast::StatementBlock, c: StatementBlock) -> bool
    decreases a,
{
    &&& c.loc == a.loc
    &&& c.span == a.span
    &&& c.stmts@.len() == a.stmts@.len()
    &&& forall|i: int| 0 <= i < c.stmts@.len() ==> lowered_stmt(#[trigger] a.stmts@[i], c.stmts@[i])
}

/// The typed counterpart of an expression, every slot unassigned.
#[verifier::loop_isolation(false)]
#[verifier::rlimit(50)]
pub fn lower_expression(a: ast::Expression) -> (c: Expression)
    ensures
        lowered_expr(a, c),
        ast::expr_nested(a) ==> expr_nested(c),
    decreases a,
{
    let ghost a0 = a;
    let ast::Expression { loc, span, expr } = a;
    let e = match expr {
        ast::Expr::IntegerLiteral(d) => Expr::Integer(d),
        ast::Expr::Name(n) => Expr::Name(n),
        ast::Expr::Binop(b) => {
            let ast::BinopExpr { op, lhs, rhs } = b;
            let l = lower_expression(*lhs);
            let r = lower_expression(*rhs);
            Expr::Binop(BinopExpr { op, lhs: Box::new(l), rhs: Box::new(r) })
        },
        ast::Expr::Grouping { expr } => Expr::Grouping { expr: Box::new(lower_expression(*expr)) },
        ast::Expr::FunctionApplication(fa) => {
            let ast::FunctionApplication { func, args } = fa;
            let ghost orig = args@;
            let f = lower_expression(*func);
            let n = args.len();
            let mut rev = into_reversed(args);
            let mut out: Vec<Expression> = Vec::new();
            while rev.len() > 0
                invariant
                    n == orig.len(),
                    out@.len() + rev@.len() == n,
                    forall|j: int| 0 <= j < rev@.len() ==> #[trigger] rev@[j] == orig[n - 1 - j],
                    forall|j: int|
                        0 <= j < out@.len() ==> lowered_expr(#[trigger] orig[j], out@[j]) && (
                        ast::expr_nested(orig[j]) ==> expr_nested(out@[j])),
                    a0.expr matches ast::Expr::FunctionApplication(fa0) && fa0.args@ == orig,
                decreases rev@.len(),
            {
                let x = rev.pop().unwrap();
                proof {
                    let j = out@.len() as int;
                    assert(x == orig[j]);
                    assert(decreases_to!(a0 => orig[j]));
                }
                let lx = lower_expression(x);
                out.push(lx);
            }
            proof {
                let fa0 = a0.expr->FunctionApplication_0;
                if ast::expr_nested(a0) {
                    assert forall|j: int| 0 <= j < out@.len() implies crate::ast::within(
                        (#[trigger] out@[j]).span,
                        span,
                    ) && expr_nested(out@[j]) by {
                        assert(lowered_expr(orig[j], out@[j]));
                    }
                    assert forall|j: int| 0 <= j < out@.len() - 1 implies crate::ast::before(
                        (#[trigger] out@[j]).span,
                        out@[j + 1].span,
                    ) by {
                        assert(lowered_expr(orig[j], out@[j]));
                        assert(lowered_expr(orig[j + 1], out@[j + 1]));
                    }
                    assert(lowered_expr(orig[0], out@[0]));
                }
            }
            Expr::FunctionApplication { func: Box::new(f), args: out }
        },
    };
    Expression { loc, span, ty: Type::Variable(0), expr: e }
}

pub fn lower_statement(a: ast::Statement) -> (c: Statement)
    ensures
        lowered_stmt(a, c),
        ast::stmt_nested(a) ==> stmt_nested(c),
    decreases a,
{
    let ghost a0 = a;
    let ast::Statement { loc, span, stmt } = a;
    let s = match stmt {
        ast::Stmt::NameDeclaration { name, value } => Stmt::NameDeclaration {
            name,
            value: lower_expression(value),
        },
        ast::Stmt::WhileStmt { pred, body } => Stmt::While {
            pred: lower_expression(pred),
            body: lower_block(body),
        },
        ast::Stmt::Expression(e) => Stmt::Expression(
            lower_expression(ast::Expression { loc, span, expr: e }),
        ),
    };
    Statement { loc, span, stmt: s }
}

#[verifier::loop_isolation(false)]
pub fn lower_block(a: ast::StatementBlock) -> (c: StatementBlock)
    ensures
        lowered_block(a, c),
        ast::block_nested(a) ==> block_nested(c),
    decreases a,
{
    let ghost a0 = a;
    let ast::StatementBlock { loc, span, stmts } = a;
    let ghost orig = stmts@;
    let n = stmts.len();
    let mut rev = into_reversed(stmts);
    let mut out: Vec<Statement> = Vec::new();
    while rev.len() > 0
        invariant
            n == orig.len(),
            out@.len() + rev@.len() == n,
            forall|j: int| 0 <= j < rev@.len() ==> #[trigger] rev@[j] == orig[n - 1 - j],
            forall|j: int|
                0 <= j < out@.len() ==> lowered_stmt(#[trigger] orig[j], out@[j]) && (
                ast::stmt_nested(orig[j]) ==> stmt_nested(out@[j])),
            a0.stmts@ == orig,
        decreases rev@.len(),
    {
        let x = rev.pop().unwrap();
        proof {
            let j = out@.len() as int;
            assert(x == orig[j]);
            assert(decreases_to!(a0 => orig[j]));
        }
        let lx = lower_statement(x);
        out.push(lx);
    }
    proof {
        if ast::block_nested(a0) {
            assert forall|j: int| 0 <= j < out@.len() implies crate::ast::within(
                (#[trigger] out@[j]).span,
                span,
            ) && stmt_nested(out@[j]) by {
                assert(lowered_stmt(orig[j], out@[j]));
            }
            assert forall|j: int| 0 <= j < out@.len() - 1 implies crate::ast::before(
                (#[trigger] out@[j]).span,
                out@[j + 1].span,
            ) by {
                assert(lowered_stmt(orig[j], out@[j]));
                assert(lowered_stmt(orig[j + 1], out@[j + 1]));
            }
        }
    }
    StatementBlock { loc, span, stmts: out }
}

} // verus!
