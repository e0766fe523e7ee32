use crate::token::{Operator, SourceLocation, SourceObject, SourceSpan};
use vstd::prelude::*;

verus! {

/// A statement of the untyped tree.
#[derive(Debug)]
pub struct Statement {
    pub loc: SourceLocation,
    pub span: SourceSpan,
    pub stmt: Stmt,
}

#[derive(Debug)]
pub enum Stmt {
    NameDeclaration { name: String, value: Expression },
    WhileStmt { pred: Expression, body: StatementBlock },
    /// An expression on a line of its own; the statement's location and span
    /// are those of the expression.
    Expression(Expr),
}

/// One or more statements, in source order.
#[derive(Debug)]
pub struct StatementBlock {
    pub loc: SourceLocation,
    pub span: SourceSpan,
    pub stmts: Vec<Statement>,
}

#[derive(Debug)]
pub struct Expression {
    pub loc: SourceLocation,
    pub span: SourceSpan,
    pub expr: Expr,
}

#[derive(Debug)]
pub enum Expr {
    IntegerLiteral(String),
    Binop(BinopExpr),
    Name(String),
    FunctionApplication(FunctionApplication),
    Grouping { expr: Box<Expression> },
}

#[derive(Debug)]
pub struct BinopExpr {
    pub op: Operator,
    pub lhs: Box<Expression>,
    pub rhs: Box<Expression>,
}

#[derive(Debug)]
pub struct FunctionApplication {
    pub func: Box<Expression>,
    pub args: Vec<Expression>,
}

/// Whether span `inner` lies within span `outer`.
pub open spec fn within(inner: SourceSpan, outer: SourceSpan) -> bool {
    outer.0 <= inner.0 && inner.0 <= inner.1 && inner.1 <= outer.1
}

/// Whether `a` ends before `b` starts.
pub open spec fn before(a: SourceSpan, b: SourceSpan) -> bool {
    a.1 <= b.0
}

/// Every child's span lies within its parent's, and siblings come in source order.
pub open spec fn expr_nested(e: Expression) -> bool
    decreases e,
{
    &&& e.span.0 <= e.span.1
    &&& match e.expr {
        Expr::IntegerLiteral(_) => true,
        Expr::Name(_) => true,
        Expr::Binop(b) => {
            &&& within(b.lhs.span, e.span)
            &&& within(b.rhs.span, e.span)
            &&& before(b.lhs.span, b.rhs.span)
            &&& expr_nested(*b.lhs)
            &&& expr_nested(*b.rhs)
        },
        Expr::Grouping { expr } => within(expr.span, e.span) && expr_nested(*expr),
        Expr::FunctionApplication(fa) => {
            &&& within(fa.func.span, e.span)
            &&& expr_nested(*fa.func)
            &&& fa.args@.len() > 0
            &&& before(fa.func.span, fa.args@[0].span)
            &&& forall|i: int|
                0 <= i < fa.args@.len() ==> within((#[trigger] fa.args@[i]).span, e.span)
                    && expr_nested(fa.args@[i])
            &&& forall|i: int|
                0 <= i < fa.args@.len() - 1 ==> before(
                    (#[trigger] fa.args@[i]).span,
                    fa.args@[i + 1].span,
                )
        },
    }
}

/// `expr_nested` for statements: the parts lie within the statement, in order.
pub open spec fn stmt_nested(s: Statement) -> bool
    decreases s,
{
    &&& s.span.0 <= s.span.1
    &&& match s.stmt {
        Stmt::NameDeclaration { name, value } => within(value.span, s.span) && expr_nested(value),
        Stmt::WhileStmt { pred, body } => {
            &&& within(pred.span, s.span)
            &&& within(body.span, s.span)
            &&& before(pred.span, body.span)
            &&& expr_nested(pred)
            &&& block_nested(body)
        },
        Stmt::Expression(e) => expr_nested(Expression { loc: s.loc, span: s.span, expr: e }),
    }
}

/// `expr_nested` for blocks.
pub open spec fn block_nested(b: StatementBlock) -> bool
    decreases b,
{
    &&& b.span.0 <= b.span.1
    &&& forall|i: int|
        0 <= i < b.stmts@.len() ==> within((#[trigger] b.stmts@[i]).span, b.span) && stmt_nested(
            b.stmts@[i],
        )
    &&& forall|i: int|
        0 <= i < b.stmts@.len() - 1 ==> before((#[trigger] b.stmts@[i]).span, b.stmts@[i + 1].span)
}

impl SourceObject for Statement {
    open spec fn location(&self) -> SourceLocation {
        self.loc
    }

    open spec fn extent(&self) -> SourceSpan {
        self.span
    }

    fn source_location(&self) -> (r: SourceLocation) {
        self.loc
    }

    fn source_span(&self) -> (r: SourceSpan) {
        self.span
    }
}

impl SourceObject for StatementBlock {
    open spec fn location(&self) -> SourceLocation {
        self.loc
    }

    open spec fn extent(&self) -> SourceSpan {
        self.span
    }

    fn source_location(&self) -> (r: SourceLocation) {
        self.loc
    }

    fn source_span(&self) -> (r: SourceSpan) {
        self.span
    }
}

impl SourceObject for Expression {
    open spec fn location(&self) -> SourceLocation {
        self.loc
    }

    open spec fn extent(&self) -> SourceSpan {
        self.span
    }

    fn source_location(&self) -> (r: SourceLocation) {
        self.loc
    }

    fn source_span(&self) -> (r: SourceSpan) {
        self.span
    }
}

} // verus!
