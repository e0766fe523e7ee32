use crate::ast;
use crate::ast::{before, within};
use crate::token::{Operator, SourceLocation, SourceSpan};
use vstd::prelude::*;

verus! {

/// The type in an expression's slot. `Variable(0)` is the unassigned sentinel.
#[derive(Clone, Copy, Debug, PartialEq, Eq, Structural)]
pub enum Type {
    Variable(u128),
    Integer,
    Bool,
}

impl Default for Type {
    /// The unassigned sentinel, `Variable(0)`.
    fn default() -> (r: Type)
        ensures
            r == Type::Variable(0),
    {
        Type::Variable(0)
    }
}

/// A type that is not a variable.
pub open spec fn is_ground(t: Type) -> bool {
    !(t is Variable)
}

/// A statement of the typed tree.
#[derive(Debug)]
pub struct Statement {
    pub loc: SourceLocation,
    pub span: SourceSpan,
    pub stmt: Stmt,
}

#[derive(Debug)]
pub enum Stmt {
    NameDeclaration { name: String, value: Expression },
    While { pred: Expression, body: StatementBlock },
    Expression(Expression),
}

#[derive(Debug)]
pub struct StatementBlock {
    pub loc: SourceLocation,
    pub span: SourceSpan,
    pub stmts: Vec<Statement>,
}

/// An expression with its type slot.
#[derive(Debug)]
pub struct Expression {
    pub loc: SourceLocation,
    pub span: SourceSpan,
    pub ty: Type,
    pub expr: Expr,
}

#[derive(Debug)]
pub enum Expr {
    Name(String),
    Binop(BinopExpr),
    Integer(String),
    Grouping { expr: Box<Expression> },
    FunctionApplication { func: Box<Expression>, args: Vec<Expression> },
}

#[derive(Debug)]
pub struct BinopExpr {
    pub op: Operator,
    pub lhs: Box<Expression>,
    pub rhs: Box<Expression>,
}

/// Every child's span lies within its parent's, and siblings come in source order.
pub open spec fn expr_nested(e: Expression) -> bool
    decreases e,
{
    &&& e.span.0 <= e.span.1
    &&& match e.expr {
        Expr::Integer(_) => true,
        Expr::Name(_) => true,
        Expr::Binop(b) => {
            &&& within(b.lhs.span, e.span)
            &&& within(b.rhs.span, e.span)
            &&& before(b.lhs.span, b.rhs.span)
            &&& expr_nested(*b.lhs)
            &&& expr_nested(*b.rhs)
        },
        Expr::Grouping { expr } => within(expr.span, e.span) && expr_nested(*expr),
        Expr::FunctionApplication { func, args } => {
            &&& within(func.span, e.span)
            &&& expr_nested(*func)
            &&& args@.len() > 0
            &&& before(func.span, args@[0].span)
            &&& forall|i: int|
                0 <= i < args@.len() ==> within((#[trigger] args@[i]).span, e.span)
                    && expr_nested(args@[i])
            &&& forall|i: int|
                0 <= i < args@.len() - 1 ==> before((#[trigger] args@[i]).span, args@[i + 1].span)
        },
    }
}

pub open spec fn stmt_nested(s: Statement) -> bool
    decreases s,
{
    &&& s.span.0 <= s.span.1
    &&& match s.stmt {
        Stmt::NameDeclaration { name, value } => within(value.span, s.span) && expr_nested(value),
        Stmt::While { pred, body } => {
            &&& within(pred.span, s.span)
            &&& within(body.span, s.span)
            &&& before(pred.span, body.span)
            &&& expr_nested(pred)
            &&& block_nested(body)
        },
        Stmt::Expression(e) => e.span == s.span && expr_nested(e),
    }
}

pub open spec fn block_nested(b: StatementBlock) -> bool
    decreases b,
{
    &&& b.span.0 <= b.span.1
    &&& forall|i: int|
        0 <= i < b.stmts@.len() ==> within((#[trigger] b.stmts@[i]).span, b.span) && stmt_nested(
            b.stmts@[i],
        )
    &&& forall|i: int|
        0 <= i < b.stmts@.len() - 1 ==> before((#[trigger] b.stmts@[i]).span, b.stmts@[i + 1].span)
}

/// `t` mentions no variable id at or above `bound`.
pub open spec fn type_below(t: Type, bound: u128) -> bool {
    t matches Type::Variable(v) ==> v < bound
}

/// A property of a type slot.
pub enum SlotCheck {
    /// The slot is ground.
    Ground,
    /// The slot mentions no variable id at or above the bound.
    Below(u128),
}

pub open spec fn holds(p: SlotCheck, t: Type) -> bool {
    match p {
        SlotCheck::Ground => is_ground(t),
        SlotCheck::Below(bound) => type_below(t, bound),
    }
}

/// Whether every expression slot of `e` satisfies `p`.
pub open spec fn expr_all(e: Expression, p: SlotCheck) -> bool
    decreases e,
{
    &&& holds(p, e.ty)
    &&& match e.expr {
        Expr::Integer(_) => true,
        Expr::Name(_) => true,
        Expr::Binop(b) => expr_all(*b.lhs, p) && expr_all(*b.rhs, p),
        Expr::Grouping { expr } => expr_all(*expr, p),
        Expr::FunctionApplication { func, args } => {
            &&& expr_all(*func, p)
            &&& forall|i: int| 0 <= i < args@.len() ==> expr_all(#[trigger] args@[i], p)
        },
    }
}

pub open spec fn stmt_all(s: Statement, p: SlotCheck) -> bool
    decreases s,
{
    match s.stmt {
        Stmt::NameDeclaration { name, value } => expr_all(value, p),
        Stmt::While { pred, body } => expr_all(pred, p) && block_all(body, p),
        Stmt::Expression(e) => expr_all(e, p),
    }
}

pub open spec fn block_all(b: StatementBlock, p: SlotCheck) -> bool
    decreases b,
{
    forall|i: int| 0 <= i < b.stmts@.len() ==> stmt_all(#[trigger] b.stmts@[i], p)
}

/// Anything whose expression slots may still hold type variables.
pub trait Typed {
    /// Every expression slot holds a ground type.
    spec fn complete(&self) -> bool;

    fn is_complete(&self) -> (r: bool)
        ensures
            r == self.complete(),
    ;
}

impl Typed for Type {
    open spec fn complete(&self) -> bool {
        is_ground(*self)
    }

    fn is_complete(&self) -> (r: bool) {
        match self {
            Type::Variable(_) => false,
            Type::Integer | Type::Bool => true,
        }
    }
}

impl Typed for Expression {
    open spec fn complete(&self) -> bool {
        expr_all(*self, SlotCheck::Ground)
    }

    #[verifier::loop_isolation(false)]
    fn is_complete(&self) -> (r: bool)
        decreases self,
    {
        if !self.ty.is_complete() {
            return false;
        }
        match &self.expr {
            Expr::Integer(_) => true,
            Expr::Name(_) => true,
            Expr::Binop(b) => b.lhs.is_complete() && b.rhs.is_complete(),
            Expr::Grouping { expr } => expr.is_complete(),
            Expr::FunctionApplication { func, args } => {
                if !func.is_complete() {
                    return false;
                }
                let mut i: usize = 0;
                while i < args.len()
                    invariant
                        i <= args@.len(),
                        forall|j: int| 0 <= j < i ==> expr_all(#[trigger] args@[j], SlotCheck::Ground),
                    decreases args@.len() - i,
                {
                    proof {
                        assert(decreases_to!(*self => args@[i as int]));
                    }
                    if !args[i].is_complete() {
                        return false;
                    }
                    i = i + 1;
                }
                true
            },
        }
    }
}

impl Typed for Statement {
    open spec fn complete(&self) -> bool {
        stmt_all(*self, SlotCheck::Ground)
    }

    fn is_complete(&self) -> (r: bool)
        decreases self,
    {
        match &self.stmt {
            Stmt::NameDeclaration { value, .. } => value.is_complete(),
            Stmt::While { pred, body } => pred.is_complete() && body.is_complete(),
            Stmt::Expression(e) => e.is_complete(),
        }
    }
}

impl Typed for StatementBlock {
    open spec fn complete(&self) -> bool {
        block_all(*self, SlotCheck::Ground)
    }

    fn is_complete(&self) -> (r: bool)
        decreases self,
    {
        let mut i: usize = 0;
        while i < self.stmts.len()
            invariant
                i <= self.stmts@.len(),
                forall|j: int| 0 <= j < i ==> stmt_all(#[trigger] self.stmts@[j], SlotCheck::Ground),
            decreases self.stmts@.len() - i,
        {
            if !self.stmts[i].is_complete() {
                return false;
            }
            i = i + 1;
        }
        true
    }
}

} // verus!
