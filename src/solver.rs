use crate::cst::{
    block_all, block_nested, expr_all, expr_nested, is_ground, stmt_all, stmt_nested, type_below,
    SlotCheck, BinopExpr, Expr, Expression, Statement,
    StatementBlock, Stmt, Type, Typed,
};
use crate::token::{SourceLocation, SourceSpan};
use std::collections::BTreeMap;
use vstd::prelude::*;

verus! {

broadcast use vstd::std_specs::btree::group_btree_axioms, vstd::laws_cmp::group_laws_cmp;

/// Why a tree could not be typed.
#[derive(Debug)]
pub enum TypeError {
    /// A name is used that no declaration binds.
    UnknownName { name: String, loc: SourceLocation, span: SourceSpan },
    /// A binary operation whose operands have different ground types.
    Mismatch { loc: SourceLocation, span: SourceSpan },
    /// An expression still has no ground type when solving stops.
    Unsolved { loc: SourceLocation, span: SourceSpan },
    /// Every type variable id has been used.
    OutOfVariables,
}

/// The inferencer's state: what each type variable is known to be, the type
/// bound to each name (flat, no scoping), and the next fresh variable id.
#[derive(Debug)]
pub struct TypeSolver {
    pub constraints: BTreeMap<u128, Type>,
    /// Bindings in the order they were made; a later one overrides an earlier.
    pub symbol_table: Vec<(String, Type)>,
    pub counter: u128,
}

/// The bindings of a symbol table as a map; later entries override earlier ones.
pub open spec fn table_map(t: Seq<(String, Type)>) -> Map<Seq<char>, Type>
    decreases t.len(),
{
    if t.len() == 0 {
        Map::empty()
    } else {
        table_map(t.drop_last()).insert(t.last().0@, t.last().1)
    }
}

/// A variable that was minted in `[lo, hi)`.
pub open spec fn fresh(t: Type, lo: u128, hi: u128) -> bool {
    t matches Type::Variable(v) && lo <= v < hi
}

/// `b` is `a` with a type in every slot: `Integer` on literals, a variable
/// minted in `[lo, hi)` on every other expression.
pub open spec fn emplaced(a: Expression, b: Expression, lo: u128, hi: u128) -> bool
    decreases a,
{
    &&& b.loc == a.loc
    &&& b.span == a.span
    &&& match (a.expr, b.expr) {
        (Expr::Integer(d), Expr::Integer(d2)) => d2@ == d@ && b.ty == Type::Integer,
        (Expr::Name(n), Expr::Name(n2)) => n2@ == n@ && fresh(b.ty, lo, hi),
        (Expr::Binop(x), Expr::Binop(y)) => {
            &&& y.op == x.op
            &&& emplaced(*x.lhs, *y.lhs, lo, hi)
            &&& emplaced(*x.rhs, *y.rhs, lo, hi)
            &&& fresh(b.ty, lo, hi)
        },
        (Expr::Grouping { expr: x }, Expr::Grouping { expr: y }) => emplaced(*x, *y, lo, hi) && fresh(
            b.ty,
            lo,
            hi,
        ),
        (
            Expr::FunctionApplication { func: f, args: xs },
            Expr::FunctionApplication { func: g, args: ys },
        ) => {
            &&& emplaced(*f, *g, lo, hi)
            &&& ys@.len() == xs@.len()
            &&& forall|i: int| 0 <= i < xs@.len() ==> emplaced(#[trigger] xs@[i], ys@[i], lo, hi)
            &&& fresh(b.ty, lo, hi)
        },
        _ => false,
    }
}

/// A wider id range keeps a tree emplaced, and its variables stay below `hi`.
pub proof fn lemma_emplaced_widen(a: Expression, b: Expression, lo: u128, hi: u128, lo2: u128, hi2: u128)
    requires
        emplaced(a, b, lo, hi),
        lo2 <= lo,
        hi <= hi2,
    ensures
        emplaced(a, b, lo2, hi2),
        expr_all(b, SlotCheck::Below(hi)),
    decreases a,
{
    match (a.expr, b.expr) {
        (Expr::Binop(x), Expr::Binop(y)) => {
            lemma_emplaced_widen(*x.lhs, *y.lhs, lo, hi, lo2, hi2);
            lemma_emplaced_widen(*x.rhs, *y.rhs, lo, hi, lo2, hi2);
        },
        (Expr::Grouping { expr: x }, Expr::Grouping { expr: y }) => {
            lemma_emplaced_widen(*x, *y, lo, hi, lo2, hi2);
        },
        (
            Expr::FunctionApplication { func: f, args: xs },
            Expr::FunctionApplication { func: g, args: ys },
        ) => {
            lemma_emplaced_widen(*f, *g, lo, hi, lo2, hi2);
            assert forall|i: int| 0 <= i < xs@.len() implies emplaced(
                #[trigger] xs@[i],
                ys@[i],
                lo2,
                hi2,
            ) && expr_all(ys@[i], SlotCheck::Below(hi)) by {
                assert(decreases_to!(a => xs@[i]));
                lemma_emplaced_widen(xs@[i], ys@[i], lo, hi, lo2, hi2);
            }
            assert forall|i: int| 0 <= i < ys@.len() implies expr_all(
                #[trigger] ys@[i],
                SlotCheck::Below(hi),
            ) by {
                assert(emplaced(xs@[i], ys@[i], lo2, hi2));
            }
        },
        _ => {},
    }
}

/// How many variables emplacing `e` mints: one per expression that is not a literal.
pub open spec fn var_count(e: Expression) -> nat
    decreases e, arity(e) + 1,
{
    match e.expr {
        Expr::Integer(_) => 0,
        Expr::Name(_) => 1,
        Expr::Binop(b) => var_count(*b.lhs) + var_count(*b.rhs) + 1,
        Expr::Grouping { expr } => var_count(*expr) + 1,
        Expr::FunctionApplication { func, args } => var_count(*func) + args_var_count(e, args@.len()) + 1,
    }
}

proof fn lemma_args_var_count_mono(e: Expression, i: nat, j: nat)
    requires
        i <= j <= arity(e),
    ensures
        args_var_count(e, i) <= args_var_count(e, j),
    decreases j,
{
    if i < j {
        lemma_args_var_count_mono(e, i, (j - 1) as nat);
    }
}

proof fn lemma_block_var_count_mono(b: StatementBlock, i: nat, j: nat)
    requires
        i <= j <= b.stmts@.len(),
    ensures
        block_var_count(b, i) <= block_var_count(b, j),
    decreases j,
{
    if i < j {
        lemma_block_var_count_mono(b, i, (j - 1) as nat);
    }
}

/// How many variables the first `i` arguments of application `e` take.
pub open spec fn args_var_count(e: Expression, i: nat) -> nat
    decreases e, i,
{
    match e.expr {
        Expr::FunctionApplication { args, .. } => if 0 < i <= args@.len() {
            args_var_count(e, (i - 1) as nat) + var_count(args@[i - 1])
        } else {
            0
        },
        _ => 0,
    }
}

/// The variable ids of `b` are those of `a` numbered from `lo` in post-order:
/// children first, left to right, then the node itself.
pub open spec fn numbered(a: Expression, b: Expression, lo: int) -> bool
    decreases a, arity(a) + 1,
{
    match (a.expr, b.expr) {
        (Expr::Integer(_), Expr::Integer(_)) => true,
        (Expr::Name(_), Expr::Name(_)) => b.ty == Type::Variable(lo as u128),
        (Expr::Binop(x), Expr::Binop(y)) => {
            &&& numbered(*x.lhs, *y.lhs, lo)
            &&& numbered(*x.rhs, *y.rhs, lo + var_count(*x.lhs))
            &&& b.ty == Type::Variable((lo + var_count(*x.lhs) + var_count(*x.rhs)) as u128)
        },
        (Expr::Grouping { expr: x }, Expr::Grouping { expr: y }) => {
            &&& numbered(*x, *y, lo)
            &&& b.ty == Type::Variable((lo + var_count(*x)) as u128)
        },
        (
            Expr::FunctionApplication { func: f, args: xs },
            Expr::FunctionApplication { func: g, args: ys },
        ) => {
            &&& numbered(*f, *g, lo)
            &&& ys@.len() == xs@.len()
            &&& forall|i: int|
                0 <= i < xs@.len() ==> numbered(
                    #[trigger] xs@[i],
                    ys@[i],
                    lo + var_count(*f) + args_var_count(a, i as nat),
                )
            &&& b.ty == Type::Variable((lo + var_count(*f) + args_var_count(a, xs@.len())) as u128)
        },
        _ => false,
    }
}

pub open spec fn stmt_var_count(s: Statement) -> nat
    decreases s, 1nat,
{
    match s.stmt {
        Stmt::NameDeclaration { value, .. } => var_count(value),
        Stmt::While { pred, body } => var_count(pred) + block_var_count(body, body.stmts@.len()),
        Stmt::Expression(e) => var_count(e),
    }
}

pub open spec fn block_var_count(b: StatementBlock, i: nat) -> nat
    decreases b, i,
{
    if 0 < i <= b.stmts@.len() {
        block_var_count(b, (i - 1) as nat) + stmt_var_count(b.stmts@[i - 1])
    } else {
        0
    }
}

/// `numbered`, statement by statement, in source order.
pub open spec fn stmt_numbered(a: Statement, b: Statement, lo: int) -> bool
    decreases a, 1nat,
{
    match (a.stmt, b.stmt) {
        (Stmt::NameDeclaration { value, .. }, Stmt::NameDeclaration { value: v2, .. }) => numbered(value, v2, lo),
        (Stmt::While { pred, body }, Stmt::While { pred: pred2, body: b2 }) => {
            numbered(pred, pred2, lo) && block_numbered(body, b2, lo + var_count(pred))
        },
        (Stmt::Expression(e), Stmt::Expression(e2)) => numbered(e, e2, lo),
        _ => false,
    }
}

pub open spec fn block_numbered(a: StatementBlock, b: StatementBlock, lo: int) -> bool
    decreases a, 0nat,
{
    &&& b.stmts@.len() == a.stmts@.len()
    &&& forall|i: int|
        0 <= i < a.stmts@.len() ==> stmt_numbered(#[trigger] a.stmts@[i], b.stmts@[i], lo + block_var_count(a, i as nat))
}

/// The bindings that the uses of names in `b` make, in post-order: each use
/// binds its name to the type in its own slot.
pub open spec fn name_binds(b: Expression) -> Seq<(Seq<char>, Type)>
    decreases b, arity(b) + 1,
{
    match b.expr {
        Expr::Integer(_) => seq![],
        Expr::Name(n) => seq![(n@, b.ty)],
        Expr::Binop(x) => name_binds(*x.lhs) + name_binds(*x.rhs),
        Expr::Grouping { expr } => name_binds(*expr),
        Expr::FunctionApplication { func, args } => name_binds(*func) + args_name_binds(b, args@.len()),
    }
}

/// `name_binds` over the first `i` arguments of application `b`.
pub open spec fn args_name_binds(b: Expression, i: nat) -> Seq<(Seq<char>, Type)>
    decreases b, i,
{
    match b.expr {
        Expr::FunctionApplication { args, .. } => if 0 < i <= args@.len() {
            args_name_binds(b, (i - 1) as nat) + name_binds(args@[i - 1])
        } else {
            seq![]
        },
        _ => seq![],
    }
}

pub open spec fn stmt_name_binds(s: Statement) -> Seq<(Seq<char>, Type)>
    decreases s, 1nat,
{
    match s.stmt {
        Stmt::NameDeclaration { value, .. } => name_binds(value),
        Stmt::While { pred, body } => name_binds(pred) + block_name_binds(body, body.stmts@.len()),
        Stmt::Expression(e) => name_binds(e),
    }
}

pub open spec fn block_name_binds(b: StatementBlock, i: nat) -> Seq<(Seq<char>, Type)>
    decreases b, i,
{
    if 0 < i <= b.stmts@.len() {
        block_name_binds(b, (i - 1) as nat) + stmt_name_binds(b.stmts@[i - 1])
    } else {
        seq![]
    }
}

/// `name_binds` of each of `s`, in order.
pub open spec fn seq_name_binds(s: Seq<Expression>) -> Seq<(Seq<char>, Type)>
    decreases s.len(),
{
    if s.len() == 0 {
        seq![]
    } else {
        seq_name_binds(s.drop_last()) + name_binds(s.last())
    }
}

proof fn lemma_args_name_binds(b: Expression, i: nat)
    requires
        b.expr is FunctionApplication,
        i <= arity(b),
    ensures
        args_name_binds(b, i) == seq_name_binds(b.expr->FunctionApplication_args@.subrange(0, i as int)),
    decreases i,
{
    let args = b.expr->FunctionApplication_args@;
    if i > 0 {
        lemma_args_name_binds(b, (i - 1) as nat);
        assert(args.subrange(0, i as int).drop_last() =~= args.subrange(0, i - 1));
    } else {
        assert(args.subrange(0, 0) =~= Seq::<Expression>::empty());
    }
}

/// `stmt_name_binds` of each of `s`, in order.
pub open spec fn seq_stmt_name_binds(s: Seq<Statement>) -> Seq<(Seq<char>, Type)>
    decreases s.len(),
{
    if s.len() == 0 {
        seq![]
    } else {
        seq_stmt_name_binds(s.drop_last()) + stmt_name_binds(s.last())
    }
}

proof fn lemma_block_name_binds(b: StatementBlock, i: nat)
    requires
        i <= b.stmts@.len(),
    ensures
        block_name_binds(b, i) == seq_stmt_name_binds(b.stmts@.subrange(0, i as int)),
    decreases i,
{
    if i > 0 {
        lemma_block_name_binds(b, (i - 1) as nat);
        assert(b.stmts@.subrange(0, i as int).drop_last() =~= b.stmts@.subrange(0, i - 1));
    } else {
        assert(b.stmts@.subrange(0, 0) =~= Seq::<Statement>::empty());
    }
}

/// `m` after binding each pair of `binds`, in order; a later binding overrides.
pub open spec fn bind_all(m: Map<Seq<char>, Type>, binds: Seq<(Seq<char>, Type)>) -> Map<Seq<char>, Type>
    decreases binds.len(),
{
    if binds.len() == 0 {
        m
    } else {
        bind_all(m, binds.drop_last()).insert(binds.last().0, binds.last().1)
    }
}

proof fn lemma_bind_all_concat(m: Map<Seq<char>, Type>, a: Seq<(Seq<char>, Type)>, b: Seq<(Seq<char>, Type)>)
    ensures
        bind_all(m, a + b) == bind_all(bind_all(m, a), b),
    decreases b.len(),
{
    if b.len() == 0 {
        assert(a + b =~= a);
    } else {
        assert((a + b).drop_last() =~= a + b.drop_last());
        lemma_bind_all_concat(m, a, b.drop_last());
    }
}

/// `emplaced`, statement by statement.
pub open spec fn stmt_emplaced(a: Statement, b: Statement, lo: u128, hi: u128) -> bool
    decreases a,
{
    &&& b.loc == a.loc
    &&& b.span == a.span
    &&& match (a.stmt, b.stmt) {
        (Stmt::NameDeclaration { name, value }, Stmt::NameDeclaration { name: n2, value: v2 }) => {
            n2@ == name@ && emplaced(value, v2, lo, hi)
        },
        (Stmt::While { pred, body }, Stmt::While { pred: pred2, body: b2 }) => {
            emplaced(pred, pred2, lo, hi) && block_emplaced(body, b2, lo, hi)
        },
        (Stmt::Expression(e), Stmt::Expression(e2)) => emplaced(e, e2, lo, hi),
        _ => false,
    }
}

pub open spec fn block_emplaced(a: StatementBlock, b: StatementBlock, lo: u128, hi: u128) -> bool
    decreases a,
{
    &&& b.loc == a.loc
    &&& b.span == a.span
    &&& b.stmts@.len() == a.stmts@.len()
    &&& forall|i: int| 0 <= i < a.stmts@.len() ==> stmt_emplaced(#[trigger] a.stmts@[i], b.stmts@[i], lo, hi)
}

pub proof fn lemma_stmt_emplaced_widen(a: Statement, b: Statement, lo: u128, hi: u128, lo2: u128, hi2: u128)
    requires
        stmt_emplaced(a, b, lo, hi),
        lo2 <= lo,
        hi <= hi2,
    ensures
        stmt_emplaced(a, b, lo2, hi2),
        stmt_all(b, SlotCheck::Below(hi)),
    decreases a,
{
    match (a.stmt, b.stmt) {
        (Stmt::NameDeclaration { name, value }, Stmt::NameDeclaration { name: n2, value: v2 }) => {
            lemma_emplaced_widen(value, v2, lo, hi, lo2, hi2);
        },
        (Stmt::While { pred, body }, Stmt::While { pred: pred2, body: b2 }) => {
            lemma_emplaced_widen(pred, pred2, lo, hi, lo2, hi2);
            lemma_block_emplaced_widen(body, b2, lo, hi, lo2, hi2);
        },
        (Stmt::Expression(e), Stmt::Expression(e2)) => {
            lemma_emplaced_widen(e, e2, lo, hi, lo2, hi2);
        },
        _ => {},
    }
}

pub proof fn lemma_block_emplaced_widen(
    a: StatementBlock,
    b: StatementBlock,
    lo: u128,
    hi: u128,
    lo2: u128,
    hi2: u128,
)
    requires
        block_emplaced(a, b, lo, hi),
        lo2 <= lo,
        hi <= hi2,
    ensures
        block_emplaced(a, b, lo2, hi2),
        block_all(b, SlotCheck::Below(hi)),
    decreases a,
{
    assert forall|i: int| 0 <= i < a.stmts@.len() implies stmt_emplaced(
        #[trigger] a.stmts@[i],
        b.stmts@[i],
        lo2,
        hi2,
    ) && stmt_all(b.stmts@[i], SlotCheck::Below(hi)) by {
        assert(decreases_to!(a => a.stmts@[i]));
        lemma_stmt_emplaced_widen(a.stmts@[i], b.stmts@[i], lo, hi, lo2, hi2);
    }
    assert forall|i: int| 0 <= i < b.stmts@.len() implies stmt_all(
        #[trigger] b.stmts@[i],
        SlotCheck::Below(hi),
    ) by {
        assert(stmt_emplaced(a.stmts@[i], b.stmts@[i], lo2, hi2));
    }
}

/// The bindings after the declarations of `s`: each binds its name to the
/// type in its value's slot, in source order, loop bodies included.
pub open spec fn bind_stmt(m: Map<Seq<char>, Type>, s: Statement) -> Map<Seq<char>, Type>
    decreases s, 0nat,
{
    match s.stmt {
        Stmt::NameDeclaration { name, value } => m.insert(name@, value.ty),
        Stmt::While { pred, body } => bind_block(m, body, body.stmts@.len() as nat),
        Stmt::Expression(_) => m,
    }
}

/// The bindings after the declarations of the first `i` statements of `b`.
pub open spec fn bind_block(m: Map<Seq<char>, Type>, b: StatementBlock, i: nat) -> Map<
    Seq<char>,
    Type,
>
    decreases b, i,
{
    if 0 < i <= b.stmts@.len() {
        bind_stmt(bind_block(m, b, (i - 1) as nat), b.stmts@[i - 1])
    } else {
        m
    }
}

/// The number of arguments of an application; 0 for any other expression.
pub open spec fn arity(e: Expression) -> nat {
    match e.expr {
        Expr::FunctionApplication { args, .. } => args@.len(),
        _ => 0,
    }
}

/// What one node records, once its children have: a literal is `Integer`, a
/// name is what the symbol table binds it to (an error if nothing), an
/// operation whose operands agree on a ground type has that type, a grouping
/// has its ground inner type. Nodes with a ground slot record nothing.
pub open spec fn record_node(c: Map<u128, Type>, st: Map<Seq<char>, Type>, e: Expression) -> Result<
    Map<u128, Type>,
    TypeError,
> {
    match e.ty {
        Type::Variable(n) => match e.expr {
            Expr::Integer(_) => Ok(c.insert(n, Type::Integer)),
            Expr::Name(m) => if st.contains_key(m@) {
                Ok(c.insert(n, st[m@]))
            } else {
                Err(TypeError::UnknownName { name: m, loc: e.loc, span: e.span })
            },
            Expr::Binop(b) => if b.lhs.ty == b.rhs.ty && is_ground(b.lhs.ty) {
                Ok(c.insert(n, b.lhs.ty))
            } else {
                Ok(c)
            },
            Expr::Grouping { expr } => if is_ground(expr.ty) {
                Ok(c.insert(n, expr.ty))
            } else {
                Ok(c)
            },
            Expr::FunctionApplication { .. } => Ok(c),
        },
        _ => Ok(c),
    }
}

/// The constraints after recording `e`: children first, then the node.
pub open spec fn record_expr(c: Map<u128, Type>, st: Map<Seq<char>, Type>, e: Expression) -> Result<
    Map<u128, Type>,
    TypeError,
>
    decreases e, arity(e) + 1,
{
    let inner = match e.expr {
        Expr::Integer(_) => Ok(c),
        Expr::Name(_) => Ok(c),
        Expr::Binop(b) => match record_expr(c, st, *b.lhs) {
            Ok(c1) => record_expr(c1, st, *b.rhs),
            Err(x) => Err(x),
        },
        Expr::Grouping { expr } => record_expr(c, st, *expr),
        Expr::FunctionApplication { func, args } => match record_expr(c, st, *func) {
            Ok(c1) => record_args(c1, st, e, args@.len()),
            Err(x) => Err(x),
        },
    };
    match inner {
        Ok(c2) => record_node(c2, st, e),
        Err(x) => Err(x),
    }
}

/// The constraints after recording the first `i` arguments of application `e`.
pub open spec fn record_args(c: Map<u128, Type>, st: Map<Seq<char>, Type>, e: Expression, i: nat) -> Result<
    Map<u128, Type>,
    TypeError,
>
    decreases e, i,
{
    match e.expr {
        Expr::FunctionApplication { args, .. } => if 0 < i <= args@.len() {
            match record_args(c, st, e, (i - 1) as nat) {
                Ok(c1) => record_expr(c1, st, args@[i - 1]),
                Err(x) => Err(x),
            }
        } else {
            Ok(c)
        },
        _ => Ok(c),
    }
}

/// Records every expression of `s`, in order.
pub open spec fn record_stmt(c: Map<u128, Type>, st: Map<Seq<char>, Type>, s: Statement) -> Result<
    Map<u128, Type>,
    TypeError,
>
    decreases s, 0nat,
{
    match s.stmt {
        Stmt::NameDeclaration { value, .. } => record_expr(c, st, value),
        Stmt::While { pred, body } => match record_expr(c, st, pred) {
            Ok(c1) => record_block(c1, st, body, body.stmts@.len() as nat),
            Err(x) => Err(x),
        },
        Stmt::Expression(e) => record_expr(c, st, e),
    }
}

/// Records the first `i` statements of `b`, in order.
pub open spec fn record_block(
    c: Map<u128, Type>,
    st: Map<Seq<char>, Type>,
    b: StatementBlock,
    i: nat,
) -> Result<Map<u128, Type>, TypeError>
    decreases b, i,
{
    if 0 < i <= b.stmts@.len() {
        match record_block(c, st, b, (i - 1) as nat) {
            Ok(c1) => record_stmt(c1, st, b.stmts@[i - 1]),
            Err(x) => Err(x),
        }
    } else {
        Ok(c)
    }
}

/// Recording fails only on an unknown name.
pub proof fn lemma_record_error_is_unknown(c: Map<u128, Type>, st: Map<Seq<char>, Type>, b: StatementBlock)
    ensures
        record_block(c, st, b, b.stmts@.len() as nat) matches Err(x) ==> x is UnknownName,
{
    lemma_record_block_err(c, st, b, b.stmts@.len() as nat);
}

proof fn lemma_record_expr_err(c: Map<u128, Type>, st: Map<Seq<char>, Type>, e: Expression)
    ensures
        record_expr(c, st, e) matches Err(x) ==> x is UnknownName,
    decreases e, arity(e) + 1,
{
    match e.expr {
        Expr::Binop(b) => {
            lemma_record_expr_err(c, st, *b.lhs);
            if let Ok(c1) = record_expr(c, st, *b.lhs) {
                lemma_record_expr_err(c1, st, *b.rhs);
            }
        },
        Expr::Grouping { expr } => {
            lemma_record_expr_err(c, st, *expr);
        },
        Expr::FunctionApplication { func, args } => {
            lemma_record_expr_err(c, st, *func);
            if let Ok(c1) = record_expr(c, st, *func) {
                lemma_record_args_err(c1, st, e, args@.len());
            }
        },
        _ => {},
    }
}

proof fn lemma_record_args_err(c: Map<u128, Type>, st: Map<Seq<char>, Type>, e: Expression, i: nat)
    ensures
        record_args(c, st, e, i) matches Err(x) ==> x is UnknownName,
    decreases e, i,
{
    if let Expr::FunctionApplication { args, .. } = e.expr {
        if 0 < i <= args@.len() {
            lemma_record_args_err(c, st, e, (i - 1) as nat);
            if let Ok(c1) = record_args(c, st, e, (i - 1) as nat) {
                assert(decreases_to!(e => args@[i - 1]));
                lemma_record_expr_err(c1, st, args@[i - 1]);
            }
        }
    }
}

proof fn lemma_record_stmt_err(c: Map<u128, Type>, st: Map<Seq<char>, Type>, s: Statement)
    ensures
        record_stmt(c, st, s) matches Err(x) ==> x is UnknownName,
    decreases s, 0nat,
{
    match s.stmt {
        Stmt::NameDeclaration { value, .. } => lemma_record_expr_err(c, st, value),
        Stmt::While { pred, body } => {
            lemma_record_expr_err(c, st, pred);
            if let Ok(c1) = record_expr(c, st, pred) {
                lemma_record_block_err(c1, st, body, body.stmts@.len() as nat);
            }
        },
        Stmt::Expression(e) => lemma_record_expr_err(c, st, e),
    }
}

proof fn lemma_record_block_err(c: Map<u128, Type>, st: Map<Seq<char>, Type>, b: StatementBlock, i: nat)
    ensures
        record_block(c, st, b, i) matches Err(x) ==> x is UnknownName,
    decreases b, i,
{
    if 0 < i <= b.stmts@.len() {
        lemma_record_block_err(c, st, b, (i - 1) as nat);
        if let Ok(c1) = record_block(c, st, b, (i - 1) as nat) {
            assert(decreases_to!(b => b.stmts@[i - 1]));
            lemma_record_stmt_err(c1, st, b.stmts@[i - 1]);
        }
    }
}

/// An error while recording the arguments stops the recording.
proof fn lemma_args_err_sticks(c: Map<u128, Type>, st: Map<Seq<char>, Type>, e: Expression, i: nat, j: nat)
    requires
        i <= j <= arity(e),
        record_args(c, st, e, i) is Err,
    ensures
        record_args(c, st, e, j) == record_args(c, st, e, i),
    decreases j,
{
    if j > i {
        lemma_args_err_sticks(c, st, e, i, (j - 1) as nat);
    }
}

/// An error while recording a block stops the recording.
proof fn lemma_block_err_sticks(c: Map<u128, Type>, st: Map<Seq<char>, Type>, b: StatementBlock, i: nat, j: nat)
    requires
        i <= j <= b.stmts@.len(),
        record_block(c, st, b, i) is Err,
    ensures
        record_block(c, st, b, j) == record_block(c, st, b, i),
    decreases j,
{
    if j > i {
        lemma_block_err_sticks(c, st, b, i, (j - 1) as nat);
    }
}

/// Follows the constraints from `t` for at most `fuel` steps, stopping at a
/// ground type, at a variable constrained to itself or unconstrained.
pub open spec fn resolve(c: Map<u128, Type>, t: Type, fuel: nat) -> Type
    decreases fuel,
{
    match t {
        Type::Variable(n) => if fuel > 0 && c.contains_key(n) && c[n] != t {
            resolve(c, c[n], (fuel - 1) as nat)
        } else {
            t
        },
        _ => t,
    }
}

/// What a slot holds after the constraints are applied: where its chain of
/// constraints ends, a ground type or the last variable of the chain.
pub open spec fn applied_type(c: Map<u128, Type>, t: Type, fuel: nat) -> Type {
    resolve(c, t, fuel)
}

/// `b` is `a` with each slot replaced as `applied_type` says.
pub open spec fn applied(c: Map<u128, Type>, fuel: nat, a: Expression, b: Expression) -> bool
    decreases a,
{
    &&& b.loc == a.loc
    &&& b.span == a.span
    &&& b.ty == applied_type(c, a.ty, fuel)
    &&& match (a.expr, b.expr) {
        (Expr::Integer(d), Expr::Integer(d2)) => d2@ == d@,
        (Expr::Name(n), Expr::Name(n2)) => n2@ == n@,
        (Expr::Binop(x), Expr::Binop(y)) => {
            &&& y.op == x.op
            &&& applied(c, fuel, *x.lhs, *y.lhs)
            &&& applied(c, fuel, *x.rhs, *y.rhs)
        },
        (Expr::Grouping { expr: x }, Expr::Grouping { expr: y }) => applied(c, fuel, *x, *y),
        (
            Expr::FunctionApplication { func: f, args: xs },
            Expr::FunctionApplication { func: g, args: ys },
        ) => {
            &&& applied(c, fuel, *f, *g)
            &&& ys@.len() == xs@.len()
            &&& forall|i: int| 0 <= i < xs@.len() ==> applied(c, fuel, #[trigger] xs@[i], ys@[i])
        },
        _ => false,
    }
}

/// `applied`, statement by statement.
pub open spec fn applied_stmt(c: Map<u128, Type>, fuel: nat, a: Statement, b: Statement) -> bool
    decreases a,
{
    &&& b.loc == a.loc
    &&& b.span == a.span
    &&& match (a.stmt, b.stmt) {
        (Stmt::NameDeclaration { name, value }, Stmt::NameDeclaration { name: n2, value: v2 }) => {
            n2@ == name@ && applied(c, fuel, value, v2)
        },
        (Stmt::While { pred, body }, Stmt::While { pred: pred2, body: b2 }) => {
            applied(c, fuel, pred, pred2) && applied_block(c, fuel, body, b2)
        },
        (Stmt::Expression(e), Stmt::Expression(e2)) => applied(c, fuel, e, e2),
        _ => false,
    }
}

pub open spec fn applied_block(c: Map<u128, Type>, fuel: nat, a: StatementBlock, b: StatementBlock) -> bool
    decreases a,
{
    &&& b.loc == a.loc
    &&& b.span == a.span
    &&& b.stmts@.len() == a.stmts@.len()
    &&& forall|i: int| 0 <= i < a.stmts@.len() ==> applied_stmt(c, fuel, #[trigger] a.stmts@[i], b.stmts@[i])
}

/// Two trees that agree on everything: locations, spans, slots and leaves.
pub open spec fn same_expr(a: Expression, b: Expression) -> bool
    decreases a,
{
    &&& b.loc == a.loc
    &&& b.span == a.span
    &&& b.ty == a.ty
    &&& match (a.expr, b.expr) {
        (Expr::Integer(d), Expr::Integer(d2)) => d2@ == d@,
        (Expr::Name(n), Expr::Name(n2)) => n2@ == n@,
        (Expr::Binop(x), Expr::Binop(y)) => y.op == x.op && same_expr(*x.lhs, *y.lhs) && same_expr(*x.rhs, *y.rhs),
        (Expr::Grouping { expr: x }, Expr::Grouping { expr: y }) => same_expr(*x, *y),
        (
            Expr::FunctionApplication { func: f, args: xs },
            Expr::FunctionApplication { func: g, args: ys },
        ) => {
            &&& same_expr(*f, *g)
            &&& ys@.len() == xs@.len()
            &&& forall|i: int| 0 <= i < xs@.len() ==> same_expr(#[trigger] xs@[i], ys@[i])
        },
        _ => false,
    }
}

/// Applying the constraints to a complete expression changes nothing.
pub proof fn lemma_apply_complete_noop(c: Map<u128, Type>, fuel: nat, a: Expression, b: Expression)
    requires
        expr_all(a, SlotCheck::Ground),
        applied(c, fuel, a, b),
    ensures
        same_expr(a, b),
    decreases a,
{
    match (a.expr, b.expr) {
        (Expr::Binop(x), Expr::Binop(y)) => {
            lemma_apply_complete_noop(c, fuel, *x.lhs, *y.lhs);
            lemma_apply_complete_noop(c, fuel, *x.rhs, *y.rhs);
        },
        (Expr::Grouping { expr: x }, Expr::Grouping { expr: y }) => {
            lemma_apply_complete_noop(c, fuel, *x, *y);
        },
        (
            Expr::FunctionApplication { func: f, args: xs },
            Expr::FunctionApplication { func: g, args: ys },
        ) => {
            lemma_apply_complete_noop(c, fuel, *f, *g);
            assert forall|i: int| 0 <= i < xs@.len() implies same_expr(#[trigger] xs@[i], ys@[i]) by {
                assert(decreases_to!(a => xs@[i]));
                lemma_apply_complete_noop(c, fuel, xs@[i], ys@[i]);
            }
        },
        _ => {},
    }
}

/// `same_expr`, statement by statement.
pub open spec fn same_stmt(a: Statement, b: Statement) -> bool
    decreases a,
{
    &&& b.loc == a.loc
    &&& b.span == a.span
    &&& match (a.stmt, b.stmt) {
        (Stmt::NameDeclaration { name, value }, Stmt::NameDeclaration { name: n2, value: v2 }) => {
            n2@ == name@ && same_expr(value, v2)
        },
        (Stmt::While { pred, body }, Stmt::While { pred: pred2, body: b2 }) => {
            same_expr(pred, pred2) && same_block(body, b2)
        },
        (Stmt::Expression(e), Stmt::Expression(e2)) => same_expr(e, e2),
        _ => false,
    }
}

pub open spec fn same_block(a: StatementBlock, b: StatementBlock) -> bool
    decreases a,
{
    &&& b.loc == a.loc
    &&& b.span == a.span
    &&& b.stmts@.len() == a.stmts@.len()
    &&& forall|i: int| 0 <= i < a.stmts@.len() ==> same_stmt(#[trigger] a.stmts@[i], b.stmts@[i])
}

pub proof fn lemma_apply_complete_noop_stmt(c: Map<u128, Type>, fuel: nat, a: Statement, b: Statement)
    requires
        stmt_all(a, SlotCheck::Ground),
        applied_stmt(c, fuel, a, b),
    ensures
        same_stmt(a, b),
    decreases a,
{
    match (a.stmt, b.stmt) {
        (Stmt::NameDeclaration { value, .. }, Stmt::NameDeclaration { value: v2, .. }) => {
            lemma_apply_complete_noop(c, fuel, value, v2);
        },
        (Stmt::While { pred, body }, Stmt::While { pred: pred2, body: b2 }) => {
            lemma_apply_complete_noop(c, fuel, pred, pred2);
            lemma_apply_complete_noop_block(c, fuel, body, b2);
        },
        (Stmt::Expression(e), Stmt::Expression(e2)) => {
            lemma_apply_complete_noop(c, fuel, e, e2);
        },
        _ => {},
    }
}

/// Applying the constraints to a complete tree is a no-op: the result agrees
/// with the input on every location, span, slot and leaf.
pub proof fn lemma_apply_complete_noop_block(c: Map<u128, Type>, fuel: nat, a: StatementBlock, b: StatementBlock)
    requires
        block_all(a, SlotCheck::Ground),
        applied_block(c, fuel, a, b),
    ensures
        same_block(a, b),
    decreases a,
{
    assert forall|i: int| 0 <= i < a.stmts@.len() implies same_stmt(#[trigger] a.stmts@[i], b.stmts@[i]) by {
        assert(decreases_to!(a => a.stmts@[i]));
        lemma_apply_complete_noop_stmt(c, fuel, a.stmts@[i], b.stmts@[i]);
    }
}

/// Some expression slot of `e` holds a type variable.
pub open spec fn expr_has_variable(e: Expression) -> bool
    decreases e,
{
    ||| e.ty is Variable
    ||| match e.expr {
        Expr::Integer(_) => false,
        Expr::Name(_) => false,
        Expr::Binop(b) => expr_has_variable(*b.lhs) || expr_has_variable(*b.rhs),
        Expr::Grouping { expr } => expr_has_variable(*expr),
        Expr::FunctionApplication { func, args } => {
            ||| expr_has_variable(*func)
            ||| exists|i: int| 0 <= i < args@.len() && expr_has_variable(#[trigger] args@[i])
        },
    }
}

pub open spec fn stmt_has_variable(s: Statement) -> bool
    decreases s,
{
    match s.stmt {
        Stmt::NameDeclaration { value, .. } => expr_has_variable(value),
        Stmt::While { pred, body } => expr_has_variable(pred) || block_has_variable(body),
        Stmt::Expression(e) => expr_has_variable(e),
    }
}

pub open spec fn block_has_variable(b: StatementBlock) -> bool
    decreases b,
{
    exists|i: int| 0 <= i < b.stmts@.len() && stmt_has_variable(#[trigger] b.stmts@[i])
}

proof fn lemma_complete_expr_no_variable(e: Expression)
    requires
        expr_all(e, SlotCheck::Ground),
    ensures
        !expr_has_variable(e),
    decreases e,
{
    match e.expr {
        Expr::Binop(b) => {
            lemma_complete_expr_no_variable(*b.lhs);
            lemma_complete_expr_no_variable(*b.rhs);
        },
        Expr::Grouping { expr } => lemma_complete_expr_no_variable(*expr),
        Expr::FunctionApplication { func, args } => {
            lemma_complete_expr_no_variable(*func);
            assert forall|i: int| 0 <= i < args@.len() implies !expr_has_variable(#[trigger] args@[i]) by {
                assert(decreases_to!(e => args@[i]));
                lemma_complete_expr_no_variable(args@[i]);
            }
        },
        _ => {},
    }
}

proof fn lemma_complete_stmt_no_variable(s: Statement)
    requires
        stmt_all(s, SlotCheck::Ground),
    ensures
        !stmt_has_variable(s),
    decreases s,
{
    match s.stmt {
        Stmt::NameDeclaration { value, .. } => lemma_complete_expr_no_variable(value),
        Stmt::While { pred, body } => {
            lemma_complete_expr_no_variable(pred);
            lemma_complete_block_no_variable(body);
        },
        Stmt::Expression(e) => lemma_complete_expr_no_variable(e),
    }
}

/// No expression of a complete tree holds a type variable.
pub proof fn lemma_complete_block_no_variable(b: StatementBlock)
    requires
        b.complete(),
    ensures
        !block_has_variable(b),
    decreases b,
{
    assert forall|i: int| 0 <= i < b.stmts@.len() implies !stmt_has_variable(#[trigger] b.stmts@[i]) by {
        assert(decreases_to!(b => b.stmts@[i]));
        lemma_complete_stmt_no_variable(b.stmts@[i]);
    }
}

/// The counter of a well-formed solver is above every id its constraints
/// use, as keys and inside values.
pub proof fn lemma_counter_above_constraints(s: TypeSolver)
    requires
        s.wf(),
    ensures
        forall|k: u128| #[trigger] s.constraints@.contains_key(k) ==> k < s.counter,
        forall|k: u128|
            #[trigger] s.constraints@.contains_key(k) ==> (s.constraints@[k] matches Type::Variable(v)
                ==> v < s.counter),
{
}

/// Resolving keeps variables below the counter when the constraints do.
proof fn lemma_resolve_below(c: Map<u128, Type>, t: Type, fuel: nat, bound: u128)
    requires
        type_below(t, bound),
        forall|k: u128| #[trigger] c.contains_key(k) ==> type_below(c[k], bound),
    ensures
        type_below(resolve(c, t, fuel), bound),
    decreases fuel,
{
    if let Type::Variable(n) = t {
        if fuel > 0 && c.contains_key(n) && c[n] != t {
            lemma_resolve_below(c, c[n], (fuel - 1) as nat, bound);
        }
    }
}

/// One solve iteration: record the constraints of `a` onto `c0`, giving
/// `c1`, then apply `c1` to `a`, giving `b`.
pub open spec fn solve_step(
    c0: Map<u128, Type>,
    st: Map<Seq<char>, Type>,
    fuel: nat,
    a: StatementBlock,
    c1: Map<u128, Type>,
    b: StatementBlock,
) -> bool {
    &&& record_block(c0, st, a, a.stmts@.len() as nat) == Ok::<Map<u128, Type>, TypeError>(c1)
    &&& applied_block(c1, fuel, a, b)
}

/// `trees[i + 1]` and `cs[i + 1]` follow from `trees[i]` and `cs[i]` by one
/// iteration, taken only while the tree is incomplete, at most
/// `MAX_ITERATIONS` times.
pub open spec fn solve_trace(
    trees: Seq<StatementBlock>,
    cs: Seq<Map<u128, Type>>,
    st: Map<Seq<char>, Type>,
    fuel: nat,
) -> bool {
    &&& trees.len() == cs.len()
    &&& 1 <= trees.len() <= MAX_ITERATIONS + 1
    &&& forall|i: int|
        0 <= i < trees.len() - 1 ==> !(#[trigger] trees[i]).complete() && solve_step(
            cs[i],
            st,
            fuel,
            trees[i],
            cs[i + 1],
            trees[i + 1],
        )
}

/// A solve trace as `infer` runs it on `b`: its first tree is `b` with every
/// slot numbered from 1, its first constraints map each minted id to itself,
/// and the symbols are the bindings of the name uses, then of the declarations.
pub open spec fn infer_trace(b: StatementBlock, trees: Seq<StatementBlock>, cs: Seq<Map<u128, Type>>) -> bool {
    let typed = trees[0];
    let counter = 1 + block_var_count(b, b.stmts@.len() as nat);
    &&& trees.len() >= 1
    &&& block_numbered(b, typed, 1)
    &&& extends(Map::empty(), cs[0], 1, counter as u128)
    &&& solve_trace(
        trees,
        cs,
        bind_block(
            bind_all(Map::empty(), block_name_binds(typed, typed.stmts@.len())),
            typed,
            typed.stmts@.len(),
        ),
        counter,
    )
}


/// Every name used in `s` is in `d`.
pub open spec fn stmt_names_in(s: Statement, d: Set<Seq<char>>) -> bool
    decreases s,
{
    match s.stmt {
        Stmt::NameDeclaration { value, .. } => names_in(value, d),
        Stmt::While { pred, body } => names_in(pred, d) && block_names_in(body, d),
        Stmt::Expression(e) => names_in(e, d),
    }
}

/// Every name used in `b` is in `d`.
pub open spec fn block_names_in(b: StatementBlock, d: Set<Seq<char>>) -> bool
    decreases b,
{
    forall|i: int| 0 <= i < b.stmts@.len() ==> stmt_names_in(#[trigger] b.stmts@[i], d)
}

/// The names that `binds` binds.
pub open spec fn bound_keys(binds: Seq<(Seq<char>, Type)>) -> Set<Seq<char>> {
    Set::new(|k: Seq<char>| exists|i: int| 0 <= i < binds.len() && (#[trigger] binds[i]).0 == k)
}

proof fn lemma_names_mono(e: Expression, d1: Set<Seq<char>>, d2: Set<Seq<char>>)
    requires
        names_in(e, d1),
        d1.subset_of(d2),
    ensures
        names_in(e, d2),
    decreases e,
{
    match e.expr {
        Expr::Binop(b) => {
            lemma_names_mono(*b.lhs, d1, d2);
            lemma_names_mono(*b.rhs, d1, d2);
        },
        Expr::Grouping { expr } => lemma_names_mono(*expr, d1, d2),
        Expr::FunctionApplication { func, args } => {
            lemma_names_mono(*func, d1, d2);
            assert forall|i: int| 0 <= i < args@.len() implies names_in(#[trigger] args@[i], d2) by {
                assert(decreases_to!(e => args@[i]));
                lemma_names_mono(args@[i], d1, d2);
            }
        },
        _ => {},
    }
}

proof fn lemma_stmt_names_mono(s: Statement, d1: Set<Seq<char>>, d2: Set<Seq<char>>)
    requires
        stmt_names_in(s, d1),
        d1.subset_of(d2),
    ensures
        stmt_names_in(s, d2),
    decreases s,
{
    match s.stmt {
        Stmt::NameDeclaration { value, .. } => lemma_names_mono(value, d1, d2),
        Stmt::While { pred, body } => {
            lemma_names_mono(pred, d1, d2);
            lemma_block_names_mono(body, d1, d2);
        },
        Stmt::Expression(e) => lemma_names_mono(e, d1, d2),
    }
}

proof fn lemma_block_names_mono(b: StatementBlock, d1: Set<Seq<char>>, d2: Set<Seq<char>>)
    requires
        block_names_in(b, d1),
        d1.subset_of(d2),
    ensures
        block_names_in(b, d2),
    decreases b,
{
    assert forall|i: int| 0 <= i < b.stmts@.len() implies stmt_names_in(#[trigger] b.stmts@[i], d2) by {
        assert(decreases_to!(b => b.stmts@[i]));
        lemma_stmt_names_mono(b.stmts@[i], d1, d2);
    }
}

proof fn lemma_bind_all_dom(m: Map<Seq<char>, Type>, binds: Seq<(Seq<char>, Type)>)
    ensures
        m.dom().subset_of(bind_all(m, binds).dom()),
        bound_keys(binds).subset_of(bind_all(m, binds).dom()),
    decreases binds.len(),
{
    if binds.len() > 0 {
        lemma_bind_all_dom(m, binds.drop_last());
        assert forall|k: Seq<char>| bound_keys(binds).contains(k) implies bind_all(m, binds).dom().contains(k) by {
            let i = choose|i: int| 0 <= i < binds.len() && (#[trigger] binds[i]).0 == k;
            if i < binds.len() - 1 {
                assert(binds.drop_last()[i] == binds[i]);
                assert(bound_keys(binds.drop_last()).contains(k));
            }
        }
    }
}

proof fn lemma_keys_concat(a: Seq<(Seq<char>, Type)>, b: Seq<(Seq<char>, Type)>)
    ensures
        bound_keys(a).subset_of(bound_keys(a + b)),
        bound_keys(b).subset_of(bound_keys(a + b)),
{
    assert forall|k: Seq<char>| bound_keys(a).contains(k) implies bound_keys(a + b).contains(k) by {
        let i = choose|i: int| 0 <= i < a.len() && (#[trigger] a[i]).0 == k;
        assert((a + b)[i] == a[i]);
    }
    assert forall|k: Seq<char>| bound_keys(b).contains(k) implies bound_keys(a + b).contains(k) by {
        let i = choose|i: int| 0 <= i < b.len() && (#[trigger] b[i]).0 == k;
        assert((a + b)[a.len() + i] == b[i]);
    }
}

proof fn lemma_seq_binds_keys(s: Seq<Expression>, j: int)
    requires
        0 <= j < s.len(),
    ensures
        bound_keys(name_binds(s[j])).subset_of(bound_keys(seq_name_binds(s))),
    decreases s.len(),
{
    lemma_keys_concat(seq_name_binds(s.drop_last()), name_binds(s.last()));
    if j < s.len() - 1 {
        lemma_seq_binds_keys(s.drop_last(), j);
        assert(s.drop_last()[j] == s[j]);
    }
}

/// Every name that `e` uses is among the names its uses bind.
proof fn lemma_binds_cover(e: Expression)
    ensures
        names_in(e, bound_keys(name_binds(e))),
    decreases e, arity(e) + 1,
{
    match e.expr {
        Expr::Name(n) => {
            assert(name_binds(e)[0].0 == n@);
        },
        Expr::Binop(b) => {
            lemma_binds_cover(*b.lhs);
            lemma_binds_cover(*b.rhs);
            lemma_keys_concat(name_binds(*b.lhs), name_binds(*b.rhs));
            lemma_names_mono(*b.lhs, bound_keys(name_binds(*b.lhs)), bound_keys(name_binds(e)));
            lemma_names_mono(*b.rhs, bound_keys(name_binds(*b.rhs)), bound_keys(name_binds(e)));
        },
        Expr::Grouping { expr } => lemma_binds_cover(*expr),
        Expr::FunctionApplication { func, args } => {
            lemma_binds_cover(*func);
            lemma_args_name_binds(e, args@.len());
            assert(args@.subrange(0, args@.len() as int) =~= args@);
            lemma_keys_concat(name_binds(*func), args_name_binds(e, args@.len()));
            lemma_names_mono(*func, bound_keys(name_binds(*func)), bound_keys(name_binds(e)));
            assert forall|i: int| 0 <= i < args@.len() implies names_in(#[trigger] args@[i], bound_keys(name_binds(e))) by {
                assert(decreases_to!(e => args@[i]));
                lemma_binds_cover(args@[i]);
                lemma_seq_binds_keys(args@, i);
                lemma_names_mono(args@[i], bound_keys(name_binds(args@[i])), bound_keys(name_binds(e)));
            }
        },
        _ => {},
    }
}

proof fn lemma_stmt_binds_cover(s: Statement)
    ensures
        stmt_names_in(s, bound_keys(stmt_name_binds(s))),
    decreases s, 1nat,
{
    match s.stmt {
        Stmt::NameDeclaration { value, .. } => lemma_binds_cover(value),
        Stmt::While { pred, body } => {
            lemma_binds_cover(pred);
            lemma_block_binds_cover(body, body.stmts@.len());
            lemma_keys_concat(name_binds(pred), block_name_binds(body, body.stmts@.len()));
            lemma_names_mono(pred, bound_keys(name_binds(pred)), bound_keys(stmt_name_binds(s)));
            lemma_block_names_mono(body, bound_keys(block_name_binds(body, body.stmts@.len())), bound_keys(stmt_name_binds(s)));
        },
        Stmt::Expression(e) => lemma_binds_cover(e),
    }
}

/// Every name that the first `i` statements of `b` use is among the names
/// their uses bind.
proof fn lemma_block_binds_cover(b: StatementBlock, i: nat)
    requires
        i <= b.stmts@.len(),
    ensures
        forall|j: int| 0 <= j < i ==> stmt_names_in(#[trigger] b.stmts@[j], bound_keys(block_name_binds(b, i))),
        i == b.stmts@.len() ==> block_names_in(b, bound_keys(block_name_binds(b, i))),
    decreases b, i,
{
    if i > 0 {
        lemma_block_binds_cover(b, (i - 1) as nat);
        let prev = block_name_binds(b, (i - 1) as nat);
        let last = stmt_name_binds(b.stmts@[i - 1]);
        lemma_keys_concat(prev, last);
        assert(decreases_to!(b => b.stmts@[i - 1]));
        lemma_stmt_binds_cover(b.stmts@[i - 1]);
        assert forall|j: int| 0 <= j < i implies stmt_names_in(#[trigger] b.stmts@[j], bound_keys(block_name_binds(b, i))) by {
            if j < i - 1 {
                lemma_stmt_names_mono(b.stmts@[j], bound_keys(prev), bound_keys(block_name_binds(b, i)));
            } else {
                lemma_stmt_names_mono(b.stmts@[j], bound_keys(last), bound_keys(block_name_binds(b, i)));
            }
        }
    }
}

proof fn lemma_bind_stmt_dom(m: Map<Seq<char>, Type>, s: Statement)
    ensures
        m.dom().subset_of(bind_stmt(m, s).dom()),
    decreases s, 0nat,
{
    if let Stmt::While { body, .. } = s.stmt {
        lemma_bind_block_dom(m, body, body.stmts@.len() as nat);
    }
}

proof fn lemma_bind_block_dom(m: Map<Seq<char>, Type>, b: StatementBlock, i: nat)
    ensures
        m.dom().subset_of(bind_block(m, b, i).dom()),
    decreases b, i,
{
    if 0 < i <= b.stmts@.len() {
        lemma_bind_block_dom(m, b, (i - 1) as nat);
        assert(decreases_to!(b => b.stmts@[i - 1]));
        lemma_bind_stmt_dom(bind_block(m, b, (i - 1) as nat), b.stmts@[i - 1]);
    }
}

proof fn lemma_record_ok(c: Map<u128, Type>, st: Map<Seq<char>, Type>, e: Expression)
    requires
        names_in(e, st.dom()),
    ensures
        record_expr(c, st, e) is Ok,
    decreases e, arity(e) + 1,
{
    match e.expr {
        Expr::Binop(b) => {
            lemma_record_ok(c, st, *b.lhs);
            lemma_record_ok(record_expr(c, st, *b.lhs)->Ok_0, st, *b.rhs);
        },
        Expr::Grouping { expr } => lemma_record_ok(c, st, *expr),
        Expr::FunctionApplication { func, args } => {
            lemma_record_ok(c, st, *func);
            lemma_record_args_ok(record_expr(c, st, *func)->Ok_0, st, e, args@.len());
        },
        _ => {},
    }
}

proof fn lemma_record_args_ok(c: Map<u128, Type>, st: Map<Seq<char>, Type>, e: Expression, i: nat)
    requires
        names_in(e, st.dom()),
    ensures
        record_args(c, st, e, i) is Ok,
    decreases e, i,
{
    if let Expr::FunctionApplication { args, .. } = e.expr {
        if 0 < i <= args@.len() {
            lemma_record_args_ok(c, st, e, (i - 1) as nat);
            assert(decreases_to!(e => args@[i - 1]));
            lemma_record_ok(record_args(c, st, e, (i - 1) as nat)->Ok_0, st, args@[i - 1]);
        }
    }
}

proof fn lemma_record_stmt_ok(c: Map<u128, Type>, st: Map<Seq<char>, Type>, s: Statement)
    requires
        stmt_names_in(s, st.dom()),
    ensures
        record_stmt(c, st, s) is Ok,
    decreases s, 0nat,
{
    match s.stmt {
        Stmt::NameDeclaration { value, .. } => lemma_record_ok(c, st, value),
        Stmt::While { pred, body } => {
            lemma_record_ok(c, st, pred);
            lemma_record_block_ok(record_expr(c, st, pred)->Ok_0, st, body, body.stmts@.len() as nat);
        },
        Stmt::Expression(e) => lemma_record_ok(c, st, e),
    }
}

/// Recording cannot fail when every name used is bound.
pub proof fn lemma_record_block_ok(c: Map<u128, Type>, st: Map<Seq<char>, Type>, b: StatementBlock, i: nat)
    requires
        block_names_in(b, st.dom()),
    ensures
        record_block(c, st, b, i) is Ok,
    decreases b, i,
{
    if 0 < i <= b.stmts@.len() {
        lemma_record_block_ok(c, st, b, (i - 1) as nat);
        assert(decreases_to!(b => b.stmts@[i - 1]));
        lemma_record_stmt_ok(record_block(c, st, b, (i - 1) as nat)->Ok_0, st, b.stmts@[i - 1]);
    }
}

proof fn lemma_applied_names(c: Map<u128, Type>, fuel: nat, a: Expression, b: Expression, d: Set<Seq<char>>)
    requires
        applied(c, fuel, a, b),
        names_in(a, d),
    ensures
        names_in(b, d),
    decreases a,
{
    match (a.expr, b.expr) {
        (Expr::Binop(x), Expr::Binop(y)) => {
            lemma_applied_names(c, fuel, *x.lhs, *y.lhs, d);
            lemma_applied_names(c, fuel, *x.rhs, *y.rhs, d);
        },
        (Expr::Grouping { expr: x }, Expr::Grouping { expr: y }) => lemma_applied_names(c, fuel, *x, *y, d),
        (Expr::FunctionApplication { func: f, args: xs }, Expr::FunctionApplication { func: g, args: ys }) => {
            lemma_applied_names(c, fuel, *f, *g, d);
            assert forall|i: int| 0 <= i < ys@.len() implies names_in(#[trigger] ys@[i], d) by {
                assert(decreases_to!(a => xs@[i]));
                assert(applied(c, fuel, xs@[i], ys@[i]));
                lemma_applied_names(c, fuel, xs@[i], ys@[i], d);
            }
        },
        _ => {},
    }
}

proof fn lemma_stmt_applied_names(c: Map<u128, Type>, fuel: nat, a: Statement, b: Statement, d: Set<Seq<char>>)
    requires
        applied_stmt(c, fuel, a, b),
        stmt_names_in(a, d),
    ensures
        stmt_names_in(b, d),
    decreases a,
{
    match (a.stmt, b.stmt) {
        (Stmt::NameDeclaration { value, .. }, Stmt::NameDeclaration { value: v2, .. }) => lemma_applied_names(c, fuel, value, v2, d),
        (Stmt::While { pred, body }, Stmt::While { pred: pred2, body: b2 }) => {
            lemma_applied_names(c, fuel, pred, pred2, d);
            lemma_block_applied_names(c, fuel, body, b2, d);
        },
        (Stmt::Expression(e), Stmt::Expression(e2)) => lemma_applied_names(c, fuel, e, e2, d),
        _ => {},
    }
}

proof fn lemma_block_applied_names(c: Map<u128, Type>, fuel: nat, a: StatementBlock, b: StatementBlock, d: Set<Seq<char>>)
    requires
        applied_block(c, fuel, a, b),
        block_names_in(a, d),
    ensures
        block_names_in(b, d),
    decreases a,
{
    assert forall|i: int| 0 <= i < b.stmts@.len() implies stmt_names_in(#[trigger] b.stmts@[i], d) by {
        assert(decreases_to!(a => a.stmts@[i]));
        assert(applied_stmt(c, fuel, a.stmts@[i], b.stmts@[i]));
        lemma_stmt_applied_names(c, fuel, a.stmts@[i], b.stmts@[i], d);
    }
}

/// The number of solve iterations after which an incomplete tree is reported.
pub const MAX_ITERATIONS: u32 = 10;

/// Every name used in `e` is in `d`.
pub open spec fn names_in(e: Expression, d: Set<Seq<char>>) -> bool
    decreases e,
{
    match e.expr {
        Expr::Integer(_) => true,
        Expr::Name(n) => d.contains(n@),
        Expr::Binop(b) => names_in(*b.lhs, d) && names_in(*b.rhs, d),
        Expr::Grouping { expr } => names_in(*expr, d),
        Expr::FunctionApplication { func, args } => {
            &&& names_in(*func, d)
            &&& forall|i: int| 0 <= i < args@.len() ==> names_in(#[trigger] args@[i], d)
        },
    }
}

/// The names in `v`.
pub open spec fn name_set(v: Seq<String>) -> Set<Seq<char>> {
    Set::new(|n: Seq<char>| exists|i: int| 0 <= i < v.len() && (#[trigger] v[i])@ == n)
}

/// Whether `name` is among `declared`.
fn is_declared(declared: &Vec<String>, name: &String) -> (r: bool)
    ensures
        r == name_set(declared@).contains(name@),
{
    let mut i: usize = 0;
    while i < declared.len()
        invariant
            i <= declared@.len(),
            forall|j: int| 0 <= j < i ==> (#[trigger] declared@[j])@ != name@,
        decreases declared@.len() - i,
    {
        if declared[i] == *name {
            assert(name_set(declared@).contains(name@)) by {
                assert(declared@[i as int]@ == name@);
            }
            return true;
        }
        i = i + 1;
    }
    false
}

/// Fails on the first name of `e` (in traversal order) that is not declared.
pub fn check_names(e: &Expression, declared: &Vec<String>) -> (r: Result<(), TypeError>)
    ensures
        r is Ok <==> names_in(*e, name_set(declared@)),
        r matches Err(x) ==> x is UnknownName,
    decreases e,
{
    match &e.expr {
        Expr::Integer(_) => Ok(()),
        Expr::Name(n) => {
            if is_declared(declared, n) {
                Ok(())
            } else {
                Err(TypeError::UnknownName { name: n.clone(), loc: e.loc, span: e.span })
            }
        },
        Expr::Binop(b) => {
            match check_names(&b.lhs, declared) {
                Ok(()) => check_names(&b.rhs, declared),
                Err(x) => Err(x),
            }
        },
        Expr::Grouping { expr } => check_names(expr, declared),
        Expr::FunctionApplication { func, args } => {
            match check_names(func, declared) {
                Ok(()) => {},
                Err(x) => {
                    return Err(x);
                },
            }
            let mut i: usize = 0;
            while i < args.len()
                invariant
                    i <= args@.len(),
                    e.expr matches Expr::FunctionApplication { args: a0, .. } && a0 == *args,
                    forall|j: int| 0 <= j < i ==> names_in(#[trigger] args@[j], name_set(declared@)),
                decreases args@.len() - i,
            {
                proof {
                    assert(decreases_to!(*e => args@[i as int]));
                }
                match check_names(&args[i], declared) {
                    Ok(()) => {},
                    Err(x) => {
                        return Err(x);
                    },
                }
                i = i + 1;
            }
            Ok(())
        },
    }
}

/// The names declared once `s` has been checked against the names `d`
/// declared before it, or `None` where `s` uses a name not yet declared.
pub open spec fn declare_stmt(d: Set<Seq<char>>, s: Statement) -> Option<Set<Seq<char>>>
    decreases s, 0nat,
{
    match s.stmt {
        Stmt::NameDeclaration { name, value } => if names_in(value, d) {
            Some(d.insert(name@))
        } else {
            None
        },
        Stmt::While { pred, body } => if names_in(pred, d) {
            declare_block(d, body, body.stmts@.len() as nat)
        } else {
            None
        },
        Stmt::Expression(e) => if names_in(e, d) {
            Some(d)
        } else {
            None
        },
    }
}

/// `declare_stmt` over the first `i` statements of `b`, in order.
pub open spec fn declare_block(d: Set<Seq<char>>, b: StatementBlock, i: nat) -> Option<Set<Seq<char>>>
    decreases b, i,
{
    if 0 < i <= b.stmts@.len() {
        match declare_block(d, b, (i - 1) as nat) {
            Some(d1) => declare_stmt(d1, b.stmts@[i - 1]),
            None => None,
        }
    } else {
        Some(d)
    }
}

proof fn lemma_declare_none_sticks(d: Set<Seq<char>>, b: StatementBlock, i: nat, j: nat)
    requires
        i <= j <= b.stmts@.len(),
        declare_block(d, b, i) is None,
    ensures
        declare_block(d, b, j) is None,
    decreases j,
{
    if j > i {
        lemma_declare_none_sticks(d, b, i, (j - 1) as nat);
    }
}

/// Checks that every name is declared before it is used: a declaration's
/// value may use only names declared by earlier statements (loop bodies
/// included, since there is no scoping), and then adds its own name.
pub fn check_declarations(b: &StatementBlock, declared: &mut Vec<String>) -> (r: Result<(), TypeError>)
    ensures
        r is Ok <==> declare_block(name_set(old(declared)@), *b, b.stmts@.len() as nat) is Some,
        r is Ok ==> declare_block(name_set(old(declared)@), *b, b.stmts@.len() as nat) == Some(
            name_set(final(declared)@),
        ),
        r matches Err(x) ==> x is UnknownName,
    decreases b,
{
    let ghost d0 = name_set(declared@);
    let mut i: usize = 0;
    while i < b.stmts.len()
        invariant
            i <= b.stmts@.len(),
            declare_block(d0, *b, i as nat) == Some(name_set(declared@)),
            d0 == name_set(old(declared)@),
        decreases b.stmts@.len() - i,
    {
        proof {
            assert(decreases_to!(*b => b.stmts@[i as int]));
        }
        let ghost before = declared@;
        match &b.stmts[i].stmt {
            Stmt::NameDeclaration { name, value } => {
                match check_names(value, declared) {
                    Ok(()) => {},
                    Err(x) => {
                        proof {
                            assert(b.stmts@[i as int].stmt matches Stmt::NameDeclaration { value: v, .. } && v == *value);
                            assert(declare_stmt(name_set(declared@), b.stmts@[i as int]) is None);
                            lemma_declare_none_sticks(d0, *b, (i + 1) as nat, b.stmts@.len() as nat);
                        }
                        return Err(x);
                    },
                }
                declared.push(name.clone());
                assert(name_set(declared@) =~= name_set(before).insert(name@)) by {
                    assert forall|n: Seq<char>| name_set(declared@).contains(n) implies name_set(before).insert(name@).contains(n) by {
                        let j = choose|j: int| 0 <= j < declared@.len() && (#[trigger] declared@[j])@ == n;
                        if j < before.len() {
                            assert(declared@[j] == before[j]);
                        }
                    }
                    assert forall|n: Seq<char>| name_set(before).insert(name@).contains(n) implies name_set(declared@).contains(n) by {
                        if n == name@ {
                            assert(declared@[before.len() as int]@ == n);
                        } else {
                            let j = choose|j: int| 0 <= j < before.len() && (#[trigger] before[j])@ == n;
                            assert(declared@[j] == before[j]);
                        }
                    }
                }
            },
            Stmt::While { pred, body } => {
                match check_names(pred, declared) {
                    Ok(()) => {},
                    Err(x) => {
                        proof {
                            lemma_declare_none_sticks(d0, *b, (i + 1) as nat, b.stmts@.len() as nat);
                        }
                        return Err(x);
                    },
                }
                match check_declarations(body, declared) {
                    Ok(()) => {},
                    Err(x) => {
                        proof {
                            assert(b.stmts@[i as int].stmt matches Stmt::While { body: bd, pred: pd } && bd == *body && pd == *pred);
                            assert(declare_stmt(name_set(before), b.stmts@[i as int]) is None);
                            lemma_declare_none_sticks(d0, *b, (i + 1) as nat, b.stmts@.len() as nat);
                        }
                        return Err(x);
                    },
                }
            },
            Stmt::Expression(e) => {
                match check_names(e, declared) {
                    Ok(()) => {},
                    Err(x) => {
                        proof {
                            lemma_declare_none_sticks(d0, *b, (i + 1) as nat, b.stmts@.len() as nat);
                        }
                        return Err(x);
                    },
                }
            },
        }
        i = i + 1;
    }
    Ok(())
}

/// The error for an incomplete expression: a binary operation whose operands
/// are ground but differ is a mismatch, any other non-ground slot is unsolved.
/// Slots are visited node first, then children in order.
pub fn first_unsolved(e: &Expression) -> (r: Option<TypeError>)
    ensures
        r is None <==> expr_all(*e, SlotCheck::Ground),
        r matches Some(x) ==> x is Mismatch || x is Unsolved,
    decreases e,
{
    if !e.ty.is_complete() {
        match &e.expr {
            Expr::Binop(b) => {
                if b.lhs.ty.is_complete() && b.rhs.ty.is_complete() && b.lhs.ty != b.rhs.ty {
                    return Some(TypeError::Mismatch { loc: e.loc, span: e.span });
                }
            },
            _ => {},
        }
        return Some(TypeError::Unsolved { loc: e.loc, span: e.span });
    }
    match &e.expr {
        Expr::Integer(_) => None,
        Expr::Name(_) => None,
        Expr::Binop(b) => {
            match first_unsolved(&b.lhs) {
                Some(x) => Some(x),
                None => first_unsolved(&b.rhs),
            }
        },
        Expr::Grouping { expr } => first_unsolved(expr),
        Expr::FunctionApplication { func, args } => {
            match first_unsolved(func) {
                Some(x) => {
                    return Some(x);
                },
                None => {},
            }
            let mut i: usize = 0;
            while i < args.len()
                invariant
                    i <= args@.len(),
                    e.expr matches Expr::FunctionApplication { args: a0, .. } && a0 == *args,
                    forall|j: int| 0 <= j < i ==> expr_all(#[trigger] args@[j], SlotCheck::Ground),
                decreases args@.len() - i,
            {
                proof {
                    assert(decreases_to!(*e => args@[i as int]));
                }
                match first_unsolved(&args[i]) {
                    Some(x) => {
                        return Some(x);
                    },
                    None => {},
                }
                i = i + 1;
            }
            None
        },
    }
}

/// `first_unsolved` over the expressions of a statement, in order.
pub fn first_unsolved_stmt(s: &Statement) -> (r: Option<TypeError>)
    ensures
        r is None <==> stmt_all(*s, SlotCheck::Ground),
        r matches Some(x) ==> x is Mismatch || x is Unsolved,
    decreases s,
{
    match &s.stmt {
        Stmt::NameDeclaration { value, .. } => first_unsolved(value),
        Stmt::While { pred, body } => {
            match first_unsolved(pred) {
                Some(x) => Some(x),
                None => first_unsolved_block(body),
            }
        },
        Stmt::Expression(e) => first_unsolved(e),
    }
}

/// `first_unsolved` over the statements of a block, in order.
pub fn first_unsolved_block(b: &StatementBlock) -> (r: Option<TypeError>)
    ensures
        r is None <==> block_all(*b, SlotCheck::Ground),
        r matches Some(x) ==> x is Mismatch || x is Unsolved,
    decreases b,
{
    let mut i: usize = 0;
    while i < b.stmts.len()
        invariant
            i <= b.stmts@.len(),
            forall|j: int| 0 <= j < i ==> stmt_all(#[trigger] b.stmts@[j], SlotCheck::Ground),
        decreases b.stmts@.len() - i,
    {
        proof {
            assert(decreases_to!(*b => b.stmts@[i as int]));
        }
        match first_unsolved_stmt(&b.stmts[i]) {
            Some(x) => {
                return Some(x);
            },
            None => {},
        }
        i = i + 1;
    }
    None
}

/// Emplacing keeps every span where it was.
pub proof fn lemma_emplaced_nested(a: Expression, b: Expression, lo: u128, hi: u128)
    requires
        emplaced(a, b, lo, hi),
        expr_nested(a),
    ensures
        expr_nested(b),
    decreases a,
{
    reveal_with_fuel(emplaced, 2);
    match (a.expr, b.expr) {
        (Expr::Binop(x), Expr::Binop(y)) => {
            lemma_emplaced_nested(*x.lhs, *y.lhs, lo, hi);
            lemma_emplaced_nested(*x.rhs, *y.rhs, lo, hi);
        },
        (Expr::Grouping { expr: x }, Expr::Grouping { expr: y }) => lemma_emplaced_nested(*x, *y, lo, hi),
        (
            Expr::FunctionApplication { func: f, args: xs },
            Expr::FunctionApplication { func: g, args: ys },
        ) => {
            lemma_emplaced_nested(*f, *g, lo, hi);
            assert forall|i: int| 0 <= i < ys@.len() implies crate::ast::within((#[trigger] ys@[i]).span, b.span)
                && expr_nested(ys@[i]) by {
                assert(decreases_to!(a => xs@[i]));
                assert(emplaced(xs@[i], ys@[i], lo, hi));
                lemma_emplaced_nested(xs@[i], ys@[i], lo, hi);
            }
            assert forall|i: int| 0 <= i < ys@.len() - 1 implies crate::ast::before((#[trigger] ys@[i]).span, ys@[i + 1].span) by {
                assert(emplaced(xs@[i], ys@[i], lo, hi));
                assert(emplaced(xs@[i + 1], ys@[i + 1], lo, hi));
            }
            assert(emplaced(xs@[0], ys@[0], lo, hi));
        },
        _ => {},
    }
}

pub proof fn lemma_stmt_emplaced_nested(a: Statement, b: Statement, lo: u128, hi: u128)
    requires
        stmt_emplaced(a, b, lo, hi),
        stmt_nested(a),
    ensures
        stmt_nested(b),
    decreases a,
{
    match (a.stmt, b.stmt) {
        (Stmt::NameDeclaration { value, .. }, Stmt::NameDeclaration { value: v2, .. }) => {
            lemma_emplaced_nested(value, v2, lo, hi);
        },
        (Stmt::While { pred, body }, Stmt::While { pred: pred2, body: b2 }) => {
            lemma_emplaced_nested(pred, pred2, lo, hi);
            lemma_block_emplaced_nested(body, b2, lo, hi);
        },
        (Stmt::Expression(e), Stmt::Expression(e2)) => lemma_emplaced_nested(e, e2, lo, hi),
        _ => {},
    }
}

pub proof fn lemma_block_emplaced_nested(a: StatementBlock, b: StatementBlock, lo: u128, hi: u128)
    requires
        block_emplaced(a, b, lo, hi),
        block_nested(a),
    ensures
        block_nested(b),
    decreases a,
{
    assert forall|i: int| 0 <= i < b.stmts@.len() implies crate::ast::within((#[trigger] b.stmts@[i]).span, b.span)
        && stmt_nested(b.stmts@[i]) by {
        assert(decreases_to!(a => a.stmts@[i]));
        assert(stmt_emplaced(a.stmts@[i], b.stmts@[i], lo, hi));
        lemma_stmt_emplaced_nested(a.stmts@[i], b.stmts@[i], lo, hi);
    }
    assert forall|i: int| 0 <= i < b.stmts@.len() - 1 implies crate::ast::before((#[trigger] b.stmts@[i]).span, b.stmts@[i + 1].span) by {
        assert(stmt_emplaced(a.stmts@[i], b.stmts@[i], lo, hi));
        assert(stmt_emplaced(a.stmts@[i + 1], b.stmts@[i + 1], lo, hi));
    }
}

/// Applying constraints keeps every span where it was.
pub proof fn lemma_applied_nested(c: Map<u128, Type>, fuel: nat, a: Expression, b: Expression)
    requires
        applied(c, fuel, a, b),
        expr_nested(a),
    ensures
        expr_nested(b),
    decreases a,
{
    reveal_with_fuel(applied, 2);
    match (a.expr, b.expr) {
        (Expr::Binop(x), Expr::Binop(y)) => {
            lemma_applied_nested(c, fuel, *x.lhs, *y.lhs);
            lemma_applied_nested(c, fuel, *x.rhs, *y.rhs);
        },
        (Expr::Grouping { expr: x }, Expr::Grouping { expr: y }) => lemma_applied_nested(c, fuel, *x, *y),
        (
            Expr::FunctionApplication { func: f, args: xs },
            Expr::FunctionApplication { func: g, args: ys },
        ) => {
            lemma_applied_nested(c, fuel, *f, *g);
            assert forall|i: int| 0 <= i < ys@.len() implies crate::ast::within((#[trigger] ys@[i]).span, b.span)
                && expr_nested(ys@[i]) by {
                assert(decreases_to!(a => xs@[i]));
                assert(applied(c, fuel, xs@[i], ys@[i]));
                lemma_applied_nested(c, fuel, xs@[i], ys@[i]);
            }
            assert forall|i: int| 0 <= i < ys@.len() - 1 implies crate::ast::before((#[trigger] ys@[i]).span, ys@[i + 1].span) by {
                assert(applied(c, fuel, xs@[i], ys@[i]));
                assert(applied(c, fuel, xs@[i + 1], ys@[i + 1]));
            }
            assert(applied(c, fuel, xs@[0], ys@[0]));
        },
        _ => {},
    }
}

pub proof fn lemma_stmt_applied_nested(c: Map<u128, Type>, fuel: nat, a: Statement, b: Statement)
    requires
        applied_stmt(c, fuel, a, b),
        stmt_nested(a),
    ensures
        stmt_nested(b),
    decreases a,
{
    match (a.stmt, b.stmt) {
        (Stmt::NameDeclaration { value, .. }, Stmt::NameDeclaration { value: v2, .. }) => {
            lemma_applied_nested(c, fuel, value, v2);
        },
        (Stmt::While { pred, body }, Stmt::While { pred: pred2, body: b2 }) => {
            lemma_applied_nested(c, fuel, pred, pred2);
            lemma_block_applied_nested(c, fuel, body, b2);
        },
        (Stmt::Expression(e), Stmt::Expression(e2)) => lemma_applied_nested(c, fuel, e, e2),
        _ => {},
    }
}

pub proof fn lemma_block_applied_nested(c: Map<u128, Type>, fuel: nat, a: StatementBlock, b: StatementBlock)
    requires
        applied_block(c, fuel, a, b),
        block_nested(a),
    ensures
        block_nested(b),
    decreases a,
{
    assert forall|i: int| 0 <= i < b.stmts@.len() implies crate::ast::within((#[trigger] b.stmts@[i]).span, b.span)
        && stmt_nested(b.stmts@[i]) by {
        assert(decreases_to!(a => a.stmts@[i]));
        assert(applied_stmt(c, fuel, a.stmts@[i], b.stmts@[i]));
        lemma_stmt_applied_nested(c, fuel, a.stmts@[i], b.stmts@[i]);
    }
    assert forall|i: int| 0 <= i < b.stmts@.len() - 1 implies crate::ast::before((#[trigger] b.stmts@[i]).span, b.stmts@[i + 1].span) by {
        assert(applied_stmt(c, fuel, a.stmts@[i], b.stmts@[i]));
        assert(applied_stmt(c, fuel, a.stmts@[i + 1], b.stmts@[i + 1]));
    }
}

/// `c1` keeps every entry of `c0` and adds only identity entries for ids in `[lo, hi)`.
pub open spec fn extends(c0: Map<u128, Type>, c1: Map<u128, Type>, lo: u128, hi: u128) -> bool {
    &&& forall|k: u128| #[trigger] c0.contains_key(k) ==> c1.contains_key(k) && c1[k] == c0[k]
    &&& forall|k: u128|
        #[trigger] c1.contains_key(k) && !c0.contains_key(k) ==> lo <= k < hi && c1[k]
            == Type::Variable(k)
}

impl TypeSolver {
    /// The symbol table as a map.
    pub open spec fn symbols(&self) -> Map<Seq<char>, Type> {
        table_map(self.symbol_table@)
    }

    /// The counter is above every id in the constraints, keys and values alike,
    /// and above every variable bound in the symbol table.
    pub open spec fn wf(&self) -> bool {
        &&& self.counter >= 1
        &&& forall|k: u128|
            #[trigger] self.constraints@.contains_key(k) ==> k < self.counter && type_below(
                self.constraints@[k],
                self.counter,
            )
        &&& forall|i: int|
            0 <= i < self.symbol_table@.len() ==> type_below(
                (#[trigger] self.symbol_table@[i]).1,
                self.counter,
            )
    }

    /// An empty solver; the first id it mints is 1.
    pub fn new() -> (r: TypeSolver)
        ensures
            r.wf(),
            r.counter == 1,
            r.constraints@ == Map::<u128, Type>::empty(),
            r.symbol_table@.len() == 0,
    {
        TypeSolver { constraints: BTreeMap::new(), symbol_table: Vec::new(), counter: 1 }
    }

    /// Mints a fresh variable, constrained to itself.
    pub fn make_var_type(&mut self) -> (r: Type)
        requires
            old(self).wf(),
            old(self).counter < u128::MAX,
        ensures
            final(self).wf(),
            r == Type::Variable(old(self).counter),
            final(self).counter == old(self).counter + 1,
            final(self).constraints@ == old(self).constraints@.insert(old(self).counter, r),
            final(self).symbol_table@ == old(self).symbol_table@,
    {
        let v = self.counter;
        let t = Type::Variable(v);
        self.constraints.insert(v, t);
        self.counter = v + 1;
        t
    }

    /// Binds `name` to `t`.
    pub fn bind(&mut self, name: &String, t: Type)
        requires
            old(self).wf(),
            type_below(t, old(self).counter),
        ensures
            final(self).wf(),
            final(self).symbols() == old(self).symbols().insert(name@, t),
            final(self).counter == old(self).counter,
            final(self).constraints@ == old(self).constraints@,
    {
        let ghost before = self.symbol_table@;
        self.symbol_table.push((name.clone(), t));
        assert(self.symbol_table@.drop_last() =~= before);
    }

    /// The type bound to `name`, if any.
    pub fn lookup(&self, name: &String) -> (r: Option<Type>)
        ensures
            r matches Some(t) ==> exists|i: int|
                0 <= i < self.symbol_table@.len() && (#[trigger] self.symbol_table@[i]).1 == t,
            r == (if self.symbols().contains_key(name@) {
                Some(self.symbols()[name@])
            } else {
                None
            }),
    {
        let mut i = self.symbol_table.len();
        assert(self.symbol_table@.subrange(0, i as int) =~= self.symbol_table@);
        while i > 0
            invariant
                i <= self.symbol_table@.len(),
                table_map(self.symbol_table@.subrange(0, i as int)).contains_key(name@)
                    == self.symbols().contains_key(name@),
                self.symbols().contains_key(name@) ==> table_map(
                    self.symbol_table@.subrange(0, i as int),
                )[name@] == self.symbols()[name@],
            decreases i,
        {
            let ghost pre = self.symbol_table@.subrange(0, i as int);
            assert(pre.drop_last() =~= self.symbol_table@.subrange(0, i - 1));
            if self.symbol_table[i - 1].0 == *name {
                return Some(self.symbol_table[i - 1].1);
            }
            i = i - 1;
        }
        assert(self.symbol_table@.subrange(0, 0) =~= Seq::<(String, Type)>::empty());
        None
    }

    /// Puts a type in every slot of `e`: `Integer` on literals, a fresh variable
    /// on every other expression (children first). Each name is bound to the
    /// variable of its use, the last use winning.
    #[verifier::loop_isolation(false)]
    pub fn emplace_type_vars_in_exprs(&mut self, e: Expression) -> (r: Result<Expression, TypeError>)
        requires
            old(self).wf(),
        ensures
            final(self).wf(),
            old(self).counter <= final(self).counter,
            extends(old(self).constraints@, final(self).constraints@, old(self).counter, final(self).counter),
            r matches Ok(b) ==> emplaced(e, b, old(self).counter, final(self).counter),
            r matches Ok(b) ==> numbered(e, b, old(self).counter as int) && final(self).counter == old(self).counter + var_count(e),
            r matches Ok(b) ==> final(self).symbols() == bind_all(old(self).symbols(), name_binds(b)),
            r matches Err(x) ==> x is OutOfVariables,
            old(self).counter + var_count(e) < u128::MAX ==> r is Ok,
        decreases e,
    {
        let ghost e0 = e;
        let ghost c0 = self.counter;
        let Expression { loc, span, ty: _, expr } = e;
        match expr {
            Expr::Integer(d) => Ok(Expression { loc, span, ty: Type::Integer, expr: Expr::Integer(d) }),
            Expr::Name(n) => {
                if self.counter == u128::MAX {
                    return Err(TypeError::OutOfVariables);
                }
                let t = self.make_var_type();
                let ghost s0 = self.symbols();
                self.bind(&n, t);
                proof {
                    reveal_with_fuel(bind_all, 2);
                    assert(seq![(n@, t)].drop_last() =~= Seq::<(Seq<char>, Type)>::empty());
                }
                Ok(Expression { loc, span, ty: t, expr: Expr::Name(n) })
            },
            Expr::Binop(b) => {
                let BinopExpr { op, lhs, rhs } = b;
                let ghost s0 = self.symbols();
                let l = match self.emplace_type_vars_in_exprs(*lhs) {
                    Ok(x) => x,
                    Err(x) => {
                        return Err(x);
                    },
                };
                let ghost c1 = self.counter;
                let r = match self.emplace_type_vars_in_exprs(*rhs) {
                    Ok(x) => x,
                    Err(x) => {
                        return Err(x);
                    },
                };
                let ghost c2 = self.counter;
                if self.counter == u128::MAX {
                    return Err(TypeError::OutOfVariables);
                }
                let t = self.make_var_type();
                proof {
                    lemma_emplaced_widen(*e0.expr->Binop_0.lhs, l, c0, c1, c0, self.counter);
                    lemma_emplaced_widen(*e0.expr->Binop_0.rhs, r, c1, c2, c0, self.counter);
                    lemma_bind_all_concat(s0, name_binds(l), name_binds(r));
                }
                Ok(Expression { loc, span, ty: t, expr: Expr::Binop(BinopExpr { op, lhs: Box::new(l), rhs: Box::new(r) }) })
            },
            Expr::Grouping { expr } => {
                let inner = match self.emplace_type_vars_in_exprs(*expr) {
                    Ok(x) => x,
                    Err(x) => {
                        return Err(x);
                    },
                };
                let ghost c1 = self.counter;
                if self.counter == u128::MAX {
                    return Err(TypeError::OutOfVariables);
                }
                let t = self.make_var_type();
                proof {
                    lemma_emplaced_widen(*e0.expr->Grouping_expr, inner, c0, c1, c0, self.counter);
                }
                Ok(Expression { loc, span, ty: t, expr: Expr::Grouping { expr: Box::new(inner) } })
            },
            Expr::FunctionApplication { func, args } => {
                let ghost orig = args@;
                let ghost s0 = self.symbols();
                let f = match self.emplace_type_vars_in_exprs(*func) {
                    Ok(x) => x,
                    Err(x) => {
                        return Err(x);
                    },
                };
                let ghost c1 = self.counter;
                let n = args.len();
                let mut rev = crate::indent::into_reversed(args);
                let mut out: Vec<Expression> = Vec::new();
                assert(name_binds(f) + seq_name_binds(out@) =~= name_binds(f));
                while rev.len() > 0
                    invariant
                        self.wf(),
                        c0 <= c1 <= self.counter,
                        extends(old(self).constraints@, self.constraints@, c0, self.counter),
                        old(self).counter == c0,
                        n == orig.len(),
                        out@.len() + rev@.len() == n,
                        forall|j: int| 0 <= j < rev@.len() ==> #[trigger] rev@[j] == orig[n - 1 - j],
                        forall|j: int|
                            0 <= j < out@.len() ==> emplaced(#[trigger] orig[j], out@[j], c1, self.counter),
                        e0.expr matches Expr::FunctionApplication { args: a0, .. } && a0@ == orig,
                        self.counter == c1 + args_var_count(e0, out@.len() as nat),
                        self.symbols() == bind_all(s0, name_binds(f) + seq_name_binds(out@)),
                        forall|j: int|
                            0 <= j < out@.len() ==> numbered(#[trigger] orig[j], out@[j], c1 + args_var_count(e0, j as nat)),
                    decreases rev@.len(),
                {
                    let x = rev.pop().unwrap();
                    let ghost before = self.counter;
                    let ghost sb = self.symbols();
                    proof {
                        let j = out@.len() as int;
                        assert(x == orig[j]);
                        assert(decreases_to!(e0 => orig[j]));
                        assert(arity(e0) == orig.len());
                        lemma_args_var_count_mono(e0, (j + 1) as nat, orig.len() as nat);
                        assert(args_var_count(e0, (j + 1) as nat) == args_var_count(e0, j as nat) + var_count(orig[j]));
                    }
                    let y = match self.emplace_type_vars_in_exprs(x) {
                        Ok(y) => y,
                        Err(x) => {
                            return Err(x);
                        },
                    };
                    proof {
                        assert(args_var_count(e0, (out@.len() + 1) as nat) == args_var_count(e0, out@.len() as nat) + var_count(orig[out@.len() as int]));
                        assert(out@.push(y).drop_last() =~= out@);
                        lemma_bind_all_concat(s0, name_binds(f) + seq_name_binds(out@), name_binds(y));
                        assert(name_binds(f) + seq_name_binds(out@) + name_binds(y) =~= name_binds(f) + seq_name_binds(out@.push(y)));
                        assert forall|j: int| 0 <= j < out@.len() implies emplaced(
                            #[trigger] orig[j],
                            out@[j],
                            c1,
                            self.counter,
                        ) by {
                            lemma_emplaced_widen(orig[j], out@[j], c1, before, c1, self.counter);
                        }
                        lemma_emplaced_widen(orig[out@.len() as int], y, before, self.counter, c1, self.counter);
                    }
                    out.push(y);
                }
                let ghost c2 = self.counter;
                if self.counter == u128::MAX {
                    return Err(TypeError::OutOfVariables);
                }
                let t = self.make_var_type();
                proof {
                    let res_expr = Expression { loc, span, ty: t, expr: Expr::FunctionApplication { func: Box::new(f), args: out } };
                    lemma_args_name_binds(res_expr, out@.len() as nat);
                    assert(out@.subrange(0, out@.len() as int) =~= out@);
                    lemma_emplaced_widen(*e0.expr->FunctionApplication_func, f, c0, c1, c0, self.counter);
                    assert forall|j: int| 0 <= j < orig.len() implies emplaced(
                        #[trigger] orig[j],
                        out@[j],
                        c0,
                        self.counter,
                    ) by {
                        lemma_emplaced_widen(orig[j], out@[j], c1, c2, c0, self.counter);
                    }
                }
                Ok(Expression { loc, span, ty: t, expr: Expr::FunctionApplication { func: Box::new(f), args: out } })
            },
        }
    }

    /// `emplace_type_vars_in_exprs` on every expression of a statement, in order.
    pub fn emplace_type_vars_in_stmts(&mut self, s: Statement) -> (r: Result<Statement, TypeError>)
        requires
            old(self).wf(),
        ensures
            final(self).wf(),
            old(self).counter <= final(self).counter,
            extends(old(self).constraints@, final(self).constraints@, old(self).counter, final(self).counter),
            r matches Ok(b) ==> stmt_emplaced(s, b, old(self).counter, final(self).counter),
            r matches Ok(b) ==> stmt_numbered(s, b, old(self).counter as int) && final(self).counter == old(self).counter + stmt_var_count(s),
            r matches Ok(b) ==> final(self).symbols() == bind_all(old(self).symbols(), stmt_name_binds(b)),
            r matches Err(x) ==> x is OutOfVariables,
            old(self).counter + stmt_var_count(s) < u128::MAX ==> r is Ok,
        decreases s,
    {
        let ghost c0 = self.counter;
        let ghost s0 = s;
        let Statement { loc, span, stmt } = s;
        let st = match stmt {
            Stmt::NameDeclaration { name, value } => {
                let v = match self.emplace_type_vars_in_exprs(value) {
                    Ok(v) => v,
                    Err(x) => {
                        return Err(x);
                    },
                };
                Stmt::NameDeclaration { name, value: v }
            },
            Stmt::While { pred, body } => {
                let ghost sym0 = self.symbols();
                let p = match self.emplace_type_vars_in_exprs(pred) {
                    Ok(v) => v,
                    Err(x) => {
                        return Err(x);
                    },
                };
                let ghost c1 = self.counter;
                let b = match self.emplace_type_vars_in_block(body) {
                    Ok(v) => v,
                    Err(x) => {
                        return Err(x);
                    },
                };
                proof {
                    lemma_bind_all_concat(sym0, name_binds(p), block_name_binds(b, b.stmts@.len()));
                    lemma_emplaced_widen(s0.stmt->While_pred, p, c0, c1, c0, self.counter);
                    lemma_block_emplaced_widen(s0.stmt->While_body, b, c1, self.counter, c0, self.counter);
                }
                Stmt::While { pred: p, body: b }
            },
            Stmt::Expression(e) => {
                let v = match self.emplace_type_vars_in_exprs(e) {
                    Ok(v) => v,
                    Err(x) => {
                        return Err(x);
                    },
                };
                Stmt::Expression(v)
            },
        };
        Ok(Statement { loc, span, stmt: st })
    }

    /// Records what node `e` tells about its own variable.
    fn record_node_exec(&mut self, e: &Expression) -> (r: Result<(), TypeError>)
        requires
            old(self).wf(),
            expr_all(*e, SlotCheck::Below(old(self).counter)),
        ensures
            final(self).wf(),
            final(self).counter == old(self).counter,
            final(self).symbol_table@ == old(self).symbol_table@,
            match record_node(old(self).constraints@, old(self).symbols(), *e) {
                Ok(c) => r is Ok && final(self).constraints@ == c,
                Err(x) => r matches Err(y) && y == x,
            },
    {
        let n = match e.ty {
            Type::Variable(n) => n,
            _ => {
                return Ok(());
            },
        };
        match &e.expr {
            Expr::Integer(_) => {
                self.constraints.insert(n, Type::Integer);
            },
            Expr::Name(m) => {
                match self.lookup(m) {
                    Some(t) => {
                        self.constraints.insert(n, t);
                    },
                    None => {
                        return Err(TypeError::UnknownName { name: m.clone(), loc: e.loc, span: e.span });
                    },
                }
            },
            Expr::Binop(b) => {
                if b.lhs.ty == b.rhs.ty && b.lhs.ty.is_complete() {
                    self.constraints.insert(n, b.lhs.ty);
                }
            },
            Expr::Grouping { expr } => {
                if expr.ty.is_complete() {
                    self.constraints.insert(n, expr.ty);
                }
            },
            Expr::FunctionApplication { .. } => {},
        }
        Ok(())
    }

    /// Records the constraints that `e` gives, children first.
    pub fn solve_expr_recursive(&mut self, e: &Expression) -> (r: Result<(), TypeError>)
        requires
            old(self).wf(),
            expr_all(*e, SlotCheck::Below(old(self).counter)),
        ensures
            final(self).wf(),
            final(self).counter == old(self).counter,
            final(self).symbol_table@ == old(self).symbol_table@,
            match record_expr(old(self).constraints@, old(self).symbols(), *e) {
                Ok(c) => r is Ok && final(self).constraints@ == c,
                Err(x) => r matches Err(y) && y == x,
            },
        decreases e, arity(*e) + 1,
    {
        match &e.expr {
            Expr::Integer(_) => {},
            Expr::Name(_) => {},
            Expr::Binop(b) => {
                match self.solve_expr_recursive(&b.lhs) {
                    Ok(()) => {},
                    Err(x) => {
                        return Err(x);
                    },
                }
                match self.solve_expr_recursive(&b.rhs) {
                    Ok(()) => {},
                    Err(x) => {
                        return Err(x);
                    },
                }
            },
            Expr::Grouping { expr } => {
                match self.solve_expr_recursive(expr) {
                    Ok(()) => {},
                    Err(x) => {
                        return Err(x);
                    },
                }
            },
            Expr::FunctionApplication { func, args } => {
                match self.solve_expr_recursive(func) {
                    Ok(()) => {},
                    Err(x) => {
                        return Err(x);
                    },
                }
                let ghost c1 = self.constraints@;
                let mut i: usize = 0;
                while i < args.len()
                    invariant
                        self.wf(),
                        self.counter == old(self).counter,
                        self.symbol_table@ == old(self).symbol_table@,
                        i <= args@.len(),
                        e.expr matches Expr::FunctionApplication { args: a0, func: f0 } && a0 == *args && f0 == *func,
                        expr_all(*e, SlotCheck::Below(old(self).counter)),
                        record_expr(old(self).constraints@, old(self).symbols(), **func) == Ok::<Map<u128, Type>, TypeError>(c1),
                        record_args(c1, old(self).symbols(), *e, i as nat) == Ok::<Map<u128, Type>, TypeError>(self.constraints@),
                    decreases args@.len() - i,
                {
                    proof {
                        assert(decreases_to!(*e => args@[i as int]));
                        assert(expr_all(args@[i as int], SlotCheck::Below(self.counter)));
                    }
                    match self.solve_expr_recursive(&args[i]) {
                        Ok(()) => {},
                        Err(x) => {
                            proof {
                                assert(arity(*e) == args@.len());
                                assert(record_args(c1, old(self).symbols(), *e, (i + 1) as nat) == Err::<Map<u128, Type>, TypeError>(x));
                                lemma_args_err_sticks(c1, old(self).symbols(), *e, (i + 1) as nat, args@.len() as nat);
                                assert(record_args(c1, old(self).symbols(), *e, args@.len() as nat) == Err::<Map<u128, Type>, TypeError>(x));
                            }
                            return Err(x);
                        },
                    }
                    i = i + 1;
                }
            },
        }
        self.record_node_exec(e)
    }

    /// Records the constraints that the expressions of `s` give, in order.
    pub fn solve_stmt_recursive(&mut self, s: &Statement) -> (r: Result<(), TypeError>)
        requires
            old(self).wf(),
            stmt_all(*s, SlotCheck::Below(old(self).counter)),
        ensures
            final(self).wf(),
            final(self).counter == old(self).counter,
            final(self).symbol_table@ == old(self).symbol_table@,
            match record_stmt(old(self).constraints@, old(self).symbols(), *s) {
                Ok(c) => r is Ok && final(self).constraints@ == c,
                Err(x) => r matches Err(y) && y == x,
            },
        decreases s, 0nat,
    {
        match &s.stmt {
            Stmt::NameDeclaration { value, .. } => self.solve_expr_recursive(value),
            Stmt::While { pred, body } => {
                match self.solve_expr_recursive(pred) {
                    Ok(()) => {},
                    Err(x) => {
                        return Err(x);
                    },
                }
                self.solve_stmt_block_recursive(body)
            },
            Stmt::Expression(e) => self.solve_expr_recursive(e),
        }
    }

    /// Records the constraints of every statement of `b`, in order.
    pub fn solve_stmt_block_recursive(&mut self, b: &StatementBlock) -> (r: Result<(), TypeError>)
        requires
            old(self).wf(),
            block_all(*b, SlotCheck::Below(old(self).counter)),
        ensures
            final(self).wf(),
            final(self).counter == old(self).counter,
            final(self).symbol_table@ == old(self).symbol_table@,
            match record_block(old(self).constraints@, old(self).symbols(), *b, b.stmts@.len() as nat) {
                Ok(c) => r is Ok && final(self).constraints@ == c,
                Err(x) => r matches Err(y) && y == x,
            },
        decreases b, b.stmts@.len() + 1,
    {
        let mut i: usize = 0;
        while i < b.stmts.len()
            invariant
                self.wf(),
                self.counter == old(self).counter,
                self.symbol_table@ == old(self).symbol_table@,
                i <= b.stmts@.len(),
                block_all(*b, SlotCheck::Below(old(self).counter)),
                record_block(old(self).constraints@, old(self).symbols(), *b, i as nat) == Ok::<Map<u128, Type>, TypeError>(self.constraints@),
            decreases b.stmts@.len() - i,
        {
            proof {
                assert(decreases_to!(*b => b.stmts@[i as int]));
                assert(stmt_all(b.stmts@[i as int], SlotCheck::Below(self.counter)));
            }
            match self.solve_stmt_recursive(&b.stmts[i]) {
                Ok(()) => {},
                Err(x) => {
                    proof {
                        lemma_block_err_sticks(old(self).constraints@, old(self).symbols(), *b, (i + 1) as nat, b.stmts@.len() as nat);
                    }
                    return Err(x);
                },
            }
            i = i + 1;
        }
        Ok(())
    }

    /// What the constraints resolve `t` to, following at most `counter` links.
    pub fn resolve_type(&self, t: Type) -> (r: Type)
        requires
            self.wf(),
        ensures
            r == resolve(self.constraints@, t, self.counter as nat),
            type_below(t, self.counter) ==> type_below(r, self.counter),
    {
        proof {
            if type_below(t, self.counter) {
                lemma_resolve_below(self.constraints@, t, self.counter as nat, self.counter);
            }
        }
        let mut cur = t;
        let mut fuel = self.counter;
        loop
            invariant
                resolve(self.constraints@, t, self.counter as nat) == resolve(
                    self.constraints@,
                    cur,
                    fuel as nat,
                ),
                type_below(t, self.counter) ==> type_below(
                    resolve(self.constraints@, t, self.counter as nat),
                    self.counter,
                ),
            decreases fuel,
        {
            let n = match cur {
                Type::Variable(n) => n,
                _ => {
                    return cur;
                },
            };
            if fuel == 0 {
                return cur;
            }
            match self.constraints.get(&n) {
                Some(next) => {
                    if *next == cur {
                        return cur;
                    }
                    cur = *next;
                    fuel = fuel - 1;
                },
                None => {
                    return cur;
                },
            }
        }
    }

    /// Replaces each slot of `e` by where its chain of constraints ends.
    #[verifier::loop_isolation(false)]
    pub fn apply_constraints_recursive(&self, e: Expression) -> (r: Expression)
        requires
            self.wf(),
        ensures
            applied(self.constraints@, self.counter as nat, e, r),
            expr_all(e, SlotCheck::Below(self.counter)) ==> expr_all(r, SlotCheck::Below(self.counter)),
        decreases e,
    {
        let ghost e0 = e;
        let Expression { loc, span, ty, expr } = e;
        let t = self.resolve_type(ty);
        let x = match expr {
            Expr::Integer(d) => Expr::Integer(d),
            Expr::Name(n) => Expr::Name(n),
            Expr::Binop(b) => {
                let BinopExpr { op, lhs, rhs } = b;
                let l = self.apply_constraints_recursive(*lhs);
                let r = self.apply_constraints_recursive(*rhs);
                Expr::Binop(BinopExpr { op, lhs: Box::new(l), rhs: Box::new(r) })
            },
            Expr::Grouping { expr } => Expr::Grouping { expr: Box::new(self.apply_constraints_recursive(*expr)) },
            Expr::FunctionApplication { func, args } => {
                let ghost orig = args@;
                let f = self.apply_constraints_recursive(*func);
                let n = args.len();
                let mut rev = crate::indent::into_reversed(args);
                let mut out: Vec<Expression> = Vec::new();
                while rev.len() > 0
                    invariant
                        n == orig.len(),
                        out@.len() + rev@.len() == n,
                        forall|j: int| 0 <= j < rev@.len() ==> #[trigger] rev@[j] == orig[n - 1 - j],
                        forall|j: int|
                            0 <= j < out@.len() ==> applied(self.constraints@, self.counter as nat, #[trigger] orig[j], out@[j])
                                && (expr_all(orig[j], SlotCheck::Below(self.counter)) ==> expr_all(out@[j], SlotCheck::Below(self.counter))),
                        e0.expr matches Expr::FunctionApplication { args: a0, .. } && a0@ == orig,
                    decreases rev@.len(),
                {
                    let y = rev.pop().unwrap();
                    proof {
                        let j = out@.len() as int;
                        assert(y == orig[j]);
                        assert(decreases_to!(e0 => orig[j]));
                    }
                    let z = self.apply_constraints_recursive(y);
                    out.push(z);
                }
                proof {
                    if expr_all(e0, SlotCheck::Below(self.counter)) {
                        assert forall|j: int| 0 <= j < out@.len() implies expr_all(#[trigger] out@[j], SlotCheck::Below(self.counter)) by {
                            assert(expr_all(orig[j], SlotCheck::Below(self.counter)));
                        }
                    }
                }
                Expr::FunctionApplication { func: Box::new(f), args: out }
            },
        };
        Expression { loc, span, ty: t, expr: x }
    }

    /// `apply_constraints_recursive` on every expression of `s`.
    pub fn apply_constraints_stmt(&self, s: Statement) -> (r: Statement)
        requires
            self.wf(),
        ensures
            applied_stmt(self.constraints@, self.counter as nat, s, r),
            stmt_all(s, SlotCheck::Below(self.counter)) ==> stmt_all(r, SlotCheck::Below(self.counter)),
        decreases s,
    {
        let Statement { loc, span, stmt } = s;
        let st = match stmt {
            Stmt::NameDeclaration { name, value } => Stmt::NameDeclaration { name, value: self.apply_constraints_recursive(value) },
            Stmt::While { pred, body } => Stmt::While {
                pred: self.apply_constraints_recursive(pred),
                body: self.apply_constraints_block(body),
            },
            Stmt::Expression(e) => Stmt::Expression(self.apply_constraints_recursive(e)),
        };
        Statement { loc, span, stmt: st }
    }

    /// `apply_constraints_stmt` on every statement of `b`.
    #[verifier::loop_isolation(false)]
    pub fn apply_constraints_block(&self, b: StatementBlock) -> (r: StatementBlock)
        requires
            self.wf(),
        ensures
            applied_block(self.constraints@, self.counter as nat, b, r),
            block_all(b, SlotCheck::Below(self.counter)) ==> block_all(r, SlotCheck::Below(self.counter)),
        decreases b,
    {
        let ghost b0 = b;
        let StatementBlock { loc, span, stmts } = b;
        let ghost orig = stmts@;
        let n = stmts.len();
        let mut rev = crate::indent::into_reversed(stmts);
        let mut out: Vec<Statement> = Vec::new();
        while rev.len() > 0
            invariant
                n == orig.len(),
                out@.len() + rev@.len() == n,
                forall|j: int| 0 <= j < rev@.len() ==> #[trigger] rev@[j] == orig[n - 1 - j],
                forall|j: int|
                    0 <= j < out@.len() ==> applied_stmt(self.constraints@, self.counter as nat, #[trigger] orig[j], out@[j])
                        && (stmt_all(orig[j], SlotCheck::Below(self.counter)) ==> stmt_all(out@[j], SlotCheck::Below(self.counter))),
                b0.stmts@ == orig,
            decreases rev@.len(),
        {
            let y = rev.pop().unwrap();
            proof {
                let j = out@.len() as int;
                assert(y == orig[j]);
                assert(decreases_to!(b0 => orig[j]));
            }
            let z = self.apply_constraints_stmt(y);
            out.push(z);
        }
        let r = StatementBlock { loc, span, stmts: out };
        proof {
            if block_all(b0, SlotCheck::Below(self.counter)) {
                assert forall|j: int| 0 <= j < r.stmts@.len() implies stmt_all(#[trigger] r.stmts@[j], SlotCheck::Below(self.counter)) by {
                    assert(stmt_all(orig[j], SlotCheck::Below(self.counter)));
                }
            }
        }
        r
    }

    /// Repeats a record pass and an apply pass until every slot of `b` is
    /// ground or `MAX_ITERATIONS` passes have run; an incomplete tree is then
    /// reported by `first_unsolved_block`.
    #[verifier::rlimit(50)]
    pub fn solve(&mut self, block: StatementBlock) -> (r: Result<StatementBlock, TypeError>)
        requires
            old(self).wf(),
            block_all(block, SlotCheck::Below(old(self).counter)),
        ensures
            final(self).wf(),
            final(self).counter == old(self).counter,
            final(self).symbol_table@ == old(self).symbol_table@,
            r matches Ok(x) ==> x.complete(),
            r matches Ok(x) ==> (block_nested(block) ==> block_nested(x)),
            r matches Err(x) ==> x is UnknownName || x is Mismatch || x is Unsolved,
            r matches Ok(x) ==> exists|trees: Seq<StatementBlock>, cs: Seq<Map<u128, Type>>|
                #[trigger] solve_trace(trees, cs, old(self).symbols(), old(self).counter as nat)
                    && trees[0] == block && cs[0] == old(self).constraints@ && trees.last() == x
                    && cs.last() == final(self).constraints@,
            r matches Err(x) ==> (block_names_in(block, old(self).symbols().dom()) ==> !(x is UnknownName)),
            r matches Err(x) ==> (x is UnknownName ==> exists|trees: Seq<StatementBlock>, cs: Seq<Map<u128, Type>>|
                #[trigger] solve_trace(trees, cs, old(self).symbols(), old(self).counter as nat)
                    && trees[0] == block && cs[0] == old(self).constraints@ && !trees.last().complete()
                    && record_block(cs.last(), old(self).symbols(), trees.last(), trees.last().stmts@.len() as nat)
                    == Err::<Map<u128, Type>, TypeError>(x)),
            r matches Err(x) && !(x is UnknownName) ==> exists|trees: Seq<StatementBlock>, cs: Seq<Map<u128, Type>>|
                #[trigger] solve_trace(trees, cs, old(self).symbols(), old(self).counter as nat)
                    && trees[0] == block && cs[0] == old(self).constraints@
                    && trees.len() == MAX_ITERATIONS + 1 && !trees.last().complete(),
    {
        let mut b = block;
        let mut iteration: u32 = 0;
        let ghost mut trees: Seq<StatementBlock> = seq![b];
        let ghost mut cs: Seq<Map<u128, Type>> = seq![self.constraints@];
        while iteration < MAX_ITERATIONS
            invariant
                self.wf(),
                self.counter == old(self).counter,
                self.symbol_table@ == old(self).symbol_table@,
                block_all(b, SlotCheck::Below(self.counter)),
                block_nested(block) ==> block_nested(b),
                solve_trace(trees, cs, old(self).symbols(), old(self).counter as nat),
                trees.len() == iteration + 1,
                trees[0] == block,
                cs[0] == old(self).constraints@,
                trees.last() == b,
                cs.last() == self.constraints@,
                block_names_in(block, old(self).symbols().dom()) ==> block_names_in(b, old(self).symbols().dom()),
            decreases MAX_ITERATIONS - iteration,
        {
            if b.is_complete() {
                return Ok(b);
            }
            let ghost c_before = self.constraints@;
            match self.solve_stmt_block_recursive(&b) {
                Ok(()) => {},
                Err(x) => {
                    proof {
                        if block_names_in(block, old(self).symbols().dom()) {
                            lemma_record_block_ok(c_before, self.symbols(), b, b.stmts@.len() as nat);
                        }
                        lemma_record_error_is_unknown(c_before, self.symbols(), b);
                        assert(solve_trace(trees, cs, old(self).symbols(), old(self).counter as nat));
                    }
                    return Err(x);
                },
            }
            let ghost before = b;
            b = self.apply_constraints_block(b);
            proof {
                if block_nested(before) {
                    lemma_block_applied_nested(self.constraints@, self.counter as nat, before, b);
                }
                if block_names_in(before, old(self).symbols().dom()) {
                    lemma_block_applied_names(self.constraints@, self.counter as nat, before, b, old(self).symbols().dom());
                }
                let t2 = trees.push(b);
                let c2 = cs.push(self.constraints@);
                assert forall|i: int| 0 <= i < t2.len() - 1 implies !(#[trigger] t2[i]).complete() && solve_step(
                    c2[i],
                    old(self).symbols(),
                    old(self).counter as nat,
                    t2[i],
                    c2[i + 1],
                    t2[i + 1],
                ) by {
                    if i < trees.len() - 1 {
                        assert(t2[i] == trees[i] && t2[i + 1] == trees[i + 1]);
                        assert(c2[i] == cs[i] && c2[i + 1] == cs[i + 1]);
                    } else {
                        assert(t2[i] == before && t2[i + 1] == b);
                        assert(c2[i] == c_before && c2[i + 1] == self.constraints@);
                    }
                }
                trees = t2;
                cs = c2;
            }
            iteration = iteration + 1;
        }
        if b.is_complete() {
            Ok(b)
        } else {
            match first_unsolved_block(&b) {
                Some(x) => Err(x),
                None => Ok(b),
            }
        }
    }

    /// Types a lowered tree: checks that every name is declared before use,
    /// puts a type variable in every slot, binds the declared names, then
    /// solves. Returns the typed tree and the solver's final state.
    pub fn infer(b: StatementBlock) -> (r: Result<(StatementBlock, TypeSolver), TypeError>)
        ensures
            r matches Ok((x, s)) ==> x.complete() && s.wf(),
            r matches Ok((x, s)) ==> (block_nested(b) ==> block_nested(x)),
            declare_block(Set::empty(), b, b.stmts@.len() as nat) is None ==> (r matches Err(x)
                && x is UnknownName),
            r matches Err(x) ==> x is UnknownName || x is Mismatch || x is Unsolved || x is OutOfVariables,
            declare_block(Set::empty(), b, b.stmts@.len() as nat) is Some && 1 + block_var_count(b, b.stmts@.len() as nat) < u128::MAX
                ==> !(r matches Err(x) && x is OutOfVariables),
            declare_block(Set::empty(), b, b.stmts@.len() as nat) is Some ==> !(r matches Err(x) && x is UnknownName),
            r matches Ok((x, s)) ==> exists|trees: Seq<StatementBlock>, cs: Seq<Map<u128, Type>>|
                #[trigger] infer_trace(b, trees, cs) && trees.last() == x && cs.last() == s.constraints@,
            r matches Err(x) ==> ((x is Mismatch || x is Unsolved) ==> exists|trees: Seq<StatementBlock>, cs: Seq<Map<u128, Type>>|
                #[trigger] infer_trace(b, trees, cs) && trees.len() == MAX_ITERATIONS + 1 && !trees.last().complete()),
            r matches Err(x) ==> ((x is UnknownName && declare_block(Set::empty(), b, b.stmts@.len() as nat) is Some)
                ==> exists|trees: Seq<StatementBlock>, cs: Seq<Map<u128, Type>>|
                #[trigger] infer_trace(b, trees, cs) && !trees.last().complete() && record_block(
                    cs.last(),
                    bind_block(
                        bind_all(Map::empty(), block_name_binds(trees[0], trees[0].stmts@.len())),
                        trees[0],
                        trees[0].stmts@.len(),
                    ),
                    trees.last(),
                    trees.last().stmts@.len() as nat,
                ) == Err::<Map<u128, Type>, TypeError>(x)),
    {
        let mut declared: Vec<String> = Vec::new();
        assert(name_set(declared@) =~= Set::<Seq<char>>::empty());
        match check_declarations(&b, &mut declared) {
            Ok(()) => {},
            Err(x) => {
                return Err(x);
            },
        }
        let ghost b0 = b;
        let mut solver = TypeSolver::new();
        let typed = match solver.emplace_type_vars_in_block(b) {
            Ok(t) => t,
            Err(x) => {
                return Err(x);
            },
        };
        proof {
            lemma_block_emplaced_widen(b0, typed, 1, solver.counter, 1, solver.counter);
            if block_nested(b0) {
                lemma_block_emplaced_nested(b0, typed, 1, solver.counter);
            }
        }
        solver.emplace_block_bindings(&typed);
        let ghost typed0 = typed;
        let ghost st = solver.symbols();
        let ghost c0 = solver.constraints@;
        proof {
            let nb = block_name_binds(typed0, typed0.stmts@.len() as nat);
            lemma_block_binds_cover(typed0, typed0.stmts@.len() as nat);
            lemma_bind_all_dom(Map::empty(), nb);
            lemma_bind_block_dom(bind_all(Map::empty(), nb), typed0, typed0.stmts@.len() as nat);
            assert(solver.symbol_table@.len() >= 0);
            lemma_block_names_mono(typed0, bound_keys(nb), st.dom());
        }
        match solver.solve(typed) {
            Ok(done) => {
                proof {
                    let (trees, cs) = choose|trees: Seq<StatementBlock>, cs: Seq<Map<u128, Type>>|
                        #[trigger] solve_trace(trees, cs, st, (1 + block_var_count(b0, b0.stmts@.len() as nat)) as nat)
                            && trees[0] == typed0 && cs[0] == c0 && trees.last() == done
                            && cs.last() == solver.constraints@;
                    assert(infer_trace(b0, trees, cs));
                }
                Ok((done, solver))
            },
            Err(x) => {
                proof {
                    if x is UnknownName {
                        let (trees, cs) = choose|trees: Seq<StatementBlock>, cs: Seq<Map<u128, Type>>|
                            #[trigger] solve_trace(trees, cs, st, (1 + block_var_count(b0, b0.stmts@.len() as nat)) as nat)
                                && trees[0] == typed0 && cs[0] == c0 && !trees.last().complete()
                                && record_block(cs.last(), st, trees.last(), trees.last().stmts@.len() as nat)
                                == Err::<Map<u128, Type>, TypeError>(x);
                        assert(infer_trace(b0, trees, cs));
                    }
                    if x is Mismatch || x is Unsolved {
                        let (trees, cs) = choose|trees: Seq<StatementBlock>, cs: Seq<Map<u128, Type>>|
                            #[trigger] solve_trace(trees, cs, st, (1 + block_var_count(b0, b0.stmts@.len() as nat)) as nat)
                                && trees[0] == typed0 && cs[0] == c0 && trees.len() == MAX_ITERATIONS + 1
                                && !trees.last().complete();
                        assert(infer_trace(b0, trees, cs));
                    }
                }
                Err(x)
            },
        }
    }

    /// Binds the name of each declaration in `s` to the type in its value's slot.
    pub fn emplace_statement_bindings(&mut self, s: &Statement)
        requires
            old(self).wf(),
            stmt_all(*s, SlotCheck::Below(old(self).counter)),
        ensures
            final(self).wf(),
            final(self).symbols() == bind_stmt(old(self).symbols(), *s),
            final(self).counter == old(self).counter,
            final(self).constraints@ == old(self).constraints@,
        decreases s,
    {
        match &s.stmt {
            Stmt::NameDeclaration { name, value } => {
                self.bind(name, value.ty);
            },
            Stmt::While { pred: _, body } => {
                self.emplace_block_bindings(body);
            },
            Stmt::Expression(_) => {},
        }
    }

    /// `emplace_statement_bindings` on each statement of `b`, in order.
    #[verifier::loop_isolation(false)]
    pub fn emplace_block_bindings(&mut self, b: &StatementBlock)
        requires
            old(self).wf(),
            block_all(*b, SlotCheck::Below(old(self).counter)),
        ensures
            final(self).wf(),
            final(self).symbols() == bind_block(old(self).symbols(), *b, b.stmts@.len() as nat),
            final(self).counter == old(self).counter,
            final(self).constraints@ == old(self).constraints@,
        decreases b,
    {
        let mut i: usize = 0;
        while i < b.stmts.len()
            invariant
                self.wf(),
                i <= b.stmts@.len(),
                self.symbols() == bind_block(old(self).symbols(), *b, i as nat),
                self.counter == old(self).counter,
                self.constraints@ == old(self).constraints@,
            decreases b.stmts@.len() - i,
        {
            proof {
                assert(decreases_to!(*b => b.stmts@[i as int]));
                assert(stmt_all(b.stmts@[i as int], SlotCheck::Below(self.counter)));
            }
            self.emplace_statement_bindings(&b.stmts[i]);
            i = i + 1;
        }
    }

    /// `emplace_type_vars_in_stmts` on every statement of a block, in order.
    #[verifier::loop_isolation(false)]
    #[verifier::rlimit(60)]
    pub fn emplace_type_vars_in_block(&mut self, b: StatementBlock) -> (r: Result<StatementBlock, TypeError>)
        requires
            old(self).wf(),
        ensures
            final(self).wf(),
            old(self).counter <= final(self).counter,
            extends(old(self).constraints@, final(self).constraints@, old(self).counter, final(self).counter),
            r matches Ok(x) ==> block_emplaced(b, x, old(self).counter, final(self).counter),
            r matches Ok(x) ==> block_numbered(b, x, old(self).counter as int) && final(self).counter == old(self).counter + block_var_count(b, b.stmts@.len()),
            r matches Ok(x) ==> final(self).symbols() == bind_all(old(self).symbols(), block_name_binds(x, x.stmts@.len())),
            r matches Err(x) ==> x is OutOfVariables,
            old(self).counter + block_var_count(b, b.stmts@.len() as nat) < u128::MAX ==> r is Ok,
        decreases b,
    {
        let ghost b0 = b;
        let ghost c0 = self.counter;
        let ghost sym0 = self.symbols();
        let StatementBlock { loc, span, stmts } = b;
        let ghost orig = stmts@;
        let n = stmts.len();
        let mut rev = crate::indent::into_reversed(stmts);
        let mut out: Vec<Statement> = Vec::new();
        assert(seq_stmt_name_binds(out@) =~= Seq::<(Seq<char>, Type)>::empty());
        while rev.len() > 0
            invariant
                self.wf(),
                c0 <= self.counter,
                extends(old(self).constraints@, self.constraints@, c0, self.counter),
                n == orig.len(),
                out@.len() + rev@.len() == n,
                forall|j: int| 0 <= j < rev@.len() ==> #[trigger] rev@[j] == orig[n - 1 - j],
                forall|j: int| 0 <= j < out@.len() ==> stmt_emplaced(#[trigger] orig[j], out@[j], c0, self.counter),
                b0.stmts@ == orig,
                self.counter == c0 + block_var_count(b0, out@.len() as nat),
                self.symbols() == bind_all(sym0, seq_stmt_name_binds(out@)),
                sym0 == old(self).symbols(),
                forall|j: int| 0 <= j < out@.len() ==> stmt_numbered(#[trigger] orig[j], out@[j], c0 + block_var_count(b0, j as nat)),
            decreases rev@.len(),
        {
            let x = rev.pop().unwrap();
            let ghost before = self.counter;
            proof {
                let j = out@.len() as int;
                assert(x == orig[j]);
                assert(decreases_to!(b0 => orig[j]));
                lemma_block_var_count_mono(b0, (j + 1) as nat, orig.len() as nat);
                assert(block_var_count(b0, (j + 1) as nat) == block_var_count(b0, j as nat) + stmt_var_count(orig[j]));
            }
            let y = match self.emplace_type_vars_in_stmts(x) {
                Ok(y) => y,
                Err(x) => {
                    return Err(x);
                },
            };
            proof {
                assert(block_var_count(b0, (out@.len() + 1) as nat) == block_var_count(b0, out@.len() as nat) + stmt_var_count(orig[out@.len() as int]));
                assert(out@.push(y).drop_last() =~= out@);
                lemma_bind_all_concat(sym0, seq_stmt_name_binds(out@), stmt_name_binds(y));
                assert forall|j: int| 0 <= j < out@.len() implies stmt_emplaced(
                    #[trigger] orig[j],
                    out@[j],
                    c0,
                    self.counter,
                ) by {
                    lemma_stmt_emplaced_widen(orig[j], out@[j], c0, before, c0, self.counter);
                }
                lemma_stmt_emplaced_widen(orig[out@.len() as int], y, before, self.counter, c0, self.counter);
            }
            out.push(y);
        }
        let res = StatementBlock { loc, span, stmts: out };
        proof {
            lemma_block_name_binds(res, res.stmts@.len() as nat);
            assert(res.stmts@.subrange(0, res.stmts@.len() as int) =~= res.stmts@);
        }
        Ok(res)
    }
}

} // verus!
