use crate::ast::{
    before, block_nested, expr_nested, stmt_nested, within, BinopExpr, Expr, Expression,
    FunctionApplication, Statement, StatementBlock, Stmt,
};
use crate::token::{
    start_location, Keyword, Operator, Punctuation, SourceLocation, SourceSpan, Token, TokenKind,
};
use vstd::prelude::*;

verus! {

/// A recursive-descent parser over a materialised token vector.
pub struct Parser {
    cursor: usize,
    tokens: Vec<Token>,
}

/// An expectation was not met at `loc`.
#[derive(Clone, Copy, Debug)]
pub struct ParserFault {
    pub loc: SourceLocation,
}

pub type ParserResult<T> = Result<T, ParserFault>;

/// How loosely an operator binds: lower binds tighter.
pub open spec fn precedence(op: Operator) -> u8 {
    match op {
        Operator::Mul | Operator::Div | Operator::Mod => 5,
        Operator::Add | Operator::Sub => 6,
        Operator::Greater | Operator::Less => 9,
        Operator::Equals => 10,
    }
}

pub fn precedence_of(op: &Operator) -> (r: u8)
    ensures
        r == precedence(*op),
{
    match op {
        Operator::Mul | Operator::Div | Operator::Mod => 5,
        Operator::Add | Operator::Sub => 6,
        Operator::Greater | Operator::Less => 9,
        Operator::Equals => 10,
    }
}

/// `Indent` and `Dedent` are synthetic: they borrow the span of another token.
pub open spec fn is_marker(t: Token) -> bool {
    t.kind is Indent || t.kind is Dedent
}

/// Token spans are well formed, and the tokens that are not markers come in
/// source order without overlapping.
#[verifier::opaque]
pub open spec fn tokens_ordered(t: Seq<Token>) -> bool {
    &&& forall|i: int| 0 <= i < t.len() ==> (#[trigger] t[i]).span.0 <= t[i].span.1
    &&& forall|i: int, j: int|
        0 <= i < j < t.len() && !is_marker(#[trigger] t[i]) && !is_marker(#[trigger] t[j])
            ==> t[i].span.1 <= t[j].span.0
}

/// `span` runs from the start of token `a` to the end of token `b - 1`.
pub open spec fn covers(span: SourceSpan, t: Seq<Token>, a: int, b: int) -> bool {
    &&& 0 <= a < b <= t.len()
    &&& span == (t[a].span.0, t[b - 1].span.1)
    &&& !is_marker(t[a])
    &&& !is_marker(t[b - 1])
}

/// Where a fault at position `p` is reported.
pub open spec fn fault_at(t: Seq<Token>, p: int) -> SourceLocation {
    if 0 <= p < t.len() {
        t[p].loc
    } else if t.len() > 0 {
        t.last().loc
    } else {
        start_location()
    }
}

/// Two token kinds are of the same variant.
pub open spec fn same_variant(a: TokenKind, b: TokenKind) -> bool {
    match (a, b) {
        (TokenKind::Keyword(x), TokenKind::Keyword(y)) => x == y,
        (TokenKind::Identifier(_), TokenKind::Identifier(_)) => true,
        (TokenKind::Operator(x), TokenKind::Operator(y)) => x == y,
        (TokenKind::CompoundOperator(x), TokenKind::CompoundOperator(y)) => x == y,
        (TokenKind::Punctuation(x), TokenKind::Punctuation(y)) => x == y,
        (TokenKind::Whitespace(_), TokenKind::Whitespace(_)) => true,
        (TokenKind::Indent, TokenKind::Indent) => true,
        (TokenKind::Dedent, TokenKind::Dedent) => true,
        (TokenKind::Newline, TokenKind::Newline) => true,
        (TokenKind::LeftParen, TokenKind::LeftParen) => true,
        (TokenKind::RightParen, TokenKind::RightParen) => true,
        (TokenKind::Integer(_), TokenKind::Integer(_)) => true,
        (TokenKind::End, TokenKind::End) => true,
        _ => false,
    }
}

fn same_variant_exec(a: &TokenKind, b: &TokenKind) -> (r: bool)
    ensures
        r == same_variant(*a, *b),
{
    match (a, b) {
        (TokenKind::Keyword(x), TokenKind::Keyword(y)) => *x == *y,
        (TokenKind::Identifier(_), TokenKind::Identifier(_)) => true,
        (TokenKind::Operator(x), TokenKind::Operator(y)) => *x == *y,
        (TokenKind::CompoundOperator(x), TokenKind::CompoundOperator(y)) => *x == *y,
        (TokenKind::Punctuation(x), TokenKind::Punctuation(y)) => *x == *y,
        (TokenKind::Whitespace(_), TokenKind::Whitespace(_)) => true,
        (TokenKind::Indent, TokenKind::Indent) => true,
        (TokenKind::Dedent, TokenKind::Dedent) => true,
        (TokenKind::Newline, TokenKind::Newline) => true,
        (TokenKind::LeftParen, TokenKind::LeftParen) => true,
        (TokenKind::RightParen, TokenKind::RightParen) => true,
        (TokenKind::Integer(_), TokenKind::Integer(_)) => true,
        (TokenKind::End, TokenKind::End) => true,
        _ => false,
    }
}

/// The parser went from `p0` to `p1` over the same tokens, forward.
pub open spec fn moved(p0: Parser, p1: Parser) -> bool {
    &&& p1.toks() == p0.toks()
    &&& p0.pos() <= p1.pos() <= p1.toks().len()
}

/// An expression parse from `p0` ended in `p1` with `r`: on success the
/// expression covers the tokens consumed and is nested when the tokens are
/// ordered; on failure the cursor is back where it was.
pub open spec fn expr_outcome(p0: Parser, p1: Parser, r: ParserResult<Expression>) -> bool {
    &&& moved(p0, p1)
    &&& match r {
        Ok(e) => {
            &&& covers(e.span, p0.toks(), p0.pos(), p1.pos())
            &&& e.loc == p0.toks()[p0.pos()].loc
            &&& tokens_ordered(p0.toks()) ==> expr_nested(e)
        },
        Err(_) => p1.pos() == p0.pos(),
    }
}

/// The shape of a chain of binary operations: leaves number the primary
/// expressions from 0, in source order.
pub enum Shape {
    Leaf(nat),
    Node(Operator, Box<Shape>, Box<Shape>),
}

/// Folds the operator on top of the stack with the two operands on top of the output.
pub open spec fn fold_once(out: Seq<Shape>, st: Seq<Operator>) -> (Seq<Shape>, Seq<Operator>) {
    (
        out.subrange(0, out.len() - 2).push(
            Shape::Node(st.last(), Box::new(out[out.len() - 2]), Box::new(out[out.len() - 1])),
        ),
        st.drop_last(),
    )
}

/// The output and operator stacks after the first primary and the first `j`
/// operators, each with the primary after it: before an operator is pushed,
/// one pending operation is folded when the operator binds no tighter than the
/// one on top of the stack.
pub open spec fn shunt_ops(ops: Seq<Operator>, j: nat) -> (Seq<Shape>, Seq<Operator>)
    decreases j,
{
    if j == 0 || j > ops.len() {
        (seq![Shape::Leaf(0)], seq![])
    } else {
        let (out, st) = shunt_ops(ops, (j - 1) as nat);
        let op = ops[j - 1];
        let (out2, st2) = if st.len() > 0 && out.len() >= 2 && precedence(op) >= precedence(
            st.last(),
        ) {
            fold_once(out, st)
        } else {
            (out, st)
        };
        (out2.push(Shape::Leaf(j)), st2.push(op))
    }
}

/// The output stack once every pending operation is folded.
pub open spec fn drain(out: Seq<Shape>, st: Seq<Operator>) -> Seq<Shape>
    decreases st.len(),
{
    if st.len() > 0 && out.len() >= 2 {
        drain(fold_once(out, st).0, fold_once(out, st).1)
    } else {
        out
    }
}

/// The shape that the operator engine builds for operators `ops`.
pub open spec fn shunt(ops: Seq<Operator>) -> Shape {
    drain(shunt_ops(ops, ops.len()).0, shunt_ops(ops, ops.len()).1).last()
}

/// `e` is the tree of shape `s` over the primary expressions `prims`.
pub open spec fn tree_matches(e: Expression, s: Shape, prims: Seq<Expression>) -> bool
    decreases s,
{
    match s {
        Shape::Leaf(j) => j < prims.len() && e == prims[j as int],
        Shape::Node(op, l, r) => e.expr matches Expr::Binop(b) && b.op == op && e.span == (
            b.lhs.span.0,
            b.rhs.span.1,
        ) && e.loc == b.lhs.loc && tree_matches(*b.lhs, *l, prims) && tree_matches(*b.rhs, *r, prims),
    }
}

proof fn lemma_shunt_ops_prefix(ops: Seq<Operator>, op: Operator, j: nat)
    requires
        j <= ops.len(),
    ensures
        shunt_ops(ops.push(op), j) == shunt_ops(ops, j),
    decreases j,
{
    if j > 0 {
        lemma_shunt_ops_prefix(ops, op, (j - 1) as nat);
        assert(ops.push(op)[j - 1] == ops[j - 1]);
    }
}

proof fn lemma_matches_more_prims(e: Expression, s: Shape, prims: Seq<Expression>, x: Expression)
    requires
        tree_matches(e, s, prims),
    ensures
        tree_matches(e, s, prims.push(x)),
    decreases s,
{
    if let Shape::Node(op, l, r) = s {
        let b = e.expr->Binop_0;
        lemma_matches_more_prims(*b.lhs, *l, prims, x);
        lemma_matches_more_prims(*b.rhs, *r, prims, x);
    }
}

proof fn lemma_shunt_ops_len(ops: Seq<Operator>, j: nat)
    ensures
        shunt_ops(ops, j).0.len() == shunt_ops(ops, j).1.len() + 1,
    decreases j,
{
    if 0 < j <= ops.len() {
        lemma_shunt_ops_len(ops, (j - 1) as nat);
    }
}

proof fn lemma_drain_len(out: Seq<Shape>, st: Seq<Operator>)
    requires
        out.len() == st.len() + 1,
    ensures
        drain(out, st).len() == 1,
    decreases st.len(),
{
    if st.len() > 0 {
        lemma_drain_len(fold_once(out, st).0, fold_once(out, st).1);
    }
}


/// Whether there is a token at `p`.
pub open spec fn at(t: Seq<Token>, p: int) -> bool {
    0 <= p < t.len()
}

/// Where a primary expression starting at `p` ends: an integer or a name is
/// one token, a grouping runs to its `)`.
pub open spec fn prim_end(t: Seq<Token>, p: int) -> Option<int>
    decreases t.len() - p, 1nat,
{
    if at(t, p) && (t[p].kind is Integer || t[p].kind is Identifier) {
        Some(p + 1)
    } else if at(t, p) && t[p].kind is LeftParen {
        match expr_end(t, p + 1) {
            Some(q) => if p + 1 < q < t.len() && t[q].kind is RightParen {
                Some(q + 1)
            } else {
                None
            },
            None => None,
        }
    } else {
        None
    }
}

/// Where `(OPERATOR primary)*` starting at `q` ends, if every primary parses.
pub open spec fn chain_from(t: Seq<Token>, q: int) -> Option<int>
    decreases t.len() - q, 2nat,
{
    if at(t, q) && t[q].kind is Operator {
        match prim_end(t, q + 1) {
            Some(q2) => if q + 1 < q2 <= t.len() {
                chain_from(t, q2)
            } else {
                None
            },
            None => None,
        }
    } else {
        Some(q)
    }
}

/// The operators read by `chain_from` from `q`.
pub open spec fn chain_ops(t: Seq<Token>, q: int) -> Seq<Operator>
    decreases t.len() - q,
{
    if at(t, q) && t[q].kind is Operator {
        match prim_end(t, q + 1) {
            Some(q2) => if q + 1 < q2 <= t.len() {
                seq![t[q].kind->Operator_0] + chain_ops(t, q2)
            } else {
                seq![]
            },
            None => seq![],
        }
    } else {
        seq![]
    }
}

/// Where the primaries read by `chain_from` from `q` start.
pub open spec fn chain_starts(t: Seq<Token>, q: int) -> Seq<int>
    decreases t.len() - q,
{
    if at(t, q) && t[q].kind is Operator {
        match prim_end(t, q + 1) {
            Some(q2) => if q + 1 < q2 <= t.len() {
                seq![q + 1] + chain_starts(t, q2)
            } else {
                seq![]
            },
            None => seq![],
        }
    } else {
        seq![]
    }
}

/// Where `primary (OPERATOR primary)*` starting at `p` ends.
pub open spec fn binop_end(t: Seq<Token>, p: int) -> Option<int>
    decreases t.len() - p, 2nat,
{
    match prim_end(t, p) {
        Some(q) => if p < q <= t.len() {
            chain_from(t, q)
        } else {
            None
        },
        None => None,
    }
}

/// Where the maximal run of primaries starting at `q` ends.
pub open spec fn args_run(t: Seq<Token>, q: int) -> int
    decreases t.len() - q, 2nat,
{
    match prim_end(t, q) {
        Some(q2) => if q < q2 <= t.len() {
            args_run(t, q2)
        } else {
            q
        },
        None => q,
    }
}

/// Where the primaries of that run start.
pub open spec fn args_starts(t: Seq<Token>, q: int) -> Seq<int>
    decreases t.len() - q,
{
    match prim_end(t, q) {
        Some(q2) => if q < q2 <= t.len() {
            seq![q] + args_starts(t, q2)
        } else {
            seq![]
        },
        None => seq![],
    }
}

/// Where `IDENT primary+` starting at `p` ends.
pub open spec fn app_end(t: Seq<Token>, p: int) -> Option<int>
    decreases t.len() - p, 3nat,
{
    if at(t, p) && t[p].kind is Identifier && args_run(t, p + 1) > p + 1 {
        Some(args_run(t, p + 1))
    } else {
        None
    }
}

/// Where an expression starting at `p` ends: an application if one parses,
/// else a chain of operations.
pub open spec fn expr_end(t: Seq<Token>, p: int) -> Option<int>
    decreases t.len() - p, 4nat,
{
    match app_end(t, p) {
        Some(q) => Some(q),
        None => binop_end(t, p),
    }
}

/// `e` is the primary expression that the tokens from `p` spell.
pub open spec fn prim_tree(t: Seq<Token>, p: int, e: Expression) -> bool
    decreases t.len() - p, 1nat,
{
    &&& prim_end(t, p) is Some
    &&& e.loc == t[p].loc
    &&& if t[p].kind is Integer {
        &&& e.span == t[p].span
        &&& e.expr matches Expr::IntegerLiteral(d) && d@ == t[p].kind->Integer_0@
    } else if t[p].kind is Identifier {
        &&& e.span == t[p].span
        &&& e.expr matches Expr::Name(n) && n@ == t[p].kind->Identifier_0@
    } else {
        let q = prim_end(t, p)->Some_0 - 1;
        &&& e.span == (t[p].span.0, t[q].span.1)
        &&& e.expr matches Expr::Grouping { expr } && 0 <= p < t.len() && expr_tree(t, p + 1, *expr)
    }
}

/// `e` is the expression that the tokens from `p` spell.
pub open spec fn expr_tree(t: Seq<Token>, p: int, e: Expression) -> bool
    decreases t.len() - p, 4nat,
{
    if app_end(t, p) is Some {
        app_tree(t, p, e)
    } else {
        binop_tree(t, p, e)
    }
}

/// `e` is the application that the tokens from `p` spell.
pub open spec fn app_tree(t: Seq<Token>, p: int, e: Expression) -> bool
    decreases t.len() - p, 3nat,
{
    let starts = args_starts(t, p + 1);
    &&& app_end(t, p) is Some
    &&& e.loc == t[p].loc
    &&& e.span == (t[p].span.0, t[app_end(t, p)->Some_0 - 1].span.1)
    &&& e.expr matches Expr::FunctionApplication(fa)
    &&& fa.func.loc == t[p].loc && fa.func.span == t[p].span
    &&& fa.func.expr matches Expr::Name(n) && n@ == t[p].kind->Identifier_0@
    &&& fa.args@.len() == starts.len()
    &&& forall|i: int|
        0 <= i < starts.len() && p < starts[i] <= t.len() ==> prim_tree(
            t,
            #[trigger] starts[i],
            fa.args@[i],
        )
}

/// The primary expressions that a chain of operations from `p` reads, each
/// the one its tokens spell.
pub open spec fn chain_leaves(t: Seq<Token>, p: int, prims: Seq<Expression>) -> bool
    decreases t.len() - p, 2nat,
{
    let starts = seq![p] + chain_starts(t, prim_end(t, p)->Some_0);
    &&& prims.len() == starts.len()
    &&& forall|j: int|
        0 <= j < starts.len() && p <= starts[j] <= t.len() ==> prim_tree(t, #[trigger] starts[j], prims[j])
}

/// The operators that a chain of operations from `p` reads.
pub open spec fn chain_ops_from(t: Seq<Token>, p: int) -> Seq<Operator> {
    chain_ops(t, prim_end(t, p)->Some_0)
}

/// `e` is the chain of operations that the tokens from `p` spell: the shape
/// of the operator engine over the operators read, its leaves the primaries
/// read.
pub open spec fn binop_tree(t: Seq<Token>, p: int, e: Expression) -> bool
    decreases t.len() - p, 3nat,
{
    &&& binop_end(t, p) is Some
    &&& exists|prims: Seq<Expression>|
        chain_leaves(t, p, prims) && #[trigger] tree_matches(e, shunt(chain_ops_from(t, p)), prims)
}


/// Where `let IDENT = expr` starting at `p` ends.
pub open spec fn decl_end(t: Seq<Token>, p: int) -> Option<int>
    decreases t.len() - p, 5nat,
{
    if at(t, p) && t[p].kind == TokenKind::Keyword(Keyword::Let) && at(t, p + 1) && t[p + 1].kind is Identifier
        && at(t, p + 2) && t[p + 2].kind == TokenKind::Operator(Operator::Equals) {
        expr_end(t, p + 3)
    } else {
        None
    }
}

/// Where `while expr : NEWLINE INDENT block DEDENT` starting at `p` ends.
pub open spec fn while_end(t: Seq<Token>, p: int) -> Option<int>
    decreases t.len() - p, 5nat,
{
    if at(t, p) && t[p].kind == TokenKind::Keyword(Keyword::While) {
        match expr_end(t, p + 1) {
            Some(q) => if p + 1 < q && q + 2 < t.len() && t[q].kind == TokenKind::Punctuation(
                Punctuation::Colon,
            ) && t[q + 1].kind is Newline && t[q + 2].kind is Indent {
                match block_end(t, q + 3) {
                    Some(r) => if q + 3 < r < t.len() && t[r].kind is Dedent {
                        Some(r + 1)
                    } else {
                        None
                    },
                    None => None,
                }
            } else {
                None
            },
            None => None,
        }
    } else {
        None
    }
}

/// Where an expression statement starting at `p` ends, its newline included.
pub open spec fn expr_stmt_end(t: Seq<Token>, p: int) -> Option<int>
    decreases t.len() - p, 5nat,
{
    match expr_end(t, p) {
        Some(q) => if at(t, q) && t[q].kind is Newline {
            Some(q + 1)
        } else {
            None
        },
        None => None,
    }
}

/// Where a statement starting at `p` ends: a loop, else a declaration and its
/// newline, else an expression and its newline.
pub open spec fn stmt_end(t: Seq<Token>, p: int) -> Option<int>
    decreases t.len() - p, 6nat,
{
    match while_end(t, p) {
        Some(q) => Some(q),
        None => match decl_end(t, p) {
            Some(q) => if at(t, q) && t[q].kind is Newline {
                Some(q + 1)
            } else {
                expr_stmt_end(t, p)
            },
            None => expr_stmt_end(t, p),
        },
    }
}

/// Where the maximal run of statements starting at `q` ends.
pub open spec fn stmts_run(t: Seq<Token>, q: int) -> int
    decreases t.len() - q, 7nat,
{
    match stmt_end(t, q) {
        Some(q2) => if q < q2 <= t.len() {
            stmts_run(t, q2)
        } else {
            q
        },
        None => q,
    }
}

/// Where the statements of that run start.
pub open spec fn stmts_starts(t: Seq<Token>, q: int) -> Seq<int>
    decreases t.len() - q,
{
    match stmt_end(t, q) {
        Some(q2) => if q < q2 <= t.len() {
            seq![q] + stmts_starts(t, q2)
        } else {
            seq![]
        },
        None => seq![],
    }
}

/// Where a block (one or more statements) starting at `p` ends.
pub open spec fn block_end(t: Seq<Token>, p: int) -> Option<int>
    decreases t.len() - p, 8nat,
{
    match stmt_end(t, p) {
        Some(q) => if p < q <= t.len() {
            Some(stmts_run(t, q))
        } else {
            None
        },
        None => None,
    }
}

/// Where a program starting at `p` ends: `End` alone, or a block then `End`.
pub open spec fn program_end(t: Seq<Token>, p: int) -> Option<int> {
    if at(t, p) && t[p].kind is End {
        Some(p)
    } else {
        match block_end(t, p) {
            Some(q) => if at(t, q) && t[q].kind is End {
                Some(q + 1)
            } else {
                None
            },
            None => None,
        }
    }
}

/// `s` is the declaration that the tokens from `p` spell.
pub open spec fn decl_tree(t: Seq<Token>, p: int, s: Statement) -> bool
    decreases t.len() - p, 5nat,
{
    &&& decl_end(t, p) is Some
    &&& s.loc == t[p].loc
    &&& s.stmt matches Stmt::NameDeclaration { name, value }
    &&& name@ == t[p + 1].kind->Identifier_0@
    &&& expr_tree(t, p + 3, s.stmt->NameDeclaration_value)
    &&& s.span == (t[p].span.0, s.stmt->NameDeclaration_value.span.1)
}

/// `s` is the loop that the tokens from `p` spell.
pub open spec fn while_tree(t: Seq<Token>, p: int, s: Statement) -> bool
    decreases t.len() - p, 5nat,
{
    &&& while_end(t, p) is Some
    &&& s.loc == t[p].loc
    &&& s.stmt is WhileStmt
    &&& expr_tree(t, p + 1, s.stmt->WhileStmt_pred)
    &&& expr_end(t, p + 1) is Some && p < expr_end(t, p + 1)->Some_0 + 3 && block_tree(
        t,
        expr_end(t, p + 1)->Some_0 + 3,
        s.stmt->WhileStmt_body,
    )
    &&& s.span == (t[p].span.0, s.stmt->WhileStmt_body.span.1)
}

/// `s` is the statement that the tokens from `p` spell.
pub open spec fn stmt_tree(t: Seq<Token>, p: int, s: Statement) -> bool
    decreases t.len() - p, 6nat,
{
    &&& stmt_end(t, p) is Some
    &&& if while_end(t, p) is Some {
        while_tree(t, p, s)
    } else if decl_end(t, p) is Some && at(t, decl_end(t, p)->Some_0) && t[decl_end(
        t,
        p,
    )->Some_0].kind is Newline {
        decl_tree(t, p, s)
    } else {
        s.stmt matches Stmt::Expression(x) && expr_tree(
            t,
            p,
            Expression { loc: s.loc, span: s.span, expr: x },
        )
    }
}

/// `b` is the block that the tokens from `p` spell.
pub open spec fn block_tree(t: Seq<Token>, p: int, b: StatementBlock) -> bool
    decreases t.len() - p, 8nat,
{
    let starts = seq![p] + stmts_starts(t, stmt_end(t, p)->Some_0);
    &&& block_end(t, p) is Some
    &&& b.stmts@.len() == starts.len()
    &&& b.loc == t[p].loc
    &&& b.span == (b.stmts@[0].span.0, b.stmts@[b.stmts@.len() - 1].span.1)
    &&& forall|i: int|
        0 <= i < starts.len() && p <= starts[i] <= t.len() ==> stmt_tree(
            t,
            #[trigger] starts[i],
            b.stmts@[i],
        )
}


/// Where a grouping at `p` fails: at a missing `(`, where its expression
/// fails, or at a missing `)`.
pub open spec fn group_fault(t: Seq<Token>, p: int) -> SourceLocation {
    if !(at(t, p) && t[p].kind is LeftParen) {
        fault_at(t, p)
    } else {
        match expr_end(t, p + 1) {
            None => fault_at(t, p + 1),
            Some(q) => fault_at(t, q),
        }
    }
}

/// Where a declaration at `p` fails: at the first of `let`, the name or `=`
/// that is missing, else where its expression fails.
pub open spec fn decl_fault(t: Seq<Token>, p: int) -> SourceLocation {
    if !(at(t, p) && t[p].kind == TokenKind::Keyword(Keyword::Let)) {
        fault_at(t, p)
    } else if !(at(t, p + 1) && t[p + 1].kind is Identifier) {
        fault_at(t, p + 1)
    } else if !(at(t, p + 2) && t[p + 2].kind == TokenKind::Operator(Operator::Equals)) {
        fault_at(t, p + 2)
    } else {
        fault_at(t, p + 3)
    }
}

/// Where a loop at `p` fails: at a missing `while`, where its condition
/// fails, at the first missing `:`, newline or indent, where its body fails,
/// or at a missing dedent.
pub open spec fn while_fault(t: Seq<Token>, p: int) -> SourceLocation {
    if !(at(t, p) && t[p].kind == TokenKind::Keyword(Keyword::While)) {
        fault_at(t, p)
    } else {
        match expr_end(t, p + 1) {
            None => fault_at(t, p + 1),
            Some(q) => if !(at(t, q) && t[q].kind == TokenKind::Punctuation(Punctuation::Colon)) {
                fault_at(t, q)
            } else if !(at(t, q + 1) && t[q + 1].kind is Newline) {
                fault_at(t, q + 1)
            } else if !(at(t, q + 2) && t[q + 2].kind is Indent) {
                fault_at(t, q + 2)
            } else {
                match block_end(t, q + 3) {
                    None => fault_at(t, q + 3),
                    Some(r) => fault_at(t, r),
                }
            },
        }
    }
}

/// The cursor of a parser is never negative.
pub proof fn lemma_pos_nonneg(p: Parser)
    ensures
        0 <= p.pos(),
{
}

/// `span` covers the tokens from `a` to some end no later than `p`.
pub open spec fn covers_within(span: SourceSpan, t: Seq<Token>, a: int, p: int) -> bool {
    exists|b: int| a < b <= p && #[trigger] covers(span, t, a, b)
}

/// A statement parse from `p0` ended in `p1` with `r`.
pub open spec fn stmt_outcome(p0: Parser, p1: Parser, r: ParserResult<Statement>) -> bool {
    &&& moved(p0, p1)
    &&& match r {
        Ok(s) => {
            &&& p0.pos() < p1.pos()
            &&& covers_within(s.span, p0.toks(), p0.pos(), p1.pos())
            &&& s.loc == p0.toks()[p0.pos()].loc
            &&& tokens_ordered(p0.toks()) ==> stmt_nested(s)
        },
        Err(_) => p1.pos() == p0.pos(),
    }
}

/// A block parse from `p0` ended in `p1` with `r`.
pub open spec fn block_outcome(p0: Parser, p1: Parser, r: ParserResult<StatementBlock>) -> bool {
    &&& moved(p0, p1)
    &&& match r {
        Ok(b) => {
            &&& p0.pos() < p1.pos()
            &&& b.stmts@.len() > 0
            &&& covers_within(b.span, p0.toks(), p0.pos(), p1.pos())
            &&& b.loc == p0.toks()[p0.pos()].loc
            &&& tokens_ordered(p0.toks()) ==> block_nested(b)
        },
        Err(_) => p1.pos() == p0.pos(),
    }
}

/// With ordered tokens, a span covering `[a, b)` lies within one covering
/// `[c, d)` when `c <= a` and `b <= d`, and ends before one starting at or after `b`.
proof fn lemma_cover_order(t: Seq<Token>, s1: SourceSpan, a: int, b: int, s2: SourceSpan, c: int, d: int)
    requires
        tokens_ordered(t),
        covers(s1, t, a, b),
        covers(s2, t, c, d),
    ensures
        c <= a && b <= d ==> within(s1, s2),
        b <= c ==> before(s1, s2),
        s1.0 <= s1.1,
{
    reveal(tokens_ordered);
    assert(t[a].span.0 <= t[a].span.1);
    assert(t[b - 1].span.0 <= t[b - 1].span.1);
    assert(t[c].span.0 <= t[c].span.1);
    assert(t[d - 1].span.0 <= t[d - 1].span.1);
    if a < b - 1 {
        assert(t[a].span.1 <= t[b - 1].span.0);
    }
    if c < a {
        assert(t[c].span.1 <= t[a].span.0);
    }
    if b - 1 < d - 1 {
        assert(t[b - 1].span.1 <= t[d - 1].span.0);
    }
    if b <= c {
        assert(t[b - 1].span.1 <= t[c].span.0);
    }
}

impl Parser {
    /// The tokens.
    pub closed spec fn toks(&self) -> Seq<Token> {
        self.tokens@
    }

    /// The cursor.
    pub closed spec fn pos(&self) -> int {
        self.cursor as int
    }

    pub closed spec fn wf(&self) -> bool {
        self.cursor <= self.tokens@.len()
    }

    pub fn new(tokens: Vec<Token>) -> (r: Parser)
        ensures
            r.wf(),
            r.toks() == tokens@,
            r.pos() == 0,
    {
        Parser { cursor: 0, tokens }
    }

    /// The fault to report at the cursor.
    fn fault(&self) -> (r: ParserFault)
        requires
            self.wf(),
        ensures
            r.loc == fault_at(self.toks(), self.pos()),
    {
        if self.cursor < self.tokens.len() {
            ParserFault { loc: self.tokens[self.cursor].loc }
        } else if self.tokens.len() > 0 {
            ParserFault { loc: self.tokens[self.tokens.len() - 1].loc }
        } else {
            ParserFault { loc: SourceLocation::new() }
        }
    }

    /// Consumes a token of the same variant as `kind`, giving its location and span.
    fn eat_variant(&mut self, kind: TokenKind) -> (r: ParserResult<(SourceLocation, SourceSpan)>)
        requires
            old(self).wf(),
        ensures
            final(self).wf(),
            final(self).toks() == old(self).toks(),
            r is Ok <==> old(self).pos() < old(self).toks().len() && same_variant(
                kind,
                old(self).toks()[old(self).pos()].kind,
            ),
            r matches Ok((l, s)) ==> final(self).pos() == old(self).pos() + 1 && l == old(
                self,
            ).toks()[old(self).pos()].loc && s == old(self).toks()[old(self).pos()].span,
            r matches Err(f) ==> final(self).pos() == old(self).pos() && f.loc == fault_at(
                old(self).toks(),
                old(self).pos(),
            ),
    {
        if self.cursor < self.tokens.len() && same_variant_exec(&kind, &self.tokens[self.cursor].kind) {
            let loc = self.tokens[self.cursor].loc;
            let span = self.tokens[self.cursor].span;
            self.cursor = self.cursor + 1;
            Ok((loc, span))
        } else {
            Err(self.fault())
        }
    }

    /// Consumes a binary operator.
    fn eat_operator(&mut self) -> (r: ParserResult<Operator>)
        requires
            old(self).wf(),
        ensures
            final(self).wf(),
            final(self).toks() == old(self).toks(),
            r is Ok <==> old(self).pos() < old(self).toks().len() && old(self).toks()[old(
                self,
            ).pos()].kind is Operator,
            r matches Ok(op) ==> final(self).pos() == old(self).pos() + 1 && old(self).toks()[old(
                self,
            ).pos()].kind == TokenKind::Operator(op),
            r is Err ==> final(self).pos() == old(self).pos(),
    {
        if self.cursor < self.tokens.len() {
            match self.tokens[self.cursor].kind {
                TokenKind::Operator(op) => {
                    self.cursor = self.cursor + 1;
                    return Ok(op);
                },
                _ => {},
            }
        }
        Err(self.fault())
    }

    /// An identifier's text.
    pub fn parse_ident(&mut self) -> (r: ParserResult<String>)
        requires
            old(self).wf(),
        ensures
            final(self).wf(),
            final(self).toks() == old(self).toks(),
            r is Ok <==> old(self).pos() < old(self).toks().len() && old(self).toks()[old(
                self,
            ).pos()].kind is Identifier,
            r matches Ok(s) ==> final(self).pos() == old(self).pos() + 1 && old(self).toks()[old(
                self,
            ).pos()].kind->Identifier_0@ == s@,
            r matches Err(f) ==> final(self).pos() == old(self).pos() && f.loc == fault_at(
                old(self).toks(),
                old(self).pos(),
            ),
    {
        if self.cursor < self.tokens.len() {
            match &self.tokens[self.cursor].kind {
                TokenKind::Identifier(name) => {
                    let s = name.clone();
                    self.cursor = self.cursor + 1;
                    return Ok(s);
                },
                _ => {},
            }
        }
        Err(self.fault())
    }

    /// A name expression: one identifier token.
    pub fn parse_name(&mut self) -> (r: ParserResult<Expression>)
        requires
            old(self).wf(),
        ensures
            final(self).wf(),
            expr_outcome(*old(self), *final(self), r),
            r is Ok <==> old(self).pos() < old(self).toks().len() && old(self).toks()[old(
                self,
            ).pos()].kind is Identifier,
            r matches Ok(e) ==> e.expr matches Expr::Name(n) && n@ == old(self).toks()[old(
                self,
            ).pos()].kind->Identifier_0@ && final(self).pos() == old(self).pos() + 1,
            r matches Err(f) ==> f.loc == fault_at(old(self).toks(), old(self).pos()),
    {
        proof {
            reveal(tokens_ordered);
        }
        if self.cursor < self.tokens.len() {
            let loc = self.tokens[self.cursor].loc;
            let span = self.tokens[self.cursor].span;
            match self.parse_ident() {
                Ok(ident) => Ok(Expression { loc, span, expr: Expr::Name(ident) }),
                Err(f) => Err(f),
            }
        } else {
            Err(self.fault())
        }
    }

    /// An integer literal: one integer token.
    pub fn parse_integer(&mut self) -> (r: ParserResult<Expression>)
        requires
            old(self).wf(),
        ensures
            final(self).wf(),
            expr_outcome(*old(self), *final(self), r),
            r is Ok <==> old(self).pos() < old(self).toks().len() && old(self).toks()[old(
                self,
            ).pos()].kind is Integer,
            r matches Ok(e) ==> e.expr matches Expr::IntegerLiteral(d) && d@ == old(
                self,
            ).toks()[old(self).pos()].kind->Integer_0@ && final(self).pos() == old(self).pos() + 1,
            r matches Err(f) ==> f.loc == fault_at(old(self).toks(), old(self).pos()),
    {
        proof {
            reveal(tokens_ordered);
        }
        if self.cursor < self.tokens.len() {
            match &self.tokens[self.cursor].kind {
                TokenKind::Integer(digits) => {
                    let e = Expression {
                        loc: self.tokens[self.cursor].loc,
                        span: self.tokens[self.cursor].span,
                        expr: Expr::IntegerLiteral(digits.clone()),
                    };
                    self.cursor = self.cursor + 1;
                    return Ok(e);
                },
                _ => {},
            }
        }
        Err(self.fault())
    }

    /// `( expr )`.
    pub fn parse_group(&mut self) -> (r: ParserResult<Expression>)
        requires
            old(self).wf(),
        ensures
            final(self).wf(),
            expr_outcome(*old(self), *final(self), r),
            r matches Ok(e) ==> e.expr is Grouping,
            r is Ok <==> at(old(self).toks(), old(self).pos()) && old(self).toks()[old(self).pos()].kind is LeftParen
                && prim_end(old(self).toks(), old(self).pos()) is Some,
            r matches Ok(e) ==> final(self).pos() == prim_end(old(self).toks(), old(self).pos())->Some_0
                && prim_tree(old(self).toks(), old(self).pos(), e),
            r matches Err(f) ==> f.loc == group_fault(old(self).toks(), old(self).pos()),
        decreases old(self).toks().len() - old(self).pos(), 0nat,
    {
        let start = self.cursor;
        let ghost t = self.tokens@;
        let (loc, first_span) = match self.eat_variant(TokenKind::LeftParen) {
            Ok(x) => x,
            Err(f) => {
                return Err(f);
            },
        };
        let inner = match self.parse_expression() {
            Ok(e) => e,
            Err(f) => {
                self.cursor = start;
                return Err(f);
            },
        };
        let ghost mid = self.cursor;
        let (_, last_span) = match self.eat_variant(TokenKind::RightParen) {
            Ok(x) => x,
            Err(f) => {
                self.cursor = start;
                return Err(f);
            },
        };
        let e = Expression {
            span: (first_span.0, last_span.1),
            expr: Expr::Grouping { expr: Box::new(inner) },
            loc,
        };
        proof {
            reveal(tokens_ordered);
            if tokens_ordered(t) {
                assert(!is_marker(t[start as int]) && !is_marker(t[start + 1]));
                assert(!is_marker(t[mid - 1]) && !is_marker(t[mid as int]));
                assert(t[start as int].span.0 <= t[start as int].span.1);
                assert(t[mid as int].span.0 <= t[mid as int].span.1);
                assert(t[start + 1].span.0 <= t[start + 1].span.1);
                assert(t[mid - 1].span.0 <= t[mid - 1].span.1);
                if start + 1 < mid - 1 {
                    assert(t[start + 1].span.1 <= t[mid - 1].span.0);
                }
                assert(t[start as int].span.1 <= t[start + 1].span.0);
                assert(t[mid - 1].span.1 <= t[mid as int].span.0);
                assert(within(inner.span, e.span));
            }
        }
        Ok(e)
    }

    /// An integer, a name or a parenthesised expression.
    pub fn parse_primary_expression(&mut self) -> (r: ParserResult<Expression>)
        requires
            old(self).wf(),
        ensures
            final(self).wf(),
            expr_outcome(*old(self), *final(self), r),
            r matches Err(f) ==> f.loc == fault_at(old(self).toks(), old(self).pos()),
            r matches Ok(e) ==> e.expr is IntegerLiteral || e.expr is Name || e.expr is Grouping,
            r is Ok <==> prim_end(old(self).toks(), old(self).pos()) is Some,
            r matches Ok(e) ==> final(self).pos() == prim_end(old(self).toks(), old(self).pos())->Some_0
                && prim_tree(old(self).toks(), old(self).pos(), e),
            old(self).pos() < old(self).toks().len() && (old(self).toks()[old(self).pos()].kind is Integer
                || old(self).toks()[old(self).pos()].kind is Identifier) ==> r is Ok,
        decreases old(self).toks().len() - old(self).pos(), 1nat,
    {
        match self.parse_integer() {
            Ok(e) => {
                return Ok(e);
            },
            Err(_) => {},
        }
        match self.parse_name() {
            Ok(e) => {
                return Ok(e);
            },
            Err(_) => {},
        }
        match self.parse_group() {
            Ok(e) => {
                return Ok(e);
            },
            Err(_) => {},
        }
        Err(self.fault())
    }

    /// An expression: a function application if one parses here, else a
    /// chain of binary operations.
    pub fn parse_expression(&mut self) -> (r: ParserResult<Expression>)
        requires
            old(self).wf(),
        ensures
            final(self).wf(),
            expr_outcome(*old(self), *final(self), r),
            r matches Err(f) ==> f.loc == fault_at(old(self).toks(), old(self).pos()),
            r is Ok <==> expr_end(old(self).toks(), old(self).pos()) is Some,
            r matches Ok(e) ==> final(self).pos() == expr_end(old(self).toks(), old(self).pos())->Some_0
                && expr_tree(old(self).toks(), old(self).pos(), e),
        decreases old(self).toks().len() - old(self).pos(), 3nat,
    {
        match self.parse_function_application() {
            Ok(e) => {
                return Ok(e);
            },
            Err(_) => {},
        }
        match self.parse_binop_expr() {
            Ok(e) => {
                return Ok(e);
            },
            Err(_) => {},
        }
        Err(self.fault())
    }

    /// A name applied to one or more primary expressions.
    #[verifier::rlimit(100)]
    pub fn parse_function_application(&mut self) -> (r: ParserResult<Expression>)
        requires
            old(self).wf(),
        ensures
            final(self).wf(),
            expr_outcome(*old(self), *final(self), r),
            r matches Ok(e) ==> e.expr matches Expr::FunctionApplication(fa) && fa.func.expr is Name
                && fa.args@.len() > 0,
            r is Ok <==> app_end(old(self).toks(), old(self).pos()) is Some,
            r matches Ok(e) ==> final(self).pos() == app_end(old(self).toks(), old(self).pos())->Some_0
                && app_tree(old(self).toks(), old(self).pos(), e),
        decreases old(self).toks().len() - old(self).pos(), 2nat,
    {
        let start = self.cursor;
        let ghost t = self.tokens@;
        let func = match self.parse_name() {
            Ok(e) => e,
            Err(f) => {
                return Err(f);
            },
        };
        let mut args: Vec<Expression> = Vec::new();
        let ghost mut ends: Seq<int> = seq![];
        let ghost mut starts: Seq<int> = seq![];
        assert(starts + args_starts(t, start + 1) =~= args_starts(t, start + 1));
        loop
            invariant_except_break
                self.wf(),
                self.toks() == t,
                old(self).toks() == t,
                old(self).pos() == start,
                start < self.cursor,
                t[start as int].kind is Identifier,
                starts.len() == args@.len(),
                forall|i: int| 0 <= i < starts.len() ==> start < #[trigger] starts[i] <= t.len() && prim_tree(t, starts[i], args@[i]),
                args_starts(t, start + 1) == starts + args_starts(t, self.cursor as int),
                args_run(t, start + 1) == args_run(t, self.cursor as int),
                ends.len() == args@.len(),
                forall|i: int| 0 <= i < ends.len() ==> start + 1 < #[trigger] ends[i] <= self.cursor,
                args@.len() == 0 ==> self.cursor == start + 1,
                args@.len() > 0 ==> ends.last() == self.cursor,
                forall|i: int|
                    0 <= i < args@.len() ==> covers(
                        (#[trigger] args@[i]).span,
                        t,
                        if i == 0 {
                            start + 1
                        } else {
                            ends[i - 1]
                        },
                        ends[i],
                    ) && (tokens_ordered(t) ==> expr_nested(args@[i])),
            ensures
                prim_end(t, self.cursor as int) is None,
                self.wf(),
                self.toks() == t,
                old(self).toks() == t,
                old(self).pos() == start,
                start < self.cursor,
                t[start as int].kind is Identifier,
                starts.len() == args@.len(),
                forall|i: int| 0 <= i < starts.len() ==> start < #[trigger] starts[i] <= t.len() && prim_tree(t, starts[i], args@[i]),
                args_starts(t, start + 1) == starts + args_starts(t, self.cursor as int),
                args_run(t, start + 1) == args_run(t, self.cursor as int),
                ends.len() == args@.len(),
                forall|i: int| 0 <= i < ends.len() ==> start + 1 < #[trigger] ends[i] <= self.cursor,
                args@.len() == 0 ==> self.cursor == start + 1,
                args@.len() > 0 ==> ends.last() == self.cursor,
                forall|i: int|
                    0 <= i < args@.len() ==> covers(
                        (#[trigger] args@[i]).span,
                        t,
                        if i == 0 {
                            start + 1
                        } else {
                            ends[i - 1]
                        },
                        ends[i],
                    ) && (tokens_ordered(t) ==> expr_nested(args@[i])),
            decreases t.len() - self.cursor,
        {
            let ghost c = self.cursor as int;
            match self.parse_primary_expression() {
                Ok(arg) => {
                    proof {
                        assert(args_starts(t, c) == seq![c] + args_starts(t, self.cursor as int));
                        assert(starts.push(c) + args_starts(t, self.cursor as int) =~= starts + (seq![c] + args_starts(t, self.cursor as int)));
                        starts = starts.push(c);
                    }
                    args.push(arg);
                    proof {
                        ends = ends.push(self.cursor as int);
                    }
                },
                Err(_) => {
                    break;
                },
            }
        }
        proof {
            assert(args_starts(t, self.cursor as int) =~= Seq::<int>::empty());
            assert(starts + Seq::<int>::empty() =~= starts);
        }
        if args.len() == 0 {
            let f = self.fault();
            self.cursor = start;
            return Err(f);
        }
        let last_end = args[args.len() - 1].span.1;
        proof {
            let k = args@.len() - 1;
            assert(covers(args@[k].span, t, if k == 0 { start + 1 } else { ends[k - 1] }, ends[k]));
            assert(last_end == t[self.cursor - 1].span.1);
        }
        let e = Expression {
            loc: func.loc,
            span: (func.span.0, last_end),
            expr: Expr::FunctionApplication(FunctionApplication { func: Box::new(func), args }),
        };
        proof {
            reveal(tokens_ordered);
            if tokens_ordered(t) {
                let fa = e.expr->FunctionApplication_0;
                assert(t[start as int].span.0 <= t[start as int].span.1);
                assert forall|i: int| 0 <= i < fa.args@.len() implies within(
                    (#[trigger] fa.args@[i]).span,
                    e.span,
                ) && expr_nested(fa.args@[i]) by {
                    let a = if i == 0 {
                        start + 1
                    } else {
                        ends[i - 1]
                    };
                    assert(covers(fa.args@[i].span, t, a, ends[i]));
                    assert(t[a].span.0 <= t[a].span.1);
                    assert(t[ends[i] - 1].span.0 <= t[ends[i] - 1].span.1);
                    if a < ends[i] - 1 {
                        assert(t[a].span.1 <= t[ends[i] - 1].span.0);
                    }
                    assert(t[start as int].span.1 <= t[a].span.0);
                    if ends[i] - 1 < self.cursor - 1 {
                        assert(t[ends[i] - 1].span.1 <= t[self.cursor - 1].span.0);
                    }
                }
                assert forall|i: int| 0 <= i < fa.args@.len() - 1 implies before(
                    (#[trigger] fa.args@[i]).span,
                    fa.args@[i + 1].span,
                ) by {
                    assert(covers(fa.args@[i].span, t, if i == 0 { start + 1 } else { ends[i - 1] }, ends[i]));
                    assert(covers(fa.args@[i + 1].span, t, ends[i], ends[i + 1]));
                    assert(t[ends[i] - 1].span.1 <= t[ends[i] as int].span.0);
                }
                assert(covers(fa.args@[0].span, t, start + 1, ends[0]));
                assert(t[start as int].span.1 <= t[start + 1].span.0);
                assert(expr_nested(e));
            }
        }
        Ok(e)
    }

    /// `primary (OPERATOR primary)*`, folded by operator precedence with two
    /// stacks: before an operator is pushed, one pending operation is folded
    /// when the new operator binds no tighter than the one on top.
    #[verifier::rlimit(100)]
    pub fn parse_binop_expr(&mut self) -> (r: ParserResult<Expression>)
        requires
            old(self).wf(),
        ensures
            final(self).wf(),
            expr_outcome(*old(self), *final(self), r),
            r is Ok <==> binop_end(old(self).toks(), old(self).pos()) is Some,
            r matches Ok(e) ==> final(self).pos() == binop_end(old(self).toks(), old(self).pos())->Some_0
                && binop_tree(old(self).toks(), old(self).pos(), e),
        decreases old(self).toks().len() - old(self).pos(), 2nat,
    {
        let start = self.cursor;
        let ghost t = self.tokens@;
        let first = match self.parse_primary_expression() {
            Ok(e) => e,
            Err(f) => {
                return Err(f);
            },
        };
        let mut output_stack: Vec<Expression> = Vec::new();
        let mut operator_stack: Vec<Operator> = Vec::new();
        let ghost mut bounds: Seq<(int, int)> = seq![(start as int, self.cursor as int)];
        let ghost mut ops: Seq<Operator> = seq![];
        let ghost mut prims: Seq<Expression> = seq![first];
        let ghost mut shapes: Seq<Shape> = seq![Shape::Leaf(0)];
        let ghost q0 = self.cursor as int;
        let ghost mut starts: Seq<int> = seq![start as int];
        proof {
            assert(ops + chain_ops(t, q0) =~= chain_ops(t, q0));
        }
        output_stack.push(first);
        loop
            invariant
                prims.len() == ops.len() + 1,
                q0 == prim_end(t, start as int)->Some_0,
                prim_end(t, start as int) is Some,
                start < q0 <= t.len(),
                chain_from(t, q0) == chain_from(t, self.cursor as int),
                chain_ops(t, q0) == ops + chain_ops(t, self.cursor as int),
                seq![start as int] + chain_starts(t, q0) == starts + chain_starts(t, self.cursor as int),
                starts.len() == prims.len(),
                forall|j: int| 0 <= j < starts.len() ==> start <= #[trigger] starts[j] <= t.len() && prim_tree(t, starts[j], prims[j]),
                (shapes, operator_stack@) == shunt_ops(ops, ops.len()),
                shapes.len() == output_stack@.len(),
                forall|k: int| 0 <= k < shapes.len() ==> tree_matches(#[trigger] output_stack@[k], shapes[k], prims),
                self.wf(),
                self.toks() == t,
                old(self).toks() == t,
                old(self).pos() == start,
                start < self.cursor,
                output_stack@.len() == bounds.len(),
                output_stack@.len() >= 1,
                operator_stack@.len() + 1 == output_stack@.len(),
                bounds[0].0 == start,
                bounds.last().1 == self.cursor,
                forall|k: int|
                    0 <= k < bounds.len() ==> covers(
                        (#[trigger] output_stack@[k]).span,
                        t,
                        bounds[k].0,
                        bounds[k].1,
                    ) && output_stack@[k].loc == t[bounds[k].0].loc && (tokens_ordered(t)
                        ==> expr_nested(output_stack@[k])),
                forall|k: int| 0 <= k < bounds.len() - 1 ==> #[trigger] bounds[k].1 < bounds[k + 1].0,
            ensures
                !(at(t, self.cursor as int) && t[self.cursor as int].kind is Operator),
            decreases t.len() - self.cursor,
        {
            let ghost c = self.cursor as int;
            let op = match self.eat_operator() {
                Ok(op) => op,
                Err(_) => {
                    break;
                },
            };
            proof {
                lemma_shunt_ops_len(ops.push(op), ops.len() + 1);
                assert(shunt_ops(ops.push(op), ops.len() as nat) == shunt_ops(ops, ops.len())) by {
                    lemma_shunt_ops_prefix(ops, op, ops.len());
                }
            }
            if operator_stack.len() > 0 {
                let top = operator_stack[operator_stack.len() - 1];
                if precedence_of(&op) >= precedence_of(&top) {
                    Self::fold_top(&mut output_stack, &mut operator_stack, Ghost(bounds), Ghost(t), Ghost(shapes), Ghost(prims));
                    proof {
                        bounds = bounds.subrange(0, bounds.len() - 2).push(
                            (bounds[bounds.len() - 2].0, bounds.last().1),
                        );
                        shapes = fold_once(shapes, shunt_ops(ops, ops.len()).1).0;
                    }
                }
            }
            let ghost before_primary = self.cursor;
            match self.parse_primary_expression() {
                Ok(e) => {
                    proof {
                        let c2 = self.cursor as int;
                        assert(chain_from(t, c) == chain_from(t, c2));
                        assert(chain_ops(t, c) == seq![op] + chain_ops(t, c2));
                        assert(chain_starts(t, c) == seq![c + 1] + chain_starts(t, c2));
                        assert(ops.push(op) + chain_ops(t, c2) =~= ops + (seq![op] + chain_ops(t, c2)));
                        assert(starts.push(c + 1) + chain_starts(t, c2) =~= starts + (seq![c + 1] + chain_starts(t, c2)));
                        starts = starts.push(c + 1);
                        let new_ops = ops.push(op);
                        let new_prims = prims.push(e);
                        assert forall|k: int| 0 <= k < shapes.len() implies tree_matches(
                            #[trigger] output_stack@[k],
                            shapes[k],
                            new_prims,
                        ) by {
                            lemma_matches_more_prims(output_stack@[k], shapes[k], prims, e);
                        }
                        ops = new_ops;
                        prims = new_prims;
                        shapes = shapes.push(Shape::Leaf(ops.len()));
                    }
                    operator_stack.push(op);
                    output_stack.push(e);
                    proof {
                        bounds = bounds.push((before_primary as int, self.cursor as int));
                        assert(tree_matches(output_stack@[shapes.len() - 1], shapes[shapes.len() - 1], prims));
                    }
                },
                Err(f) => {
                    proof {
                        assert(chain_from(t, c) is None);
                    }
                    self.cursor = start;
                    return Err(f);
                },
            }
        }
        proof {
            assert(chain_ops(t, self.cursor as int) =~= Seq::<Operator>::empty());
            assert(chain_starts(t, self.cursor as int) =~= Seq::<int>::empty());
            assert(ops + Seq::<Operator>::empty() =~= ops);
            assert(starts + Seq::<int>::empty() =~= starts);
            assert(chain_ops_from(t, start as int) == ops);
            assert(chain_leaves(t, start as int, prims));
            assert(binop_end(t, start as int) == Some(self.cursor as int));
        }
        let ghost final_shapes = drain(shapes, operator_stack@);
        proof {
            lemma_drain_len(shapes, operator_stack@);
        }
        while operator_stack.len() > 0
            invariant
                self.wf(),
                self.toks() == t,
                old(self).toks() == t,
                old(self).pos() == start,
                start < self.cursor,
                output_stack@.len() == bounds.len(),
                output_stack@.len() >= 1,
                operator_stack@.len() + 1 == output_stack@.len(),
                bounds[0].0 == start,
                bounds.last().1 == self.cursor,
                forall|k: int|
                    0 <= k < bounds.len() ==> covers(
                        (#[trigger] output_stack@[k]).span,
                        t,
                        bounds[k].0,
                        bounds[k].1,
                    ) && output_stack@[k].loc == t[bounds[k].0].loc && (tokens_ordered(t)
                        ==> expr_nested(output_stack@[k])),
                forall|k: int| 0 <= k < bounds.len() - 1 ==> #[trigger] bounds[k].1 < bounds[k + 1].0,
                shapes.len() == output_stack@.len(),
                drain(shapes, operator_stack@) == final_shapes,
                final_shapes == drain(shunt_ops(ops, ops.len()).0, shunt_ops(ops, ops.len()).1),
                chain_ops_from(t, start as int) == ops,
                chain_leaves(t, start as int, prims),
                binop_end(t, start as int) == Some(self.cursor as int),
                old(self).toks() == t,
                old(self).pos() == start,
                prims.len() == ops.len() + 1,
                forall|k: int| 0 <= k < shapes.len() ==> tree_matches(#[trigger] output_stack@[k], shapes[k], prims),
            decreases operator_stack@.len(),
        {
            let ghost st = operator_stack@;
            Self::fold_top(&mut output_stack, &mut operator_stack, Ghost(bounds), Ghost(t), Ghost(shapes), Ghost(prims));
            proof {
                bounds = bounds.subrange(0, bounds.len() - 2).push(
                    (bounds[bounds.len() - 2].0, bounds.last().1),
                );
                shapes = fold_once(shapes, st).0;
            }
        }
        let e = output_stack.pop().unwrap();
        proof {
            assert(shapes == final_shapes);
            assert(tree_matches(e, shunt(ops), prims));
            assert(chain_leaves(t, start as int, prims));
            assert(tree_matches(e, shunt(chain_ops_from(t, start as int)), prims));
            assert(binop_end(t, start as int) is Some);
            assert(binop_tree(t, start as int, e));
            assert(self.cursor == binop_end(t, start as int)->Some_0);
        }
        Ok(e)
    }

    /// `let IDENT = expr`.
    pub fn parse_name_decl(&mut self) -> (r: ParserResult<Statement>)
        requires
            old(self).wf(),
        ensures
            final(self).wf(),
            stmt_outcome(*old(self), *final(self), r),
            r matches Ok(st) ==> st.stmt is NameDeclaration,
            r is Ok <==> decl_end(old(self).toks(), old(self).pos()) is Some,
            r matches Ok(st) ==> final(self).pos() == decl_end(old(self).toks(), old(self).pos())->Some_0 && decl_tree(old(self).toks(), old(self).pos(), st),
            r matches Err(f) ==> f.loc == decl_fault(old(self).toks(), old(self).pos()),
        decreases old(self).toks().len() - old(self).pos(), 4nat,
    {
        let start = self.cursor;
        let ghost t = self.tokens@;
        let (loc, let_span) = match self.eat_variant(TokenKind::Keyword(Keyword::Let)) {
            Ok(x) => x,
            Err(f) => {
                return Err(f);
            },
        };
        let name = match self.parse_ident() {
            Ok(n) => n,
            Err(f) => {
                self.cursor = start;
                return Err(f);
            },
        };
        match self.eat_variant(TokenKind::Operator(Operator::Equals)) {
            Ok(_) => {},
            Err(f) => {
                self.cursor = start;
                return Err(f);
            },
        }
        let vstart = self.cursor;
        let value = match self.parse_expression() {
            Ok(e) => e,
            Err(f) => {
                self.cursor = start;
                return Err(f);
            },
        };
        let st = Statement {
            loc,
            span: (let_span.0, value.span.1),
            stmt: Stmt::NameDeclaration { name, value },
        };
        proof {
            assert(covers(st.span, t, start as int, self.cursor as int));
            if tokens_ordered(t) {
                lemma_cover_order(t, value.span, vstart as int, self.cursor as int, st.span, start as int, self.cursor as int);
                lemma_cover_order(t, st.span, start as int, self.cursor as int, st.span, start as int, self.cursor as int);
            }
        }
        Ok(st)
    }

    /// `while expr : NEWLINE INDENT block DEDENT`.
    pub fn parse_while(&mut self) -> (r: ParserResult<Statement>)
        requires
            old(self).wf(),
        ensures
            final(self).wf(),
            stmt_outcome(*old(self), *final(self), r),
            r matches Ok(st) ==> st.stmt is WhileStmt,
            r is Ok <==> while_end(old(self).toks(), old(self).pos()) is Some,
            r matches Ok(st) ==> final(self).pos() == while_end(old(self).toks(), old(self).pos())->Some_0 && while_tree(old(self).toks(), old(self).pos(), st),
            r matches Err(f) ==> f.loc == while_fault(old(self).toks(), old(self).pos()),
        decreases old(self).toks().len() - old(self).pos(), 4nat,
    {
        let start = self.cursor;
        let ghost t = self.tokens@;
        let (loc, while_span) = match self.eat_variant(TokenKind::Keyword(Keyword::While)) {
            Ok(x) => x,
            Err(f) => {
                return Err(f);
            },
        };
        let pstart = self.cursor;
        let pred = match self.parse_expression() {
            Ok(e) => e,
            Err(f) => {
                self.cursor = start;
                return Err(f);
            },
        };
        let pend = self.cursor;
        match self.eat_variant(TokenKind::Punctuation(Punctuation::Colon)) {
            Ok(_) => {},
            Err(f) => {
                self.cursor = start;
                return Err(f);
            },
        }
        match self.eat_variant(TokenKind::Newline) {
            Ok(_) => {},
            Err(f) => {
                self.cursor = start;
                return Err(f);
            },
        }
        match self.eat_variant(TokenKind::Indent) {
            Ok(_) => {},
            Err(f) => {
                self.cursor = start;
                return Err(f);
            },
        }
        let bstart = self.cursor;
        let body = match self.parse_stmt_block() {
            Ok(b) => b,
            Err(f) => {
                self.cursor = start;
                return Err(f);
            },
        };
        let bend = self.cursor;
        match self.eat_variant(TokenKind::Dedent) {
            Ok(_) => {},
            Err(f) => {
                self.cursor = start;
                return Err(f);
            },
        }
        let st = Statement { loc, span: (while_span.0, body.span.1), stmt: Stmt::WhileStmt { pred, body } };
        proof {
            let bb = choose|b: int| bstart < b <= bend && #[trigger] covers(body.span, t, bstart as int, b);
            assert(covers(st.span, t, start as int, bb));
            if tokens_ordered(t) {
                lemma_cover_order(t, pred.span, pstart as int, pend as int, st.span, start as int, bb);
                lemma_cover_order(t, pred.span, pstart as int, pend as int, body.span, bstart as int, bb);
                lemma_cover_order(t, body.span, bstart as int, bb, st.span, start as int, bb);
            }
        }
        Ok(st)
    }

    /// A statement: a while loop, or a declaration or an expression ended by a newline.
    pub fn parse_stmt(&mut self) -> (r: ParserResult<Statement>)
        requires
            old(self).wf(),
        ensures
            final(self).wf(),
            stmt_outcome(*old(self), *final(self), r),
            r matches Err(f) ==> f.loc == fault_at(old(self).toks(), old(self).pos()),
            r is Ok <==> stmt_end(old(self).toks(), old(self).pos()) is Some,
            r matches Ok(st) ==> final(self).pos() == stmt_end(old(self).toks(), old(self).pos())->Some_0 && stmt_tree(old(self).toks(), old(self).pos(), st),
        decreases old(self).toks().len() - old(self).pos(), 5nat,
    {
        let start = self.cursor;
        let ghost t = self.tokens@;
        match self.parse_while() {
            Ok(st) => {
                return Ok(st);
            },
            Err(_) => {},
        }
        match self.parse_name_decl() {
            Ok(st) => {
                match self.eat_variant(TokenKind::Newline) {
                    Ok(_) => {
                        return Ok(st);
                    },
                    Err(_) => {
                        self.cursor = start;
                    },
                }
            },
            Err(_) => {},
        }
        match self.parse_expression() {
            Ok(e) => {
                let eend = self.cursor;
                match self.eat_variant(TokenKind::Newline) {
                    Ok(_) => {
                        let st = Statement { loc: e.loc, span: e.span, stmt: Stmt::Expression(e.expr) };
                        proof {
                            assert(covers(st.span, t, start as int, eend as int));
                        }
                        return Ok(st);
                    },
                    Err(_) => {
                        self.cursor = start;
                    },
                }
            },
            Err(_) => {},
        }
        Err(self.fault())
    }

    /// One or more statements.
    #[verifier::rlimit(100)]
    pub fn parse_stmt_block(&mut self) -> (r: ParserResult<StatementBlock>)
        requires
            old(self).wf(),
        ensures
            final(self).wf(),
            block_outcome(*old(self), *final(self), r),
            r is Ok <==> block_end(old(self).toks(), old(self).pos()) is Some,
            r matches Ok(b) ==> final(self).pos() == block_end(old(self).toks(), old(self).pos())->Some_0 && block_tree(old(self).toks(), old(self).pos(), b),
            r matches Err(f) ==> f.loc == fault_at(old(self).toks(), old(self).pos()),
        decreases old(self).toks().len() - old(self).pos(), 6nat,
    {
        let start = self.cursor;
        let ghost t = self.tokens@;
        let first = match self.parse_stmt() {
            Ok(st) => st,
            Err(f) => {
                return Err(f);
            },
        };
        let mut stmts: Vec<Statement> = Vec::new();
        let ghost mut ends: Seq<int> = seq![self.cursor as int];
        let ghost mut bends: Seq<int> = seq![
            choose|e: int| start < e <= self.cursor && #[trigger] covers(first.span, t, start as int, e),
        ];
        let ghost q1 = self.cursor as int;
        let ghost mut sts: Seq<int> = seq![start as int];
        stmts.push(first);
        loop
            invariant
                stmt_end(t, start as int) == Some(q1),
                start < q1 <= t.len(),
                stmts_run(t, q1) == stmts_run(t, self.cursor as int),
                seq![start as int] + stmts_starts(t, q1) == sts + stmts_starts(t, self.cursor as int),
                sts.len() == stmts@.len(),
                forall|j: int| 0 <= j < sts.len() ==> start <= #[trigger] sts[j] <= t.len() && stmt_tree(t, sts[j], stmts@[j]),
                self.wf(),
                self.toks() == t,
                old(self).toks() == t,
                old(self).pos() == start,
                start < self.cursor,
                stmts@.len() > 0,
                ends.len() == stmts@.len(),
                bends.len() == stmts@.len(),
                ends.last() == self.cursor,
                forall|i: int| #![trigger bends[i]]
                    0 <= i < stmts@.len() ==> start_of(start as int, ends, i) < bends[i] <= ends[i]
                        && covers(stmts@[i].span, t, start_of(start as int, ends, i), bends[i])
                        && (tokens_ordered(t) ==> stmt_nested(stmts@[i])),
                stmts@[0].loc == t[start as int].loc,
            ensures
                stmt_end(t, self.cursor as int) is None,
            decreases t.len() - self.cursor,
        {
            let s0 = self.cursor;
            match self.parse_stmt() {
                Ok(st) => {
                    proof {
                        let c2 = self.cursor as int;
                        assert(stmts_starts(t, s0 as int) == seq![s0 as int] + stmts_starts(t, c2));
                        assert(sts.push(s0 as int) + stmts_starts(t, c2) =~= sts + (seq![s0 as int] + stmts_starts(t, c2)));
                        sts = sts.push(s0 as int);
                        let e = choose|e: int| s0 < e <= self.cursor && #[trigger] covers(st.span, t, s0 as int, e);
                        ends = ends.push(self.cursor as int);
                        bends = bends.push(e);
                        assert(start_of(start as int, ends, ends.len() - 1) == s0);
                    }
                    stmts.push(st);
                },
                Err(_) => {
                    break;
                },
            }
        }
        let n = stmts.len();
        let loc = stmts[0].loc;
        let span = (stmts[0].span.0, stmts[n - 1].span.1);
        let b = StatementBlock { loc, span, stmts };
        proof {
            lemma_block_cover(t, b, ends, bends, start as int, self.cursor as int);
            assert(stmts_starts(t, self.cursor as int) =~= Seq::<int>::empty());
            assert(sts + Seq::<int>::empty() =~= sts);
            assert(forall|j: int| 0 <= j < sts.len() ==> b.stmts@[j] == stmts@[j]);
        }
        Ok(b)
    }

    /// A whole program: a block followed by `End`, or `End` alone for an
    /// empty block.
    pub fn parse_program(&mut self) -> (r: ParserResult<StatementBlock>)
        requires
            old(self).wf(),
        ensures
            final(self).wf(),
            final(self).toks() == old(self).toks(),
            r matches Ok(b) ==> (tokens_ordered(old(self).toks()) ==> block_nested(b)),
            r matches Ok(b) ==> (b.stmts@.len() == 0 <==> old(self).pos() < old(self).toks().len()
                && old(self).toks()[old(self).pos()].kind is End),
            r is Ok <==> program_end(old(self).toks(), old(self).pos()) is Some,
            r matches Ok(b) ==> final(self).pos() == program_end(old(self).toks(), old(self).pos())->Some_0,
            r matches Ok(b) ==> (b.stmts@.len() > 0 ==> block_tree(old(self).toks(), old(self).pos(), b)),
    {
        let ghost t = self.tokens@;
        if self.cursor < self.tokens.len() {
            match self.tokens[self.cursor].kind {
                TokenKind::End => {
                    let loc = self.tokens[self.cursor].loc;
                    let span = self.tokens[self.cursor].span;
                    proof {
                        reveal(tokens_ordered);
                        if tokens_ordered(t) {
                            assert(t[self.pos()].span.0 <= t[self.pos()].span.1);
                        }
                    }
                    return Ok(StatementBlock { loc, span, stmts: Vec::new() });
                },
                _ => {},
            }
        }
        let start = self.cursor;
        let block = match self.parse_stmt_block() {
            Ok(b) => b,
            Err(f) => {
                return Err(f);
            },
        };
        match self.eat_variant(TokenKind::End) {
            Ok(_) => Ok(block),
            Err(f) => {
                self.cursor = start;
                Err(f)
            },
        }
    }

    /// Pops an operator and two operands and pushes their `Binop`.
    fn fold_top(
        output_stack: &mut Vec<Expression>,
        operator_stack: &mut Vec<Operator>,
        bounds: Ghost<Seq<(int, int)>>,
        t: Ghost<Seq<Token>>,
        shapes: Ghost<Seq<Shape>>,
        prims: Ghost<Seq<Expression>>,
    )
        requires
            shapes@.len() == old(output_stack)@.len(),
            forall|k: int| 0 <= k < shapes@.len() ==> tree_matches(#[trigger] old(output_stack)@[k], shapes@[k], prims@),
            old(operator_stack)@.len() > 0,
            old(output_stack)@.len() == bounds@.len(),
            old(operator_stack)@.len() < old(output_stack)@.len(),
            forall|k: int|
                0 <= k < bounds@.len() ==> covers(
                    (#[trigger] old(output_stack)@[k]).span,
                    t@,
                    bounds@[k].0,
                    bounds@[k].1,
                ) && old(output_stack)@[k].loc == t@[bounds@[k].0].loc && (tokens_ordered(t@)
                    ==> expr_nested(old(output_stack)@[k])),
            forall|k: int| 0 <= k < bounds@.len() - 1 ==> #[trigger] bounds@[k].1 < bounds@[k + 1].0,
        ensures
            final(operator_stack)@ == old(operator_stack)@.drop_last(),
            final(output_stack)@.len() == old(output_stack)@.len() - 1,
            forall|k: int|
                0 <= k < final(output_stack)@.len() ==> tree_matches(
                    #[trigger] final(output_stack)@[k],
                    fold_once(shapes@, old(operator_stack)@).0[k],
                    prims@,
                ),
            ({
                let nb = bounds@.subrange(0, bounds@.len() - 2).push(
                    (bounds@[bounds@.len() - 2].0, bounds@.last().1),
                );
                &&& forall|k: int|
                    0 <= k < nb.len() ==> covers(
                        (#[trigger] final(output_stack)@[k]).span,
                        t@,
                        nb[k].0,
                        nb[k].1,
                    ) && final(output_stack)@[k].loc == t@[nb[k].0].loc && (tokens_ordered(t@)
                        ==> expr_nested(final(output_stack)@[k]))
                &&& forall|k: int| 0 <= k < nb.len() - 1 ==> #[trigger] nb[k].1 < nb[k + 1].0
            }),
    {
        let ghost n = output_stack@.len();
        let op = operator_stack.pop().unwrap();
        let rhs = output_stack.pop().unwrap();
        let lhs = output_stack.pop().unwrap();
        let span = (lhs.span.0, rhs.span.1);
        let loc = lhs.loc;
        let ghost (la, lb) = bounds@[n - 2];
        let ghost (ra, rb) = bounds@[n - 1];
        proof {
            reveal(tokens_ordered);
            let tt = t@;
            assert(covers(lhs.span, tt, la, lb));
            assert(covers(rhs.span, tt, ra, rb));
            assert(lb < ra);
            if tokens_ordered(tt) {
                assert(tt[la].span.0 <= tt[la].span.1);
                assert(tt[lb - 1].span.0 <= tt[lb - 1].span.1);
                assert(tt[ra].span.0 <= tt[ra].span.1);
                assert(tt[rb - 1].span.0 <= tt[rb - 1].span.1);
                if la < lb - 1 {
                    assert(tt[la].span.1 <= tt[lb - 1].span.0);
                }
                if ra < rb - 1 {
                    assert(tt[ra].span.1 <= tt[rb - 1].span.0);
                }
                assert(tt[lb - 1].span.1 <= tt[ra].span.0);
            }
        }
        output_stack.push(
            Expression {
                loc,
                span,
                expr: Expr::Binop(BinopExpr { op, lhs: Box::new(lhs), rhs: Box::new(rhs) }),
            },
        );
        proof {
            let nb = bounds@.subrange(0, bounds@.len() - 2).push(
                (bounds@[bounds@.len() - 2].0, bounds@.last().1),
            );
            assert forall|k: int| 0 <= k < nb.len() - 1 implies #[trigger] nb[k].1 < nb[k + 1].0 by {
                if k < nb.len() - 2 {
                    assert(bounds@[k].1 < bounds@[k + 1].0);
                } else {
                    assert(bounds@[k].1 < bounds@[k + 1].0);
                }
            }
        }
    }
}

/// Where statement `i` of a block that starts at `start` starts.
pub open spec fn start_of(start: int, ends: Seq<int>, i: int) -> int {
    if i == 0 {
        start
    } else {
        ends[i - 1]
    }
}

/// A block built from statements that cover consecutive token ranges
/// covers their union, and is nested when the tokens are ordered.
proof fn lemma_block_cover(
    t: Seq<Token>,
    b: StatementBlock,
    ends: Seq<int>,
    bends: Seq<int>,
    start: int,
    cursor: int,
)
    requires
        b.stmts@.len() > 0,
        ends.len() == b.stmts@.len(),
        bends.len() == b.stmts@.len(),
        ends.last() == cursor,
        forall|i: int| #![trigger bends[i]]
            0 <= i < b.stmts@.len() ==> start_of(start, ends, i) < bends[i] <= ends[i] && covers(
                b.stmts@[i].span,
                t,
                start_of(start, ends, i),
                bends[i],
            ) && (tokens_ordered(t) ==> stmt_nested(b.stmts@[i])),
        b.span == (b.stmts@[0].span.0, b.stmts@[b.stmts@.len() - 1].span.1),
    ensures
        covers_within(b.span, t, start, cursor),
        tokens_ordered(t) ==> block_nested(b),
{
    let k = b.stmts@.len() - 1;
    assert(start_of(start, ends, k) < bends[k] <= ends[k]);
    assert(start_of(start, ends, 0) < bends[0] <= ends[0]);
    lemma_starts_ordered(start, ends, bends, 0, k);
    let bk = bends[k];
    assert(covers(b.span, t, start, bk));
    if tokens_ordered(t) {
        lemma_cover_order(t, b.span, start, bk, b.span, start, bk);
        assert forall|i: int| 0 <= i < b.stmts@.len() implies within(
            (#[trigger] b.stmts@[i]).span,
            b.span,
        ) && stmt_nested(b.stmts@[i]) by {
            assert(start_of(start, ends, i) < bends[i] <= ends[i]);
            lemma_starts_ordered(start, ends, bends, 0, i);
            lemma_starts_ordered(start, ends, bends, i, k);
            if i < k {
                assert(bends[i] <= ends[i]);
                assert(start_of(start, ends, k) < bends[k]);
            }
            lemma_cover_order(t, b.stmts@[i].span, start_of(start, ends, i), bends[i], b.span, start, bk);
        }
        assert forall|i: int| 0 <= i < b.stmts@.len() - 1 implies before(
            (#[trigger] b.stmts@[i]).span,
            b.stmts@[i + 1].span,
        ) by {
            assert(start_of(start, ends, i) < bends[i] <= ends[i]);
            assert(start_of(start, ends, i + 1) < bends[i + 1] <= ends[i + 1]);
            lemma_cover_order(
                t,
                b.stmts@[i].span,
                start_of(start, ends, i),
                bends[i],
                b.stmts@[i + 1].span,
                start_of(start, ends, i + 1),
                bends[i + 1],
            );
        }
    }
}

/// Later statements start and end later.
proof fn lemma_starts_ordered(start: int, ends: Seq<int>, bends: Seq<int>, i: int, j: int)
    requires
        bends.len() == ends.len(),
        0 <= i <= j < ends.len(),
        forall|k: int| #![trigger bends[k]]
            0 <= k < ends.len() ==> start_of(start, ends, k) < bends[k] <= ends[k],
    ensures
        start_of(start, ends, i) <= start_of(start, ends, j),
        ends[i] <= ends[j],
        start <= start_of(start, ends, j),
        i < j ==> ends[i] <= start_of(start, ends, j),
    decreases j,
{
    if i < j {
        lemma_starts_ordered(start, ends, bends, i, j - 1);
        assert(start_of(start, ends, j) < bends[j] <= ends[j]);
        assert(start_of(start, ends, j - 1) < bends[j - 1] <= ends[j - 1]);
    } else if j > 0 {
        lemma_starts_ordered(start, ends, bends, 0, j - 1);
        assert(start_of(start, ends, j - 1) < bends[j - 1] <= ends[j - 1]);
    }
}

} // verus!
