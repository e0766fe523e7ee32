use crate::ast;
use crate::cst;
use crate::text::{decimal_text, push_signed, signed_text};
use crate::token::operator_char;
use vstd::prelude::*;
use vstd::string::StringExecFns;

verus! {

/// The nodes that drawing an untyped expression adds: one per tree node.
pub open spec fn ast_expr_size(x: ast::Expr) -> nat
    decreases x, 1nat,
{
    match x {
        ast::Expr::IntegerLiteral(_) => 1,
        ast::Expr::Name(_) => 1,
        ast::Expr::Binop(b) => 1 + ast_expr_size(b.lhs.expr) + ast_expr_size(b.rhs.expr),
        ast::Expr::Grouping { expr } => 1 + ast_expr_size(expr.expr),
        ast::Expr::FunctionApplication(fa) => 1 + ast_expr_size(fa.func.expr) + ast_args_size(
            fa,
            fa.args@.len(),
        ),
    }
}

/// The nodes that drawing the first `i` arguments of `fa` adds.
pub open spec fn ast_args_size(fa: ast::FunctionApplication, i: nat) -> nat
    decreases fa, i,
{
    if 0 < i <= fa.args@.len() {
        ast_args_size(fa, (i - 1) as nat) + ast_expr_size(fa.args@[i - 1].expr)
    } else {
        0
    }
}

pub open spec fn ast_stmt_size(s: ast::Statement) -> nat
    decreases s, 1nat,
{
    match s.stmt {
        ast::Stmt::NameDeclaration { value, .. } => 2 + ast_expr_size(value.expr),
        ast::Stmt::WhileStmt { pred, body } => 1 + ast_expr_size(pred.expr) + ast_block_size(
            body,
            body.stmts@.len(),
        ),
        ast::Stmt::Expression(x) => ast_expr_size(x),
    }
}

/// The nodes that drawing the first `i` statements of `b` adds, its own node included.
pub open spec fn ast_block_size(b: ast::StatementBlock, i: nat) -> nat
    decreases b, i,
{
    if 0 < i <= b.stmts@.len() {
        ast_block_size(b, (i - 1) as nat) + ast_stmt_size(b.stmts@[i - 1])
    } else {
        1
    }
}

/// The label of an expression's node: its text, its operator, or its kind.
pub open spec fn ast_expr_label(x: ast::Expr) -> Seq<char> {
    match x {
        ast::Expr::IntegerLiteral(d) => d@,
        ast::Expr::Name(n) => n@,
        ast::Expr::Binop(b) => seq![operator_char(b.op)],
        ast::Expr::Grouping { .. } => "Grouping"@,
        ast::Expr::FunctionApplication(_) => "Function Application"@,
    }
}

/// A graph of numbered, labelled nodes and labelled edges.
pub open spec fn dot_text(nodes: Seq<(i32, String)>, edges: Seq<(i32, i32, String)>, rankdir: bool) -> Seq<char> {
    "digraph {\n"@ + (if rankdir {
        "\trankdir=LR;\n"@
    } else {
        Seq::<char>::empty()
    }) + node_lines(nodes) + edge_lines(edges) + "}\n"@
}

/// `\t<id> [label="<label>"]` per node.
pub open spec fn node_lines(nodes: Seq<(i32, String)>) -> Seq<char>
    decreases nodes.len(),
{
    if nodes.len() == 0 {
        seq![]
    } else {
        node_lines(nodes.drop_last()) + "\t"@ + signed_text(nodes.last().0 as int) + " [label=\""@
            + nodes.last().1@ + "\"]\n"@
    }
}

/// `\t<from>-><to> [label="<label>"]` per edge.
pub open spec fn edge_lines(edges: Seq<(i32, i32, String)>) -> Seq<char>
    decreases edges.len(),
{
    if edges.len() == 0 {
        seq![]
    } else {
        edge_lines(edges.drop_last()) + "\t"@ + signed_text(edges.last().0 as int) + "->"@
            + signed_text(edges.last().1 as int) + " [label=\""@ + edges.last().2@ + "\"]\n"@
    }
}

/// `v1` starts with `v0`.
pub open spec fn keeps<T>(v0: Seq<T>, v1: Seq<T>) -> bool {
    v0.len() <= v1.len() && v1.subrange(0, v0.len() as int) == v0
}

proof fn lemma_keeps_trans<T>(a: Seq<T>, b: Seq<T>, c: Seq<T>)
    requires
        keeps(a, b),
        keeps(b, c),
    ensures
        keeps(a, c),
        forall|i: int| 0 <= i < b.len() ==> #[trigger] c[i] == b[i],
{
    assert forall|i: int| 0 <= i < b.len() implies #[trigger] c[i] == b[i] by {
        assert(c.subrange(0, b.len() as int)[i] == c[i]);
    }
    assert(c.subrange(0, a.len() as int) =~= a) by {
        assert forall|i: int| 0 <= i < a.len() implies c.subrange(0, a.len() as int)[i] == a[i] by {
            assert(b.subrange(0, a.len() as int)[i] == b[i]);
        }
    }
}

proof fn lemma_keeps_push<T>(a: Seq<T>, b: Seq<T>)
    requires
        b.len() == a.len() + 1,
        b.drop_last() == a || exists|x: T| b == a.push(x),
    ensures
        keeps(a, b),
{
    if b.drop_last() == a {
        assert(b.subrange(0, a.len() as int) =~= b.drop_last());
    } else {
        let x = choose|x: T| b == a.push(x);
        assert(b.subrange(0, a.len() as int) =~= a);
    }
}

proof fn lemma_keeps_refl<T>(a: Seq<T>)
    ensures
        keeps(a, a),
{
    assert(a.subrange(0, a.len() as int) =~= a);
}

proof fn lemma_ast_expr_size_pos(x: ast::Expr)
    ensures
        ast_expr_size(x) >= 1,
{
}

proof fn lemma_ast_args_size_mono(fa: ast::FunctionApplication, i: nat, j: nat)
    requires
        i <= j <= fa.args@.len(),
    ensures
        ast_args_size(fa, i) <= ast_args_size(fa, j),
    decreases j,
{
    if i < j {
        lemma_ast_args_size_mono(fa, i, (j - 1) as nat);
    }
}

proof fn lemma_ast_block_size_mono(b: ast::StatementBlock, i: nat, j: nat)
    requires
        i <= j <= b.stmts@.len(),
    ensures
        ast_block_size(b, i) <= ast_block_size(b, j),
    decreases j,
{
    if i < j {
        lemma_ast_block_size_mono(b, i, (j - 1) as nat);
    }
}

/// What drawing a subtree of `size` nodes with root `r` does to a visualizer:
/// the nodes and edges so far are kept, `size` nodes and `size - 1` edges are
/// added, the root first, and the counter moves past them.
pub open spec fn drew(
    n0: Seq<(i32, String)>,
    e0: Seq<(i32, i32, String)>,
    c0: i32,
    n1: Seq<(i32, String)>,
    e1: Seq<(i32, i32, String)>,
    c1: i32,
    r: i32,
    size: nat,
) -> bool {
    &&& keeps(n0, n1)
    &&& keeps(e0, e1)
    &&& n1.len() == n0.len() + size
    &&& e1.len() + 1 == e0.len() + size
    &&& c1 == c0 + size
    &&& r == c0 + 1
    &&& n1[n0.len() as int].0 == r
}

/// `a + b` when it fits in an `i32`.
fn add_sizes(a: i32, b: i32) -> (r: Option<i32>)
    requires
        a >= 0,
        b >= 0,
    ensures
        r matches Some(n) ==> n == a + b,
        r is None ==> a + b > i32::MAX,
{
    let s = a as i64 + b as i64;
    if s > i32::MAX as i64 {
        None
    } else {
        Some(s as i32)
    }
}

/// How many nodes drawing `x` adds, if that fits in an `i32`.
#[verifier::loop_isolation(false)]
pub fn ast_expr_graph_size(x: &ast::Expr) -> (r: Option<i32>)
    ensures
        r matches Some(n) ==> n == ast_expr_size(*x),
        r is None ==> ast_expr_size(*x) > i32::MAX,
    decreases x, 1nat,
{
    match x {
        ast::Expr::IntegerLiteral(_) => Some(1),
        ast::Expr::Name(_) => Some(1),
        ast::Expr::Binop(b) => {
            let l = match ast_expr_graph_size(&b.lhs.expr) {
                Some(n) => n,
                None => {
                    return None;
                },
            };
            let r = match ast_expr_graph_size(&b.rhs.expr) {
                Some(n) => n,
                None => {
                    return None;
                },
            };
            match add_sizes(l, r) {
                Some(n) => add_sizes(n, 1),
                None => None,
            }
        },
        ast::Expr::Grouping { expr } => match ast_expr_graph_size(&expr.expr) {
            Some(n) => add_sizes(n, 1),
            None => None,
        },
        ast::Expr::FunctionApplication(fa) => {
            let mut total = match ast_expr_graph_size(&fa.func.expr) {
                Some(n) => match add_sizes(n, 1) {
                    Some(m) => m,
                    None => {
                        return None;
                    },
                },
                None => {
                    return None;
                },
            };
            let mut i: usize = 0;
            while i < fa.args.len()
                invariant
                    i <= fa.args@.len(),
                    total == 1 + ast_expr_size(fa.func.expr) + ast_args_size(*fa, i as nat),
                    total >= 0,
                decreases fa.args@.len() - i,
            {
                proof {
                    assert(decreases_to!(*x => fa.args@[i as int].expr));
                    lemma_ast_args_size_mono(*fa, (i + 1) as nat, fa.args@.len());
                }
                let a = match ast_expr_graph_size(&fa.args[i].expr) {
                    Some(n) => n,
                    None => {
                        return None;
                    },
                };
                total = match add_sizes(total, a) {
                    Some(n) => n,
                    None => {
                        return None;
                    },
                };
                i = i + 1;
            }
            Some(total)
        },
    }
}

/// How many nodes drawing `s` adds, if that fits in an `i32`.
pub fn ast_stmt_graph_size(s: &ast::Statement) -> (r: Option<i32>)
    ensures
        r matches Some(n) ==> n == ast_stmt_size(*s),
        r is None ==> ast_stmt_size(*s) > i32::MAX,
    decreases s, 1nat,
{
    match &s.stmt {
        ast::Stmt::NameDeclaration { value, .. } => match ast_expr_graph_size(&value.expr) {
            Some(n) => add_sizes(n, 2),
            None => None,
        },
        ast::Stmt::WhileStmt { pred, body } => {
            let p = match ast_expr_graph_size(&pred.expr) {
                Some(n) => n,
                None => {
                    return None;
                },
            };
            let b = match ast_block_graph_size(body) {
                Some(n) => n,
                None => {
                    return None;
                },
            };
            match add_sizes(p, b) {
                Some(n) => add_sizes(n, 1),
                None => None,
            }
        },
        ast::Stmt::Expression(x) => ast_expr_graph_size(x),
    }
}

/// How many nodes drawing `b` adds, if that fits in an `i32`.
pub fn ast_block_graph_size(b: &ast::StatementBlock) -> (r: Option<i32>)
    ensures
        r matches Some(n) ==> n == ast_block_size(*b, b.stmts@.len()),
        r is None ==> ast_block_size(*b, b.stmts@.len()) > i32::MAX,
    decreases b, 0nat,
{
    let mut total: i32 = 1;
    let mut i: usize = 0;
    while i < b.stmts.len()
        invariant
            i <= b.stmts@.len(),
            total == ast_block_size(*b, i as nat),
            total >= 0,
        decreases b.stmts@.len() - i,
    {
        proof {
            assert(decreases_to!(*b => b.stmts@[i as int]));
            lemma_ast_block_size_mono(*b, (i + 1) as nat, b.stmts@.len());
        }
        let a = match ast_stmt_graph_size(&b.stmts[i]) {
            Some(n) => n,
            None => {
                return None;
            },
        };
        total = match add_sizes(total, a) {
            Some(n) => n,
            None => {
                return None;
            },
        };
        i = i + 1;
    }
    Some(total)
}

/// Draws an untyped tree as a Graphviz digraph.
#[derive(Debug)]
pub struct AstGraphvizVisualizer {
    pub nodes: Vec<(i32, String)>,
    pub edges: Vec<(i32, i32, String)>,
    /// The id of the last node made.
    pub counter: i32,
}

impl AstGraphvizVisualizer {
    pub fn new() -> (r: AstGraphvizVisualizer)
        ensures
            r.nodes@.len() == 0,
            r.edges@.len() == 0,
            r.counter == 0,
    {
        AstGraphvizVisualizer { nodes: Vec::new(), edges: Vec::new(), counter: 0 }
    }

    /// Adds a node labelled `label` and returns its id, one above the last.
    #[must_use]
    pub fn new_node(&mut self, label: &str) -> (r: i32)
        requires
            old(self).counter < i32::MAX,
        ensures
            r == old(self).counter + 1,
            final(self).counter == r,
            final(self).nodes@.len() == old(self).nodes@.len() + 1,
            final(self).nodes@.drop_last() == old(self).nodes@,
            final(self).nodes@.last().0 == r,
            final(self).nodes@.last().1@ == label@,
            final(self).edges@ == old(self).edges@,
    {
        self.counter = self.counter + 1;
        self.nodes.push((self.counter, label.to_owned()));
        proof {
            assert(self.nodes@.drop_last() =~= old(self).nodes@);
        }
        self.counter
    }

    /// Adds an edge from `start` to `end` labelled `label`.
    pub fn new_edge(&mut self, start: i32, end: i32, label: &str)
        ensures
            final(self).edges@.drop_last() == old(self).edges@,
            final(self).edges@.len() == old(self).edges@.len() + 1,
            final(self).edges@.last().0 == start && final(self).edges@.last().1 == end,
            final(self).edges@.last().2@ == label@,
            final(self).nodes@ == old(self).nodes@,
            final(self).counter == old(self).counter,
    {
        self.edges.push((start, end, label.to_owned()));
        proof {
            assert(self.edges@.drop_last() =~= old(self).edges@);
        }
    }

    /// Draws a block: a `Block` node with an edge to each statement, numbered from 1.
    pub fn visit_stmt_block(&mut self, block: &ast::StatementBlock) -> (r: i32)
        requires
            old(self).counter >= 0,
            old(self).counter + ast_block_size(*block, block.stmts@.len()) <= i32::MAX,
        ensures
            drew(old(self).nodes@, old(self).edges@, old(self).counter, final(self).nodes@, final(self).edges@, final(self).counter, r, ast_block_size(*block, block.stmts@.len())),
            final(self).nodes@[old(self).nodes@.len() as int].1@ == "Block"@,
        decreases block, 0nat,
    {
        let ghost n0 = self.nodes@;
        let ghost e0 = self.edges@;
        let ghost c0 = self.counter;
        proof {
            lemma_ast_block_size_mono(*block, 0, block.stmts@.len());
        }
        let this = self.new_node("Block");
        proof {
            lemma_keeps_push(n0, self.nodes@);
            lemma_keeps_refl(e0);
        }
        let mut i: usize = 0;
        while i < block.stmts.len()
            invariant
                i <= block.stmts@.len(),
                c0 >= 0,
                c0 + ast_block_size(*block, block.stmts@.len()) <= i32::MAX,
                this == c0 + 1,
                keeps(n0, self.nodes@),
                keeps(e0, self.edges@),
                self.nodes@.len() == n0.len() + ast_block_size(*block, i as nat),
                self.edges@.len() + 1 == e0.len() + ast_block_size(*block, i as nat),
                self.counter == c0 + ast_block_size(*block, i as nat),
                self.nodes@[n0.len() as int] == (this, self.nodes@[n0.len() as int].1),
                self.nodes@[n0.len() as int].1@ == "Block"@,
            decreases block.stmts@.len() - i,
        {
            proof {
                assert(decreases_to!(*block => block.stmts@[i as int]));
                lemma_ast_block_size_mono(*block, (i + 1) as nat, block.stmts@.len());
            }
            let ghost n1 = self.nodes@;
            let ghost e1 = self.edges@;
            let child = self.visit_stmt(&block.stmts[i]);
            let ghost n2 = self.nodes@;
            let label = crate::text::decimal((i + 1) as u128);
            self.new_edge(this, child, label.as_str());
            proof {
                lemma_keeps_trans(n0, n1, n2);
                lemma_keeps_trans(e0, e1, self.edges@.drop_last());
                lemma_keeps_push(self.edges@.drop_last(), self.edges@);
                lemma_keeps_trans(e0, self.edges@.drop_last(), self.edges@);
            }
            i = i + 1;
        }
        this
    }

    /// Draws a statement: a declaration with `name` and `value` edges, a loop
    /// with `pred` and `body` edges, an expression as itself.
    pub fn visit_stmt(&mut self, stmt: &ast::Statement) -> (r: i32)
        requires
            old(self).counter >= 0,
            old(self).counter + ast_stmt_size(*stmt) <= i32::MAX,
        ensures
            drew(old(self).nodes@, old(self).edges@, old(self).counter, final(self).nodes@, final(self).edges@, final(self).counter, r, ast_stmt_size(*stmt)),
        decreases stmt, 0nat,
    {
        let ghost n0 = self.nodes@;
        let ghost e0 = self.edges@;
        match &stmt.stmt {
            ast::Stmt::NameDeclaration { name, value } => {
                proof {
                    lemma_ast_expr_size_pos(value.expr);
                }
                let this = self.new_node("Name Declaration");
                let ghost n1 = self.nodes@;
                let name_node = self.new_node(name.as_str());
                let ghost n2 = self.nodes@;
                let ghost e2 = self.edges@;
                let value_node = self.visit_expression(value);
                let ghost n3 = self.nodes@;
                let ghost e3 = self.edges@;
                self.new_edge(this, name_node, "name");
                let ghost e4 = self.edges@;
                self.new_edge(this, value_node, "value");
                proof {
                    lemma_keeps_push(n0, n1);
                    lemma_keeps_push(n1, n2);
                    lemma_keeps_trans(n0, n1, n2);
                    lemma_keeps_trans(n0, n2, n3);
                    lemma_keeps_push(e3, e4);
                    lemma_keeps_push(e4, self.edges@);
                    lemma_keeps_trans(e0, e3, e4);
                    lemma_keeps_trans(e0, e4, self.edges@);
                }
                this
            },
            ast::Stmt::WhileStmt { pred, body } => {
                proof {
                    lemma_ast_expr_size_pos(pred.expr);
                    lemma_ast_block_size_mono(*body, 0, body.stmts@.len());
                }
                let this = self.new_node("While");
                let ghost n1 = self.nodes@;
                let pred_node = self.visit_expression(pred);
                let ghost n2 = self.nodes@;
                let ghost e2 = self.edges@;
                let body_node = self.visit_stmt_block(body);
                let ghost n3 = self.nodes@;
                let ghost e3 = self.edges@;
                self.new_edge(this, pred_node, "pred");
                let ghost e4 = self.edges@;
                self.new_edge(this, body_node, "body");
                proof {
                    lemma_keeps_push(n0, n1);
                    lemma_keeps_trans(n0, n1, n2);
                    lemma_keeps_trans(n0, n2, n3);
                    lemma_keeps_trans(e0, e2, e3);
                    lemma_keeps_push(e3, e4);
                    lemma_keeps_push(e4, self.edges@);
                    lemma_keeps_trans(e0, e3, e4);
                    lemma_keeps_trans(e0, e4, self.edges@);
                }
                this
            },
            ast::Stmt::Expression(x) => self.visit_expr(x),
        }
    }

    /// Draws an expression: a node with its text, operator or kind, and an edge
    /// to each part (`lhs`, `rhs`, `func`, numbered arguments, an unlabelled one
    /// for a grouping).
    pub fn visit_expr(&mut self, expr: &ast::Expr) -> (r: i32)
        requires
            old(self).counter >= 0,
            old(self).counter + ast_expr_size(*expr) <= i32::MAX,
        ensures
            drew(old(self).nodes@, old(self).edges@, old(self).counter, final(self).nodes@, final(self).edges@, final(self).counter, r, ast_expr_size(*expr)),
            final(self).nodes@[old(self).nodes@.len() as int].1@ == ast_expr_label(*expr),
        decreases expr, 0nat,
    {
        let ghost n0 = self.nodes@;
        let ghost e0 = self.edges@;
        match expr {
            ast::Expr::Name(name) => {
                let r = self.new_node(name.as_str());
                proof {
                    lemma_keeps_push(n0, self.nodes@);
                    lemma_keeps_refl(e0);
                }
                r
            },
            ast::Expr::IntegerLiteral(number) => {
                let r = self.new_node(number.as_str());
                proof {
                    lemma_keeps_push(n0, self.nodes@);
                    lemma_keeps_refl(e0);
                }
                r
            },
            ast::Expr::Binop(binop) => self.visit_binop(binop),
            ast::Expr::FunctionApplication(fa) => self.visit_function_application(fa),
            ast::Expr::Grouping { expr } => {
                proof {
                    lemma_ast_expr_size_pos(expr.expr);
                }
                let this = self.new_node("Grouping");
                let ghost n1 = self.nodes@;
                let grouped = self.visit_expression(expr);
                let ghost n2 = self.nodes@;
                let ghost e2 = self.edges@;
                self.new_edge(this, grouped, "");
                proof {
                    reveal_strlit("");
                    lemma_keeps_push(n0, n1);
                    lemma_keeps_trans(n0, n1, n2);
                    lemma_keeps_push(e2, self.edges@);
                    lemma_keeps_trans(e0, e2, self.edges@);
                }
                this
            },
        }
    }

    /// Draws the expression of `expr`.
    pub fn visit_expression(&mut self, expr: &ast::Expression) -> (r: i32)
        requires
            old(self).counter >= 0,
            old(self).counter + ast_expr_size(expr.expr) <= i32::MAX,
        ensures
            drew(old(self).nodes@, old(self).edges@, old(self).counter, final(self).nodes@, final(self).edges@, final(self).counter, r, ast_expr_size(expr.expr)),
            final(self).nodes@[old(self).nodes@.len() as int].1@ == ast_expr_label(expr.expr),
        decreases expr, 1nat,
    {
        self.visit_expr(&expr.expr)
    }

    /// Draws an application: a node with a `func` edge and numbered argument edges.
    pub fn visit_function_application(&mut self, fa: &ast::FunctionApplication) -> (r: i32)
        requires
            old(self).counter >= 0,
            old(self).counter + 1 + ast_expr_size(fa.func.expr) + ast_args_size(*fa, fa.args@.len()) <= i32::MAX,
        ensures
            drew(old(self).nodes@, old(self).edges@, old(self).counter, final(self).nodes@, final(self).edges@, final(self).counter, r, 1 + ast_expr_size(fa.func.expr) + ast_args_size(*fa, fa.args@.len())),
            final(self).nodes@[old(self).nodes@.len() as int].1@ == "Function Application"@,
        decreases fa, 0nat,
    {
        let ghost n0 = self.nodes@;
        let ghost e0 = self.edges@;
        let ghost c0 = self.counter;
        proof {
            lemma_ast_expr_size_pos(fa.func.expr);
            lemma_ast_args_size_mono(*fa, 0, fa.args@.len());
        }
        let this = self.new_node("Function Application");
        let ghost n1 = self.nodes@;
        let func = self.visit_expression(&fa.func);
        let ghost n2 = self.nodes@;
        let ghost e2 = self.edges@;
        self.new_edge(this, func, "func");
        proof {
            lemma_keeps_push(n0, n1);
            lemma_keeps_trans(n0, n1, n2);
            lemma_keeps_push(e2, self.edges@);
            lemma_keeps_trans(e0, e2, self.edges@);
        }
        let ghost base = 1 + ast_expr_size(fa.func.expr);
        let mut i: usize = 0;
        while i < fa.args.len()
            invariant
                i <= fa.args@.len(),
                c0 >= 0,
                c0 + 1 + ast_expr_size(fa.func.expr) + ast_args_size(*fa, fa.args@.len()) <= i32::MAX,
                base == 1 + ast_expr_size(fa.func.expr),
                this == c0 + 1,
                keeps(n0, self.nodes@),
                keeps(e0, self.edges@),
                self.nodes@.len() == n0.len() + base + ast_args_size(*fa, i as nat),
                self.edges@.len() + 1 == e0.len() + base + ast_args_size(*fa, i as nat),
                self.counter == c0 + base + ast_args_size(*fa, i as nat),
                self.nodes@[n0.len() as int].0 == this,
                self.nodes@[n0.len() as int].1@ == "Function Application"@,
            decreases fa.args@.len() - i,
        {
            proof {
                assert(decreases_to!(*fa => fa.args@[i as int]));
                lemma_ast_args_size_mono(*fa, (i + 1) as nat, fa.args@.len());
            }
            let ghost n1 = self.nodes@;
            let ghost e1 = self.edges@;
            let arg = self.visit_expression(&fa.args[i]);
            let ghost n2 = self.nodes@;
            let label = crate::text::decimal((i + 1) as u128);
            self.new_edge(this, arg, label.as_str());
            proof {
                lemma_keeps_trans(n0, n1, n2);
                lemma_keeps_trans(e0, e1, self.edges@.drop_last());
                lemma_keeps_push(self.edges@.drop_last(), self.edges@);
                lemma_keeps_trans(e0, self.edges@.drop_last(), self.edges@);
            }
            i = i + 1;
        }
        this
    }

    /// Draws an operation: a node with its operator and `lhs`, `rhs` edges.
    pub fn visit_binop(&mut self, binop: &ast::BinopExpr) -> (r: i32)
        requires
            old(self).counter >= 0,
            old(self).counter + 1 + ast_expr_size(binop.lhs.expr) + ast_expr_size(binop.rhs.expr) <= i32::MAX,
        ensures
            drew(old(self).nodes@, old(self).edges@, old(self).counter, final(self).nodes@, final(self).edges@, final(self).counter, r, 1 + ast_expr_size(binop.lhs.expr) + ast_expr_size(binop.rhs.expr)),
            final(self).nodes@[old(self).nodes@.len() as int].1@ == seq![operator_char(binop.op)],
        decreases binop, 0nat,
    {
        let ghost n0 = self.nodes@;
        let ghost e0 = self.edges@;
        proof {
            lemma_ast_expr_size_pos(binop.lhs.expr);
            lemma_ast_expr_size_pos(binop.rhs.expr);
        }
        let this = self.new_node(binop.op.as_str());
        let ghost n1 = self.nodes@;
        let lhs = self.visit_expression(&binop.lhs);
        let ghost n2 = self.nodes@;
        let ghost e2 = self.edges@;
        let rhs = self.visit_expression(&binop.rhs);
        let ghost n3 = self.nodes@;
        let ghost e3 = self.edges@;
        self.new_edge(this, lhs, "lhs");
        let ghost e4 = self.edges@;
        self.new_edge(this, rhs, "rhs");
        proof {
            lemma_keeps_push(n0, n1);
            lemma_keeps_trans(n0, n1, n2);
            lemma_keeps_trans(n0, n2, n3);
            lemma_keeps_trans(e0, e2, e3);
            lemma_keeps_push(e3, e4);
            lemma_keeps_push(e4, self.edges@);
            lemma_keeps_trans(e0, e3, e4);
            lemma_keeps_trans(e0, e4, self.edges@);
        }
        this
    }

    /// The graph in Graphviz's dot syntax, laid out left to right.
    pub fn dump(&self) -> (r: String)
        ensures
            r@ == dot_text(self.nodes@, self.edges@, true),
    {
        let mut out = String::from_str("digraph {\n");
        out.append("\trankdir=LR;\n");
        let ghost head = out@;
        let mut i: usize = 0;
        while i < self.nodes.len()
            invariant
                i <= self.nodes@.len(),
                out@ == head + node_lines(self.nodes@.subrange(0, i as int)),
            decreases self.nodes@.len() - i,
        {
            let ghost before = out@;
            out.append("\t");
            push_signed(&mut out, self.nodes[i].0);
            out.append(" [label=\"");
            out.append(self.nodes[i].1.as_str());
            out.append("\"]\n");
            proof {
                let s = self.nodes@.subrange(0, i + 1);
                assert(s.drop_last() =~= self.nodes@.subrange(0, i as int));
                assert(out@ =~= head + node_lines(s));
            }
            i = i + 1;
        }
        let ghost mid = out@;
        let mut j: usize = 0;
        while j < self.edges.len()
            invariant
                j <= self.edges@.len(),
                out@ == mid + edge_lines(self.edges@.subrange(0, j as int)),
            decreases self.edges@.len() - j,
        {
            out.append("\t");
            push_signed(&mut out, self.edges[j].0);
            out.append("->");
            push_signed(&mut out, self.edges[j].1);
            out.append(" [label=\"");
            out.append(self.edges[j].2.as_str());
            out.append("\"]\n");
            proof {
                let s = self.edges@.subrange(0, j + 1);
                assert(s.drop_last() =~= self.edges@.subrange(0, j as int));
                assert(out@ =~= mid + edge_lines(s));
            }
            j = j + 1;
        }
        out.append("}\n");
        proof {
            assert(self.nodes@.subrange(0, self.nodes@.len() as int) =~= self.nodes@);
            assert(self.edges@.subrange(0, self.edges@.len() as int) =~= self.edges@);
            assert(out@ =~= dot_text(self.nodes@, self.edges@, true));
        }
        out
    }
}

/// The nodes that drawing a typed expression adds: two per tree node, the
/// node and its type.
pub open spec fn cst_expr_size(e: cst::Expression) -> nat
    decreases e, crate::solver::arity(e) + 1,
{
    2 + match e.expr {
        cst::Expr::Integer(_) => 0,
        cst::Expr::Name(_) => 0,
        cst::Expr::Binop(b) => cst_expr_size(*b.lhs) + cst_expr_size(*b.rhs),
        cst::Expr::Grouping { expr } => cst_expr_size(*expr),
        cst::Expr::FunctionApplication { func, args } => cst_expr_size(*func) + cst_args_size(e, args@.len()),
    }
}

/// The nodes that drawing the first `i` arguments of application `e` adds.
pub open spec fn cst_args_size(e: cst::Expression, i: nat) -> nat
    decreases e, i,
{
    match e.expr {
        cst::Expr::FunctionApplication { args, .. } => if 0 < i <= args@.len() {
            cst_args_size(e, (i - 1) as nat) + cst_expr_size(args@[i - 1])
        } else {
            0
        },
        _ => 0,
    }
}

pub open spec fn cst_stmt_size(s: cst::Statement) -> nat
    decreases s, 1nat,
{
    match s.stmt {
        cst::Stmt::NameDeclaration { value, .. } => 2 + cst_expr_size(value),
        cst::Stmt::While { pred, body } => 1 + cst_expr_size(pred) + cst_block_size(body, body.stmts@.len()),
        cst::Stmt::Expression(e) => cst_expr_size(e),
    }
}

pub open spec fn cst_block_size(b: cst::StatementBlock, i: nat) -> nat
    decreases b, i,
{
    if 0 < i <= b.stmts@.len() {
        cst_block_size(b, (i - 1) as nat) + cst_stmt_size(b.stmts@[i - 1])
    } else {
        1
    }
}

/// The label of a type node.
pub open spec fn type_label(t: cst::Type) -> Seq<char> {
    match t {
        cst::Type::Variable(v) => seq!['T'] + decimal_text(v as nat),
        cst::Type::Integer => "Integer"@,
        cst::Type::Bool => "Bool"@,
    }
}

/// Draws a typed tree as a Graphviz digraph; type nodes are drawn in gray.
#[derive(Debug)]
pub struct CstGraphvizVisualizer {
    pub nodes: Vec<(i32, String)>,
    pub type_nodes: Vec<(i32, String)>,
    pub edges: Vec<(i32, i32, String)>,
    /// The id of the last node made, of either kind.
    pub counter: i32,
}

/// What drawing a typed subtree of `size` nodes, root `r`, does: nodes, type
/// nodes and edges so far are kept, `size` nodes of both kinds and `size - 1`
/// edges are added, and the counter moves past them.
pub open spec fn drew_typed(
    old_v: CstGraphvizVisualizer,
    new_v: CstGraphvizVisualizer,
    r: i32,
    size: nat,
) -> bool {
    &&& keeps(old_v.nodes@, new_v.nodes@)
    &&& keeps(old_v.type_nodes@, new_v.type_nodes@)
    &&& keeps(old_v.edges@, new_v.edges@)
    &&& new_v.nodes@.len() + new_v.type_nodes@.len() == old_v.nodes@.len() + old_v.type_nodes@.len() + size
    &&& new_v.edges@.len() + 1 == old_v.edges@.len() + size
    &&& new_v.counter == old_v.counter + size
    &&& r == old_v.counter + 1
}

proof fn lemma_drew_typed_trans(
    a: CstGraphvizVisualizer,
    b: CstGraphvizVisualizer,
    c: CstGraphvizVisualizer,
)
    requires
        keeps(a.nodes@, b.nodes@),
        keeps(a.type_nodes@, b.type_nodes@),
        keeps(a.edges@, b.edges@),
        keeps(b.nodes@, c.nodes@),
        keeps(b.type_nodes@, c.type_nodes@),
        keeps(b.edges@, c.edges@),
    ensures
        keeps(a.nodes@, c.nodes@),
        keeps(a.type_nodes@, c.type_nodes@),
        keeps(a.edges@, c.edges@),
{
    lemma_keeps_trans(a.nodes@, b.nodes@, c.nodes@);
    lemma_keeps_trans(a.type_nodes@, b.type_nodes@, c.type_nodes@);
    lemma_keeps_trans(a.edges@, b.edges@, c.edges@);
}

proof fn lemma_cst_expr_size_pos(e: cst::Expression)
    ensures
        cst_expr_size(e) >= 2,
{
}

proof fn lemma_cst_args_size_mono(e: cst::Expression, i: nat, j: nat)
    requires
        i <= j <= crate::solver::arity(e),
    ensures
        cst_args_size(e, i) <= cst_args_size(e, j),
    decreases j,
{
    if i < j {
        lemma_cst_args_size_mono(e, i, (j - 1) as nat);
    }
}

proof fn lemma_cst_block_size_mono(b: cst::StatementBlock, i: nat, j: nat)
    requires
        i <= j <= b.stmts@.len(),
    ensures
        cst_block_size(b, i) <= cst_block_size(b, j),
    decreases j,
{
    if i < j {
        lemma_cst_block_size_mono(b, i, (j - 1) as nat);
    }
}

/// Whether `id` is the id of one of `type_nodes`.
pub open spec fn is_type_node(type_nodes: Seq<(i32, String)>, id: i32) -> bool {
    exists|i: int| 0 <= i < type_nodes.len() && (#[trigger] type_nodes[i]).0 == id
}

/// `\t<id> [label="<label>" shape=none color=gray fontcolor=gray]` per type node.
pub open spec fn type_node_lines(nodes: Seq<(i32, String)>) -> Seq<char>
    decreases nodes.len(),
{
    if nodes.len() == 0 {
        seq![]
    } else {
        type_node_lines(nodes.drop_last()) + "\t"@ + signed_text(nodes.last().0 as int)
            + " [label=\""@ + nodes.last().1@ + "\" shape=none color=gray fontcolor=gray]\n"@
    }
}

/// Per edge: a gray arrow into a type node, else a labelled one.
pub open spec fn typed_edge_lines(edges: Seq<(i32, i32, String)>, type_nodes: Seq<(i32, String)>) -> Seq<char>
    decreases edges.len(),
{
    if edges.len() == 0 {
        seq![]
    } else {
        let e = edges.last();
        typed_edge_lines(edges.drop_last(), type_nodes) + "\t"@ + signed_text(e.0 as int) + "->"@
            + signed_text(e.1 as int) + if is_type_node(type_nodes, e.1) {
            " [arrowhead=onormal color=gray fontcolor=gray]\n"@
        } else {
            " [label=\""@ + e.2@ + "\"]\n"@
        }
    }
}

/// How many nodes drawing `e` adds, if that fits in an `i32`.
pub fn cst_expr_graph_size(e: &cst::Expression) -> (r: Option<i32>)
    ensures
        r matches Some(n) ==> n == cst_expr_size(*e),
        r is None ==> cst_expr_size(*e) > i32::MAX,
    decreases e, crate::solver::arity(*e) + 1,
{
    let inner = match &e.expr {
        cst::Expr::Integer(_) => 0,
        cst::Expr::Name(_) => 0,
        cst::Expr::Binop(b) => {
            let l = match cst_expr_graph_size(&b.lhs) {
                Some(n) => n,
                None => {
                    return None;
                },
            };
            let r = match cst_expr_graph_size(&b.rhs) {
                Some(n) => n,
                None => {
                    return None;
                },
            };
            match add_sizes(l, r) {
                Some(n) => n,
                None => {
                    return None;
                },
            }
        },
        cst::Expr::Grouping { expr } => match cst_expr_graph_size(expr) {
            Some(n) => n,
            None => {
                return None;
            },
        },
        cst::Expr::FunctionApplication { func, args } => {
            let mut total = match cst_expr_graph_size(func) {
                Some(n) => n,
                None => {
                    return None;
                },
            };
            let mut i: usize = 0;
            while i < args.len()
                invariant
                    i <= args@.len(),
                    e.expr matches cst::Expr::FunctionApplication { args: a0, func: f0 } && a0 == *args && f0 == *func,
                    total == cst_expr_size(**func) + cst_args_size(*e, i as nat),
                    total >= 0,
                decreases args@.len() - i,
            {
                proof {
                    assert(decreases_to!(*e => args@[i as int]));
                    lemma_cst_args_size_mono(*e, (i + 1) as nat, args@.len());
                }
                let a = match cst_expr_graph_size(&args[i]) {
                    Some(n) => n,
                    None => {
                        return None;
                    },
                };
                total = match add_sizes(total, a) {
                    Some(n) => n,
                    None => {
                        return None;
                    },
                };
                i = i + 1;
            }
            total
        },
    };
    add_sizes(inner, 2)
}

/// How many nodes drawing `s` adds, if that fits in an `i32`.
pub fn cst_stmt_graph_size(s: &cst::Statement) -> (r: Option<i32>)
    ensures
        r matches Some(n) ==> n == cst_stmt_size(*s),
        r is None ==> cst_stmt_size(*s) > i32::MAX,
    decreases s, 1nat,
{
    match &s.stmt {
        cst::Stmt::NameDeclaration { value, .. } => match cst_expr_graph_size(value) {
            Some(n) => add_sizes(n, 2),
            None => None,
        },
        cst::Stmt::While { pred, body } => {
            let p = match cst_expr_graph_size(pred) {
                Some(n) => n,
                None => {
                    return None;
                },
            };
            let b = match cst_block_graph_size(body) {
                Some(n) => n,
                None => {
                    return None;
                },
            };
            match add_sizes(p, b) {
                Some(n) => add_sizes(n, 1),
                None => None,
            }
        },
        cst::Stmt::Expression(x) => cst_expr_graph_size(x),
    }
}

/// How many nodes drawing `b` adds, if that fits in an `i32`.
pub fn cst_block_graph_size(b: &cst::StatementBlock) -> (r: Option<i32>)
    ensures
        r matches Some(n) ==> n == cst_block_size(*b, b.stmts@.len()),
        r is None ==> cst_block_size(*b, b.stmts@.len()) > i32::MAX,
    decreases b, 0nat,
{
    let mut total: i32 = 1;
    let mut i: usize = 0;
    while i < b.stmts.len()
        invariant
            i <= b.stmts@.len(),
            total == cst_block_size(*b, i as nat),
            total >= 0,
        decreases b.stmts@.len() - i,
    {
        proof {
            assert(decreases_to!(*b => b.stmts@[i as int]));
            lemma_cst_block_size_mono(*b, (i + 1) as nat, b.stmts@.len());
        }
        let a = match cst_stmt_graph_size(&b.stmts[i]) {
            Some(n) => n,
            None => {
                return None;
            },
        };
        total = match add_sizes(total, a) {
            Some(n) => n,
            None => {
                return None;
            },
        };
        i = i + 1;
    }
    Some(total)
}

impl CstGraphvizVisualizer {
    /// Whether `id` names a type node.
    fn is_type_node_exec(&self, id: i32) -> (r: bool)
        ensures
            r == is_type_node(self.type_nodes@, id),
    {
        let mut i: usize = 0;
        while i < self.type_nodes.len()
            invariant
                i <= self.type_nodes@.len(),
                forall|j: int| 0 <= j < i ==> (#[trigger] self.type_nodes@[j]).0 != id,
            decreases self.type_nodes@.len() - i,
        {
            if self.type_nodes[i].0 == id {
                return true;
            }
            i = i + 1;
        }
        false
    }

    /// The graph in Graphviz's dot syntax: tree nodes, gray type nodes, then edges.
    pub fn dump(&self) -> (r: String)
        ensures
            r@ == "digraph {\n"@ + node_lines(self.nodes@) + type_node_lines(self.type_nodes@)
                + typed_edge_lines(self.edges@, self.type_nodes@) + "}\n"@,
    {
        let mut out = String::from_str("digraph {\n");
        let ghost head = out@;
        let mut i: usize = 0;
        while i < self.nodes.len()
            invariant
                i <= self.nodes@.len(),
                out@ == head + node_lines(self.nodes@.subrange(0, i as int)),
            decreases self.nodes@.len() - i,
        {
            out.append("\t");
            push_signed(&mut out, self.nodes[i].0);
            out.append(" [label=\"");
            out.append(self.nodes[i].1.as_str());
            out.append("\"]\n");
            proof {
                let s = self.nodes@.subrange(0, i + 1);
                assert(s.drop_last() =~= self.nodes@.subrange(0, i as int));
                assert(out@ =~= head + node_lines(s));
            }
            i = i + 1;
        }
        let ghost h2 = out@;
        let mut k: usize = 0;
        while k < self.type_nodes.len()
            invariant
                k <= self.type_nodes@.len(),
                out@ == h2 + type_node_lines(self.type_nodes@.subrange(0, k as int)),
            decreases self.type_nodes@.len() - k,
        {
            out.append("\t");
            push_signed(&mut out, self.type_nodes[k].0);
            out.append(" [label=\"");
            out.append(self.type_nodes[k].1.as_str());
            out.append("\" shape=none color=gray fontcolor=gray]\n");
            proof {
                let s = self.type_nodes@.subrange(0, k + 1);
                assert(s.drop_last() =~= self.type_nodes@.subrange(0, k as int));
                assert(out@ =~= h2 + type_node_lines(s));
            }
            k = k + 1;
        }
        let ghost h3 = out@;
        let mut j: usize = 0;
        while j < self.edges.len()
            invariant
                j <= self.edges@.len(),
                out@ == h3 + typed_edge_lines(self.edges@.subrange(0, j as int), self.type_nodes@),
            decreases self.edges@.len() - j,
        {
            out.append("\t");
            push_signed(&mut out, self.edges[j].0);
            out.append("->");
            push_signed(&mut out, self.edges[j].1);
            if self.is_type_node_exec(self.edges[j].1) {
                out.append(" [arrowhead=onormal color=gray fontcolor=gray]\n");
            } else {
                out.append(" [label=\"");
                out.append(self.edges[j].2.as_str());
                out.append("\"]\n");
            }
            proof {
                let s = self.edges@.subrange(0, j + 1);
                assert(s.drop_last() =~= self.edges@.subrange(0, j as int));
                assert(out@ =~= h3 + typed_edge_lines(s, self.type_nodes@));
            }
            j = j + 1;
        }
        out.append("}\n");
        proof {
            assert(self.nodes@.subrange(0, self.nodes@.len() as int) =~= self.nodes@);
            assert(self.type_nodes@.subrange(0, self.type_nodes@.len() as int) =~= self.type_nodes@);
            assert(self.edges@.subrange(0, self.edges@.len() as int) =~= self.edges@);
            assert(out@ =~= "digraph {\n"@ + node_lines(self.nodes@) + type_node_lines(self.type_nodes@)
                + typed_edge_lines(self.edges@, self.type_nodes@) + "}\n"@);
        }
        out
    }

    pub fn new() -> (r: CstGraphvizVisualizer)
        ensures
            r.nodes@.len() == 0,
            r.type_nodes@.len() == 0,
            r.edges@.len() == 0,
            r.counter == 0,
    {
        CstGraphvizVisualizer { nodes: Vec::new(), type_nodes: Vec::new(), edges: Vec::new(), counter: 0 }
    }

    /// Adds a tree node labelled `label` and returns its id, one above the last.
    #[must_use]
    pub fn new_node(&mut self, label: &str) -> (r: i32)
        requires
            old(self).counter < i32::MAX,
        ensures
            r == old(self).counter + 1,
            final(self).counter == r,
            final(self).nodes@ == old(self).nodes@.push((r, final(self).nodes@.last().1)),
            final(self).nodes@.last().1@ == label@,
            final(self).type_nodes@ == old(self).type_nodes@,
            final(self).edges@ == old(self).edges@,
    {
        self.counter = self.counter + 1;
        self.nodes.push((self.counter, label.to_owned()));
        self.counter
    }

    /// Adds a type node labelled `typename` and returns its id, one above the last.
    pub fn new_type_node(&mut self, typename: &str) -> (r: i32)
        requires
            old(self).counter < i32::MAX,
        ensures
            r == old(self).counter + 1,
            final(self).counter == r,
            final(self).type_nodes@ == old(self).type_nodes@.push((r, final(self).type_nodes@.last().1)),
            final(self).type_nodes@.last().1@ == typename@,
            final(self).nodes@ == old(self).nodes@,
            final(self).edges@ == old(self).edges@,
    {
        self.counter = self.counter + 1;
        self.type_nodes.push((self.counter, typename.to_owned()));
        self.counter
    }

    /// Adds a type node for `ty`: `T<id>` for a variable, else the type's name.
    #[must_use]
    pub fn get_type_node(&mut self, ty: &cst::Type) -> (r: i32)
        requires
            old(self).counter < i32::MAX,
        ensures
            r == old(self).counter + 1,
            final(self).counter == r,
            final(self).type_nodes@ == old(self).type_nodes@.push((r, final(self).type_nodes@.last().1)),
            final(self).type_nodes@.last().1@ == type_label(*ty),
            final(self).nodes@ == old(self).nodes@,
            final(self).edges@ == old(self).edges@,
    {
        match ty {
            cst::Type::Variable(var) => {
                let mut label = String::from_str("T");
                proof {
                    reveal_strlit("T");
                }
                crate::text::push_decimal(&mut label, *var);
                self.new_type_node(label.as_str())
            },
            cst::Type::Integer => self.new_type_node("Integer"),
            cst::Type::Bool => self.new_type_node("Bool"),
        }
    }

    /// Adds an edge from `start` to `end` labelled `label`.
    pub fn new_edge(&mut self, start: i32, end: i32, label: &str)
        ensures
            final(self).edges@ == old(self).edges@.push((start, end, final(self).edges@.last().2)),
            final(self).edges@.last().2@ == label@,
            final(self).nodes@ == old(self).nodes@,
            final(self).type_nodes@ == old(self).type_nodes@,
            final(self).counter == old(self).counter,
    {
        self.edges.push((start, end, label.to_owned()));
    }

    /// Draws a block: a `Block` node with an edge to each statement, numbered from 1.
    pub fn visit_stmt_block(&mut self, block: &cst::StatementBlock) -> (r: i32)
        requires
            old(self).counter >= 0,
            old(self).counter + cst_block_size(*block, block.stmts@.len()) <= i32::MAX,
        ensures
            drew_typed(*old(self), *final(self), r, cst_block_size(*block, block.stmts@.len())),
        decreases block, 0nat,
    {
        let ghost v0 = *self;
        proof {
            lemma_cst_block_size_mono(*block, 0, block.stmts@.len());
        }
        let this = self.new_node("Block");
        proof {
            lemma_keeps_push(v0.nodes@, self.nodes@);
            lemma_keeps_refl(v0.type_nodes@);
            lemma_keeps_refl(v0.edges@);
        }
        let mut i: usize = 0;
        while i < block.stmts.len()
            invariant
                i <= block.stmts@.len(),
                v0.counter >= 0,
                v0.counter + cst_block_size(*block, block.stmts@.len()) <= i32::MAX,
                this == v0.counter + 1,
                keeps(v0.nodes@, self.nodes@),
                keeps(v0.type_nodes@, self.type_nodes@),
                keeps(v0.edges@, self.edges@),
                self.nodes@.len() + self.type_nodes@.len() == v0.nodes@.len() + v0.type_nodes@.len() + cst_block_size(*block, i as nat),
                self.edges@.len() + 1 == v0.edges@.len() + cst_block_size(*block, i as nat),
                self.counter == v0.counter + cst_block_size(*block, i as nat),
            decreases block.stmts@.len() - i,
        {
            proof {
                assert(decreases_to!(*block => block.stmts@[i as int]));
                lemma_cst_block_size_mono(*block, (i + 1) as nat, block.stmts@.len());
            }
            let ghost v1 = *self;
            let child = self.visit_stmt(&block.stmts[i]);
            let ghost v2 = *self;
            let label = crate::text::decimal((i + 1) as u128);
            self.new_edge(this, child, label.as_str());
            proof {
                lemma_keeps_push(v2.edges@, self.edges@);
                lemma_keeps_refl(self.nodes@);
                lemma_keeps_refl(self.type_nodes@);
                lemma_drew_typed_trans(v0, v1, v2);
                lemma_drew_typed_trans(v0, v2, *self);
            }
            i = i + 1;
        }
        this
    }

    /// Draws a statement: a declaration with `name` and `value` edges, a loop
    /// with `pred` and `body` edges, an expression as itself.
    pub fn visit_stmt(&mut self, stmt: &cst::Statement) -> (r: i32)
        requires
            old(self).counter >= 0,
            old(self).counter + cst_stmt_size(*stmt) <= i32::MAX,
        ensures
            drew_typed(*old(self), *final(self), r, cst_stmt_size(*stmt)),
        decreases stmt, 0nat,
    {
        let ghost v0 = *self;
        match &stmt.stmt {
            cst::Stmt::NameDeclaration { name, value } => {
                proof {
                    lemma_cst_expr_size_pos(*value);
                }
                let this = self.new_node("Name Declaration");
                let name_node = self.new_node(name.as_str());
                let ghost v1 = *self;
                let value_node = self.visit_expression(value);
                let ghost v2 = *self;
                self.new_edge(this, name_node, "name");
                let ghost v3 = *self;
                self.new_edge(this, value_node, "value");
                proof {
                    lemma_keeps_push(v0.nodes@, v0.nodes@.push((this, v1.nodes@[v0.nodes@.len() as int].1)));
                    lemma_keeps_push(v0.nodes@.push((this, v1.nodes@[v0.nodes@.len() as int].1)), v1.nodes@);
                    lemma_keeps_trans(v0.nodes@, v0.nodes@.push((this, v1.nodes@[v0.nodes@.len() as int].1)), v1.nodes@);
                    lemma_keeps_refl(v0.type_nodes@);
                    lemma_keeps_refl(v0.edges@);
                    lemma_drew_typed_trans(v0, v1, v2);
                    lemma_keeps_push(v2.edges@, v3.edges@);
                    lemma_keeps_push(v3.edges@, self.edges@);
                    lemma_keeps_refl(v2.nodes@);
                    lemma_keeps_refl(v2.type_nodes@);
                    lemma_drew_typed_trans(v0, v2, v3);
                    lemma_keeps_refl(v3.nodes@);
                    lemma_keeps_refl(v3.type_nodes@);
                    lemma_drew_typed_trans(v0, v3, *self);
                }
                this
            },
            cst::Stmt::While { pred, body } => {
                proof {
                    lemma_cst_expr_size_pos(*pred);
                    lemma_cst_block_size_mono(*body, 0, body.stmts@.len());
                }
                let this = self.new_node("While");
                let ghost v1 = *self;
                let pred_node = self.visit_expression(pred);
                let ghost v2 = *self;
                let body_node = self.visit_stmt_block(body);
                let ghost v3 = *self;
                self.new_edge(this, pred_node, "pred");
                let ghost v4 = *self;
                self.new_edge(this, body_node, "body");
                proof {
                    lemma_keeps_push(v0.nodes@, v1.nodes@);
                    lemma_keeps_refl(v0.type_nodes@);
                    lemma_keeps_refl(v0.edges@);
                    lemma_drew_typed_trans(v0, v1, v2);
                    lemma_drew_typed_trans(v0, v2, v3);
                    lemma_keeps_push(v3.edges@, v4.edges@);
                    lemma_keeps_push(v4.edges@, self.edges@);
                    lemma_keeps_refl(v3.nodes@);
                    lemma_keeps_refl(v3.type_nodes@);
                    lemma_drew_typed_trans(v0, v3, v4);
                    lemma_drew_typed_trans(v0, v4, *self);
                }
                this
            },
            cst::Stmt::Expression(e) => self.visit_expression(e),
        }
    }

    /// Draws an expression: a node with its text, operator or kind, an edge to
    /// each part, and a gray edge to a node for its type.
    pub fn visit_expression(&mut self, expr: &cst::Expression) -> (r: i32)
        requires
            old(self).counter >= 0,
            old(self).counter + cst_expr_size(*expr) <= i32::MAX,
        ensures
            drew_typed(*old(self), *final(self), r, cst_expr_size(*expr)),
        decreases expr, 0nat,
    {
        let ghost v0 = *self;
        let this = match &expr.expr {
            cst::Expr::Name(name) => {
                let t = self.new_node(name.as_str());
                proof {
                    lemma_keeps_push(v0.nodes@, self.nodes@);
                    lemma_keeps_refl(v0.type_nodes@);
                    lemma_keeps_refl(v0.edges@);
                }
                t
            },
            cst::Expr::Integer(number) => {
                let t = self.new_node(number.as_str());
                proof {
                    lemma_keeps_push(v0.nodes@, self.nodes@);
                    lemma_keeps_refl(v0.type_nodes@);
                    lemma_keeps_refl(v0.edges@);
                }
                t
            },
            cst::Expr::Binop(binop) => self.visit_binop(binop),
            cst::Expr::Grouping { expr: inner } => {
                proof {
                    lemma_cst_expr_size_pos(**inner);
                }
                let t = self.new_node("Grouping");
                let ghost v1 = *self;
                let grouped = self.visit_expression(inner);
                let ghost v2 = *self;
                self.new_edge(t, grouped, "");
                proof {
                    lemma_keeps_push(v0.nodes@, v1.nodes@);
                    lemma_keeps_refl(v0.type_nodes@);
                    lemma_keeps_refl(v0.edges@);
                    lemma_drew_typed_trans(v0, v1, v2);
                    lemma_keeps_push(v2.edges@, self.edges@);
                    lemma_keeps_refl(v2.nodes@);
                    lemma_keeps_refl(v2.type_nodes@);
                    lemma_drew_typed_trans(v0, v2, *self);
                }
                t
            },
            cst::Expr::FunctionApplication { func, args } => {
                proof {
                    lemma_cst_expr_size_pos(**func);
                    lemma_cst_args_size_mono(*expr, 0, args@.len());
                }
                let t = self.new_node("Function Application");
                let ghost v1 = *self;
                let f = self.visit_expression(func);
                let ghost v2 = *self;
                self.new_edge(t, f, "func");
                proof {
                    lemma_keeps_push(v0.nodes@, v1.nodes@);
                    lemma_keeps_refl(v0.type_nodes@);
                    lemma_keeps_refl(v0.edges@);
                    lemma_drew_typed_trans(v0, v1, v2);
                    lemma_keeps_push(v2.edges@, self.edges@);
                    lemma_keeps_refl(v2.nodes@);
                    lemma_keeps_refl(v2.type_nodes@);
                    lemma_drew_typed_trans(v0, v2, *self);
                }
                let ghost base = 1 + cst_expr_size(**func);
                let mut i: usize = 0;
                while i < args.len()
                    invariant
                        i <= args@.len(),
                        expr.expr matches cst::Expr::FunctionApplication { args: a0, func: f0 } && a0 == *args && f0 == *func,
                        v0.counter >= 0,
                        v0.counter + cst_expr_size(*expr) <= i32::MAX,
                        base == 1 + cst_expr_size(**func),
                        t == v0.counter + 1,
                        keeps(v0.nodes@, self.nodes@),
                        keeps(v0.type_nodes@, self.type_nodes@),
                        keeps(v0.edges@, self.edges@),
                        self.nodes@.len() + self.type_nodes@.len() == v0.nodes@.len() + v0.type_nodes@.len() + base + cst_args_size(*expr, i as nat),
                        self.edges@.len() + 1 == v0.edges@.len() + base + cst_args_size(*expr, i as nat),
                        self.counter == v0.counter + base + cst_args_size(*expr, i as nat),
                    decreases args@.len() - i,
                {
                    proof {
                        assert(decreases_to!(*expr => args@[i as int]));
                        lemma_cst_args_size_mono(*expr, (i + 1) as nat, args@.len());
                    }
                    let ghost v3 = *self;
                    let a = self.visit_expression(&args[i]);
                    let ghost v4 = *self;
                    let label = crate::text::decimal((i + 1) as u128);
                    self.new_edge(t, a, label.as_str());
                    proof {
                        lemma_drew_typed_trans(v0, v3, v4);
                        lemma_keeps_push(v4.edges@, self.edges@);
                        lemma_keeps_refl(v4.nodes@);
                        lemma_keeps_refl(v4.type_nodes@);
                        lemma_drew_typed_trans(v0, v4, *self);
                    }
                    i = i + 1;
                }
                t
            },
        };
        let ghost v5 = *self;
        let ty = self.get_type_node(&expr.ty);
        let ghost v6 = *self;
        self.new_edge(this, ty, "  : type");
        proof {
            lemma_keeps_push(v5.type_nodes@, v6.type_nodes@);
            lemma_keeps_refl(v5.nodes@);
            lemma_keeps_refl(v5.edges@);
            lemma_drew_typed_trans(v0, v5, v6);
            lemma_keeps_push(v6.edges@, self.edges@);
            lemma_keeps_refl(v6.nodes@);
            lemma_keeps_refl(v6.type_nodes@);
            lemma_drew_typed_trans(v0, v6, *self);
        }
        this
    }

    /// Draws an operation: a node with its operator and `lhs`, `rhs` edges.
    pub fn visit_binop(&mut self, binop: &cst::BinopExpr) -> (r: i32)
        requires
            old(self).counter >= 0,
            old(self).counter + 1 + cst_expr_size(*binop.lhs) + cst_expr_size(*binop.rhs) + 1 <= i32::MAX,
        ensures
            drew_typed(*old(self), *final(self), r, 1 + cst_expr_size(*binop.lhs) + cst_expr_size(*binop.rhs)),
        decreases binop, 0nat,
    {
        let ghost v0 = *self;
        proof {
            lemma_cst_expr_size_pos(*binop.lhs);
            lemma_cst_expr_size_pos(*binop.rhs);
        }
        let this = self.new_node(binop.op.as_str());
        let ghost v1 = *self;
        let lhs = self.visit_expression(&binop.lhs);
        let ghost v2 = *self;
        let rhs = self.visit_expression(&binop.rhs);
        let ghost v3 = *self;
        self.new_edge(this, lhs, "lhs");
        let ghost v4 = *self;
        self.new_edge(this, rhs, "rhs");
        proof {
            lemma_keeps_push(v0.nodes@, v1.nodes@);
            lemma_keeps_refl(v0.type_nodes@);
            lemma_keeps_refl(v0.edges@);
            lemma_drew_typed_trans(v0, v1, v2);
            lemma_drew_typed_trans(v0, v2, v3);
            lemma_keeps_push(v3.edges@, v4.edges@);
            lemma_keeps_push(v4.edges@, self.edges@);
            lemma_keeps_refl(v3.nodes@);
            lemma_keeps_refl(v3.type_nodes@);
            lemma_drew_typed_trans(v0, v3, v4);
            lemma_drew_typed_trans(v0, v4, *self);
        }
        this
    }
}

} // verus!
