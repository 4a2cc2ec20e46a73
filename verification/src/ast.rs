//! The abstract syntax tree: expressions and statements, each node with the
//! span of source text it was read from.

use crate::tokens::Span;
use crate::value::{Value, ValueView};
use vstd::prelude::*;

verus! {

/// The operator of a binary node. `ScAnd` and `ScOr` are the short-circuit
/// forms of `and` and `or`.
#[derive(Clone, Copy, Debug, PartialEq, Eq, Structural)]
pub enum BinOpKind {
    Eq,
    Ne,
    Lt,
    Lte,
    Gt,
    Gte,
    ScAnd,
    ScOr,
    Add,
    Sub,
    Mul,
    Div,
    FloorDiv,
    Rem,
    Pow,
    Concat,
}

/// The operator of a unary node.
#[derive(Clone, Copy, Debug, PartialEq, Eq, Structural)]
pub enum UnaryOpKind {
    Not,
    Neg,
}

/// An expression.
#[allow(inconsistent_fields)]
#[derive(Debug, PartialEq, Eq)]
pub enum Expr {
    /// A variable reference.
    Var { id: String, span: Span },
    /// A literal.
    Const { value: Value, span: Span },
    /// A prefix operator applied to an operand.
    UnaryOp { op: UnaryOpKind, expr: Box<Expr>, span: Span },
    /// An infix operator applied to two operands.
    BinOp { op: BinOpKind, left: Box<Expr>, right: Box<Expr>, span: Span },
    /// `expr|name(args)`
    Filter { name: String, expr: Box<Expr>, args: Vec<Expr>, span: Span },
    /// `expr is name(args)`
    Test { name: String, expr: Box<Expr>, args: Vec<Expr>, span: Span },
    /// `expr.name`
    GetAttr { name: String, expr: Box<Expr>, span: Span },
    /// `expr[subscript_expr]`
    GetItem { expr: Box<Expr>, subscript_expr: Box<Expr>, span: Span },
    /// `expr(args)`
    Call { expr: Box<Expr>, args: Vec<Expr>, span: Span },
    /// `[items]`
    List { items: Vec<Expr>, span: Span },
    /// `{keys: values}`, keys and values side by side in source order.
    Dict { keys: Vec<Expr>, values: Vec<Expr>, span: Span },
}

/// A statement.
#[allow(inconsistent_fields)]
#[derive(Debug, PartialEq, Eq)]
pub enum Stmt {
    /// The root of a template.
    Template { children: Vec<Stmt>, span: Span },
    /// `{{ expr }}`
    EmitExpr { expr: Expr, span: Span },
    /// A run of literal text.
    EmitRaw { raw: String, span: Span },
    /// `{% for target in iter %}body{% endfor %}`
    ForLoop { target: String, iter: Expr, body: Vec<Stmt>, span: Span },
    /// `{% if expr %}true_body{% else %}false_body{% endif %}`; an `elif`
    /// is a nested `IfCond` that is the only statement of `false_body`.
    IfCond { expr: Expr, true_body: Vec<Stmt>, false_body: Vec<Stmt>, span: Span },
    /// `{% with a = x, b = y %}body{% endwith %}`
    WithBlock { assignments: Vec<(String, Expr)>, body: Vec<Stmt>, span: Span },
    /// `{% block name %}body{% endblock %}`
    Block { name: String, body: Vec<Stmt>, span: Span },
    /// `{% extends name %}`
    Extends { name: Expr, span: Span },
    /// `{% autoescape enabled %}body{% endautoescape %}`
    AutoEscape { enabled: Expr, body: Vec<Stmt>, span: Span },
}

/// The mathematical content of an [`Expr`].
#[allow(inconsistent_fields)]
pub enum ExprView {
    Var { id: Seq<char>, span: Span },
    Const { value: ValueView, span: Span },
    UnaryOp { op: UnaryOpKind, expr: Box<ExprView>, span: Span },
    BinOp { op: BinOpKind, left: Box<ExprView>, right: Box<ExprView>, span: Span },
    Filter { name: Seq<char>, expr: Box<ExprView>, args: Seq<ExprView>, span: Span },
    Test { name: Seq<char>, expr: Box<ExprView>, args: Seq<ExprView>, span: Span },
    GetAttr { name: Seq<char>, expr: Box<ExprView>, span: Span },
    GetItem { expr: Box<ExprView>, subscript_expr: Box<ExprView>, span: Span },
    Call { expr: Box<ExprView>, args: Seq<ExprView>, span: Span },
    List { items: Seq<ExprView>, span: Span },
    Dict { keys: Seq<ExprView>, values: Seq<ExprView>, span: Span },
}

/// The mathematical content of a [`Stmt`].
#[allow(inconsistent_fields)]
pub enum StmtView {
    Template { children: Seq<StmtView>, span: Span },
    EmitExpr { expr: ExprView, span: Span },
    EmitRaw { raw: Seq<char>, span: Span },
    ForLoop { target: Seq<char>, iter: ExprView, body: Seq<StmtView>, span: Span },
    IfCond { expr: ExprView, true_body: Seq<StmtView>, false_body: Seq<StmtView>, span: Span },
    WithBlock { assignments: Seq<(Seq<char>, ExprView)>, body: Seq<StmtView>, span: Span },
    Block { name: Seq<char>, body: Seq<StmtView>, span: Span },
    Extends { name: ExprView, span: Span },
    AutoEscape { enabled: ExprView, body: Seq<StmtView>, span: Span },
}

/// The mathematical content of an expression: its text as sequences of
/// characters, its children as sequences of contents.
pub open spec fn expr_view(e: Expr) -> ExprView
    decreases e,
{
    match e {
        Expr::Var { id, span } => ExprView::Var { id: id@, span },
        Expr::Const { value, span } => ExprView::Const { value: value@, span },
        Expr::UnaryOp { op, expr, span } => ExprView::UnaryOp {
            op,
            expr: Box::new(expr_view(*expr)),
            span,
        },
        Expr::BinOp { op, left, right, span } => ExprView::BinOp {
            op,
            left: Box::new(expr_view(*left)),
            right: Box::new(expr_view(*right)),
            span,
        },
        Expr::Filter { name, expr, args, span } => ExprView::Filter {
            name: name@,
            expr: Box::new(expr_view(*expr)),
            args: exprs_view(args@),
            span,
        },
        Expr::Test { name, expr, args, span } => ExprView::Test {
            name: name@,
            expr: Box::new(expr_view(*expr)),
            args: exprs_view(args@),
            span,
        },
        Expr::GetAttr { name, expr, span } => ExprView::GetAttr {
            name: name@,
            expr: Box::new(expr_view(*expr)),
            span,
        },
        Expr::GetItem { expr, subscript_expr, span } => ExprView::GetItem {
            expr: Box::new(expr_view(*expr)),
            subscript_expr: Box::new(expr_view(*subscript_expr)),
            span,
        },
        Expr::Call { expr, args, span } => ExprView::Call {
            expr: Box::new(expr_view(*expr)),
            args: exprs_view(args@),
            span,
        },
        Expr::List { items, span } => ExprView::List {
            items: exprs_view(items@),
            span,
        },
        Expr::Dict { keys, values, span } => ExprView::Dict {
            keys: exprs_view(keys@),
            values: exprs_view(values@),
            span,
        },
    }
}

/// The mathematical content of a statement: its text as sequences of
/// characters, its children as sequences of contents.
pub open spec fn stmt_view(s: Stmt) -> StmtView
    decreases s,
{
    match s {
        Stmt::Template { children, span } => StmtView::Template {
            children: stmts_view(children@),
            span,
        },
        Stmt::EmitExpr { expr, span } => StmtView::EmitExpr { expr: expr_view(expr), span },
        Stmt::EmitRaw { raw, span } => StmtView::EmitRaw { raw: raw@, span },
        Stmt::ForLoop { target, iter, body, span } => StmtView::ForLoop {
            target: target@,
            iter: expr_view(iter),
            body: stmts_view(body@),
            span,
        },
        Stmt::IfCond { expr, true_body, false_body, span } => StmtView::IfCond {
            expr: expr_view(expr),
            true_body: stmts_view(true_body@),
            false_body: stmts_view(false_body@),
            span,
        },
        Stmt::WithBlock { assignments, body, span } => StmtView::WithBlock {
            assignments: bindings_view(assignments@),
            body: stmts_view(body@),
            span,
        },
        Stmt::Block { name, body, span } => StmtView::Block {
            name: name@,
            body: stmts_view(body@),
            span,
        },
        Stmt::Extends { name, span } => StmtView::Extends { name: expr_view(name), span },
        Stmt::AutoEscape { enabled, body, span } => StmtView::AutoEscape {
            enabled: expr_view(enabled),
            body: stmts_view(body@),
            span,
        },
    }
}

impl View for Expr {
    type V = ExprView;

    open spec fn view(&self) -> ExprView {
        expr_view(*self)
    }
}

impl View for Stmt {
    type V = StmtView;

    open spec fn view(&self) -> StmtView {
        stmt_view(*self)
    }
}

/// The views of a sequence of expressions, one by one.
pub open spec fn exprs_view(v: Seq<Expr>) -> Seq<ExprView>
    decreases v,
{
    Seq::new(v.len(), |i: int| if 0 <= i < v.len() { expr_view(v[i]) } else { arbitrary() })
}

/// The views of a sequence of statements, one by one.
pub open spec fn stmts_view(v: Seq<Stmt>) -> Seq<StmtView>
    decreases v,
{
    Seq::new(v.len(), |i: int| if 0 <= i < v.len() { stmt_view(v[i]) } else { arbitrary() })
}

/// The views of a sequence of bindings, one by one.
pub open spec fn bindings_view(v: Seq<(String, Expr)>) -> Seq<(Seq<char>, ExprView)> {
    Seq::new(v.len(), |i: int| (v[i].0@, expr_view(v[i].1)))
}

/// The views of no nodes are no views.
pub proof fn lemma_views_empty()
    ensures
        exprs_view(Seq::<Expr>::empty()) == Seq::<ExprView>::empty(),
        stmts_view(Seq::<Stmt>::empty()) == Seq::<StmtView>::empty(),
        bindings_view(Seq::<(String, Expr)>::empty()) == Seq::<(Seq<char>, ExprView)>::empty(),
{
    assert(exprs_view(Seq::<Expr>::empty()) =~= Seq::<ExprView>::empty());
    assert(stmts_view(Seq::<Stmt>::empty()) =~= Seq::<StmtView>::empty());
    assert(bindings_view(Seq::<(String, Expr)>::empty()) =~= Seq::<
        (Seq<char>, ExprView),
    >::empty());
}

/// The views of a sequence with one more expression.
pub proof fn lemma_exprs_view_push(v: Seq<Expr>, e: Expr)
    ensures
        exprs_view(v.push(e)) == exprs_view(v).push(expr_view(e)),
{
    assert(exprs_view(v.push(e)) =~= exprs_view(v).push(expr_view(e)));
}

/// The views of a sequence with one more statement.
pub proof fn lemma_stmts_view_push(v: Seq<Stmt>, s: Stmt)
    ensures
        stmts_view(v.push(s)) == stmts_view(v).push(stmt_view(s)),
{
    assert(stmts_view(v.push(s)) =~= stmts_view(v).push(stmt_view(s)));
}

/// The views of a sequence with one more binding.
pub proof fn lemma_bindings_view_push(v: Seq<(String, Expr)>, name: String, e: Expr)
    ensures
        bindings_view(v.push((name, e))) == bindings_view(v).push((name@, expr_view(e))),
{
    assert(bindings_view(v.push((name, e))) =~= bindings_view(v).push((name@, expr_view(e))));
}

impl ExprView {
    /// The span of the node.
    pub open spec fn span(self) -> Span {
        match self {
            ExprView::Var { span, .. } => span,
            ExprView::Const { span, .. } => span,
            ExprView::UnaryOp { span, .. } => span,
            ExprView::BinOp { span, .. } => span,
            ExprView::Filter { span, .. } => span,
            ExprView::Test { span, .. } => span,
            ExprView::GetAttr { span, .. } => span,
            ExprView::GetItem { span, .. } => span,
            ExprView::Call { span, .. } => span,
            ExprView::List { span, .. } => span,
            ExprView::Dict { span, .. } => span,
        }
    }

    /// The span of every node of the tree is well formed and contains the
    /// spans of the node's children, and so of all its descendants.
    pub open spec fn spans_nested(self) -> bool
        decreases self,
    {
        &&& self.span().well_formed()
        &&& match self {
            ExprView::Var { .. } => true,
            ExprView::Const { .. } => true,
            ExprView::UnaryOp { expr, span, .. } => span.contains(expr.span())
                && expr.spans_nested(),
            ExprView::BinOp { left, right, span, .. } => {
                &&& span.contains(left.span())
                &&& left.spans_nested()
                &&& span.contains(right.span())
                &&& right.spans_nested()
            },
            ExprView::Filter { expr, args, span, .. } => {
                &&& span.contains(expr.span())
                &&& expr.spans_nested()
                &&& forall|i: int|
                    0 <= i < args.len() ==> span.contains((#[trigger] args[i]).span())
                        && args[i].spans_nested()
            },
            ExprView::Test { expr, args, span, .. } => {
                &&& span.contains(expr.span())
                &&& expr.spans_nested()
                &&& forall|i: int|
                    0 <= i < args.len() ==> span.contains((#[trigger] args[i]).span())
                        && args[i].spans_nested()
            },
            ExprView::GetAttr { expr, span, .. } => span.contains(expr.span())
                && expr.spans_nested(),
            ExprView::GetItem { expr, subscript_expr, span } => {
                &&& span.contains(expr.span())
                &&& expr.spans_nested()
                &&& span.contains(subscript_expr.span())
                &&& subscript_expr.spans_nested()
            },
            ExprView::Call { expr, args, span } => {
                &&& span.contains(expr.span())
                &&& expr.spans_nested()
                &&& forall|i: int|
                    0 <= i < args.len() ==> span.contains((#[trigger] args[i]).span())
                        && args[i].spans_nested()
            },
            ExprView::List { items, span } => forall|i: int|
                0 <= i < items.len() ==> span.contains((#[trigger] items[i]).span())
                    && items[i].spans_nested(),
            ExprView::Dict { keys, values, span } => {
                &&& forall|i: int|
                    0 <= i < keys.len() ==> span.contains((#[trigger] keys[i]).span())
                        && keys[i].spans_nested()
                &&& forall|i: int|
                    0 <= i < values.len() ==> span.contains((#[trigger] values[i]).span())
                        && values[i].spans_nested()
            },
        }
    }
}

impl StmtView {
    /// The span of the node.
    pub open spec fn span(self) -> Span {
        match self {
            StmtView::Template { span, .. } => span,
            StmtView::EmitExpr { span, .. } => span,
            StmtView::EmitRaw { span, .. } => span,
            StmtView::ForLoop { span, .. } => span,
            StmtView::IfCond { span, .. } => span,
            StmtView::WithBlock { span, .. } => span,
            StmtView::Block { span, .. } => span,
            StmtView::Extends { span, .. } => span,
            StmtView::AutoEscape { span, .. } => span,
        }
    }

    /// The span of every node of the tree is well formed and contains the
    /// spans of the node's children, and so of all its descendants.
    pub open spec fn spans_nested(self) -> bool
        decreases self,
    {
        &&& self.span().well_formed()
        &&& match self {
            StmtView::Template { children, span } => forall|i: int|
                0 <= i < children.len() ==> span.contains((#[trigger] children[i]).span())
                    && children[i].spans_nested(),
            StmtView::EmitExpr { expr, span } => span.contains(expr.span())
                && expr.spans_nested(),
            StmtView::EmitRaw { .. } => true,
            StmtView::ForLoop { iter, body, span, .. } => {
                &&& span.contains(iter.span())
                &&& iter.spans_nested()
                &&& forall|i: int|
                    0 <= i < body.len() ==> span.contains((#[trigger] body[i]).span())
                        && body[i].spans_nested()
            },
            StmtView::IfCond { expr, true_body, false_body, span } => {
                &&& span.contains(expr.span())
                &&& expr.spans_nested()
                &&& forall|i: int|
                    0 <= i < true_body.len() ==> span.contains((#[trigger] true_body[i]).span())
                        && true_body[i].spans_nested()
                &&& forall|i: int|
                    0 <= i < false_body.len() ==> span.contains(
                        (#[trigger] false_body[i]).span(),
                    ) && false_body[i].spans_nested()
            },
            StmtView::WithBlock { assignments, body, span } => {
                &&& forall|i: int|
                    0 <= i < assignments.len() ==> span.contains(
                        (#[trigger] assignments[i]).1.span(),
                    ) && assignments[i].1.spans_nested()
                &&& forall|i: int|
                    0 <= i < body.len() ==> span.contains((#[trigger] body[i]).span())
                        && body[i].spans_nested()
            },
            StmtView::Block { body, span, .. } => forall|i: int|
                0 <= i < body.len() ==> span.contains((#[trigger] body[i]).span())
                    && body[i].spans_nested(),
            StmtView::Extends { name, span } => span.contains(name.span()) && name.spans_nested(),
            StmtView::AutoEscape { enabled, body, span } => {
                &&& span.contains(enabled.span())
                &&& enabled.spans_nested()
                &&& forall|i: int|
                    0 <= i < body.len() ==> span.contains((#[trigger] body[i]).span())
                        && body[i].spans_nested()
            },
        }
    }
}

impl Expr {
    /// The span of the node.
    pub fn span(&self) -> (s: Span)
        ensures
            s == self@.span(),
    {
        match self {
            Expr::Var { span, .. } => *span,
            Expr::Const { span, .. } => *span,
            Expr::UnaryOp { span, .. } => *span,
            Expr::BinOp { span, .. } => *span,
            Expr::Filter { span, .. } => *span,
            Expr::Test { span, .. } => *span,
            Expr::GetAttr { span, .. } => *span,
            Expr::GetItem { span, .. } => *span,
            Expr::Call { span, .. } => *span,
            Expr::List { span, .. } => *span,
            Expr::Dict { span, .. } => *span,
        }
    }
}

impl Stmt {
    /// The span of the node.
    pub fn span(&self) -> (s: Span)
        ensures
            s == self@.span(),
    {
        match self {
            Stmt::Template { span, .. } => *span,
            Stmt::EmitExpr { span, .. } => *span,
            Stmt::EmitRaw { span, .. } => *span,
            Stmt::ForLoop { span, .. } => *span,
            Stmt::IfCond { span, .. } => *span,
            Stmt::WithBlock { span, .. } => *span,
            Stmt::Block { span, .. } => *span,
            Stmt::Extends { span, .. } => *span,
            Stmt::AutoEscape { span, .. } => *span,
        }
    }
}

} // verus!
