//! The syntax model: expressions and statements of a parsed program.

use vstd::prelude::*;

verus! {

/// An expression of the language.
#[derive(Debug, PartialEq, Eq)]
pub enum Expr {
    /// A call of a built-in drawing primitive, by name.
    Call(String),
    /// A number literal.
    Number(u32),
    /// A variable, by name.
    Variable(String),
    /// An arithmetic or comparison operation.
    Binary { left: Box<Expr>, op: String, right: Box<Expr> },
}

/// A statement of the language.
#[derive(Debug, PartialEq, Eq)]
pub enum Stmt {
    /// An expression statement with its repeat count.
    Expr(Expr, u32),
    /// A block that renders `frames` frames, running `body` once for each.
    Travel { frames: u32, body: Vec<Stmt> },
    /// A branch that is decided anew for every frame.
    If { condition: Box<Expr>, then_body: Vec<Stmt>, else_body: Vec<Stmt> },
}

/// The mathematical value of an [`Expr`]: names and operators are sequences
/// of characters.
pub enum ExprView {
    Call(Seq<char>),
    Number(u32),
    Variable(Seq<char>),
    Binary { left: Box<ExprView>, op: Seq<char>, right: Box<ExprView> },
}

/// The mathematical value of a [`Stmt`]: blocks are sequences of statements.
pub enum StmtView {
    Expr(ExprView, u32),
    Travel { frames: u32, body: Seq<StmtView> },
    If { condition: ExprView, then_body: Seq<StmtView>, else_body: Seq<StmtView> },
}

/// The value of an expression, node by node.
pub open spec fn expr_view(expr: Expr) -> ExprView
    decreases expr,
{
    match expr {
        Expr::Call(name) => ExprView::Call(name@),
        Expr::Number(n) => ExprView::Number(n),
        Expr::Variable(name) => ExprView::Variable(name@),
        Expr::Binary { left, op, right } => ExprView::Binary {
            left: Box::new(expr_view(*left)),
            op: op@,
            right: Box::new(expr_view(*right)),
        },
    }
}

impl View for Expr {
    type V = ExprView;

    open spec fn view(&self) -> ExprView {
        expr_view(*self)
    }
}

/// The value of a statement, node by node.
pub open spec fn stmt_view(stmt: Stmt) -> StmtView
    decreases stmt, 0nat,
{
    match stmt {
        Stmt::Expr(expr, times) => StmtView::Expr(expr_view(expr), times),
        Stmt::Travel { frames, body } => StmtView::Travel { frames, body: block_view(body@) },
        Stmt::If { condition, then_body, else_body } => StmtView::If {
            condition: expr_view(*condition),
            then_body: block_view(then_body@),
            else_body: block_view(else_body@),
        },
    }
}

/// The values of the statements of a block, in order.
pub open spec fn block_view(block: Seq<Stmt>) -> Seq<StmtView>
    decreases block, 1nat,
{
    Seq::new(
        block.len(),
        |i: int| if 0 <= i < block.len() { stmt_view(block[i]) } else { arbitrary() },
    )
}

impl View for Stmt {
    type V = StmtView;

    open spec fn view(&self) -> StmtView {
        stmt_view(*self)
    }
}

} // verus!
