//! The abstract syntax tree that the parser produces.

use vstd::prelude::*;

verus! {

/// An expression tree. A `Number` leaf carries the exact characters of the
/// numeric literal that the lexer accepted; the caller converts them to a
/// machine number when it evaluates the tree.
#[derive(PartialEq, Debug)]
pub enum Expr {
    BinOp(Box<Expr>, BinOpType, Box<Expr>),
    UnaryOp(UnaryOpType, Box<Expr>),
    Number(Vec<char>),
    E,
    Pi,
}

/// The binary operators.
#[derive(PartialEq, Copy, Clone, Debug)]
pub enum BinOpType {
    Add,
    Sub,
    Mul,
    Div,
    Pow,
}

/// The unary operators.
#[derive(PartialEq, Copy, Clone, Debug)]
pub enum UnaryOpType {
    Negate,
    Noop,
}

/// The mathematical shape of an [`Expr`]: the same tree with each numeric
/// literal abstracted to its character sequence.
#[verifier::ext_equal]
pub enum ExprView {
    BinOp(Box<ExprView>, BinOpType, Box<ExprView>),
    UnaryOp(UnaryOpType, Box<ExprView>),
    Number(Seq<char>),
    E,
    Pi,
}

/// The view of an [`Expr`], node by node.
pub open spec fn expr_view(e: Expr) -> ExprView
    decreases e,
{
    match e {
        Expr::BinOp(l, op, r) => ExprView::BinOp(Box::new(expr_view(*l)), op, Box::new(expr_view(*r))),
        Expr::UnaryOp(op, e) => ExprView::UnaryOp(op, Box::new(expr_view(*e))),
        Expr::Number(d) => ExprView::Number(d@),
        Expr::E => ExprView::E,
        Expr::Pi => ExprView::Pi,
    }
}

impl View for Expr {
    type V = ExprView;

    open spec fn view(&self) -> ExprView {
        expr_view(*self)
    }
}

impl Expr {
    /// Move the expression onto the heap, unchanged.
    pub fn boxed(self) -> (r: Box<Expr>)
        ensures
            r@ == self@,
    {
        Box::new(self)
    }
}

/// The views of a sequence of expressions, in order.
pub open spec fn exprs_view(es: Seq<Expr>) -> Seq<ExprView> {
    es.map_values(|e: Expr| e@)
}

} // verus!
