//! The failures that lowering and evaluation report.

use vstd::prelude::*;

verus! {

/// Why an expression has no value.
#[derive(Debug, Clone, Copy, PartialEq, Eq)]
pub enum ArithmeticError {
    /// Division or remainder by zero.
    DivisionByZero,
    /// A sum or product that does not fit in 32 bits.
    Overflow,
    /// A difference below zero.
    Underflow,
}

/// Why a syntax tree has no program.
#[derive(Debug, PartialEq, Eq)]
pub enum ParseError {
    /// The source does not conform to the grammar: the tree holds a syntax
    /// error, or a node lacks a child that its kind requires.
    Grammar,
    /// A node of this kind stands where a statement is expected.
    UnknownStatement(String),
    /// A node of this kind stands where an expression is expected.
    UnknownExpression(String),
    /// This text is no number of at most 32 bits.
    NumericLiteral(String),
}

/// The mathematical value of a [`ParseError`].
pub enum ParseErrorView {
    Grammar,
    UnknownStatement(Seq<char>),
    UnknownExpression(Seq<char>),
    NumericLiteral(Seq<char>),
}

impl View for ParseError {
    type V = ParseErrorView;

    open spec fn view(&self) -> ParseErrorView {
        match self {
            ParseError::Grammar => ParseErrorView::Grammar,
            ParseError::UnknownStatement(kind) => ParseErrorView::UnknownStatement(kind@),
            ParseError::UnknownExpression(kind) => ParseErrorView::UnknownExpression(kind@),
            ParseError::NumericLiteral(text) => ParseErrorView::NumericLiteral(text@),
        }
    }
}

} // verus!
