//! Evaluation of expressions against the index of the frame being rendered.

use vstd::prelude::*;
use crate::ast::{Expr, ExprView};
use crate::error::ArithmeticError;
use crate::text::str_eq;

verus! {

/// `1` for true and `0` for false.
pub open spec fn truth(b: bool) -> u32 {
    if b { 1 } else { 0 }
}

/// What an operator makes of two operand values. The arithmetic operators
/// fail where the exact result is no unsigned 32-bit integer, comparisons
/// give `1` or `0`, and an operator that is none of the nine gives `0`.
pub open spec fn apply_op(op: Seq<char>, l: u32, r: u32) -> Result<u32, ArithmeticError> {
    if op == "+"@ {
        if l + r <= u32::MAX { Ok((l + r) as u32) } else { Err(ArithmeticError::Overflow) }
    } else if op == "-"@ {
        if r <= l { Ok((l - r) as u32) } else { Err(ArithmeticError::Underflow) }
    } else if op == "*"@ {
        if l * r <= u32::MAX { Ok((l * r) as u32) } else { Err(ArithmeticError::Overflow) }
    } else if op == "/"@ {
        if r != 0 { Ok((l / r) as u32) } else { Err(ArithmeticError::DivisionByZero) }
    } else if op == "%"@ {
        if r != 0 { Ok((l % r) as u32) } else { Err(ArithmeticError::DivisionByZero) }
    } else if op == "=="@ {
        Ok(truth(l == r))
    } else if op == "!="@ {
        Ok(truth(l != r))
    } else if op == ">"@ {
        Ok(truth(l > r))
    } else if op == "<"@ {
        Ok(truth(l < r))
    } else {
        Ok(0)
    }
}

/// The value of an expression at a frame index. A number is itself, the
/// variable `travel` is the frame index and any other variable is `0`, a
/// binary expression evaluates its left operand, then its right one, then
/// applies the operator, and a call is `0`. The first failure met is the
/// result.
pub open spec fn eval(expr: ExprView, frame: u32) -> Result<u32, ArithmeticError>
    decreases expr,
{
    match expr {
        ExprView::Number(n) => Ok(n),
        ExprView::Variable(name) => Ok(if name == "travel"@ { frame } else { 0 }),
        ExprView::Binary { left, op, right } => match eval(*left, frame) {
            Err(e) => Err(e),
            Ok(l) => match eval(*right, frame) {
                Err(e) => Err(e),
                Ok(r) => apply_op(op, l, r),
            },
        },
        ExprView::Call(_) => Ok(0),
    }
}

/// Whether a condition holds at a frame index: its value is not zero.
pub open spec fn holds(expr: ExprView, frame: u32) -> Result<bool, ArithmeticError> {
    match eval(expr, frame) {
        Ok(v) => Ok(v != 0),
        Err(e) => Err(e),
    }
}

/// The binary expression `a op b` over two number literals.
pub open spec fn literal_binary(a: u32, op: Seq<char>, b: u32) -> ExprView {
    ExprView::Binary {
        left: Box::new(ExprView::Number(a)),
        op,
        right: Box::new(ExprView::Number(b)),
    }
}

/// Over two number literals, `+`, `-`, `*`, `%` and `<` agree with the
/// arithmetic of unsigned integers wherever its result is an unsigned 32-bit
/// integer, and every other case is a failure: a sum or product that is too
/// large, a difference below zero, a division or remainder by zero.
pub proof fn lemma_eval_literals(a: u32, b: u32, frame: u32)
    ensures
        eval(literal_binary(a, "+"@, b), frame) == (if a + b <= u32::MAX {
            Ok::<u32, ArithmeticError>((a + b) as u32)
        } else {
            Err(ArithmeticError::Overflow)
        }),
        eval(literal_binary(a, "-"@, b), frame) == (if b <= a {
            Ok::<u32, ArithmeticError>((a - b) as u32)
        } else {
            Err(ArithmeticError::Underflow)
        }),
        eval(literal_binary(a, "*"@, b), frame) == (if a * b <= u32::MAX {
            Ok::<u32, ArithmeticError>((a * b) as u32)
        } else {
            Err(ArithmeticError::Overflow)
        }),
        eval(literal_binary(a, "/"@, b), frame) == (if b != 0 {
            Ok::<u32, ArithmeticError>((a / b) as u32)
        } else {
            Err(ArithmeticError::DivisionByZero)
        }),
        eval(literal_binary(a, "%"@, b), frame) == (if b != 0 {
            Ok::<u32, ArithmeticError>((a % b) as u32)
        } else {
            Err(ArithmeticError::DivisionByZero)
        }),
        eval(literal_binary(a, "<"@, b), frame) == Ok::<u32, ArithmeticError>(truth(a < b)),
{
    reveal_strlit("+");
    reveal_strlit("-");
    reveal_strlit("*");
    reveal_strlit("/");
    reveal_strlit("%");
    reveal_strlit("==");
    reveal_strlit("!=");
    reveal_strlit(">");
    reveal_strlit("<");
    reveal_with_fuel(eval, 2);
    assert("+"@[0] == '+' && "-"@[0] == '-' && "*"@[0] == '*' && "/"@[0] == '/');
    assert("%"@[0] == '%' && "<"@[0] == '<' && ">"@[0] == '>');
    assert("=="@.len() == 2 && "!="@.len() == 2);
}

/// The variable `travel` evaluates to the index of the frame, whatever the
/// index.
pub proof fn lemma_eval_travel(frame: u32)
    ensures
        eval(ExprView::Variable("travel"@), frame) == Ok::<u32, ArithmeticError>(frame),
{
}

/// Applies a binary operator to two operand values.
pub fn apply_operator(op: &str, l: u32, r: u32) -> (out: Result<u32, ArithmeticError>)
    ensures
        out == apply_op(op@, l, r),
{
    if str_eq(op, "+") {
        match l.checked_add(r) {
            Some(v) => Ok(v),
            None => Err(ArithmeticError::Overflow),
        }
    } else if str_eq(op, "-") {
        if r <= l { Ok(l - r) } else { Err(ArithmeticError::Underflow) }
    } else if str_eq(op, "*") {
        match l.checked_mul(r) {
            Some(v) => Ok(v),
            None => Err(ArithmeticError::Overflow),
        }
    } else if str_eq(op, "/") {
        if r != 0 { Ok(l / r) } else { Err(ArithmeticError::DivisionByZero) }
    } else if str_eq(op, "%") {
        if r != 0 { Ok(l % r) } else { Err(ArithmeticError::DivisionByZero) }
    } else if str_eq(op, "==") {
        Ok(if l == r { 1 } else { 0 })
    } else if str_eq(op, "!=") {
        Ok(if l != r { 1 } else { 0 })
    } else if str_eq(op, ">") {
        Ok(if l > r { 1 } else { 0 })
    } else if str_eq(op, "<") {
        Ok(if l < r { 1 } else { 0 })
    } else {
        Ok(0)
    }
}

/// Evaluates an expression at the index of the frame being rendered.
pub fn eval_expr(expr: &Expr, current_frame: u32) -> (out: Result<u32, ArithmeticError>)
    ensures
        out == eval(expr@, current_frame),
    decreases expr,
{
    match expr {
        Expr::Number(n) => Ok(*n),
        Expr::Variable(name) => {
            if str_eq(name.as_str(), "travel") {
                Ok(current_frame)
            } else {
                Ok(0)
            }
        },
        Expr::Binary { left, op, right } => {
            let left_val: u32 = match eval_expr(left, current_frame) {
                Ok(v) => v,
                Err(e) => { return Err(e); },
            };
            let right_val: u32 = match eval_expr(right, current_frame) {
                Ok(v) => v,
                Err(e) => { return Err(e); },
            };
            apply_operator(op.as_str(), left_val, right_val)
        },
        Expr::Call(_) => Ok(0),
    }
}

/// Evaluates a condition at the index of the frame being rendered: it holds
/// when its value is not zero.
pub fn eval_condition(expr: &Expr, current_frame: u32) -> (out: Result<bool, ArithmeticError>)
    ensures
        out == holds(expr@, current_frame),
{
    match eval_expr(expr, current_frame) {
        Ok(value) => Ok(value != 0),
        Err(e) => Err(e),
    }
}

} // verus!
