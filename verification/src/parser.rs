//! The front end: lowering a concrete syntax tree into the syntax model.

use vstd::prelude::*;
use crate::ast::{block_view, Expr, ExprView, Stmt, StmtView};
use crate::error::{ParseError, ParseErrorView};
use crate::syntax::{has_error, lemma_child_view, lemma_children_len, SyntaxNode, SyntaxNodeView};
use crate::text::{number_value, parse_number};

verus! {

/// The number that a literal's text stands for, or the failure that names
/// the text.
pub open spec fn literal(text: Seq<char>) -> Result<u32, ParseErrorView> {
    match number_value(text) {
        Some(n) => Ok(n),
        None => Err(ParseErrorView::NumericLiteral(text)),
    }
}

/// Whether child `k` is the first named child.
pub open spec fn is_first_named(children: Seq<SyntaxNodeView>, k: int) -> bool {
    &&& 0 <= k < children.len()
    &&& children[k].named
    &&& forall|j: int| 0 <= j < k ==> !(#[trigger] children[j]).named
}

/// The index of the first named child, where there is one.
pub open spec fn first_named(children: Seq<SyntaxNodeView>) -> Option<int> {
    if exists|k: int| is_first_named(children, k) {
        Some(choose|k: int| is_first_named(children, k))
    } else {
        None
    }
}

/// The expression that a node stands for.
///
/// - An `expr` node stands for what its first named child stands for.
/// - A `call_expr` node is a call of the name that its first child spells.
/// - A `binary_expr` node has its operands as first and third child and its
///   operator as the text of the second; the left operand is lowered first.
/// - An `identifier` node is a variable of that name.
/// - A `number` node is the number that its text stands for.
///
/// A node of any other kind is no expression, and a node that lacks a child
/// named here does not conform to the grammar.
pub open spec fn lower_expr(node: SyntaxNodeView) -> Result<ExprView, ParseErrorView>
    decreases node,
{
    if node.kind == "expr"@ {
        match first_named(node.children) {
            Some(k) => if 0 <= k < node.children.len() {
                lower_expr(node.children[k])
            } else {
                Err(ParseErrorView::Grammar)
            },
            None => Err(ParseErrorView::Grammar),
        }
    } else if node.kind == "call_expr"@ {
        if node.children.len() >= 1 {
            Ok(ExprView::Call(node.children[0].text))
        } else {
            Err(ParseErrorView::Grammar)
        }
    } else if node.kind == "binary_expr"@ {
        if node.children.len() >= 3 {
            match lower_expr(node.children[0]) {
                Err(e) => Err(e),
                Ok(left) => match lower_expr(node.children[2]) {
                    Err(e) => Err(e),
                    Ok(right) => Ok(
                        ExprView::Binary {
                            left: Box::new(left),
                            op: node.children[1].text,
                            right: Box::new(right),
                        },
                    ),
                },
            }
        } else {
            Err(ParseErrorView::Grammar)
        }
    } else if node.kind == "identifier"@ {
        Ok(ExprView::Variable(node.text))
    } else if node.kind == "number"@ {
        match literal(node.text) {
            Err(e) => Err(e),
            Ok(n) => Ok(ExprView::Number(n)),
        }
    } else {
        Err(ParseErrorView::UnknownExpression(node.kind))
    }
}

/// The value of the outcome of lowering an expression.
pub open spec fn expr_outcome(out: Result<Expr, ParseError>) -> Result<ExprView, ParseErrorView> {
    match out {
        Ok(expr) => Ok(expr@),
        Err(e) => Err(e@),
    }
}

/// Reads the text of a number literal.
pub fn parse_literal(text: &String) -> (out: Result<u32, ParseError>)
    ensures
        match out {
            Ok(n) => literal(text@) == Ok::<u32, ParseErrorView>(n),
            Err(e) => literal(text@) == Err::<u32, ParseErrorView>(e@),
        },
{
    match parse_number(text.as_str()) {
        Some(n) => Ok(n),
        None => Err(ParseError::NumericLiteral(text.clone())),
    }
}

/// Finds the first named child of a node.
pub fn first_named_child(node: &SyntaxNode) -> (found: Option<usize>)
    ensures
        match found {
            Some(k) => first_named(node@.children) == Some(k as int) && k < node.children@.len(),
            None => first_named(node@.children) is None,
        },
{
    let mut i: usize = 0;
    while i < node.children.len()
        invariant
            i <= node.children.len(),
            node.children@.len() == node@.children.len(),
            forall|j: int| 0 <= j < i ==> !(#[trigger] node@.children[j]).named,
        decreases node.children.len() - i,
    {
        proof {
            lemma_child_view(*node, i as int);
        }
        if node.children[i].named {
            proof {
                assert(is_first_named(node@.children, i as int));
                let k: int = choose|k: int| is_first_named(node@.children, k);
                assert(k == i);
            }
            return Some(i);
        }
        i += 1;
    }
    None
}

/// Lowers a node that stands for an expression.
pub fn parse_expr(node: &SyntaxNode) -> (out: Result<Expr, ParseError>)
    ensures
        expr_outcome(out) == lower_expr(node@),
    decreases node,
{
    if node.is_kind("expr") {
        match first_named_child(node) {
            Some(k) => {
                proof {
                    lemma_child_view(*node, k as int);
                }
                parse_expr(&node.children[k])
            },
            None => Err(ParseError::Grammar),
        }
    } else if node.is_kind("call_expr") {
        if node.children.len() >= 1 {
            proof {
                lemma_child_view(*node, 0);
            }
            Ok(Expr::Call(node.children[0].text.clone()))
        } else {
            Err(ParseError::Grammar)
        }
    } else if node.is_kind("binary_expr") {
        if node.children.len() >= 3 {
            proof {
                lemma_child_view(*node, 0);
                lemma_child_view(*node, 1);
                lemma_child_view(*node, 2);
            }
            let left = match parse_expr(&node.children[0]) {
                Ok(expr) => expr,
                Err(e) => {
                    return Err(e);
                },
            };
            let op = node.children[1].text.clone();
            let right = match parse_expr(&node.children[2]) {
                Ok(expr) => expr,
                Err(e) => {
                    return Err(e);
                },
            };
            Ok(Expr::Binary { left: Box::new(left), op, right: Box::new(right) })
        } else {
            Err(ParseError::Grammar)
        }
    } else if node.is_kind("identifier") {
        Ok(Expr::Variable(node.text.clone()))
    } else if node.is_kind("number") {
        match parse_literal(&node.text) {
            Ok(n) => Ok(Expr::Number(n)),
            Err(e) => Err(e),
        }
    } else {
        Err(ParseError::UnknownExpression(node.kind.clone()))
    }
}

/// The repeat count that the children of an expression statement before
/// index `upto` give: the number of the last `number` child after the first
/// child, and `1` where there is none. Every such child is read, in order,
/// and the first that is no number is the failure.
pub open spec fn repeat_count(children: Seq<SyntaxNodeView>, upto: nat) -> Result<
    u32,
    ParseErrorView,
>
    decreases upto,
{
    if upto <= 1 || upto > children.len() {
        Ok(1)
    } else {
        match repeat_count(children, (upto - 1) as nat) {
            Err(e) => Err(e),
            Ok(times) => if children[upto - 1].kind == "number"@ {
                literal(children[upto - 1].text)
            } else {
                Ok(times)
            },
        }
    }
}

/// Whether one of the children before index `k` is an `else` marker.
pub open spec fn else_before(children: Seq<SyntaxNodeView>, k: int) -> bool {
    exists|j: int| 0 <= j < k && j < children.len() && (#[trigger] children[j]).kind == "else"@
}

/// The statement that a node stands for.
///
/// - An `expr_stmt` node has its expression as first child, and the repeat
///   count that [`repeat_count`] gives.
/// - An `if_stmt` node has its condition as first named child. Each of its
///   other named children that is no `else` marker is a statement: of the
///   body that runs when the condition holds where it stands before the
///   first `else` marker, of the body that runs when it does not where it
///   stands after it.
///
/// A node of any other kind is no statement, and a node that lacks a child
/// named here does not conform to the grammar. The expression or condition
/// is lowered first, then the children in order; the first failure is the
/// result.
pub open spec fn lower_stmt(node: SyntaxNodeView) -> Result<StmtView, ParseErrorView>
    decreases node, 1nat, 0nat,
{
    if node.kind == "expr_stmt"@ {
        if node.children.len() >= 1 {
            match lower_expr(node.children[0]) {
                Err(e) => Err(e),
                Ok(expr) => match repeat_count(node.children, node.children.len()) {
                    Err(e) => Err(e),
                    Ok(times) => Ok(StmtView::Expr(expr, times)),
                },
            }
        } else {
            Err(ParseErrorView::Grammar)
        }
    } else if node.kind == "if_stmt"@ {
        match first_named(node.children) {
            Some(c) => if 0 <= c < node.children.len() {
                match lower_expr(node.children[c]) {
                    Err(e) => Err(e),
                    Ok(condition) => match lower_branches(node, c, node.children.len()) {
                        Err(e) => Err(e),
                        Ok(bodies) => Ok(
                            StmtView::If { condition, then_body: bodies.0, else_body: bodies.1 },
                        ),
                    },
                }
            } else {
                Err(ParseErrorView::Grammar)
            },
            None => Err(ParseErrorView::Grammar),
        }
    } else {
        Err(ParseErrorView::UnknownStatement(node.kind))
    }
}

/// The two bodies of an `if_stmt` node whose condition is child `c`, as far
/// as the children before index `upto` give them: first the body for a
/// condition that holds, then the body for one that does not.
pub open spec fn lower_branches(node: SyntaxNodeView, c: int, upto: nat) -> Result<
    (Seq<StmtView>, Seq<StmtView>),
    ParseErrorView,
>
    decreases node, 0nat, upto,
{
    if upto == 0 || upto > node.children.len() {
        Ok((Seq::empty(), Seq::empty()))
    } else {
        match lower_branches(node, c, (upto - 1) as nat) {
            Err(e) => Err(e),
            Ok(bodies) => {
                let child = node.children[upto - 1];
                if child.kind == "else"@ || !child.named || upto - 1 == c {
                    Ok(bodies)
                } else {
                    match lower_stmt(child) {
                        Err(e) => Err(e),
                        Ok(stmt) => if else_before(node.children, upto - 1) {
                            Ok((bodies.0, bodies.1.push(stmt)))
                        } else {
                            Ok((bodies.0.push(stmt), bodies.1))
                        },
                    }
                }
            },
        }
    }
}

/// The statements that the named children of a node give, from child `from`
/// on and before child `upto`, in order, or the first failure met.
pub open spec fn lower_children(node: SyntaxNodeView, from: nat, upto: nat) -> Result<
    Seq<StmtView>,
    ParseErrorView,
>
    decreases node, 0nat, upto,
{
    if upto <= from || upto > node.children.len() {
        Ok(Seq::empty())
    } else {
        match lower_children(node, from, (upto - 1) as nat) {
            Err(e) => Err(e),
            Ok(stmts) => {
                let child = node.children[upto - 1];
                if child.named {
                    match lower_stmt(child) {
                        Err(e) => Err(e),
                        Ok(stmt) => Ok(stmts.push(stmt)),
                    }
                } else {
                    Ok(stmts)
                }
            },
        }
    }
}

/// The index of the first child of a node that can be a statement of its
/// block: in a `travel_block` the keyword, the frame count and the colon come
/// first.
pub open spec fn block_start(node: SyntaxNodeView) -> nat {
    if node.kind == "travel_block"@ { 4 } else { 0 }
}

/// The block of statements under a node: what its named children stand for,
/// from [`block_start`] on.
pub open spec fn lower_block(node: SyntaxNodeView) -> Result<Seq<StmtView>, ParseErrorView> {
    lower_children(node, block_start(node), node.children.len())
}

/// The `travel` statement that a `travel_block` node stands for: its third
/// child spells the frame count, and its block is the body.
pub open spec fn lower_travel(node: SyntaxNodeView) -> Result<StmtView, ParseErrorView> {
    if node.children.len() >= 3 {
        match literal(node.children[2].text) {
            Err(e) => Err(e),
            Ok(frames) => match lower_block(node) {
                Err(e) => Err(e),
                Ok(body) => Ok(StmtView::Travel { frames, body }),
            },
        }
    } else {
        Err(ParseErrorView::Grammar)
    }
}

/// The `travel` statements that the named `travel_block` children of the
/// root before index `upto` stand for, in order. Children of any other kind
/// are passed over.
pub open spec fn lower_top(root: SyntaxNodeView, upto: nat) -> Result<
    Seq<StmtView>,
    ParseErrorView,
>
    decreases upto,
{
    if upto == 0 || upto > root.children.len() {
        Ok(Seq::empty())
    } else {
        match lower_top(root, (upto - 1) as nat) {
            Err(e) => Err(e),
            Ok(stmts) => {
                let child = root.children[upto - 1];
                if child.named && child.kind == "travel_block"@ {
                    match lower_travel(child) {
                        Err(e) => Err(e),
                        Ok(stmt) => Ok(stmts.push(stmt)),
                    }
                } else {
                    Ok(stmts)
                }
            },
        }
    }
}

/// The program that a syntax tree stands for. A tree that holds a syntax
/// error stands for none.
pub open spec fn lower_program(root: SyntaxNodeView) -> Result<Seq<StmtView>, ParseErrorView> {
    if has_error(root) {
        Err(ParseErrorView::Grammar)
    } else {
        lower_top(root, root.children.len())
    }
}

/// The value of the outcome of lowering a statement.
pub open spec fn stmt_outcome(out: Result<Stmt, ParseError>) -> Result<StmtView, ParseErrorView> {
    match out {
        Ok(stmt) => Ok(stmt@),
        Err(e) => Err(e@),
    }
}

/// The value of the outcome of lowering a block or a program.
pub open spec fn block_outcome(out: Result<Vec<Stmt>, ParseError>) -> Result<
    Seq<StmtView>,
    ParseErrorView,
> {
    match out {
        Ok(stmts) => Ok(block_view(stmts@)),
        Err(e) => Err(e@),
    }
}

/// A failure among the first `k` children stays the result for more of them.
pub proof fn lemma_repeat_failure_stays(children: Seq<SyntaxNodeView>, k: nat, upto: nat)
    requires
        k <= upto <= children.len(),
        repeat_count(children, k) is Err,
    ensures
        repeat_count(children, upto) == repeat_count(children, k),
    decreases upto - k,
{
    if k < upto {
        lemma_repeat_failure_stays(children, k, (upto - 1) as nat);
    }
}

/// A failure among the first `k` children stays the result for more of them.
pub proof fn lemma_branches_failure_stays(node: SyntaxNodeView, c: int, k: nat, upto: nat)
    requires
        k <= upto <= node.children.len(),
        lower_branches(node, c, k) is Err,
    ensures
        lower_branches(node, c, upto) == lower_branches(node, c, k),
    decreases upto - k,
{
    if k < upto {
        lemma_branches_failure_stays(node, c, k, (upto - 1) as nat);
    }
}

/// A failure among the children before `k` stays the result for more of them.
pub proof fn lemma_children_failure_stays(node: SyntaxNodeView, from: nat, k: nat, upto: nat)
    requires
        k <= upto <= node.children.len(),
        lower_children(node, from, k) is Err,
    ensures
        lower_children(node, from, upto) == lower_children(node, from, k),
    decreases upto - k,
{
    if k < upto {
        lemma_children_failure_stays(node, from, k, (upto - 1) as nat);
    }
}

/// A failure among the first `k` children stays the result for more of them.
pub proof fn lemma_top_failure_stays(root: SyntaxNodeView, k: nat, upto: nat)
    requires
        k <= upto <= root.children.len(),
        lower_top(root, k) is Err,
    ensures
        lower_top(root, upto) == lower_top(root, k),
    decreases upto - k,
{
    if k < upto {
        lemma_top_failure_stays(root, k, (upto - 1) as nat);
    }
}

/// A block with one more statement is viewed as the block with the view of
/// the statement behind it.
pub proof fn lemma_block_view_push(block: Seq<Stmt>, stmt: Stmt)
    ensures
        block_view(block.push(stmt)) == block_view(block).push(stmt@),
{
    assert(block_view(block.push(stmt)) =~= block_view(block).push(stmt@));
}

/// Reads the repeat count of an expression statement from its children.
fn parse_repeat_count(node: &SyntaxNode) -> (out: Result<u32, ParseError>)
    ensures
        match out {
            Ok(n) => repeat_count(node@.children, node@.children.len()) == Ok::<
                u32,
                ParseErrorView,
            >(n),
            Err(e) => repeat_count(node@.children, node@.children.len()) == Err::<
                u32,
                ParseErrorView,
            >(e@),
        },
{
    let mut times: u32 = 1;
    let mut i: usize = 1;
    proof {
        lemma_children_len(*node);
    }
    if node.children.len() <= 1 {
        return Ok(times);
    }
    while i < node.children.len()
        invariant
            1 <= i <= node.children.len(),
            node.children@.len() == node@.children.len(),
            repeat_count(node@.children, i as nat) == Ok::<u32, ParseErrorView>(times),
        decreases node.children.len() - i,
    {
        proof {
            lemma_child_view(*node, i as int);
        }
        let child = &node.children[i];
        if child.is_kind("number") {
            times = match parse_literal(&child.text) {
                Ok(n) => n,
                Err(e) => {
                    proof {
                        lemma_repeat_failure_stays(
                            node@.children,
                            (i + 1) as nat,
                            node@.children.len(),
                        );
                    }
                    return Err(e);
                },
            };
        }
        i += 1;
    }
    Ok(times)
}

/// Lowers a node that stands for a statement.
pub fn parse_stmt(node: &SyntaxNode) -> (out: Result<Stmt, ParseError>)
    ensures
        stmt_outcome(out) == lower_stmt(node@),
    decreases node,
{
    if node.is_kind("expr_stmt") {
        if node.children.len() < 1 {
            return Err(ParseError::Grammar);
        }
        proof {
            lemma_child_view(*node, 0);
        }
        let expr = match parse_expr(&node.children[0]) {
            Ok(expr) => expr,
            Err(e) => {
                return Err(e);
            },
        };
        match parse_repeat_count(node) {
            Ok(times) => Ok(Stmt::Expr(expr, times)),
            Err(e) => Err(e),
        }
    } else if node.is_kind("if_stmt") {
        let c: usize = match first_named_child(node) {
            Some(c) => c,
            None => {
                return Err(ParseError::Grammar);
            },
        };
        proof {
            lemma_child_view(*node, c as int);
        }
        let condition = match parse_expr(&node.children[c]) {
            Ok(expr) => expr,
            Err(e) => {
                return Err(e);
            },
        };
        let mut then_body: Vec<Stmt> = Vec::new();
        let mut else_body: Vec<Stmt> = Vec::new();
        let mut in_else = false;
        let mut i: usize = 0;
        proof {
            assert(block_view(then_body@) =~= Seq::empty());
            assert(block_view(else_body@) =~= Seq::empty());
        }
        while i < node.children.len()
            invariant
                i <= node.children.len(),
                node.children@.len() == node@.children.len(),
                node@.kind != "expr_stmt"@,
                node@.kind == "if_stmt"@,
                first_named(node@.children) == Some(c as int),
                c < node.children@.len(),
                lower_expr(node@.children[c as int]) == Ok::<ExprView, ParseErrorView>(
                    condition@,
                ),
                in_else == else_before(node@.children, i as int),
                lower_branches(node@, c as int, i as nat) == Ok::<
                    (Seq<StmtView>, Seq<StmtView>),
                    ParseErrorView,
                >((block_view(then_body@), block_view(else_body@))),
            decreases node.children.len() - i,
        {
            proof {
                lemma_child_view(*node, i as int);
            }
            let child = &node.children[i];
            if child.is_kind("else") {
                in_else = true;
            } else if child.named && i != c {
                let stmt = match parse_stmt(child) {
                    Ok(stmt) => stmt,
                    Err(e) => {
                        proof {
                            lemma_branches_failure_stays(
                                node@,
                                c as int,
                                (i + 1) as nat,
                                node@.children.len(),
                            );
                        }
                        return Err(e);
                    },
                };
                proof {
                    if in_else {
                        lemma_block_view_push(else_body@, stmt);
                    } else {
                        lemma_block_view_push(then_body@, stmt);
                    }
                }
                if in_else {
                    else_body.push(stmt);
                } else {
                    then_body.push(stmt);
                }
            }
            i += 1;
        }
        Ok(Stmt::If { condition: Box::new(condition), then_body, else_body })
    } else {
        Err(ParseError::UnknownStatement(node.kind.clone()))
    }
}

/// Lowers the block of statements under a node: the body of a `travel`
/// block, or every named child of another node.
pub fn parse_block(node: &SyntaxNode) -> (out: Result<Vec<Stmt>, ParseError>)
    ensures
        block_outcome(out) == lower_block(node@),
{
    let mut body: Vec<Stmt> = Vec::new();
    let start: usize = if node.is_kind("travel_block") { 4 } else { 0 };
    let mut i: usize = start;
    proof {
        assert(block_view(body@) =~= Seq::empty());
        lemma_children_len(*node);
    }
    while i < node.children.len()
        invariant
            start <= i,
            i <= node.children.len() || i == start,
            start == block_start(node@),
            node.children@.len() == node@.children.len(),
            lower_children(node@, start as nat, i as nat) == Ok::<Seq<StmtView>, ParseErrorView>(
                block_view(body@),
            ),
        decreases node.children.len() - i,
    {
        proof {
            lemma_child_view(*node, i as int);
        }
        let child = &node.children[i];
        if child.named {
            let stmt = match parse_stmt(child) {
                Ok(stmt) => stmt,
                Err(e) => {
                    proof {
                        lemma_children_failure_stays(
                            node@,
                            start as nat,
                            (i + 1) as nat,
                            node@.children.len(),
                        );
                    }
                    return Err(e);
                },
            };
            proof {
                lemma_block_view_push(body@, stmt);
            }
            body.push(stmt);
        }
        i += 1;
    }
    Ok(body)
}

/// Lowers a `travel_block` node: its frame count, then its body.
fn parse_travel(node: &SyntaxNode) -> (out: Result<Stmt, ParseError>)
    ensures
        stmt_outcome(out) == lower_travel(node@),
{
    proof {
        lemma_children_len(*node);
    }
    if node.children.len() < 3 {
        return Err(ParseError::Grammar);
    }
    proof {
        lemma_child_view(*node, 2);
    }
    let frames: u32 = match parse_literal(&node.children[2].text) {
        Ok(n) => n,
        Err(e) => {
            return Err(e);
        },
    };
    match parse_block(node) {
        Ok(body) => {
            Ok(Stmt::Travel { frames, body })
        },
        Err(e) => Err(e),
    }
}

/// Lowers a syntax tree into a program: one `travel` statement for every
/// named `travel_block` child of the root, in order. Other children of the
/// root are passed over. A tree that holds a syntax error is refused.
pub fn parse(root: &SyntaxNode) -> (out: Result<Vec<Stmt>, ParseError>)
    ensures
        block_outcome(out) == lower_program(root@),
{
    if root.has_error() {
        return Err(ParseError::Grammar);
    }
    let mut stmts: Vec<Stmt> = Vec::new();
    let mut i: usize = 0;
    proof {
        assert(block_view(stmts@) =~= Seq::empty());
        lemma_children_len(*root);
    }
    while i < root.children.len()
        invariant
            i <= root.children.len(),
            !has_error(root@),
            root.children@.len() == root@.children.len(),
            lower_top(root@, i as nat) == Ok::<Seq<StmtView>, ParseErrorView>(
                block_view(stmts@),
            ),
        decreases root.children.len() - i,
    {
        proof {
            lemma_child_view(*root, i as int);
        }
        let child = &root.children[i];
        if child.named && child.is_kind("travel_block") {
            let stmt = match parse_travel(child) {
                Ok(stmt) => stmt,
                Err(e) => {
                    proof {
                        lemma_top_failure_stays(root@, (i + 1) as nat, root@.children.len());
                    }
                    return Err(e);
                },
            };
            proof {
                lemma_block_view_push(stmts@, stmt);
            }
            stmts.push(stmt);
        }
        i += 1;
    }
    Ok(stmts)
}

} // verus!
