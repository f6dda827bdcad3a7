use gifdsl::ast::{Expr, Stmt};
use gifdsl::canvas::draw_circle;
use gifdsl::error::ParseError;
use gifdsl::parser::{first_named_child, parse, parse_block, parse_expr, parse_literal, parse_stmt};
use gifdsl::render::run_program;
use gifdsl::syntax::SyntaxNode;
use gifdsl::text::{parse_number, str_eq};

/// A literal token of the grammar.
fn token(text: &str) -> SyntaxNode {
    SyntaxNode {
        kind: text.to_string(),
        named: false,
        missing: false,
        text: text.to_string(),
        children: Vec::new(),
    }
}

/// A named node without children.
fn leaf(kind: &str, text: &str) -> SyntaxNode {
    SyntaxNode {
        kind: kind.to_string(),
        named: true,
        missing: false,
        text: text.to_string(),
        children: Vec::new(),
    }
}

/// A named node over its children.
fn node(kind: &str, children: Vec<SyntaxNode>) -> SyntaxNode {
    let text = children.iter().map(|c| c.text.as_str()).collect::<Vec<&str>>().join(" ");
    SyntaxNode { kind: kind.to_string(), named: true, missing: false, text, children }
}

fn number(text: &str) -> SyntaxNode {
    leaf("number", text)
}

fn identifier(text: &str) -> SyntaxNode {
    leaf("identifier", text)
}

fn call_expr(name: &str) -> SyntaxNode {
    node("call_expr", vec![identifier(name), token("("), token(")")])
}

fn binary_expr(left: SyntaxNode, op: &str, right: SyntaxNode) -> SyntaxNode {
    node("binary_expr", vec![left, token(op), right])
}

fn expr(inner: SyntaxNode) -> SyntaxNode {
    node("expr", vec![inner])
}

fn expr_stmt(inner: SyntaxNode) -> SyntaxNode {
    node("expr_stmt", vec![expr(inner)])
}

fn circle_stmt() -> SyntaxNode {
    expr_stmt(call_expr("circle"))
}

fn if_stmt(condition: SyntaxNode, then_part: Vec<SyntaxNode>) -> SyntaxNode {
    let mut children = vec![token("if"), expr(condition), token(":")];
    children.extend(then_part);
    node("if_stmt", children)
}

fn if_else_stmt(
    condition: SyntaxNode,
    then_part: Vec<SyntaxNode>,
    else_part: Vec<SyntaxNode>,
) -> SyntaxNode {
    let mut children = vec![token("if"), expr(condition), token(":")];
    children.extend(then_part);
    children.push(token("else"));
    children.push(token(":"));
    children.extend(else_part);
    node("if_stmt", children)
}

fn travel_block(count: &str, body: Vec<SyntaxNode>) -> SyntaxNode {
    let mut children = vec![token("travel"), token(" "), number(count), token(":")];
    children.extend(body);
    node("travel_block", children)
}

fn source_file(blocks: Vec<SyntaxNode>) -> SyntaxNode {
    node("source_file", blocks)
}

fn circle() -> Stmt {
    Stmt::Expr(Expr::Call("circle".to_string()), 1)
}

fn num(n: u32) -> Expr {
    Expr::Number(n)
}

fn var(name: &str) -> Expr {
    Expr::Variable(name.to_string())
}

fn binary(left: Expr, op: &str, right: Expr) -> Expr {
    Expr::Binary { left: Box::new(left), op: op.to_string(), right: Box::new(right) }
}

fn blank() -> Vec<u8> {
    vec![0u8; 200 * 200 * 3]
}

fn circle_frame() -> Vec<u8> {
    let mut buf = blank();
    draw_circle(&mut buf, 200, 200, 100, 100, 50, [255, 0, 0]);
    buf
}

#[test]
fn travel_3_circle() {
    // travel 3: circle()
    let tree = source_file(vec![travel_block("3", vec![circle_stmt()])]);
    assert_eq!(parse(&tree), Ok(vec![Stmt::Travel { frames: 3, body: vec![circle()] }]));
}

#[test]
fn both_branches_render_the_circle() {
    // travel 2: if travel == 0: circle() else: circle()
    let condition = binary_expr(identifier("travel"), "==", number("0"));
    let tree = source_file(vec![travel_block(
        "2",
        vec![if_else_stmt(condition, vec![circle_stmt()], vec![circle_stmt()])],
    )]);
    let program = parse(&tree).unwrap();
    assert_eq!(
        program,
        vec![Stmt::Travel {
            frames: 2,
            body: vec![Stmt::If {
                condition: Box::new(binary(var("travel"), "==", num(0))),
                then_body: vec![circle()],
                else_body: vec![circle()],
            }],
        }]
    );
    assert_eq!(run_program(program), Ok(vec![circle_frame(), circle_frame()]));
}

#[test]
fn a_false_condition_without_else_renders_a_blank_frame() {
    // travel 1: if travel > 0: circle()
    let condition = binary_expr(identifier("travel"), ">", number("0"));
    let tree = source_file(vec![travel_block("1", vec![if_stmt(condition, vec![circle_stmt()])])]);
    let program = parse(&tree).unwrap();
    assert_eq!(
        program,
        vec![Stmt::Travel {
            frames: 1,
            body: vec![Stmt::If {
                condition: Box::new(binary(var("travel"), ">", num(0))),
                then_body: vec![circle()],
                else_body: Vec::new(),
            }],
        }]
    );
    assert_eq!(run_program(program), Ok(vec![blank()]));
}

#[test]
fn statements_before_else_run_when_the_condition_holds() {
    let tree = if_else_stmt(
        identifier("travel"),
        vec![circle_stmt(), expr_stmt(call_expr("a"))],
        vec![expr_stmt(call_expr("b"))],
    );
    assert_eq!(
        parse_stmt(&tree),
        Ok(Stmt::If {
            condition: Box::new(var("travel")),
            then_body: vec![circle(), Stmt::Expr(Expr::Call("a".to_string()), 1)],
            else_body: vec![Stmt::Expr(Expr::Call("b".to_string()), 1)],
        })
    );
}

#[test]
fn an_else_without_statements() {
    let tree = if_else_stmt(number("1"), vec![circle_stmt()], Vec::new());
    assert_eq!(
        parse_stmt(&tree),
        Ok(Stmt::If {
            condition: Box::new(num(1)),
            then_body: vec![circle()],
            else_body: Vec::new(),
        })
    );
    let tree = if_else_stmt(number("1"), Vec::new(), vec![circle_stmt()]);
    assert_eq!(
        parse_stmt(&tree),
        Ok(Stmt::If {
            condition: Box::new(num(1)),
            then_body: Vec::new(),
            else_body: vec![circle()],
        })
    );
}

#[test]
fn nested_if_statements() {
    let inner = if_else_stmt(number("0"), Vec::new(), vec![circle_stmt()]);
    let tree = if_stmt(number("1"), vec![inner]);
    assert_eq!(
        parse_stmt(&tree),
        Ok(Stmt::If {
            condition: Box::new(num(1)),
            then_body: vec![Stmt::If {
                condition: Box::new(num(0)),
                then_body: Vec::new(),
                else_body: vec![circle()],
            }],
            else_body: Vec::new(),
        })
    );
}

#[test]
fn malformed_source_is_a_grammar_error() {
    // an unterminated block: the engine wraps what it could not parse
    let broken = SyntaxNode {
        kind: "ERROR".to_string(),
        named: true,
        missing: false,
        text: "travel 3".to_string(),
        children: vec![token("travel"), number("3")],
    };
    assert_eq!(parse(&source_file(vec![broken])), Err(ParseError::Grammar));

    // a token that the engine put in for one that the source lacks
    let mut colon = token(":");
    colon.missing = true;
    colon.text = String::new();
    let block = node(
        "travel_block",
        vec![token("travel"), token(" "), number("3"), colon, circle_stmt()],
    );
    assert_eq!(parse(&source_file(vec![block])), Err(ParseError::Grammar));
}

#[test]
fn an_error_deep_in_the_tree_is_found() {
    let broken = leaf("ERROR", "?");
    let tree = source_file(vec![
        travel_block("1", vec![circle_stmt()]),
        travel_block("2", vec![if_stmt(number("1"), vec![expr_stmt(broken)])]),
    ]);
    assert!(tree.has_error());
    assert_eq!(parse(&tree), Err(ParseError::Grammar));
    let fine = source_file(vec![travel_block("1", vec![circle_stmt()])]);
    assert!(!fine.has_error());
}

#[test]
fn an_error_at_the_root_is_found() {
    let mut tree = source_file(Vec::new());
    tree.kind = "ERROR".to_string();
    assert_eq!(parse(&tree), Err(ParseError::Grammar));
    let mut tree = source_file(Vec::new());
    tree.missing = true;
    assert_eq!(parse(&tree), Err(ParseError::Grammar));
}

#[test]
fn the_grammar_error_comes_before_any_other() {
    let tree = source_file(vec![
        travel_block("x", vec![leaf("loop_stmt", "loop")]),
        leaf("ERROR", "??"),
    ]);
    assert_eq!(parse(&tree), Err(ParseError::Grammar));
}

#[test]
fn an_empty_tree_is_an_empty_program() {
    assert_eq!(parse(&source_file(Vec::new())), Ok(Vec::new()));
}

#[test]
fn other_top_level_nodes_are_passed_over() {
    let tree = source_file(vec![
        leaf("comment", "# first"),
        travel_block("1", Vec::new()),
        circle_stmt(),
        token("travel_block"),
        travel_block("2", vec![circle_stmt()]),
    ]);
    assert_eq!(
        parse(&tree),
        Ok(vec![
            Stmt::Travel { frames: 1, body: Vec::new() },
            Stmt::Travel { frames: 2, body: vec![circle()] },
        ])
    );
}

#[test]
fn a_travel_block_without_its_count_is_a_grammar_error() {
    let tree = source_file(vec![node("travel_block", vec![token("travel"), token(" ")])]);
    assert_eq!(parse(&tree), Err(ParseError::Grammar));
    let tree = source_file(vec![node("travel_block", Vec::new())]);
    assert_eq!(parse(&tree), Err(ParseError::Grammar));
}

#[test]
fn a_frame_count_that_is_no_number() {
    for text in ["4294967296", "99999999999999999999", "-1", "three", "", "3 ", "1_000", "0x10"] {
        let tree = source_file(vec![travel_block(text, vec![circle_stmt()])]);
        assert_eq!(parse(&tree), Err(ParseError::NumericLiteral(text.to_string())));
    }
}

#[test]
fn the_largest_frame_count() {
    let tree = source_file(vec![travel_block("4294967295", Vec::new())]);
    assert_eq!(parse(&tree), Ok(vec![Stmt::Travel { frames: u32::MAX, body: Vec::new() }]));
}

#[test]
fn a_travel_block_with_three_children_has_an_empty_body() {
    let tree = node("travel_block", vec![token("travel"), token(" "), number("7")]);
    assert_eq!(parse_block(&tree), Ok(Vec::new()));
    assert_eq!(
        parse(&source_file(vec![tree])),
        Ok(vec![Stmt::Travel { frames: 7, body: Vec::new() }])
    );
}

#[test]
fn the_body_of_a_travel_block_starts_at_the_fifth_child() {
    // the first four children are never statements, whatever they are
    let tree = node(
        "travel_block",
        vec![circle_stmt(), circle_stmt(), number("2"), circle_stmt(), token(" "), circle_stmt()],
    );
    assert_eq!(parse_block(&tree), Ok(vec![circle()]));
}

#[test]
fn a_block_under_another_node_holds_every_named_child() {
    let tree = node("block", vec![token("{"), circle_stmt(), token(";"), circle_stmt(), token("}")]);
    assert_eq!(parse_block(&tree), Ok(vec![circle(), circle()]));
}

#[test]
fn an_unknown_statement_in_a_block() {
    let tree = source_file(vec![travel_block("1", vec![circle_stmt(), leaf("loop_stmt", "loop")])]);
    assert_eq!(parse(&tree), Err(ParseError::UnknownStatement("loop_stmt".to_string())));
    assert_eq!(
        parse_stmt(&call_expr("circle")),
        Err(ParseError::UnknownStatement("call_expr".to_string()))
    );
    assert_eq!(
        parse_stmt(&travel_block("1", Vec::new())),
        Err(ParseError::UnknownStatement("travel_block".to_string()))
    );
}

#[test]
fn an_unknown_expression() {
    assert_eq!(
        parse_expr(&leaf("string", "\"a\"")),
        Err(ParseError::UnknownExpression("string".to_string()))
    );
    assert_eq!(
        parse_stmt(&expr_stmt(leaf("string", "\"a\""))),
        Err(ParseError::UnknownExpression("string".to_string()))
    );
    assert_eq!(
        parse_expr(&binary_expr(number("1"), "+", token("?"))),
        Err(ParseError::UnknownExpression("?".to_string()))
    );
    assert_eq!(
        parse_stmt(&if_stmt(circle_stmt(), Vec::new())),
        Err(ParseError::UnknownExpression("expr_stmt".to_string()))
    );
}

#[test]
fn the_first_failure_is_reported() {
    let tree = binary_expr(leaf("string", "a"), "+", number("x"));
    assert_eq!(parse_expr(&tree), Err(ParseError::UnknownExpression("string".to_string())));
    let tree = binary_expr(number("x"), "+", leaf("string", "a"));
    assert_eq!(parse_expr(&tree), Err(ParseError::NumericLiteral("x".to_string())));
    let tree = if_else_stmt(
        number("1"),
        vec![leaf("first", "")],
        vec![leaf("second", "")],
    );
    assert_eq!(parse_stmt(&tree), Err(ParseError::UnknownStatement("first".to_string())));
    let tree = if_else_stmt(number("q"), vec![leaf("first", "")], Vec::new());
    assert_eq!(parse_stmt(&tree), Err(ParseError::NumericLiteral("q".to_string())));
}

#[test]
fn expressions_of_every_kind() {
    assert_eq!(parse_expr(&number("42")), Ok(num(42)));
    assert_eq!(parse_expr(&identifier("travel")), Ok(var("travel")));
    assert_eq!(parse_expr(&identifier("x")), Ok(var("x")));
    assert_eq!(parse_expr(&call_expr("circle")), Ok(Expr::Call("circle".to_string())));
    assert_eq!(parse_expr(&expr(number("42"))), Ok(num(42)));
    assert_eq!(parse_expr(&expr(expr(expr(identifier("a"))))), Ok(var("a")));
    for op in ["+", "-", "*", "/", "%", "==", "!=", ">", "<"] {
        let tree = binary_expr(expr(identifier("travel")), op, expr(number("2")));
        assert_eq!(parse_expr(&tree), Ok(binary(var("travel"), op, num(2))));
    }
    let nested = binary_expr(binary_expr(number("1"), "+", number("2")), "*", number("3"));
    assert_eq!(parse_expr(&nested), Ok(binary(binary(num(1), "+", num(2)), "*", num(3))));
}

#[test]
fn an_expr_node_stands_for_its_first_named_child() {
    let tree = node("expr", vec![token("("), number("5"), token(")"), number("6")]);
    assert_eq!(parse_expr(&tree), Ok(num(5)));
}

#[test]
fn nodes_that_lack_a_child_are_grammar_errors() {
    assert_eq!(parse_expr(&node("expr", Vec::new())), Err(ParseError::Grammar));
    assert_eq!(parse_expr(&node("expr", vec![token("("), token(")")])), Err(ParseError::Grammar));
    assert_eq!(parse_expr(&node("call_expr", Vec::new())), Err(ParseError::Grammar));
    assert_eq!(parse_expr(&node("binary_expr", Vec::new())), Err(ParseError::Grammar));
    assert_eq!(
        parse_expr(&node("binary_expr", vec![number("1"), token("+")])),
        Err(ParseError::Grammar)
    );
    assert_eq!(parse_stmt(&node("expr_stmt", Vec::new())), Err(ParseError::Grammar));
    assert_eq!(parse_stmt(&node("if_stmt", Vec::new())), Err(ParseError::Grammar));
    assert_eq!(
        parse_stmt(&node("if_stmt", vec![token("if"), token(":")])),
        Err(ParseError::Grammar)
    );
}

#[test]
fn the_name_of_a_call_is_the_text_of_its_first_child() {
    let tree = node("call_expr", vec![token("square"), token("("), token(")")]);
    assert_eq!(parse_expr(&tree), Ok(Expr::Call("square".to_string())));
}

#[test]
fn the_repeat_count_defaults_to_one() {
    assert_eq!(parse_stmt(&circle_stmt()), Ok(circle()));
}

#[test]
fn a_number_after_the_expression_is_the_repeat_count() {
    let tree = node("expr_stmt", vec![expr(call_expr("circle")), number("4")]);
    assert_eq!(parse_stmt(&tree), Ok(Stmt::Expr(Expr::Call("circle".to_string()), 4)));
    let tree = node("expr_stmt", vec![expr(call_expr("circle")), token("x"), number("0")]);
    assert_eq!(parse_stmt(&tree), Ok(Stmt::Expr(Expr::Call("circle".to_string()), 0)));
    let tree = node("expr_stmt", vec![expr(call_expr("circle")), number("4"), number("9")]);
    assert_eq!(parse_stmt(&tree), Ok(Stmt::Expr(Expr::Call("circle".to_string()), 9)));
}

#[test]
fn a_number_as_the_expression_is_no_repeat_count() {
    let tree = node("expr_stmt", vec![number("4")]);
    assert_eq!(parse_stmt(&tree), Ok(Stmt::Expr(num(4), 1)));
}

#[test]
fn a_repeat_count_that_is_no_number() {
    let tree = node("expr_stmt", vec![expr(call_expr("circle")), number("4294967296")]);
    assert_eq!(parse_stmt(&tree), Err(ParseError::NumericLiteral("4294967296".to_string())));
    let tree = node("expr_stmt", vec![expr(call_expr("circle")), number("z"), number("2")]);
    assert_eq!(parse_stmt(&tree), Err(ParseError::NumericLiteral("z".to_string())));
}

#[test]
fn the_condition_is_the_first_named_child() {
    let tree = node("if_stmt", vec![token("if"), number("1"), token(":"), circle_stmt()]);
    assert_eq!(
        parse_stmt(&tree),
        Ok(Stmt::If { condition: Box::new(num(1)), then_body: vec![circle()], else_body: Vec::new() })
    );
    assert_eq!(first_named_child(&tree), Some(1));
    assert_eq!(first_named_child(&token("x")), None);
    assert_eq!(first_named_child(&node("n", vec![token("a"), token("b")])), None);
    assert_eq!(first_named_child(&node("n", vec![number("1"), number("2")])), Some(0));
}

#[test]
fn number_literals() {
    assert_eq!(parse_number("0"), Some(0));
    assert_eq!(parse_number("7"), Some(7));
    assert_eq!(parse_number("42"), Some(42));
    assert_eq!(parse_number("007"), Some(7));
    assert_eq!(parse_number("+5"), Some(5));
    assert_eq!(parse_number("4294967295"), Some(u32::MAX));
    assert_eq!(parse_number("0000000004294967295"), Some(u32::MAX));
    assert_eq!(parse_number("4294967296"), None);
    assert_eq!(parse_number("4294967300"), None);
    assert_eq!(parse_number("42949672950"), None);
    assert_eq!(parse_number(""), None);
    assert_eq!(parse_number("+"), None);
    assert_eq!(parse_number("++5"), None);
    assert_eq!(parse_number("5+"), None);
    assert_eq!(parse_number("-5"), None);
    assert_eq!(parse_number(" 5"), None);
    assert_eq!(parse_number("5 "), None);
    assert_eq!(parse_number("5a"), None);
    assert_eq!(parse_number("1_000"), None);
    assert_eq!(parse_number("٣"), None);
    assert_eq!(parse_number("12é"), None);
}

#[test]
fn number_literals_agree_with_the_standard_library() {
    let texts = [
        "0", "1", "10", "99", "+0", "+12", "4294967295", "4294967296", "", "+", "-", "-0", "a",
        "1a", "a1", "00", "9999999999", "18446744073709551616", "1.5", "1e3", " 1", "+ 1",
    ];
    for text in texts {
        assert_eq!(parse_number(text), text.parse::<u32>().ok(), "{:?}", text);
    }
}

#[test]
fn a_literal_names_its_text_when_it_fails() {
    assert_eq!(parse_literal(&"12".to_string()), Ok(12));
    assert_eq!(
        parse_literal(&"twelve".to_string()),
        Err(ParseError::NumericLiteral("twelve".to_string()))
    );
}

#[test]
fn strings_are_compared_by_their_characters() {
    assert!(str_eq("", ""));
    assert!(str_eq("travel", "travel"));
    assert!(!str_eq("travel", "travel "));
    assert!(!str_eq("travel", "travem"));
    assert!(!str_eq("a", ""));
    assert!(str_eq("é", "é"));
    assert!(!str_eq("é", "e"));
    assert!(leaf("number", "1").is_kind("number"));
    assert!(!leaf("number", "1").is_kind("numbers"));
}
