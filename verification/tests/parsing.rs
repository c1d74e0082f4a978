use bracklang::parser::{Node, Parser};
use bracklang::scanner::Scanner;
use bracklang::token::{Literal, TokType, Token};

fn parse_src(src: &str) -> Vec<Node> {
    let mut s = Scanner::new(String::from(src));
    let toks = s.scan_tokens().unwrap();
    let mut p = Parser::new(toks);
    p.parse()
}

#[test]
fn empty_input_parses_to_empty_forest() {
    let nodes = parse_src("");
    assert!(nodes.is_empty());
}

#[test]
fn trivia_only_input_parses_to_empty_forest() {
    let nodes = parse_src(" // nothing here\n\t ");
    assert!(nodes.is_empty());
}

#[test]
fn bare_integer_parses_to_one_leaf() {
    let nodes = parse_src("42");
    assert_eq!(nodes.len(), 1);
    assert_eq!(nodes[0].tok.ltype, TokType::Int);
    assert_eq!(nodes[0].tok.literal, Literal::Int(42));
    assert!(nodes[0].children.is_empty());
}

#[test]
fn prefix_add_parses_to_expr_with_add() {
    let nodes = parse_src("[+ 1 2]");
    assert_eq!(nodes.len(), 1);
    let expr = &nodes[0];
    assert_eq!(expr.tok.ltype, TokType::Expr);
    assert_eq!(expr.tok.lexeme, "");
    assert_eq!(expr.tok.literal, Literal::Null);
    assert_eq!(expr.children.len(), 1);
    let add = &expr.children[0];
    assert_eq!(add.tok.ltype, TokType::Add);
    assert_eq!(add.tok.lexeme, "");
    assert_eq!(add.tok.literal, Literal::Null);
    assert_eq!(add.children.len(), 2);
    assert_eq!(add.children[0].tok.literal, Literal::Int(1));
    assert_eq!(add.children[1].tok.literal, Literal::Int(2));
}

#[test]
fn nested_arithmetic_parses_inside_out() {
    let nodes = parse_src("[* [+ 1 2] 3]");
    assert_eq!(nodes.len(), 1);
    let outer = &nodes[0];
    assert_eq!(outer.tok.ltype, TokType::Expr);
    assert_eq!(outer.children.len(), 1);
    let mul = &outer.children[0];
    assert_eq!(mul.tok.ltype, TokType::Mul);
    assert_eq!(mul.children.len(), 2);
    let inner = &mul.children[0];
    assert_eq!(inner.tok.ltype, TokType::Expr);
    assert_eq!(inner.children.len(), 1);
    let add = &inner.children[0];
    assert_eq!(add.tok.ltype, TokType::Add);
    assert_eq!(add.children.len(), 2);
    assert_eq!(add.children[0].tok.literal, Literal::Int(1));
    assert_eq!(add.children[1].tok.literal, Literal::Int(2));
    assert_eq!(mul.children[1].tok.literal, Literal::Int(3));
}

#[test]
fn def_form_parses_to_expr_with_three_leaves() {
    let nodes = parse_src("[def x \"hi\"]");
    assert_eq!(nodes.len(), 1);
    let expr = &nodes[0];
    assert_eq!(expr.tok.ltype, TokType::Expr);
    assert_eq!(expr.children.len(), 3);
    assert_eq!(expr.children[0].tok.ltype, TokType::Def);
    assert_eq!(expr.children[1].tok.ltype, TokType::Identifier);
    assert_eq!(expr.children[1].tok.lexeme, "x");
    assert_eq!(expr.children[2].tok.ltype, TokType::String);
    assert_eq!(expr.children[2].tok.literal, Literal::Str(String::from("hi")));
}

#[test]
fn unclosed_bracket_yields_single_truncated_expr() {
    let nodes = parse_src("[");
    assert_eq!(nodes.len(), 1);
    assert_eq!(nodes[0].tok.ltype, TokType::Expr);
    assert!(nodes[0].children.is_empty());

    let nodes = parse_src("[+ 1 2");
    assert_eq!(nodes.len(), 1);
    let expr = &nodes[0];
    assert_eq!(expr.tok.ltype, TokType::Expr);
    assert_eq!(expr.children.len(), 1);
    let add = &expr.children[0];
    assert_eq!(add.tok.ltype, TokType::Add);
    assert_eq!(add.children.len(), 2);
}

#[test]
fn bare_closing_bracket_is_tolerated_as_a_leaf() {
    let nodes = parse_src("]");
    assert_eq!(nodes.len(), 1);
    assert_eq!(nodes[0].tok.ltype, TokType::rBrack);
    assert!(nodes[0].children.is_empty());
}

#[test]
fn empty_arith_form_is_well_formed() {
    let nodes = parse_src("[+]");
    assert_eq!(nodes.len(), 1);
    let expr = &nodes[0];
    assert_eq!(expr.tok.ltype, TokType::Expr);
    assert_eq!(expr.children.len(), 1);
    assert_eq!(expr.children[0].tok.ltype, TokType::Add);
    assert!(expr.children[0].children.is_empty());
}

#[test]
fn several_top_level_expressions_in_source_order() {
    let nodes = parse_src("1 [+ 2] x");
    assert_eq!(nodes.len(), 3);
    assert_eq!(nodes[0].tok.literal, Literal::Int(1));
    assert_eq!(nodes[1].tok.ltype, TokType::Expr);
    assert_eq!(nodes[2].tok.ltype, TokType::Identifier);
}

fn count_exprs(ns: &[Node]) -> usize {
    ns.iter()
        .map(|n| (if n.tok.ltype == TokType::Expr { 1 } else { 0 }) + count_exprs(&n.children))
        .sum()
}

#[test]
fn expr_count_matches_lbrack_count() {
    for (src, n) in [("", 0), ("[ ]", 1), ("[[ ] [ ]]", 3), ("[* [+ 1 2] 3]", 2), ("[", 1)] {
        let nodes = parse_src(src);
        assert_eq!(count_exprs(&nodes), n, "source {:?}", src);
    }
}

fn check_synthetic(n: &Node) {
    let synthetic = matches!(
        n.tok.ltype,
        TokType::Expr
            | TokType::Block
            | TokType::Arr
            | TokType::Add
            | TokType::Sub
            | TokType::Mul
            | TokType::Div
    );
    if synthetic {
        assert_eq!(n.tok.lexeme, "");
        assert_eq!(n.tok.literal, Literal::Null);
    }
    for c in &n.children {
        check_synthetic(c);
    }
}

#[test]
fn synthetic_nodes_carry_no_lexeme_or_payload() {
    for n in parse_src("[* [+ 1 2] 3] [def x \"hi\"] [/ 8 2] [- 1]") {
        check_synthetic(&n);
    }
}

#[test]
fn parser_appends_missing_sentinel() {
    // a token vector built by hand, without Eof
    let toks = vec![Token::new(TokType::Int, String::from("7"), Literal::Int(7), 1)];
    let mut p = Parser::new(toks);
    let nodes = p.parse();
    assert_eq!(nodes.len(), 1);
    assert_eq!(nodes[0].tok.literal, Literal::Int(7));
}

#[test]
fn parse_expr_on_empty_tokens_gives_null_node() {
    let mut p = Parser::new(Vec::new());
    let n = p.parse_expr();
    assert_eq!(n.tok.ltype, TokType::Eof);
    assert!(n.children.is_empty());
}

#[test]
fn literal_payload_retags_the_leaf_kind() {
    // a hand-built token whose kind disagrees with its Int payload is
    // retagged by the parser's literal dispatch
    let toks = vec![
        Token::new(TokType::Identifier, String::from("5"), Literal::Int(5), 1),
        Token::new(TokType::Eof, String::new(), Literal::Null, 1),
    ];
    let mut p = Parser::new(toks);
    let nodes = p.parse();
    assert_eq!(nodes.len(), 1);
    assert_eq!(nodes[0].tok.ltype, TokType::Int);
    assert_eq!(nodes[0].tok.literal, Literal::Int(5));
}

#[test]
fn node_constructors() {
    let t = Token::new(TokType::Int, String::from("1"), Literal::Int(1), 1);
    let n = Node::new(t);
    assert_eq!(n.tok.ltype, TokType::Int);
    assert!(n.children.is_empty());
    let z = Node::null();
    assert_eq!(z.tok.ltype, TokType::Eof);
    assert_eq!(z.tok.lexeme, "");
    assert!(z.children.is_empty());
}
