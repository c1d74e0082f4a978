//! The functional specification of the parser: a recursive descent over
//! the token sequence producing a forest of nodes. The executable parser
//! is proved to return exactly `parse_toks` of its tokens.

use vstd::prelude::*;

use crate::scan_spec::eof_tok;
use crate::token::{LiteralV, TokType, TokenV};

verus! {

/// A parse tree node: the labelling token plus the ordered children.
#[verifier::ext_equal]
pub ghost struct NodeV {
    pub tok: TokenV,
    pub children: Seq<NodeV>,
}

/// The placeholder token of the null node.
pub open spec fn null_tok() -> TokenV {
    TokenV { ltype: TokType::Eof, lexeme: Seq::empty(), literal: LiteralV::Null, line: 0 }
}

/// The node returned when there is nothing left to parse.
pub open spec fn null_node() -> NodeV {
    NodeV { tok: null_tok(), children: Seq::empty() }
}

/// A leaf node wrapping one token.
pub open spec fn leaf_node(t: TokenV) -> NodeV {
    NodeV { tok: t, children: Seq::empty() }
}

/// A synthetic node: empty lexeme, `Null` payload, the line of the token
/// that began its construction.
pub open spec fn synth_node(k: TokType, line: nat, children: Seq<NodeV>) -> NodeV {
    NodeV {
        tok: TokenV { ltype: k, lexeme: Seq::empty(), literal: LiteralV::Null, line },
        children,
    }
}

/// The parser's cursor is at its end when it rests on the final sentinel.
pub open spec fn at_end(toks: Seq<TokenV>, i: int) -> bool {
    i >= toks.len() - 1
}

/// The token under the cursor; past the end, the final token.
pub open spec fn get_tok(toks: Seq<TokenV>, i: int) -> TokenV {
    if at_end(toks, i) {
        toks[toks.len() - 1]
    } else {
        toks[i]
    }
}

/// One of the four variadic prefix arithmetic operators.
pub open spec fn is_arith_op(k: TokType) -> bool {
    k == TokType::Add || k == TokType::Sub || k == TokType::Mul || k == TokType::Div
}

/// Parse one expression at cursor `i`: the node and the cursor after it.
/// A literal payload yields a retagged leaf; an arithmetic operator or a
/// `[` collects children; anything else is wrapped verbatim as a leaf.
pub open spec fn parse_expr_at(toks: Seq<TokenV>, i: int) -> (NodeV, int)
    decreases toks.len() - i, 0int,
{
    if at_end(toks, i) {
        (null_node(), i)
    } else {
        let t = get_tok(toks, i);
        match t.literal {
            LiteralV::Int(_) => (leaf_node(TokenV { ltype: TokType::Int, ..t }), i + 1),
            LiteralV::Float(_) => (leaf_node(TokenV { ltype: TokType::Float, ..t }), i + 1),
            LiteralV::Str(_) => (leaf_node(TokenV { ltype: TokType::String, ..t }), i + 1),
            LiteralV::Null => {
                if is_arith_op(t.ltype) {
                    let (children, j) = parse_children(toks, i + 1);
                    (synth_node(t.ltype, t.line, children), j)
                } else if t.ltype == TokType::lBrack {
                    let (children, j) = parse_children(toks, i + 1);
                    let node = synth_node(TokType::Expr, t.line, children);
                    if !at_end(toks, j) && get_tok(toks, j).ltype == TokType::rBrack {
                        (node, j + 1)
                    } else {
                        (node, j)
                    }
                } else {
                    (leaf_node(t), i + 1)
                }
            },
        }
    }
}

/// Parse child expressions until the cursor rests on `]` or the end.
/// The clamp on the recursion index never moves it on reachable inputs
/// (`lemma_parse_bounds`); it only keeps the recursion well-founded.
pub open spec fn parse_children(toks: Seq<TokenV>, i: int) -> (Seq<NodeV>, int)
    decreases toks.len() - i, 1int,
{
    if at_end(toks, i) || get_tok(toks, i).ltype == TokType::rBrack {
        (Seq::empty(), i)
    } else {
        let (n, j0) = parse_expr_at(toks, i);
        let j = if j0 <= i {
            i + 1
        } else if j0 > toks.len() {
            toks.len() as int
        } else {
            j0
        };
        let (rest, k) = parse_children(toks, j);
        (seq![n] + rest, k)
    }
}

/// The token sequence with the `Eof` sentinel appended if it is missing.
pub open spec fn with_sentinel(toks: Seq<TokenV>) -> Seq<TokenV> {
    if toks.len() == 0 {
        seq![eof_tok(1)]
    } else if toks.last().ltype != TokType::Eof {
        toks.push(eof_tok(toks.last().line))
    } else {
        toks
    }
}

/// The driver: parse top-level expressions until the cursor reaches the
/// sentinel.
pub open spec fn parse_loop(toks: Seq<TokenV>, i: int) -> Seq<NodeV>
    decreases toks.len() - i, 2int,
{
    if at_end(toks, i) {
        Seq::empty()
    } else {
        let (n, j0) = parse_expr_at(toks, i);
        let j = if j0 <= i {
            i + 1
        } else if j0 > toks.len() {
            toks.len() as int
        } else {
            j0
        };
        seq![n] + parse_loop(toks, j)
    }
}

/// Parse a whole token sequence: append the sentinel, then drive from the
/// start.
pub open spec fn parse_toks(toks: Seq<TokenV>) -> Seq<NodeV> {
    parse_loop(with_sentinel(toks), 0)
}

/// Parsing one expression moves the cursor forward, and never past the
/// end of the tokens.
pub proof fn lemma_parse_expr_bounds(toks: Seq<TokenV>, i: int)
    requires
        0 <= i,
    ensures
        at_end(toks, i) ==> parse_expr_at(toks, i).1 == i,
        !at_end(toks, i) ==> i < parse_expr_at(toks, i).1 <= toks.len(),
    decreases toks.len() - i, 0int,
{
    if !at_end(toks, i) {
        let t = get_tok(toks, i);
        match t.literal {
            LiteralV::Null => {
                if is_arith_op(t.ltype) || t.ltype == TokType::lBrack {
                    lemma_parse_children_bounds(toks, i + 1);
                }
            },
            _ => {},
        }
    }
}

/// Collecting children never moves the cursor backwards, and never past
/// the end of the tokens.
pub proof fn lemma_parse_children_bounds(toks: Seq<TokenV>, i: int)
    requires
        0 <= i,
    ensures
        i <= parse_children(toks, i).1,
        i <= toks.len() ==> parse_children(toks, i).1 <= toks.len(),
        i > toks.len() ==> parse_children(toks, i).1 == i,
    decreases toks.len() - i, 1int,
{
    if !(at_end(toks, i) || get_tok(toks, i).ltype == TokType::rBrack) {
        lemma_parse_expr_bounds(toks, i);
        let j0 = parse_expr_at(toks, i).1;
        let j = if j0 <= i {
            i + 1
        } else if j0 > toks.len() {
            toks.len() as int
        } else {
            j0
        };
        lemma_parse_children_bounds(toks, j);
    }
}

} // verus!
