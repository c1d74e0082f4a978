//! The parser: a cursor over the token sequence producing a forest of
//! `Node` trees. `parse` returns exactly what `parse_toks` says of its
//! tokens.

use vstd::prelude::*;

use crate::parse_spec::{
    at_end, get_tok, is_arith_op, leaf_node, lemma_parse_expr_bounds, null_node, null_tok,
    parse_children, parse_expr_at, parse_loop, synth_node, with_sentinel, NodeV,
};
use crate::token::{Literal, TokType, Token, TokenV};

verus! {

/// A parse tree node: the labelling token and the ordered child nodes.
#[derive(Debug, PartialEq)]
pub struct Node {
    pub tok: Token,
    pub children: Vec<Node>,
}

/// The tree value of a `Node`, computed structurally.
pub open spec fn node_view(n: Node) -> NodeV
    decreases n,
    via node_view_decreases
{
    NodeV {
        tok: n.tok@,
        children: Seq::new(
            n.children@.len(),
            |i: int|
                if 0 <= i < n.children@.len() {
                    node_view(n.children@[i])
                } else {
                    null_node()
                },
        ),
    }
}

#[via_fn]
proof fn node_view_decreases(n: Node) {
    broadcast use vstd::std_specs::vec::axiom_vec_index_decreases;

    assert forall|i: int| 0 <= i < n.children@.len() implies (decreases_to!(
        n => n.children@[i]
    )) by {
        assert(decreases_to!(n => n.children));
        assert(decreases_to!(n.children => n.children[i]));
        assert(n.children[i] == n.children@[i]);
    }
}

impl DeepView for Node {
    type V = NodeV;

    open spec fn deep_view(&self) -> NodeV {
        node_view(*self)
    }
}

impl Node {
    /// A leaf node wrapping `tok`.
    pub fn new(tok: Token) -> (r: Node)
        ensures
            r.deep_view() == leaf_node(tok@),
    {
        let r = Node { tok, children: Vec::new() };
        proof {
            assert(r.children@.len() == 0);
            let nv = node_view(r);
            assert(nv.tok == r.tok@);
            assert(nv.children.len() == 0);
            assert(nv.children =~= Seq::<NodeV>::empty());
            assert(nv =~= leaf_node(r.tok@));
        }
        r
    }

    /// The node returned when there is nothing left to parse.
    pub fn null() -> (r: Node)
        ensures
            r.deep_view() == null_node(),
    {
        let r = Node {
            tok: Token::new(TokType::Eof, std::string::String::new(), Literal::Null, 0),
            children: Vec::new(),
        };
        proof {
            assert(r.children@.len() == 0);
            let nv = node_view(r);
            assert(nv.tok =~= null_tok());
            assert(nv.children =~= Seq::<NodeV>::empty());
            assert(nv =~= null_node());
        }
        r
    }
}

/// The parser's state: the tokens and the cursor.
pub struct Parser {
    toks: Vec<Token>,
    idx: usize,
}

/// The mathematical value of a `Parser`.
pub ghost struct ParserV {
    pub toks: Seq<TokenV>,
    pub idx: nat,
}

impl View for Parser {
    type V = ParserV;

    closed spec fn view(&self) -> ParserV {
        ParserV { toks: self.toks.deep_view(), idx: self.idx as nat }
    }
}

impl Parser {
    /// A fresh parser over `toks`, at the first token.
    pub fn new(toks: Vec<Token>) -> (r: Parser)
        ensures
            r@ == (ParserV { toks: toks.deep_view(), idx: 0nat }),
    {
        Parser { toks, idx: 0 }
    }

    /// Whether the cursor rests on the final sentinel (or past it).
    fn is_at_end(&self) -> (r: bool)
        ensures
            r == at_end(self@.toks, self@.idx as int),
    {
        self.toks.len() == 0 || self.idx >= self.toks.len() - 1
    }

    /// The token under the cursor; past the end, the final token.
    fn get(&self) -> (r: &Token)
        requires
            self@.toks.len() >= 1,
        ensures
            r@ == get_tok(self@.toks, self@.idx as int),
    {
        if self.is_at_end() {
            &self.toks[self.toks.len() - 1]
        } else {
            &self.toks[self.idx]
        }
    }

    /// Move the cursor one token forward, unless it is at the end.
    fn advance(&mut self)
        ensures
            final(self)@.toks == old(self)@.toks,
            final(self)@.idx as int == if at_end(old(self)@.toks, old(self)@.idx as int) {
                old(self)@.idx as int
            } else {
                old(self)@.idx as int + 1
            },
    {
        let n = self.toks.len();
        if !self.is_at_end() {
            proof {
                assert(self.idx < n);
            }
            self.idx = self.idx + 1;
        }
    }

    /// Parse one expression at the cursor and move past it.
    pub fn parse_expr(&mut self) -> (r: Node)
        ensures
            final(self)@.toks == old(self)@.toks,
            r.deep_view() == parse_expr_at(old(self)@.toks, old(self)@.idx as int).0,
            final(self)@.idx as int == parse_expr_at(old(self)@.toks, old(self)@.idx as int).1,
        decreases old(self)@.toks.len() - old(self)@.idx, 2int,
    {
        if self.is_at_end() {
            return Node::null();
        }
        let t = self.get().clone();
        let is_lit = match &t.literal {
            Literal::Int(_) => true,
            Literal::Float(_) => true,
            Literal::Str(_) => true,
            Literal::Null => false,
        };
        if is_lit {
            let kind = match &t.literal {
                Literal::Int(_) => TokType::Int,
                Literal::Float(_) => TokType::Float,
                Literal::Str(_) => TokType::String,
                Literal::Null => TokType::Int,
            };
            let n = Node::new(Token::new(kind, t.lexeme, t.literal, t.line));
            self.advance();
            return n;
        }
        match t.ltype {
            TokType::Add => self.parse_arith(TokType::Add, t.line),
            TokType::Sub => self.parse_arith(TokType::Sub, t.line),
            TokType::Mul => self.parse_arith(TokType::Mul, t.line),
            TokType::Div => self.parse_arith(TokType::Div, t.line),
            TokType::lBrack => self.parse_brack(t.line),
            _ => {
                let n = Node::new(t);
                self.advance();
                n
            },
        }
    }

    /// Parse a variadic prefix arithmetic form: the operator token was
    /// seen at the cursor; collect operands until `]` or the end.
    fn parse_arith(&mut self, op: TokType, line: u64) -> (r: Node)
        requires
            !at_end(old(self)@.toks, old(self)@.idx as int),
            get_tok(old(self)@.toks, old(self)@.idx as int).ltype == op,
            get_tok(old(self)@.toks, old(self)@.idx as int).line == line as nat,
            is_arith_op(op),
        ensures
            final(self)@.toks == old(self)@.toks,
            r.deep_view() == synth_node(
                op,
                line as nat,
                parse_children(old(self)@.toks, old(self)@.idx as int + 1).0,
            ),
            final(self)@.idx as int == parse_children(
                old(self)@.toks,
                old(self)@.idx as int + 1,
            ).1,
        decreases old(self)@.toks.len() - old(self)@.idx, 1int,
    {
        let mut a = Node {
            tok: Token::new(op, std::string::String::new(), Literal::Null, line),
            children: Vec::new(),
        };
        self.advance();
        self.collect_children(&mut a.children);
        proof {
            let spec_children = parse_children(old(self)@.toks, old(self)@.idx as int + 1).0;
            assert(Seq::<NodeV>::empty() + spec_children =~= spec_children);
            assert(a.children.deep_view() == spec_children);
            let nv = node_view(a);
            assert(nv.children =~= spec_children);
            assert(nv.tok =~= synth_node(op, line as nat, spec_children).tok);
            assert(nv =~= synth_node(op, line as nat, spec_children));
        }
        a
    }

    /// Parse a bracketed expression: the `[` was seen at the cursor;
    /// collect children, then consume the closing `]` if it is there.
    fn parse_brack(&mut self, line: u64) -> (r: Node)
        requires
            !at_end(old(self)@.toks, old(self)@.idx as int),
            get_tok(old(self)@.toks, old(self)@.idx as int).ltype == TokType::lBrack,
            get_tok(old(self)@.toks, old(self)@.idx as int).line == line as nat,
            get_tok(old(self)@.toks, old(self)@.idx as int).literal is Null,
        ensures
            final(self)@.toks == old(self)@.toks,
            ({
                let (children, j) = parse_children(old(self)@.toks, old(self)@.idx as int + 1);
                &&& r.deep_view() == synth_node(TokType::Expr, line as nat, children)
                &&& final(self)@.idx as int == (if !at_end(old(self)@.toks, j) && get_tok(
                    old(self)@.toks,
                    j,
                ).ltype == TokType::rBrack {
                    j + 1
                } else {
                    j
                })
            }),
            final(self)@.idx as int == parse_expr_at(old(self)@.toks, old(self)@.idx as int).1,
            r.deep_view() == parse_expr_at(old(self)@.toks, old(self)@.idx as int).0,
        decreases old(self)@.toks.len() - old(self)@.idx, 1int,
    {
        let mut e = Node {
            tok: Token::new(TokType::Expr, std::string::String::new(), Literal::Null, line),
            children: Vec::new(),
        };
        self.advance();
        self.collect_children(&mut e.children);
        let ghost toks = old(self)@.toks;
        let ghost j = parse_children(toks, old(self)@.idx as int + 1).1;
        if !self.is_at_end() {
            let is_rb = self.get().ltype == TokType::rBrack;
            if is_rb {
                self.advance();
            }
        }
        proof {
            let spec_children = parse_children(toks, old(self)@.idx as int + 1).0;
            assert(Seq::<NodeV>::empty() + spec_children =~= spec_children);
            assert(e.children.deep_view() == spec_children);
            let nv = node_view(e);
            assert(nv.children =~= spec_children);
            assert(nv.tok =~= synth_node(TokType::Expr, line as nat, spec_children).tok);
            assert(nv =~= synth_node(TokType::Expr, line as nat, spec_children));
        }
        e
    }

    /// Collect child expressions until the cursor rests on `]` or the
    /// end, appending them to `acc`.
    fn collect_children(&mut self, acc: &mut Vec<Node>)
        ensures
            final(self)@.toks == old(self)@.toks,
            final(acc).deep_view() == old(acc).deep_view() + parse_children(
                old(self)@.toks,
                old(self)@.idx as int,
            ).0,
            final(self)@.idx as int == parse_children(old(self)@.toks, old(self)@.idx as int).1,
        decreases old(self)@.toks.len() - old(self)@.idx, 3int,
    {
        let ghost toks = old(self)@.toks;
        let ghost i0 = old(self)@.idx as int;
        let ghost mut done: Seq<NodeV> = Seq::empty();
        proof {
            assert(old(acc).deep_view() + done =~= old(acc).deep_view());
        }
        loop
            invariant
                self@.toks == toks,
                toks == old(self)@.toks,
                i0 == old(self)@.idx as int,
                i0 <= self@.idx as int,
                acc.deep_view() == old(acc).deep_view() + done,
                parse_children(toks, i0).0 == done + parse_children(toks, self@.idx as int).0,
                parse_children(toks, i0).1 == parse_children(toks, self@.idx as int).1,
            ensures
                at_end(toks, self@.idx as int) || get_tok(toks, self@.idx as int).ltype
                    == TokType::rBrack,
            decreases toks.len() - self@.idx,
        {
            if self.is_at_end() {
                break;
            }
            let stop = self.get().ltype == TokType::rBrack;
            if stop {
                break;
            }
            let ghost cur = self@.idx as int;
            let ghost accv = acc.deep_view();
            let n = self.parse_expr();
            acc.push(n);
            proof {
                lemma_parse_expr_bounds(toks, cur);
                let (nv, j0) = parse_expr_at(toks, cur);
                assert(j0 == self@.idx as int);
                assert(cur < j0 <= toks.len());
                assert(parse_children(toks, cur).0 == seq![nv] + parse_children(toks, j0).0);
                assert(parse_children(toks, cur).1 == parse_children(toks, j0).1);
                assert(acc.deep_view() =~= accv.push(nv));
                assert(accv.push(nv) =~= old(acc).deep_view() + done.push(nv));
                assert(done + (seq![nv] + parse_children(toks, j0).0) =~= done.push(nv)
                    + parse_children(toks, j0).0);
                done = done.push(nv);
            }
        }
        proof {
            assert(parse_children(toks, self@.idx as int).0 =~= Seq::<NodeV>::empty());
            assert(done + Seq::<NodeV>::empty() =~= done);
            assert(parse_children(toks, i0).0 == done);
        }
    }

    /// Append the `Eof` sentinel if it is missing, then parse top-level
    /// expressions until the cursor reaches it: the forest of
    /// `parse_toks` (when driven from a fresh parser).
    pub fn parse(&mut self) -> (r: Vec<Node>)
        ensures
            final(self)@.toks == with_sentinel(old(self)@.toks),
            r.deep_view() == parse_loop(with_sentinel(old(self)@.toks), old(self)@.idx as int),
    {
        let n = self.toks.len();
        let mut sentinel_needed = n == 0;
        let mut line: u64 = 1;
        if n > 0 {
            let last = &self.toks[n - 1];
            sentinel_needed = !(last.ltype == TokType::Eof);
            line = last.line;
        }
        if sentinel_needed {
            self.toks.push(Token::new(TokType::Eof, std::string::String::new(), Literal::Null, line));
        }
        let ghost toks = self@.toks;
        proof {
            assert(toks =~= with_sentinel(old(self)@.toks));
        }
        let ghost i0 = self@.idx as int;
        let mut out: Vec<Node> = Vec::new();
        let ghost mut done: Seq<NodeV> = Seq::empty();
        proof {
            assert(out.deep_view() =~= done);
        }
        loop
            invariant
                self@.toks == toks,
                toks == with_sentinel(old(self)@.toks),
                i0 == old(self)@.idx as int,
                i0 <= self@.idx as int,
                out.deep_view() == done,
                parse_loop(toks, i0) == done + parse_loop(toks, self@.idx as int),
            ensures
                at_end(toks, self@.idx as int),
            decreases toks.len() - self@.idx,
        {
            if self.is_at_end() {
                break;
            }
            let ghost cur = self@.idx as int;
            let ghost outv = out.deep_view();
            let nd = self.parse_expr();
            out.push(nd);
            proof {
                lemma_parse_expr_bounds(toks, cur);
                let (nv, j0) = parse_expr_at(toks, cur);
                assert(j0 == self@.idx as int);
                assert(cur < j0 <= toks.len());
                assert(parse_loop(toks, cur) == seq![nv] + parse_loop(toks, j0));
                assert(out.deep_view() =~= outv.push(nv));
                assert(outv.push(nv) =~= done.push(nv));
                assert(done + (seq![nv] + parse_loop(toks, j0)) =~= done.push(nv) + parse_loop(
                    toks,
                    j0,
                ));
                done = done.push(nv);
            }
        }
        proof {
            assert(parse_loop(toks, self@.idx as int) =~= Seq::<NodeV>::empty());
            assert(done + Seq::<NodeV>::empty() =~= done);
            assert(parse_loop(toks, i0) == done);
        }
        out
    }
}

} // verus!
