//! The library-wide laws: properties of every successful scan and of
//! every parse, proved once and for all over the functional
//! specifications that `Scanner::scan_tokens` and `Parser::parse` are
//! verified against.

use vstd::prelude::*;

use crate::parse_spec::{
    at_end, get_tok, is_arith_op, lemma_parse_children_bounds, lemma_parse_expr_bounds,
    parse_children, parse_expr_at, parse_loop, parse_toks, with_sentinel, NodeV,
};
use crate::scan_spec::{
    clampi, comment_end, cons_tok, digits_end, digits_val, eof_tok, ident_end, is_alnum_char,
    is_alpha_char, is_digit_char, keyword_of, newlines_in, punct_tok, scan_from, scan_spec,
    single_kind, starts_other, str_body_end, twochar_kinds,
};
use crate::token::{LiteralV, ScanErrV, TokType, TokenV};

verus! {

/// The payload discipline of scanned tokens: `Int`, `Float` and `String`
/// tokens carry the matching payload; every other kind carries `Null`.
pub open spec fn payload_ok(t: TokenV) -> bool {
    match t.ltype {
        TokType::Int => t.literal is Int,
        TokType::Float => t.literal is Float,
        TokType::String => t.literal is Str,
        _ => t.literal is Null,
    }
}

/// What holds of each token before the sentinel in a successful scan.
pub open spec fn tok_ok(t: TokenV) -> bool {
    &&& payload_ok(t)
    &&& t.ltype != TokType::Eof
    &&& t.ltype != TokType::Expr
    &&& t.ltype != TokType::Block
    &&& t.ltype != TokType::Arr
}

/// What holds of a successful scan's whole token sequence, scanned
/// starting on line `line`.
pub open spec fn toks_ok(ts: Seq<TokenV>, line: nat) -> bool {
    &&& ts.len() >= 1
    &&& ts.last().ltype == TokType::Eof
    &&& ts.last().lexeme == Seq::<char>::empty()
    &&& ts.last().literal is Null
    &&& forall|k: int| 0 <= k < ts.len() - 1 ==> tok_ok(#[trigger] ts[k])
    &&& forall|k: int| 0 <= k < ts.len() ==> #[trigger] ts[k].line >= line
    &&& forall|k: int| 0 <= k < ts.len() - 1 ==> #[trigger] ts[k].line <= ts[k + 1].line
}

/// Prepending one well-formed token to a well-formed tail keeps the
/// sequence well-formed.
proof fn lemma_cons_ok(t: TokenV, ts: Seq<TokenV>, line: nat, l2: nat)
    requires
        tok_ok(t),
        t.line == line,
        line <= l2,
        toks_ok(ts, l2),
    ensures
        toks_ok(seq![t] + ts, line),
{
    let c = seq![t] + ts;
    assert(c.last() == ts.last());
    assert(forall|k: int| 1 <= k < c.len() ==> #[trigger] c[k] == ts[k - 1]);
    assert(c[0] == t);
}

/// One dispatch step of the scan: if the scan at `i` is one token
/// followed by the scan at `j`, and the tail is well-formed, so is the
/// whole.
proof fn lemma_step_case(s: Seq<char>, i: int, line: nat, t: TokenV, j: int, l2: nat)
    requires
        scan_from(s, i, line) == cons_tok(t, scan_from(s, j, l2)),
        tok_ok(t),
        t.line == line,
        line <= l2,
        scan_from(s, j, l2) is Ok ==> toks_ok(scan_from(s, j, l2)->Ok_0, l2),
    ensures
        scan_from(s, i, line) is Ok ==> toks_ok(scan_from(s, i, line)->Ok_0, line),
{
    match scan_from(s, j, l2) {
        Ok(ts) => {
            lemma_cons_ok(t, ts, line, l2);
        },
        Err(_) => {},
    }
}

/// Weakening the starting line of a well-formed token sequence.
proof fn lemma_toks_ok_weaken(ts: Seq<TokenV>, line: nat, l2: nat)
    requires
        toks_ok(ts, l2),
        line <= l2,
    ensures
        toks_ok(ts, line),
{
}

/// The induction behind the scan laws: every successful scan from any
/// position is a well-formed token sequence.
proof fn lemma_scan_from_ok(s: Seq<char>, i: int, line: nat)
    requires
        0 <= i,
    ensures
        scan_from(s, i, line) is Ok ==> toks_ok(scan_from(s, i, line)->Ok_0, line),
    decreases s.len() - i,
{
    let len = s.len() as int;
    if !(0 <= i && i < len) {
        let ts = seq![eof_tok(line)];
        assert(ts.last() == eof_tok(line));
    } else {
        let c = s[i];
        if single_kind(c) is Some {
            lemma_scan_from_ok(s, i + 1, line);
            lemma_step_case(
                s,
                i,
                line,
                punct_tok(single_kind(c)->Some_0, s, i, 1, line),
                i + 1,
                line,
            );
        } else if c == '/' {
            if i + 1 < len && s[i + 1] == '/' {
                let j = clampi(i + 2, comment_end(s, i + 2), len);
                lemma_scan_from_ok(s, j, line);
            } else {
                lemma_scan_from_ok(s, i + 1, line);
                lemma_step_case(s, i, line, punct_tok(TokType::Div, s, i, 1, line), i + 1, line);
            }
        } else if twochar_kinds(c) is Some {
            if i + 1 < len && s[i + 1] == '=' {
                lemma_scan_from_ok(s, i + 2, line);
                lemma_step_case(
                    s,
                    i,
                    line,
                    punct_tok(twochar_kinds(c)->Some_0.0, s, i, 2, line),
                    i + 2,
                    line,
                );
            } else {
                lemma_scan_from_ok(s, i + 1, line);
                lemma_step_case(
                    s,
                    i,
                    line,
                    punct_tok(twochar_kinds(c)->Some_0.1, s, i, 1, line),
                    i + 1,
                    line,
                );
            }
        } else if c == '=' {
            if i + 1 < len && s[i + 1] == '=' {
                lemma_scan_from_ok(s, i + 2, line);
                lemma_step_case(s, i, line, punct_tok(TokType::Equal, s, i, 2, line), i + 2, line);
            }
        } else if c == ' ' || c == '\r' || c == '\t' {
            lemma_scan_from_ok(s, i + 1, line);
        } else if c == '\n' {
            lemma_scan_from_ok(s, i + 1, line + 1);
            match scan_from(s, i + 1, line + 1) {
                Ok(ts) => {
                    lemma_toks_ok_weaken(ts, line, line + 1);
                },
                Err(_) => {},
            }
        } else if c == '"' {
            let j = clampi(i + 1, str_body_end(s, i + 1), len);
            if j < len {
                let l2 = line + newlines_in(s, i + 1, j);
                lemma_scan_from_ok(s, j + 1, l2);
                let t = TokenV {
                    ltype: TokType::String,
                    lexeme: s.subrange(i, j + 1),
                    literal: LiteralV::Str(s.subrange(i + 1, j)),
                    line,
                };
                lemma_step_case(s, i, line, t, j + 1, l2);
            }
        } else if is_digit_char(c) {
            let j = clampi(i + 1, digits_end(s, i + 1), len);
            if j + 1 < len && s[j] == '.' && is_digit_char(s[j + 1]) {
                let k = clampi(j + 2, digits_end(s, j + 2), len);
                lemma_scan_from_ok(s, k, line);
                let t = TokenV {
                    ltype: TokType::Float,
                    lexeme: s.subrange(i, k),
                    literal: LiteralV::Float(s.subrange(i, k)),
                    line,
                };
                lemma_step_case(s, i, line, t, k, line);
            } else if digits_val(s.subrange(i, j)) <= i64::MAX as nat {
                lemma_scan_from_ok(s, j, line);
                let t = TokenV {
                    ltype: TokType::Int,
                    lexeme: s.subrange(i, j),
                    literal: LiteralV::Int(digits_val(s.subrange(i, j)) as int),
                    line,
                };
                lemma_step_case(s, i, line, t, j, line);
            }
        } else if is_alpha_char(c) {
            let j = clampi(i + 1, ident_end(s, i + 1), len);
            lemma_scan_from_ok(s, j, line);
            let t = TokenV {
                ltype: match keyword_of(s.subrange(i, j)) {
                    Some(k) => k,
                    None => TokType::Identifier,
                },
                lexeme: s.subrange(i, j),
                literal: LiteralV::Null,
                line,
            };
            lemma_step_case(s, i, line, t, j, line);
        }
    }
}

/// Every successful scan ends in exactly one `Eof` token: the last token
/// has kind `Eof`, and no earlier token does.
pub proof fn lemma_scan_eof_sentinel(s: Seq<char>)
    ensures
        scan_spec(s) is Ok ==> {
            let ts = scan_spec(s)->Ok_0;
            &&& ts.len() >= 1
            &&& ts.last().ltype == TokType::Eof
            &&& forall|k: int| 0 <= k < ts.len() - 1 ==> #[trigger] ts[k].ltype != TokType::Eof
        },
{
    lemma_scan_from_ok(s, 0, 1);
}

/// Every token of a successful scan carries the payload its kind calls
/// for: `Int`, `Float` and `String` tokens the matching payload, all
/// others `Null`.
pub proof fn lemma_scan_payloads(s: Seq<char>)
    ensures
        scan_spec(s) is Ok ==> {
            let ts = scan_spec(s)->Ok_0;
            forall|k: int| 0 <= k < ts.len() ==> payload_ok(#[trigger] ts[k])
        },
{
    lemma_scan_from_ok(s, 0, 1);
    match scan_spec(s) {
        Ok(ts) => {
            assert(payload_ok(ts.last()));
            assert(forall|k: int| 0 <= k < ts.len() - 1 ==> payload_ok(#[trigger] ts[k]));
        },
        Err(_) => {},
    }
}

/// Line numbers never decrease along a successful scan's token sequence,
/// and start at or after line 1.
pub proof fn lemma_scan_lines_monotone(s: Seq<char>)
    ensures
        scan_spec(s) is Ok ==> {
            let ts = scan_spec(s)->Ok_0;
            &&& forall|k: int| 0 <= k < ts.len() - 1 ==> #[trigger] ts[k].line <= ts[k + 1].line
            &&& forall|k: int| 0 <= k < ts.len() ==> #[trigger] ts[k].line >= 1
        },
{
    lemma_scan_from_ok(s, 0, 1);
}

/// The scanner never emits the parser-only synthetic kinds `Expr`,
/// `Block` or `Arr`.
pub proof fn lemma_scan_no_synthetic(s: Seq<char>)
    ensures
        scan_spec(s) is Ok ==> {
            let ts = scan_spec(s)->Ok_0;
            forall|k: int|
                0 <= k < ts.len() ==> (#[trigger] ts[k].ltype != TokType::Expr && ts[k].ltype
                    != TokType::Block && ts[k].ltype != TokType::Arr)
        },
{
    lemma_scan_from_ok(s, 0, 1);
    match scan_spec(s) {
        Ok(ts) => {
            assert(ts.last().ltype == TokType::Eof);
            assert(forall|k: int| 0 <= k < ts.len() - 1 ==> tok_ok(#[trigger] ts[k]));
        },
        Err(_) => {},
    }
}

/// The kinds that only the parser constructs: a node of such a kind is
/// synthetic.
pub open spec fn synthetic_kind(k: TokType) -> bool {
    k == TokType::Expr || k == TokType::Block || k == TokType::Arr || is_arith_op(k)
}

/// Every synthetic node in the tree has an empty lexeme and a `Null`
/// payload; its meaning lives entirely in its children.
pub open spec fn node_synth_ok(n: NodeV) -> bool
    decreases n,
{
    &&& (synthetic_kind(n.tok.ltype) ==> n.tok.lexeme.len() == 0 && n.tok.literal is Null)
    &&& (forall|k: int| 0 <= k < n.children.len() ==> node_synth_ok(#[trigger] n.children[k]))
}

/// A token stream that holds none of the parser-only kinds (as every
/// scanned stream does, by `lemma_scan_no_synthetic`).
pub open spec fn stream_no_synth(toks: Seq<TokenV>) -> bool {
    forall|k: int|
        0 <= k < toks.len() ==> (#[trigger] toks[k].ltype != TokType::Expr && toks[k].ltype
            != TokType::Block && toks[k].ltype != TokType::Arr)
}

proof fn lemma_expr_synth_ok(toks: Seq<TokenV>, i: int)
    requires
        stream_no_synth(toks),
        0 <= i,
    ensures
        node_synth_ok(parse_expr_at(toks, i).0),
    decreases toks.len() - i, 0int,
{
    if at_end(toks, i) {
        assert(node_synth_ok(parse_expr_at(toks, i).0));
    } else {
        let t = get_tok(toks, i);
        assert(t == toks[i]);
        match t.literal {
            LiteralV::Null => {
                if is_arith_op(t.ltype) || t.ltype == TokType::lBrack {
                    lemma_children_synth_ok(toks, i + 1);
                    let ch = parse_children(toks, i + 1).0;
                    let n = parse_expr_at(toks, i).0;
                    assert(n.children == ch);
                    assert(n.tok.lexeme.len() == 0 && n.tok.literal is Null);
                    assert(forall|k: int| 0 <= k < ch.len() ==> node_synth_ok(#[trigger] ch[k]));
                    assert(node_synth_ok(n));
                } else {
                    let n = parse_expr_at(toks, i).0;
                    assert(n.children.len() == 0);
                    assert(!synthetic_kind(n.tok.ltype));
                    assert(node_synth_ok(n));
                }
            },
            _ => {
                let n = parse_expr_at(toks, i).0;
                assert(n.children.len() == 0);
                assert(!synthetic_kind(n.tok.ltype));
                assert(node_synth_ok(n));
            },
        }
    }
}

proof fn lemma_children_synth_ok(toks: Seq<TokenV>, i: int)
    requires
        stream_no_synth(toks),
        0 <= i,
    ensures
        forall|k: int|
            0 <= k < parse_children(toks, i).0.len() ==> node_synth_ok(
                #[trigger] parse_children(toks, i).0[k],
            ),
    decreases toks.len() - i, 1int,
{
    if !(at_end(toks, i) || get_tok(toks, i).ltype == TokType::rBrack) {
        lemma_expr_synth_ok(toks, i);
        lemma_parse_expr_bounds(toks, i);
        let (n, j0) = parse_expr_at(toks, i);
        let j = if j0 <= i {
            i + 1
        } else if j0 > toks.len() {
            toks.len() as int
        } else {
            j0
        };
        lemma_children_synth_ok(toks, j);
        let whole = parse_children(toks, i).0;
        let rest = parse_children(toks, j).0;
        assert(whole == seq![n] + rest);
        assert(forall|k: int| 1 <= k < whole.len() ==> #[trigger] whole[k] == rest[k - 1]);
        assert(whole[0] == n);
    }
}

proof fn lemma_loop_synth_ok(toks: Seq<TokenV>, i: int)
    requires
        stream_no_synth(toks),
        0 <= i,
    ensures
        forall|k: int|
            0 <= k < parse_loop(toks, i).len() ==> node_synth_ok(#[trigger] parse_loop(toks, i)[k]),
    decreases toks.len() - i, 2int,
{
    if !at_end(toks, i) {
        lemma_expr_synth_ok(toks, i);
        lemma_parse_expr_bounds(toks, i);
        let (n, j0) = parse_expr_at(toks, i);
        let j = if j0 <= i {
            i + 1
        } else if j0 > toks.len() {
            toks.len() as int
        } else {
            j0
        };
        lemma_loop_synth_ok(toks, j);
        let whole = parse_loop(toks, i);
        let rest = parse_loop(toks, j);
        assert(whole == seq![n] + rest);
        assert(forall|k: int| 1 <= k < whole.len() ==> #[trigger] whole[k] == rest[k - 1]);
        assert(whole[0] == n);
    }
}

/// Parsing a stream free of the parser-only kinds (every scanned stream
/// is one) yields a forest in which every synthetic node has an empty
/// lexeme and a `Null` payload.
pub proof fn lemma_parse_synthetic_nodes(toks: Seq<TokenV>)
    requires
        stream_no_synth(toks),
    ensures
        forall|k: int|
            0 <= k < parse_toks(toks).len() ==> node_synth_ok(#[trigger] parse_toks(toks)[k]),
{
    let ts = with_sentinel(toks);
    assert(stream_no_synth(ts)) by {
        if toks.len() == 0 {
            assert(forall|k: int| 0 <= k < ts.len() ==> #[trigger] ts[k] == eof_tok(1));
        } else if toks.last().ltype != TokType::Eof {
            assert(forall|k: int| 0 <= k < toks.len() ==> #[trigger] ts[k] == toks[k]);
            assert(ts[toks.len() as int] == eof_tok(toks.last().line));
        }
    }
    lemma_loop_synth_ok(ts, 0);
}

/// How many `lBrack` tokens lie in positions `[a, b)` of the stream.
pub open spec fn count_lbrack_range(toks: Seq<TokenV>, a: int, b: int) -> nat
    decreases b - a,
{
    if a < b {
        (if 0 <= a && a < toks.len() && toks[a].ltype == TokType::lBrack {
            1nat
        } else {
            0nat
        }) + count_lbrack_range(toks, a + 1, b)
    } else {
        0
    }
}

/// How many synthetic `Expr` nodes a tree holds.
pub open spec fn count_expr_node(n: NodeV) -> nat
    decreases n,
{
    (if n.tok.ltype == TokType::Expr {
        1nat
    } else {
        0nat
    }) + count_expr_forest(n.children)
}

/// How many synthetic `Expr` nodes a forest holds.
pub open spec fn count_expr_forest(ns: Seq<NodeV>) -> nat
    decreases ns,
{
    if ns.len() == 0 {
        0
    } else {
        count_expr_node(ns[0]) + count_expr_forest(ns.drop_first())
    }
}

proof fn lemma_count_range_split(toks: Seq<TokenV>, a: int, b: int, c: int)
    requires
        a <= b <= c,
    ensures
        count_lbrack_range(toks, a, c) == count_lbrack_range(toks, a, b) + count_lbrack_range(
            toks,
            b,
            c,
        ),
    decreases b - a,
{
    if a < b {
        lemma_count_range_split(toks, a + 1, b, c);
    }
}

/// A stream in which `lBrack` tokens carry a `Null` payload (every
/// scanned stream does, by `lemma_scan_payloads`).
pub open spec fn stream_brack_payload(toks: Seq<TokenV>) -> bool {
    forall|k: int|
        0 <= k < toks.len() ==> ((#[trigger] toks[k].ltype) == TokType::lBrack ==> toks[k].literal
            is Null)
}

proof fn lemma_expr_tight(toks: Seq<TokenV>, i: int)
    requires
        0 <= i <= toks.len() - 1,
    ensures
        parse_expr_at(toks, i).1 <= toks.len() - 1,
    decreases toks.len() - i, 0int,
{
    if !at_end(toks, i) {
        let t = get_tok(toks, i);
        match t.literal {
            LiteralV::Null => {
                if is_arith_op(t.ltype) || t.ltype == TokType::lBrack {
                    lemma_children_tight(toks, i + 1);
                }
            },
            _ => {},
        }
    }
}

proof fn lemma_children_tight(toks: Seq<TokenV>, i: int)
    requires
        0 <= i <= toks.len() - 1,
    ensures
        parse_children(toks, i).1 <= toks.len() - 1,
        i <= parse_children(toks, i).1,
    decreases toks.len() - i, 1int,
{
    lemma_parse_children_bounds(toks, i);
    if !(at_end(toks, i) || get_tok(toks, i).ltype == TokType::rBrack) {
        lemma_expr_tight(toks, i);
        lemma_parse_expr_bounds(toks, i);
        let j0 = parse_expr_at(toks, i).1;
        let j = if j0 <= i {
            i + 1
        } else if j0 > toks.len() {
            toks.len() as int
        } else {
            j0
        };
        lemma_children_tight(toks, j);
    }
}

proof fn lemma_expr_count(toks: Seq<TokenV>, i: int)
    requires
        stream_brack_payload(toks),
        stream_no_synth(toks),
        0 <= i,
    ensures
        at_end(toks, i) ==> count_expr_node(parse_expr_at(toks, i).0) == 0,
        !at_end(toks, i) ==> count_expr_node(parse_expr_at(toks, i).0) == count_lbrack_range(
            toks,
            i,
            parse_expr_at(toks, i).1,
        ),
    decreases toks.len() - i, 0int,
{
    assert(count_expr_forest(Seq::<NodeV>::empty()) == 0);
    if at_end(toks, i) {
    } else {
        let t = get_tok(toks, i);
        assert(t == toks[i]);
        match t.literal {
            LiteralV::Null => {
                if is_arith_op(t.ltype) {
                    lemma_children_count(toks, i + 1);
                    lemma_parse_children_bounds(toks, i + 1);
                    let (n, j) = parse_expr_at(toks, i);
                    assert(count_expr_node(n) == count_expr_forest(n.children));
                    assert(count_lbrack_range(toks, i, j) == count_lbrack_range(toks, i + 1, j));
                } else if t.ltype == TokType::lBrack {
                    lemma_children_count(toks, i + 1);
                    lemma_parse_children_bounds(toks, i + 1);
                    let (children, jc) = parse_children(toks, i + 1);
                    assert(t.literal is Null);
                    if !at_end(toks, jc) && get_tok(toks, jc).ltype == TokType::rBrack {
                        lemma_count_range_split(toks, i + 1, jc, jc + 1);
                        assert(count_lbrack_range(toks, jc + 1, jc + 1) == 0);
                        assert(get_tok(toks, jc) == toks[jc]);
                        assert(count_lbrack_range(toks, jc, jc + 1) == 0);
                    }
                    let (n, j) = parse_expr_at(toks, i);
                    assert(count_expr_node(n) == 1 + count_expr_forest(children));
                    assert(count_lbrack_range(toks, i, j) == 1 + count_lbrack_range(
                        toks,
                        i + 1,
                        j,
                    ));
                } else {
                    let (n, j) = parse_expr_at(toks, i);
                    assert(count_expr_node(n) == 0);
                    assert(count_lbrack_range(toks, i + 1, i + 1) == 0);
                    assert(count_lbrack_range(toks, i, j) == 0);
                }
            },
            _ => {
                let (n, j) = parse_expr_at(toks, i);
                assert(count_expr_node(n) == 0);
                assert(count_lbrack_range(toks, i + 1, i + 1) == 0);
                assert(count_lbrack_range(toks, i, j) == 0);
            },
        }
    }
}

proof fn lemma_children_count(toks: Seq<TokenV>, i: int)
    requires
        stream_brack_payload(toks),
        stream_no_synth(toks),
        0 <= i,
    ensures
        count_expr_forest(parse_children(toks, i).0) == count_lbrack_range(
            toks,
            i,
            parse_children(toks, i).1,
        ),
    decreases toks.len() - i, 1int,
{
    if at_end(toks, i) || get_tok(toks, i).ltype == TokType::rBrack {
        assert(count_expr_forest(Seq::<NodeV>::empty()) == 0);
    } else {
        lemma_expr_count(toks, i);
        lemma_parse_expr_bounds(toks, i);
        let (n, j0) = parse_expr_at(toks, i);
        let j = if j0 <= i {
            i + 1
        } else if j0 > toks.len() {
            toks.len() as int
        } else {
            j0
        };
        lemma_children_count(toks, j);
        lemma_parse_children_bounds(toks, j);
        let (rest, k) = parse_children(toks, j);
        let whole = parse_children(toks, i).0;
        assert(whole == seq![n] + rest);
        assert(whole.len() >= 1);
        assert(whole[0] == n);
        assert(whole.drop_first() =~= rest);
        assert(count_expr_forest(whole) == count_expr_node(n) + count_expr_forest(rest));
        lemma_count_range_split(toks, i, j, k);
    }
}

proof fn lemma_loop_count(toks: Seq<TokenV>, i: int)
    requires
        stream_brack_payload(toks),
        stream_no_synth(toks),
        0 <= i <= toks.len() - 1,
    ensures
        count_expr_forest(parse_loop(toks, i)) == count_lbrack_range(toks, i, toks.len() - 1),
    decreases toks.len() - i, 2int,
{
    if at_end(toks, i) {
        assert(i == toks.len() - 1);
    } else {
        lemma_expr_count(toks, i);
        lemma_expr_tight(toks, i);
        lemma_parse_expr_bounds(toks, i);
        let (n, j0) = parse_expr_at(toks, i);
        let j = if j0 <= i {
            i + 1
        } else if j0 > toks.len() {
            toks.len() as int
        } else {
            j0
        };
        lemma_loop_count(toks, j);
        let rest = parse_loop(toks, j);
        let whole = parse_loop(toks, i);
        assert(whole == seq![n] + rest);
        assert(whole.len() >= 1);
        assert(whole[0] == n);
        assert(whole.drop_first() =~= rest);
        assert(count_expr_forest(whole) == count_expr_node(n) + count_expr_forest(rest));
        lemma_count_range_split(toks, i, j, toks.len() - 1);
    }
}

/// Every `lBrack` token the parser consumes produces exactly one
/// synthetic `Expr` node: the forest holds as many `Expr` nodes as the
/// stream holds `lBrack` tokens. When every `[` has its matching `]`,
/// these are exactly the matched pairs; an unclosed `[` still produces
/// its (truncated) `Expr` node.
pub proof fn lemma_parse_expr_count(toks: Seq<TokenV>)
    requires
        stream_brack_payload(toks),
        stream_no_synth(toks),
    ensures
        count_expr_forest(parse_toks(toks)) == count_lbrack_range(toks, 0, toks.len() as int),
{
    let ts = with_sentinel(toks);
    assert(stream_brack_payload(ts) && stream_no_synth(ts)) by {
        if toks.len() == 0 {
            assert(forall|k: int| 0 <= k < ts.len() ==> #[trigger] ts[k] == eof_tok(1));
        } else if toks.last().ltype != TokType::Eof {
            assert(forall|k: int| 0 <= k < toks.len() ==> #[trigger] ts[k] == toks[k]);
            assert(ts[toks.len() as int] == eof_tok(toks.last().line));
        }
    }
    lemma_loop_count(ts, 0);
    if toks.len() == 0 {
    } else if toks.last().ltype != TokType::Eof {
        lemma_count_range_push(toks, eof_tok(toks.last().line), 0, toks.len() as int);
        assert(ts.len() - 1 == toks.len());
    } else {
        lemma_count_range_split(ts, 0, toks.len() - 1, toks.len() as int);
        lemma_count_range_split(toks, 0, toks.len() - 1, toks.len() as int);
        assert(count_lbrack_range(toks, toks.len() as int, toks.len() as int) == 0);
        assert(toks.last().ltype == TokType::Eof);
        assert(count_lbrack_range(toks, toks.len() - 1, toks.len() as int) == 0);
        assert(count_lbrack_range(ts, toks.len() - 1, toks.len() as int) == 0);
    }
}

proof fn lemma_count_range_push(toks: Seq<TokenV>, t: TokenV, a: int, b: int)
    requires
        0 <= a,
        b <= toks.len(),
    ensures
        count_lbrack_range(toks.push(t), a, b) == count_lbrack_range(toks, a, b),
    decreases b - a,
{
    if a < b {
        assert(toks.push(t)[a] == toks[a]);
        lemma_count_range_push(toks, t, a + 1, b);
    }
}

/// A source span that is nothing but whitespace and line comments.
pub open spec fn trivia_only(s: Seq<char>, i: int) -> bool
    decreases s.len() - i,
{
    if !(0 <= i && i < s.len()) {
        true
    } else if s[i] == ' ' || s[i] == '\r' || s[i] == '\t' || s[i] == '\n' {
        trivia_only(s, i + 1)
    } else if s[i] == '/' && i + 1 < s.len() && s[i + 1] == '/' {
        trivia_only(s, clampi(i + 2, comment_end(s, i + 2), s.len() as int))
    } else {
        false
    }
}

proof fn lemma_trivia_scan(s: Seq<char>, i: int, line: nat)
    requires
        0 <= i,
        trivia_only(s, i),
    ensures
        scan_from(s, i, line) is Ok,
        scan_from(s, i, line)->Ok_0.len() == 1,
        scan_from(s, i, line)->Ok_0[0].ltype == TokType::Eof,
    decreases s.len() - i,
{
    if 0 <= i && i < s.len() {
        if s[i] == ' ' || s[i] == '\r' || s[i] == '\t' {
            lemma_trivia_scan(s, i + 1, line);
        } else if s[i] == '\n' {
            lemma_trivia_scan(s, i + 1, line + 1);
        } else {
            lemma_trivia_scan(s, clampi(i + 2, comment_end(s, i + 2), s.len() as int), line);
        }
    }
}

/// An input of nothing but whitespace and comments scans to the lone
/// `Eof` sentinel, and parses to the empty forest, exactly like the
/// empty input.
pub proof fn lemma_trivia_scans_to_eof(s: Seq<char>)
    requires
        trivia_only(s, 0),
    ensures
        scan_spec(s) is Ok,
        scan_spec(s)->Ok_0.len() == 1,
        scan_spec(s)->Ok_0[0].ltype == TokType::Eof,
        parse_toks(scan_spec(s)->Ok_0) == Seq::<NodeV>::empty(),
{
    lemma_trivia_scan(s, 0, 1);
    let ts = scan_spec(s)->Ok_0;
    assert(ts.last().ltype == TokType::Eof);
    assert(with_sentinel(ts) == ts);
    assert(at_end(ts, 0));
}

/// The lexeme of each token in a sequence, in order.
pub open spec fn lexemes_of(ts: Seq<TokenV>) -> Seq<Seq<char>> {
    ts.map_values(|t: TokenV| t.lexeme)
}

/// Alternate trivia spans and token lexemes: the first trivia span, the
/// first lexeme, the second trivia span, and so on.
pub open spec fn interleave(tv: Seq<Seq<char>>, lx: Seq<Seq<char>>) -> Seq<char>
    decreases tv.len(),
{
    if tv.len() == 0 || lx.len() == 0 {
        Seq::empty()
    } else {
        tv[0] + lx[0] + interleave(tv.drop_first(), lx.drop_first())
    }
}

proof fn lemma_rt_cons(s: Seq<char>, i: int, j: int, t: TokenV, ts: Seq<TokenV>, tv: Seq<Seq<char>>)
    requires
        0 <= i <= j <= s.len(),
        t.lexeme == s.subrange(i, j),
        tv.len() == ts.len(),
        interleave(tv, lexemes_of(ts)) == s.subrange(j, s.len() as int),
    ensures
        (seq![Seq::<char>::empty()] + tv).len() == (seq![t] + ts).len(),
        interleave(seq![Seq::<char>::empty()] + tv, lexemes_of(seq![t] + ts)) == s.subrange(
            i,
            s.len() as int,
        ),
{
    let tv2 = seq![Seq::<char>::empty()] + tv;
    let lx2 = lexemes_of(seq![t] + ts);
    assert(lx2.len() == 1 + ts.len());
    assert(lx2[0] == t.lexeme);
    assert(tv2[0] == Seq::<char>::empty());
    assert(tv2.drop_first() =~= tv);
    assert(lx2.drop_first() =~= lexemes_of(ts));
    if ts.len() == 0 {
        assert(interleave(tv, lexemes_of(ts)) == Seq::<char>::empty());
        assert(j == s.len());
        assert(interleave(tv2, lx2) == tv2[0] + lx2[0] + interleave(tv, lexemes_of(ts)));
        assert(interleave(tv2, lx2) =~= s.subrange(i, s.len() as int));
    } else {
        assert(interleave(tv2, lx2) == tv2[0] + lx2[0] + interleave(tv, lexemes_of(ts)));
        assert(interleave(tv2, lx2) =~= s.subrange(i, s.len() as int));
    }
}

proof fn lemma_rt_step(s: Seq<char>, i: int, line: nat, t: TokenV, j: int, l2: nat)
    requires
        0 <= i <= j <= s.len(),
        scan_from(s, i, line) == cons_tok(t, scan_from(s, j, l2)),
        t.lexeme == s.subrange(i, j),
        scan_from(s, j, l2) is Ok ==> exists|tv: Seq<Seq<char>>|
            tv.len() == scan_from(s, j, l2)->Ok_0.len() && interleave(
                tv,
                lexemes_of(scan_from(s, j, l2)->Ok_0),
            ) == s.subrange(j, s.len() as int),
    ensures
        scan_from(s, i, line) is Ok ==> exists|tv: Seq<Seq<char>>|
            tv.len() == scan_from(s, i, line)->Ok_0.len() && interleave(
                tv,
                lexemes_of(scan_from(s, i, line)->Ok_0),
            ) == s.subrange(i, s.len() as int),
{
    match scan_from(s, j, l2) {
        Ok(ts) => {
            let tv = choose|tv: Seq<Seq<char>>|
                tv.len() == ts.len() && interleave(tv, lexemes_of(ts)) == s.subrange(
                    j,
                    s.len() as int,
                );
            lemma_rt_cons(s, i, j, t, ts, tv);
            let tv2 = seq![Seq::<char>::empty()] + tv;
            assert(scan_from(s, i, line)->Ok_0 == seq![t] + ts);
            assert(tv2.len() == scan_from(s, i, line)->Ok_0.len() && interleave(
                tv2,
                lexemes_of(scan_from(s, i, line)->Ok_0),
            ) == s.subrange(i, s.len() as int));
        },
        Err(_) => {},
    }
}

proof fn lemma_rt_skip(s: Seq<char>, i: int, line: nat, j: int, l2: nat)
    requires
        0 <= i <= j <= s.len(),
        scan_from(s, i, line) == scan_from(s, j, l2),
        scan_from(s, j, l2) is Ok ==> exists|tv: Seq<Seq<char>>|
            tv.len() == scan_from(s, j, l2)->Ok_0.len() && interleave(
                tv,
                lexemes_of(scan_from(s, j, l2)->Ok_0),
            ) == s.subrange(j, s.len() as int),
    ensures
        scan_from(s, i, line) is Ok ==> exists|tv: Seq<Seq<char>>|
            tv.len() == scan_from(s, i, line)->Ok_0.len() && interleave(
                tv,
                lexemes_of(scan_from(s, i, line)->Ok_0),
            ) == s.subrange(i, s.len() as int),
{
    match scan_from(s, j, l2) {
        Ok(ts) => {
            lemma_scan_from_ok(s, j, l2);
            assert(ts.len() >= 1);
            let tv = choose|tv: Seq<Seq<char>>|
                tv.len() == ts.len() && interleave(tv, lexemes_of(ts)) == s.subrange(
                    j,
                    s.len() as int,
                );
            let lx = lexemes_of(ts);
            let tv2 = tv.update(0, s.subrange(i, j) + tv[0]);
            assert(lx.len() == ts.len() >= 1);
            assert(tv2.drop_first() =~= tv.drop_first());
            assert(tv2[0] == s.subrange(i, j) + tv[0]);
            assert(interleave(tv2, lx) == tv2[0] + lx[0] + interleave(
                tv2.drop_first(),
                lx.drop_first(),
            ));
            assert(interleave(tv, lx) == tv[0] + lx[0] + interleave(
                tv.drop_first(),
                lx.drop_first(),
            ));
            assert(interleave(tv2, lx) =~= s.subrange(i, j) + interleave(tv, lx));
            assert(s.subrange(i, j) + s.subrange(j, s.len() as int) =~= s.subrange(
                i,
                s.len() as int,
            ));
            assert(tv2.len() == ts.len() && interleave(tv2, lexemes_of(ts)) == s.subrange(
                i,
                s.len() as int,
            ));
        },
        Err(_) => {},
    }
}

proof fn lemma_round_trip_from(s: Seq<char>, i: int, line: nat)
    requires
        0 <= i <= s.len(),
    ensures
        scan_from(s, i, line) is Ok ==> exists|tv: Seq<Seq<char>>|
            tv.len() == scan_from(s, i, line)->Ok_0.len() && interleave(
                tv,
                lexemes_of(scan_from(s, i, line)->Ok_0),
            ) == s.subrange(i, s.len() as int),
    decreases s.len() - i,
{
    let len = s.len() as int;
    if !(0 <= i && i < len) {
        let ts = seq![eof_tok(line)];
        let tv = seq![Seq::<char>::empty()];
        let lx = lexemes_of(ts);
        assert(lx.len() == 1);
        assert(lx[0] == eof_tok(line).lexeme);
        assert(tv.drop_first() =~= Seq::<Seq<char>>::empty());
        assert(lx.drop_first() =~= Seq::<Seq<char>>::empty());
        assert(interleave(Seq::<Seq<char>>::empty(), Seq::<Seq<char>>::empty())
            == Seq::<char>::empty());
        assert(interleave(tv, lx) =~= s.subrange(i, len));
        assert(tv.len() == ts.len() && interleave(tv, lexemes_of(ts)) == s.subrange(i, len));
    } else {
        let c = s[i];
        if single_kind(c) is Some {
            lemma_round_trip_from(s, i + 1, line);
            lemma_rt_step(s, i, line, punct_tok(single_kind(c)->Some_0, s, i, 1, line), i + 1, line);
        } else if c == '/' {
            if i + 1 < len && s[i + 1] == '/' {
                let j = clampi(i + 2, comment_end(s, i + 2), len);
                lemma_round_trip_from(s, j, line);
                lemma_rt_skip(s, i, line, j, line);
            } else {
                lemma_round_trip_from(s, i + 1, line);
                lemma_rt_step(s, i, line, punct_tok(TokType::Div, s, i, 1, line), i + 1, line);
            }
        } else if twochar_kinds(c) is Some {
            if i + 1 < len && s[i + 1] == '=' {
                lemma_round_trip_from(s, i + 2, line);
                lemma_rt_step(
                    s,
                    i,
                    line,
                    punct_tok(twochar_kinds(c)->Some_0.0, s, i, 2, line),
                    i + 2,
                    line,
                );
            } else {
                lemma_round_trip_from(s, i + 1, line);
                lemma_rt_step(
                    s,
                    i,
                    line,
                    punct_tok(twochar_kinds(c)->Some_0.1, s, i, 1, line),
                    i + 1,
                    line,
                );
            }
        } else if c == '=' {
            if i + 1 < len && s[i + 1] == '=' {
                lemma_round_trip_from(s, i + 2, line);
                lemma_rt_step(s, i, line, punct_tok(TokType::Equal, s, i, 2, line), i + 2, line);
            }
        } else if c == ' ' || c == '\r' || c == '\t' {
            lemma_round_trip_from(s, i + 1, line);
            lemma_rt_skip(s, i, line, i + 1, line);
        } else if c == '\n' {
            lemma_round_trip_from(s, i + 1, line + 1);
            lemma_rt_skip(s, i, line, i + 1, line + 1);
        } else if c == '"' {
            let j = clampi(i + 1, str_body_end(s, i + 1), len);
            if j < len {
                let l2 = line + newlines_in(s, i + 1, j);
                lemma_round_trip_from(s, j + 1, l2);
                let t = TokenV {
                    ltype: TokType::String,
                    lexeme: s.subrange(i, j + 1),
                    literal: LiteralV::Str(s.subrange(i + 1, j)),
                    line,
                };
                lemma_rt_step(s, i, line, t, j + 1, l2);
            }
        } else if is_digit_char(c) {
            let j = clampi(i + 1, digits_end(s, i + 1), len);
            if j + 1 < len && s[j] == '.' && is_digit_char(s[j + 1]) {
                let k = clampi(j + 2, digits_end(s, j + 2), len);
                lemma_round_trip_from(s, k, line);
                let t = TokenV {
                    ltype: TokType::Float,
                    lexeme: s.subrange(i, k),
                    literal: LiteralV::Float(s.subrange(i, k)),
                    line,
                };
                lemma_rt_step(s, i, line, t, k, line);
            } else if digits_val(s.subrange(i, j)) <= i64::MAX as nat {
                lemma_round_trip_from(s, j, line);
                let t = TokenV {
                    ltype: TokType::Int,
                    lexeme: s.subrange(i, j),
                    literal: LiteralV::Int(digits_val(s.subrange(i, j)) as int),
                    line,
                };
                lemma_rt_step(s, i, line, t, j, line);
            }
        } else if is_alpha_char(c) {
            let j = clampi(i + 1, ident_end(s, i + 1), len);
            lemma_round_trip_from(s, j, line);
            let t = TokenV {
                ltype: match keyword_of(s.subrange(i, j)) {
                    Some(k) => k,
                    None => TokType::Identifier,
                },
                lexeme: s.subrange(i, j),
                literal: LiteralV::Null,
                line,
            };
            lemma_rt_step(s, i, line, t, j, line);
        }
    }
}

/// For every successful scan there are trivia (whitespace and comment)
/// spans, one before each token, whose interleaving with the tokens'
/// lexemes reproduces the original source exactly.
pub proof fn lemma_scan_round_trip(s: Seq<char>)
    ensures
        scan_spec(s) is Ok ==> exists|tv: Seq<Seq<char>>|
            tv.len() == scan_spec(s)->Ok_0.len() && interleave(
                tv,
                lexemes_of(scan_spec(s)->Ok_0),
            ) == s,
{
    lemma_round_trip_from(s, 0, 1);
    match scan_spec(s) {
        Ok(ts) => {
            let tv = choose|tv: Seq<Seq<char>>|
                tv.len() == ts.len() && interleave(tv, lexemes_of(ts)) == s.subrange(
                    0,
                    s.len() as int,
                );
            assert(s.subrange(0, s.len() as int) =~= s);
            assert(tv.len() == ts.len() && interleave(tv, lexemes_of(ts)) == s);
        },
        Err(_) => {},
    }
}

/// Scanning this token's lexeme alone succeeds and yields the same
/// kind, payload and lexeme back (on line 1).
pub open spec fn rescan_ok(t: TokenV) -> bool {
    &&& scan_spec(t.lexeme) is Ok
    &&& scan_spec(t.lexeme)->Ok_0.len() >= 1
    &&& scan_spec(t.lexeme)->Ok_0[0].ltype == t.ltype
    &&& scan_spec(t.lexeme)->Ok_0[0].literal == t.literal
    &&& scan_spec(t.lexeme)->Ok_0[0].lexeme == t.lexeme
}

proof fn lemma_digits_end_run(s: Seq<char>, i: int)
    requires
        0 <= i <= s.len(),
    ensures
        i <= digits_end(s, i) <= s.len(),
        forall|m: int| i <= m < digits_end(s, i) ==> is_digit_char(#[trigger] s[m]),
        digits_end(s, i) < s.len() ==> !is_digit_char(s[digits_end(s, i)]),
    decreases s.len() - i,
{
    if i < s.len() && is_digit_char(s[i]) {
        lemma_digits_end_run(s, i + 1);
    }
}

proof fn lemma_ident_end_run(s: Seq<char>, i: int)
    requires
        0 <= i <= s.len(),
    ensures
        i <= ident_end(s, i) <= s.len(),
        forall|m: int| i <= m < ident_end(s, i) ==> is_alnum_char(#[trigger] s[m]),
        ident_end(s, i) < s.len() ==> !is_alnum_char(s[ident_end(s, i)]),
    decreases s.len() - i,
{
    if i < s.len() && is_alnum_char(s[i]) {
        lemma_ident_end_run(s, i + 1);
    }
}

proof fn lemma_str_body_end_run(s: Seq<char>, i: int)
    requires
        0 <= i <= s.len(),
    ensures
        i <= str_body_end(s, i) <= s.len(),
        forall|m: int| i <= m < str_body_end(s, i) ==> (#[trigger] s[m]) != '"',
        str_body_end(s, i) < s.len() ==> s[str_body_end(s, i)] == '"',
    decreases s.len() - i,
{
    if i < s.len() && s[i] != '"' {
        lemma_str_body_end_run(s, i + 1);
    }
}

proof fn lemma_rescan_eof(line: nat)
    ensures
        rescan_ok(eof_tok(line)),
{
    let lex = eof_tok(line).lexeme;
    assert(lex.len() == 0);
    assert(scan_from(lex, 0, 1) == Ok::<Seq<TokenV>, ScanErrV>(seq![eof_tok(1)]));
}

proof fn lemma_rescan_step(s: Seq<char>, i: int, line: nat, t: TokenV, j: int, l2: nat)
    requires
        scan_from(s, i, line) == cons_tok(t, scan_from(s, j, l2)),
        rescan_ok(t),
        scan_from(s, j, l2) is Ok ==> forall|k: int|
            0 <= k < scan_from(s, j, l2)->Ok_0.len() ==> rescan_ok(
                #[trigger] scan_from(s, j, l2)->Ok_0[k],
            ),
    ensures
        scan_from(s, i, line) is Ok ==> forall|k: int|
            0 <= k < scan_from(s, i, line)->Ok_0.len() ==> rescan_ok(
                #[trigger] scan_from(s, i, line)->Ok_0[k],
            ),
{
    match scan_from(s, j, l2) {
        Ok(ts) => {
            let whole = seq![t] + ts;
            assert(whole[0] == t);
            assert(forall|k: int| 1 <= k < whole.len() ==> #[trigger] whole[k] == ts[k - 1]);
        },
        Err(_) => {},
    }
}

/// A one- or two-character punctuation lexeme rescans to the same kind.
proof fn lemma_rescan_punct(s: Seq<char>, i: int, n: int, kind: TokType, line: nat)
    requires
        0 <= i,
        1 <= n <= 2,
        i + n <= s.len(),
        n == 1 ==> (single_kind(s[i]) == Some(kind) || (s[i] == '/' && kind == TokType::Div) || (
        twochar_kinds(s[i]) is Some && twochar_kinds(s[i])->Some_0.1 == kind && s[i] != '=')),
        n == 2 ==> s[i + 1] == '=' && ((twochar_kinds(s[i]) is Some && twochar_kinds(
            s[i],
        )->Some_0.0 == kind) || (s[i] == '=' && kind == TokType::Equal)),
    ensures
        rescan_ok(punct_tok(kind, s, i, n, line)),
{
    let t = punct_tok(kind, s, i, n, line);
    let lex = t.lexeme;
    assert(lex.len() == n);
    assert(lex[0] == s[i]);
    if n == 2 {
        assert(lex[1] == s[i + 1]);
    }
    assert(scan_from(lex, n, 1) == Ok::<Seq<TokenV>, ScanErrV>(seq![eof_tok(1)]));
    let ts2 = scan_spec(lex)->Ok_0;
    assert(ts2[0].lexeme =~= lex);
}

/// The induction behind the rescan law.
#[verifier::rlimit(100)]
proof fn lemma_rescan_from(s: Seq<char>, i: int, line: nat)
    requires
        0 <= i,
    ensures
        scan_from(s, i, line) is Ok ==> forall|k: int|
            0 <= k < scan_from(s, i, line)->Ok_0.len() ==> rescan_ok(
                #[trigger] scan_from(s, i, line)->Ok_0[k],
            ),
    decreases s.len() - i,
{
    let len = s.len() as int;
    if !(0 <= i && i < len) {
        let ts = seq![eof_tok(line)];
        lemma_rescan_eof(line);
        assert(forall|k: int| 0 <= k < ts.len() ==> rescan_ok(#[trigger] ts[k]));
    } else {
        let c = s[i];
        if single_kind(c) is Some {
            lemma_rescan_from(s, i + 1, line);
            lemma_rescan_punct(s, i, 1, single_kind(c)->Some_0, line);
            lemma_rescan_step(s, i, line, punct_tok(single_kind(c)->Some_0, s, i, 1, line), i + 1, line);
        } else if c == '/' {
            if i + 1 < len && s[i + 1] == '/' {
                lemma_rescan_from(s, clampi(i + 2, comment_end(s, i + 2), len), line);
            } else {
                lemma_rescan_from(s, i + 1, line);
                lemma_rescan_punct(s, i, 1, TokType::Div, line);
                lemma_rescan_step(s, i, line, punct_tok(TokType::Div, s, i, 1, line), i + 1, line);
            }
        } else if twochar_kinds(c) is Some {
            if i + 1 < len && s[i + 1] == '=' {
                lemma_rescan_from(s, i + 2, line);
                lemma_rescan_punct(s, i, 2, twochar_kinds(c)->Some_0.0, line);
                lemma_rescan_step(
                    s,
                    i,
                    line,
                    punct_tok(twochar_kinds(c)->Some_0.0, s, i, 2, line),
                    i + 2,
                    line,
                );
            } else {
                lemma_rescan_from(s, i + 1, line);
                lemma_rescan_punct(s, i, 1, twochar_kinds(c)->Some_0.1, line);
                lemma_rescan_step(
                    s,
                    i,
                    line,
                    punct_tok(twochar_kinds(c)->Some_0.1, s, i, 1, line),
                    i + 1,
                    line,
                );
            }
        } else if c == '=' {
            if i + 1 < len && s[i + 1] == '=' {
                lemma_rescan_from(s, i + 2, line);
                lemma_rescan_punct(s, i, 2, TokType::Equal, line);
                lemma_rescan_step(s, i, line, punct_tok(TokType::Equal, s, i, 2, line), i + 2, line);
            }
        } else if c == ' ' || c == '\r' || c == '\t' {
            lemma_rescan_from(s, i + 1, line);
        } else if c == '\n' {
            lemma_rescan_from(s, i + 1, line + 1);
        } else if c == '"' {
            let j = clampi(i + 1, str_body_end(s, i + 1), len);
            if j < len {
                let l2 = line + newlines_in(s, i + 1, j);
                lemma_rescan_from(s, j + 1, l2);
                let t = TokenV {
                    ltype: TokType::String,
                    lexeme: s.subrange(i, j + 1),
                    literal: LiteralV::Str(s.subrange(i + 1, j)),
                    line,
                };
                lemma_rescan_string(s, i, j, line);
                lemma_rescan_step(s, i, line, t, j + 1, l2);
            }
        } else if is_digit_char(c) {
            let j = clampi(i + 1, digits_end(s, i + 1), len);
            lemma_digits_end_run(s, i + 1);
            if j + 1 < len && s[j] == '.' && is_digit_char(s[j + 1]) {
                let k = clampi(j + 2, digits_end(s, j + 2), len);
                lemma_rescan_from(s, k, line);
                let t = TokenV {
                    ltype: TokType::Float,
                    lexeme: s.subrange(i, k),
                    literal: LiteralV::Float(s.subrange(i, k)),
                    line,
                };
                lemma_rescan_float(s, i, j, k, line);
                lemma_rescan_step(s, i, line, t, k, line);
            } else if digits_val(s.subrange(i, j)) <= i64::MAX as nat {
                lemma_rescan_from(s, j, line);
                let t = TokenV {
                    ltype: TokType::Int,
                    lexeme: s.subrange(i, j),
                    literal: LiteralV::Int(digits_val(s.subrange(i, j)) as int),
                    line,
                };
                lemma_rescan_int(s, i, j, line);
                lemma_rescan_step(s, i, line, t, j, line);
            }
        } else if is_alpha_char(c) {
            let j = clampi(i + 1, ident_end(s, i + 1), len);
            let t = TokenV {
                ltype: match keyword_of(s.subrange(i, j)) {
                    Some(k) => k,
                    None => TokType::Identifier,
                },
                lexeme: s.subrange(i, j),
                literal: LiteralV::Null,
                line,
            };
            lemma_rescan_from(s, j, line);
            lemma_rescan_ident(s, i, j, line);
            lemma_rescan_step(s, i, line, t, j, line);
        }
    }
}

/// A complete string lexeme rescans to the same `String` token.
proof fn lemma_rescan_string(s: Seq<char>, i: int, j: int, line: nat)
    requires
        0 <= i < s.len(),
        s[i] == '"',
        j == clampi(i + 1, str_body_end(s, i + 1), s.len() as int),
        j < s.len(),
    ensures
        rescan_ok(
            TokenV {
                ltype: TokType::String,
                lexeme: s.subrange(i, j + 1),
                literal: LiteralV::Str(s.subrange(i + 1, j)),
                line,
            },
        ),
{
    lemma_str_body_end_run(s, i + 1);
    let t = TokenV {
        ltype: TokType::String,
        lexeme: s.subrange(i, j + 1),
        literal: LiteralV::Str(s.subrange(i + 1, j)),
        line,
    };
    let lex = t.lexeme;
    let bl = j + 1 - i;
    assert(lex.len() == bl);
    assert(lex[0] == '"');
    assert(forall|m: int| 1 <= m < bl - 1 ==> (#[trigger] lex[m]) != '"');
    assert(lex[bl - 1] == s[j]);
    assert(s[j] == '"');
    crate::scan_spec::lemma_str_body_end_unique(lex, 1, bl - 1);
    assert(clampi(1, str_body_end(lex, 1), bl) == bl - 1);
    let l3 = 1 + newlines_in(lex, 1, bl - 1);
    assert(scan_from(lex, bl, l3) == Ok::<Seq<TokenV>, ScanErrV>(seq![eof_tok(l3)]));
    let ts2 = scan_spec(lex)->Ok_0;
    assert(ts2[0].ltype == TokType::String);
    assert(ts2[0].lexeme =~= lex);
    assert(lex.subrange(1, bl - 1) =~= s.subrange(i + 1, j));
}

/// A float lexeme rescans to the same `Float` token.
proof fn lemma_rescan_float(s: Seq<char>, i: int, j: int, k: int, line: nat)
    requires
        0 <= i < s.len(),
        is_digit_char(s[i]),
        j == clampi(i + 1, digits_end(s, i + 1), s.len() as int),
        j + 1 < s.len(),
        s[j] == '.',
        is_digit_char(s[j + 1]),
        k == clampi(j + 2, digits_end(s, j + 2), s.len() as int),
    ensures
        rescan_ok(
            TokenV {
                ltype: TokType::Float,
                lexeme: s.subrange(i, k),
                literal: LiteralV::Float(s.subrange(i, k)),
                line,
            },
        ),
{
    lemma_digits_end_run(s, i + 1);
    lemma_digits_end_run(s, j + 2);
    let t = TokenV {
        ltype: TokType::Float,
        lexeme: s.subrange(i, k),
        literal: LiteralV::Float(s.subrange(i, k)),
        line,
    };
    let lex = t.lexeme;
    let fl = k - i;
    assert(lex.len() == fl);
    assert(lex[0] == s[i]);
    assert(forall|m: int| 1 <= m < j - i ==> is_digit_char(#[trigger] lex[m]));
    assert(lex[j - i] == s[j]);
    assert(!is_digit_char('.'));
    crate::scan_spec::lemma_digits_end_unique(lex, 1, j - i);
    assert(clampi(1, digits_end(lex, 1), fl) == j - i);
    assert(j - i + 1 < fl && lex[j - i] == '.' && is_digit_char(lex[j - i + 1]));
    assert(forall|m: int| j - i + 2 <= m < fl ==> is_digit_char(#[trigger] lex[m]));
    crate::scan_spec::lemma_digits_end_unique(lex, j - i + 2, fl);
    assert(clampi(j - i + 2, digits_end(lex, j - i + 2), fl) == fl);
    assert(scan_from(lex, fl, 1) == Ok::<Seq<TokenV>, ScanErrV>(seq![eof_tok(1)]));
    let ts2 = scan_spec(lex)->Ok_0;
    assert(ts2[0].ltype == TokType::Float);
    assert(ts2[0].lexeme =~= lex);
    assert(lex.subrange(0, fl) =~= lex);
}

/// An integer lexeme rescans to the same `Int` token.
proof fn lemma_rescan_int(s: Seq<char>, i: int, j: int, line: nat)
    requires
        0 <= i < s.len(),
        is_digit_char(s[i]),
        j == clampi(i + 1, digits_end(s, i + 1), s.len() as int),
        !(j + 1 < s.len() && s[j] == '.' && is_digit_char(s[j + 1])),
        digits_val(s.subrange(i, j)) <= i64::MAX as nat,
    ensures
        rescan_ok(
            TokenV {
                ltype: TokType::Int,
                lexeme: s.subrange(i, j),
                literal: LiteralV::Int(digits_val(s.subrange(i, j)) as int),
                line,
            },
        ),
{
    lemma_digits_end_run(s, i + 1);
    let t = TokenV {
        ltype: TokType::Int,
        lexeme: s.subrange(i, j),
        literal: LiteralV::Int(digits_val(s.subrange(i, j)) as int),
        line,
    };
    let lex = t.lexeme;
    let il = j - i;
    assert(lex.len() == il);
    assert(lex[0] == s[i]);
    assert(forall|m: int| 1 <= m < il ==> is_digit_char(#[trigger] lex[m]));
    crate::scan_spec::lemma_digits_end_unique(lex, 1, il);
    assert(clampi(1, digits_end(lex, 1), il) == il);
    assert(lex.subrange(0, il) =~= lex);
    assert(digits_val(lex.subrange(0, il)) == digits_val(s.subrange(i, j)));
    assert(scan_from(lex, il, 1) == Ok::<Seq<TokenV>, ScanErrV>(seq![eof_tok(1)]));
    let ts2 = scan_spec(lex)->Ok_0;
    assert(ts2[0].ltype == TokType::Int);
    assert(ts2[0].lexeme =~= lex);
}

/// An identifier or keyword lexeme rescans to the same kind.
proof fn lemma_rescan_ident(s: Seq<char>, i: int, j: int, line: nat)
    requires
        0 <= i < s.len(),
        is_alpha_char(s[i]),
        starts_other(s[i]),
        j == clampi(i + 1, ident_end(s, i + 1), s.len() as int),
    ensures
        rescan_ok(
            TokenV {
                ltype: match keyword_of(s.subrange(i, j)) {
                    Some(k) => k,
                    None => TokType::Identifier,
                },
                lexeme: s.subrange(i, j),
                literal: LiteralV::Null,
                line,
            },
        ),
{
    lemma_ident_end_run(s, i + 1);
    let t = TokenV {
        ltype: match keyword_of(s.subrange(i, j)) {
            Some(k) => k,
            None => TokType::Identifier,
        },
        lexeme: s.subrange(i, j),
        literal: LiteralV::Null,
        line,
    };
    let lex = t.lexeme;
    let al = j - i;
    assert(lex.len() == al);
    assert(lex[0] == s[i]);
    assert(starts_other(lex[0]));
    assert(is_alpha_char(lex[0]));
    assert(forall|m: int| 1 <= m < al ==> is_alnum_char(#[trigger] lex[m]));
    crate::scan_spec::lemma_ident_end_unique(lex, 1, al);
    assert(clampi(1, ident_end(lex, 1), al) == al);
    assert(lex.subrange(0, al) =~= lex);
    assert(scan_from(lex, al, 1) == Ok::<Seq<TokenV>, ScanErrV>(seq![eof_tok(1)]));
    let ts2 = scan_spec(lex)->Ok_0;
    assert(ts2[0].ltype == t.ltype);
    assert(ts2[0].lexeme =~= lex);
}

/// Re-scanning any single token's lexeme from a successful scan yields
/// an equivalent token back: the same kind, payload and lexeme (lines
/// reset to 1). This is the per-token form of re-scanning; concatenating
/// the lexemes of adjacent tokens can merge them (two integer tokens
/// `1` and `2` concatenate to the single token `12`), so no more is
/// claimed of the concatenation.
pub proof fn lemma_lexeme_rescan(s: Seq<char>)
    ensures
        scan_spec(s) is Ok ==> forall|k: int|
            0 <= k < scan_spec(s)->Ok_0.len() ==> rescan_ok(#[trigger] scan_spec(s)->Ok_0[k]),
{
    lemma_rescan_from(s, 0, 1);
}

} // verus!
