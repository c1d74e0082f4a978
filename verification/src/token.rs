//! The shared data vocabulary of the front end: token kinds, literal
//! payloads, the `Token` record, and the diagnostic format.

use vstd::prelude::*;

use crate::text::{chars_into_string, dec_str, push_dec, push_str_chars, str_chars_vec};

verus! {

/// Every kind of token the scanner can emit, the synthetic kinds that only
/// the parser constructs (`Expr`, `Block`, `Arr`), and the `Eof` sentinel.
///
/// The keyword `set` is spelled `SetKw` here because `Set` is taken by the
/// verifier's vocabulary.
#[allow(non_camel_case_types)]
#[derive(Clone, Copy, Debug, PartialEq, Eq, Structural)]
pub enum TokType {
    lParen,
    rParen,
    lBrack,
    rBrack,
    lCurl,
    rCurl,
    Semicolon,
    Identifier,
    String,
    Int,
    Float,
    Char,
    IntType,
    StrType,
    FloatType,
    CharType,
    If,
    Else,
    Fn,
    Add,
    Sub,
    Mul,
    Div,
    Def,
    SetKw,
    For,
    ForEach,
    While,
    Greater,
    Less,
    Not,
    NotEq,
    Equal,
    LessEq,
    GreaterEq,
    True,
    False,
    Ret,
    Ng,
    Expr,
    Block,
    Arr,
    Newline,
    Eof,
}

/// The decoded value of a literal token. A float literal carries its exact
/// decimal text (digits, one point, digits), which determines the number;
/// tokens whose value is carried entirely by kind and lexeme carry `Null`.
#[derive(Debug, PartialEq)]
pub enum Literal {
    Int(i64),
    Float(std::string::String),
    Str(std::string::String),
    Null,
}

/// The mathematical value of a `Literal`.
pub ghost enum LiteralV {
    Int(int),
    Float(Seq<char>),
    Str(Seq<char>),
    Null,
}

impl View for Literal {
    type V = LiteralV;

    open spec fn view(&self) -> LiteralV {
        match self {
            Literal::Int(i) => LiteralV::Int(*i as int),
            Literal::Float(s) => LiteralV::Float(s@),
            Literal::Str(s) => LiteralV::Str(s@),
            Literal::Null => LiteralV::Null,
        }
    }
}

impl DeepView for Literal {
    type V = LiteralV;

    open spec fn deep_view(&self) -> LiteralV {
        self.view()
    }
}

impl Clone for Literal {
    fn clone(&self) -> (r: Literal)
        ensures
            r@ == self@,
    {
        match self {
            Literal::Int(i) => Literal::Int(*i),
            Literal::Float(s) => Literal::Float(s.clone()),
            Literal::Str(s) => Literal::Str(s.clone()),
            Literal::Null => Literal::Null,
        }
    }
}

/// An immutable record of one token: its kind, the exact source substring
/// that produced it, its decoded literal value, and the 1-based line on
/// which it began.
#[derive(Debug, PartialEq)]
pub struct Token {
    pub ltype: TokType,
    pub lexeme: std::string::String,
    pub literal: Literal,
    pub line: u64,
}

/// The mathematical value of a `Token`.
#[verifier::ext_equal]
pub ghost struct TokenV {
    pub ltype: TokType,
    pub lexeme: Seq<char>,
    pub literal: LiteralV,
    pub line: nat,
}

impl View for Token {
    type V = TokenV;

    open spec fn view(&self) -> TokenV {
        TokenV {
            ltype: self.ltype,
            lexeme: self.lexeme@,
            literal: self.literal@,
            line: self.line as nat,
        }
    }
}

impl DeepView for Token {
    type V = TokenV;

    open spec fn deep_view(&self) -> TokenV {
        self.view()
    }
}

impl Clone for Token {
    fn clone(&self) -> (r: Token)
        ensures
            r@ == self@,
    {
        Token {
            ltype: self.ltype,
            lexeme: self.lexeme.clone(),
            literal: self.literal.clone(),
            line: self.line,
        }
    }
}

impl Token {
    pub fn new(typ: TokType, lexeme: std::string::String, literal: Literal, line: u64) -> (r:
        Token)
        ensures
            r@ == (TokenV { ltype: typ, lexeme: lexeme@, literal: literal@, line: line as nat }),
    {
        Token { ltype: typ, lexeme, literal, line }
    }
}

/// Why a scan failed.
#[derive(Clone, Copy, Debug, PartialEq, Eq, Structural)]
pub enum ScanErrorKind {
    UnexpectedChar(char),
    UnterminatedString,
    MalformedNumber,
}

/// A fatal lexical diagnostic: the kind of failure and the 1-based line on
/// which the offending construct began.
#[derive(Clone, Copy, Debug, PartialEq, Eq, Structural)]
pub struct ScanError {
    pub line: u64,
    pub kind: ScanErrorKind,
}

/// The mathematical value of a `ScanError`.
pub ghost struct ScanErrV {
    pub line: nat,
    pub kind: ScanErrorKind,
}

impl View for ScanError {
    type V = ScanErrV;

    open spec fn view(&self) -> ScanErrV {
        ScanErrV { line: self.line as nat, kind: self.kind }
    }
}

/// The message text belonging to each failure kind.
pub open spec fn message_spec(kind: ScanErrorKind) -> Seq<char> {
    match kind {
        ScanErrorKind::UnexpectedChar(c) => "Unexpected character "@ + seq![c] + "."@,
        ScanErrorKind::UnterminatedString => "Unterminated string."@,
        ScanErrorKind::MalformedNumber => "Malformed number."@,
    }
}

/// The diagnostic form with a location part: `[line L] Error{WHERE}: MESSAGE`.
pub open spec fn report_spec(line: nat, whr: Seq<char>, msg: Seq<char>) -> Seq<char> {
    "[line "@ + dec_str(line) + "] Error"@ + whr + ": "@ + msg
}

/// The single-line diagnostic form: `[line L] Error: MESSAGE`.
pub open spec fn diag_spec(line: nat, msg: Seq<char>) -> Seq<char> {
    report_spec(line, Seq::empty(), msg)
}

impl ScanError {
    /// The message part of the diagnostic, without the line prefix.
    pub fn message(&self) -> (r: std::string::String)
        ensures
            r@ == message_spec(self.kind),
    {
        match self.kind {
            ScanErrorKind::UnexpectedChar(c) => {
                let mut v: Vec<char> = Vec::new();
                push_str_chars(&mut v, "Unexpected character ");
                v.push(c);
                push_str_chars(&mut v, ".");
                proof {
                    assert(v@ =~= message_spec(self.kind));
                }
                chars_into_string(&v)
            },
            ScanErrorKind::UnterminatedString => {
                let s = str_chars_vec("Unterminated string.");
                chars_into_string(&s)
            },
            ScanErrorKind::MalformedNumber => {
                let s = str_chars_vec("Malformed number.");
                chars_into_string(&s)
            },
        }
    }

    /// The full one-line diagnostic for this error.
    pub fn render(&self) -> (r: std::string::String)
        ensures
            r@ == diag_spec(self.line as nat, message_spec(self.kind)),
    {
        error(self.line, self.message())
    }
}

/// Format the fatal diagnostic `[line L] Error: MESSAGE`. The caller (at
/// the program's edge) decides how to abort with it.
pub fn error(line: u64, msg: std::string::String) -> (r: std::string::String)
    ensures
        r@ == diag_spec(line as nat, msg@),
{
    report(line, std::string::String::new(), msg)
}

/// Format a diagnostic with an optional location part.
fn report(line: u64, whr: std::string::String, message: std::string::String) -> (r:
    std::string::String)
    ensures
        r@ == report_spec(line as nat, whr@, message@),
{
    let mut v: Vec<char> = Vec::new();
    push_str_chars(&mut v, "[line ");
    push_dec(&mut v, line);
    push_str_chars(&mut v, "] Error");
    push_str_chars(&mut v, whr.as_str());
    push_str_chars(&mut v, ": ");
    push_str_chars(&mut v, message.as_str());
    proof {
        assert(v@ =~= report_spec(line as nat, whr@, message@));
    }
    chars_into_string(&v)
}

} // verus!
