//! The functional specification of the scanner: a recursive walk over the
//! source characters that either produces the full token sequence,
//! `Eof`-terminated, or the first fatal lexical error. The executable
//! scanner is proved to return exactly `scan_spec` of its input.

use vstd::prelude::*;

use crate::text::unicode_alpha;
use crate::token::{LiteralV, ScanErrV, ScanErrorKind, TokType, TokenV};

verus! {

/// A decimal digit.
pub open spec fn is_digit_char(c: char) -> bool {
    '0' <= c && c <= '9'
}

/// A character that may start an identifier: alphabetic or `_`.
pub open spec fn is_alpha_char(c: char) -> bool {
    unicode_alpha(c) || c == '_'
}

/// A character that may continue an identifier.
pub open spec fn is_alnum_char(c: char) -> bool {
    is_alpha_char(c) || is_digit_char(c)
}

/// The numeric value of a decimal digit character.
pub open spec fn digit_val(c: char) -> nat {
    (c as int - '0' as int) as nat
}

/// The value of a run of decimal digit characters, most significant first.
pub open spec fn digits_val(s: Seq<char>) -> nat
    decreases s.len(),
{
    if s.len() == 0 {
        0
    } else {
        digits_val(s.drop_last()) * 10 + digit_val(s.last())
    }
}

/// Where a line comment ends: the next newline, or the end of the source.
pub open spec fn comment_end(s: Seq<char>, i: int) -> int
    decreases s.len() - i,
{
    if 0 <= i && i < s.len() && s[i] != '\n' {
        comment_end(s, i + 1)
    } else {
        i
    }
}

/// Where a string literal body ends: the next `"` or the end of the source.
pub open spec fn str_body_end(s: Seq<char>, i: int) -> int
    decreases s.len() - i,
{
    if 0 <= i && i < s.len() && s[i] != '"' {
        str_body_end(s, i + 1)
    } else {
        i
    }
}

/// Where a run of decimal digits ends.
pub open spec fn digits_end(s: Seq<char>, i: int) -> int
    decreases s.len() - i,
{
    if 0 <= i && i < s.len() && is_digit_char(s[i]) {
        digits_end(s, i + 1)
    } else {
        i
    }
}

/// Where a run of identifier characters ends.
pub open spec fn ident_end(s: Seq<char>, i: int) -> int
    decreases s.len() - i,
{
    if 0 <= i && i < s.len() && is_alnum_char(s[i]) {
        ident_end(s, i + 1)
    } else {
        i
    }
}

/// How many newline characters `s` holds in positions `[a, b)`.
pub open spec fn newlines_in(s: Seq<char>, a: int, b: int) -> nat
    decreases b - a,
{
    if a < b {
        (if 0 <= a && a < s.len() && s[a] == '\n' {
            1nat
        } else {
            0nat
        }) + newlines_in(s, a + 1, b)
    } else {
        0
    }
}

/// The keyword kind for an identifier lexeme, if it is a keyword.
pub open spec fn keyword_of(s: Seq<char>) -> Option<TokType> {
    if s == "if"@ {
        Some(TokType::If)
    } else if s == "else"@ {
        Some(TokType::Else)
    } else if s == "fn"@ {
        Some(TokType::Fn)
    } else if s == "def"@ {
        Some(TokType::Def)
    } else if s == "set"@ {
        Some(TokType::SetKw)
    } else if s == "for"@ {
        Some(TokType::For)
    } else if s == "foreach"@ {
        Some(TokType::ForEach)
    } else if s == "while"@ {
        Some(TokType::While)
    } else if s == "true"@ {
        Some(TokType::True)
    } else if s == "false"@ {
        Some(TokType::False)
    } else if s == "int"@ {
        Some(TokType::IntType)
    } else if s == "float"@ {
        Some(TokType::FloatType)
    } else if s == "str"@ {
        Some(TokType::StrType)
    } else if s == "char"@ {
        Some(TokType::CharType)
    } else if s == "ret"@ {
        Some(TokType::Ret)
    } else if s == "ng"@ {
        Some(TokType::Ng)
    } else {
        None
    }
}

/// The kind emitted for a character that is a token all by itself.
pub open spec fn single_kind(c: char) -> Option<TokType> {
    if c == '(' {
        Some(TokType::lParen)
    } else if c == ')' {
        Some(TokType::rParen)
    } else if c == '{' {
        Some(TokType::lCurl)
    } else if c == '}' {
        Some(TokType::rCurl)
    } else if c == '[' {
        Some(TokType::lBrack)
    } else if c == ']' {
        Some(TokType::rBrack)
    } else if c == ';' {
        Some(TokType::Semicolon)
    } else if c == '+' {
        Some(TokType::Add)
    } else if c == '-' {
        Some(TokType::Sub)
    } else if c == '*' {
        Some(TokType::Mul)
    } else {
        None
    }
}

/// The kinds for a character that pairs with a following `=`: first the
/// kind with `=`, then the kind without.
pub open spec fn twochar_kinds(c: char) -> Option<(TokType, TokType)> {
    if c == '!' {
        Some((TokType::NotEq, TokType::Not))
    } else if c == '<' {
        Some((TokType::LessEq, TokType::Less))
    } else if c == '>' {
        Some((TokType::GreaterEq, TokType::Greater))
    } else {
        None
    }
}

/// A character that falls through every special dispatch arm of the
/// scanner: not a one- or two-character token, not trivia, and not the
/// start of a comment, string or number.
pub open spec fn starts_other(c: char) -> bool {
    &&& single_kind(c) is None
    &&& twochar_kinds(c) is None
    &&& c != '/'
    &&& c != '='
    &&& c != ' '
    &&& c != '\r'
    &&& c != '\t'
    &&& c != '\n'
    &&& c != '"'
    &&& !is_digit_char(c)
}

/// The `Eof` sentinel token on the given line.
pub open spec fn eof_tok(line: nat) -> TokenV {
    TokenV { ltype: TokType::Eof, lexeme: Seq::empty(), literal: LiteralV::Null, line }
}

/// A token of kind `t` whose lexeme is the `n` characters starting at `i`.
pub open spec fn punct_tok(t: TokType, s: Seq<char>, i: int, n: int, line: nat) -> TokenV {
    TokenV { ltype: t, lexeme: s.subrange(i, i + n), literal: LiteralV::Null, line }
}

/// Prepend one token to the result of scanning the rest.
pub open spec fn cons_tok(t: TokenV, rest: Result<Seq<TokenV>, ScanErrV>) -> Result<
    Seq<TokenV>,
    ScanErrV,
> {
    match rest {
        Ok(ts) => Ok(seq![t] + ts),
        Err(e) => Err(e),
    }
}

/// Prepend already-scanned tokens to the result of scanning the rest.
pub open spec fn glue(pre: Seq<TokenV>, rest: Result<Seq<TokenV>, ScanErrV>) -> Result<
    Seq<TokenV>,
    ScanErrV,
> {
    match rest {
        Ok(ts) => Ok(pre + ts),
        Err(e) => Err(e),
    }
}

/// `x` forced into `[lo, hi]`. The scanner's run ends always lie inside the
/// clamp already; the clamp only keeps the recursion below well-founded.
pub open spec fn clampi(lo: int, x: int, hi: int) -> int {
    if x < lo {
        lo
    } else if x > hi {
        hi
    } else {
        x
    }
}

/// Scan the source `s` from position `i` on line `line`: the token
/// sequence (ending in `Eof`) or the first fatal error. Error lines are
/// the line on which the offending construct began.
pub open spec fn scan_from(s: Seq<char>, i: int, line: nat) -> Result<Seq<TokenV>, ScanErrV>
    decreases s.len() - i,
{
    let len = s.len() as int;
    if !(0 <= i && i < len) {
        Ok(seq![eof_tok(line)])
    } else {
        let c = s[i];
        if single_kind(c) is Some {
            cons_tok(punct_tok(single_kind(c)->Some_0, s, i, 1, line), scan_from(s, i + 1, line))
        } else if c == '/' {
            if i + 1 < len && s[i + 1] == '/' {
                scan_from(s, clampi(i + 2, comment_end(s, i + 2), len), line)
            } else {
                cons_tok(punct_tok(TokType::Div, s, i, 1, line), scan_from(s, i + 1, line))
            }
        } else if twochar_kinds(c) is Some {
            if i + 1 < len && s[i + 1] == '=' {
                cons_tok(
                    punct_tok(twochar_kinds(c)->Some_0.0, s, i, 2, line),
                    scan_from(s, i + 2, line),
                )
            } else {
                cons_tok(
                    punct_tok(twochar_kinds(c)->Some_0.1, s, i, 1, line),
                    scan_from(s, i + 1, line),
                )
            }
        } else if c == '=' {
            if i + 1 < len && s[i + 1] == '=' {
                cons_tok(punct_tok(TokType::Equal, s, i, 2, line), scan_from(s, i + 2, line))
            } else {
                Err(ScanErrV { line, kind: ScanErrorKind::UnexpectedChar('=') })
            }
        } else if c == ' ' || c == '\r' || c == '\t' {
            scan_from(s, i + 1, line)
        } else if c == '\n' {
            scan_from(s, i + 1, line + 1)
        } else if c == '"' {
            let j = clampi(i + 1, str_body_end(s, i + 1), len);
            if j >= len {
                Err(ScanErrV { line, kind: ScanErrorKind::UnterminatedString })
            } else {
                cons_tok(
                    TokenV {
                        ltype: TokType::String,
                        lexeme: s.subrange(i, j + 1),
                        literal: LiteralV::Str(s.subrange(i + 1, j)),
                        line,
                    },
                    scan_from(s, j + 1, line + newlines_in(s, i + 1, j)),
                )
            }
        } else if is_digit_char(c) {
            let j = clampi(i + 1, digits_end(s, i + 1), len);
            if j + 1 < len && s[j] == '.' && is_digit_char(s[j + 1]) {
                let k = clampi(j + 2, digits_end(s, j + 2), len);
                cons_tok(
                    TokenV {
                        ltype: TokType::Float,
                        lexeme: s.subrange(i, k),
                        literal: LiteralV::Float(s.subrange(i, k)),
                        line,
                    },
                    scan_from(s, k, line),
                )
            } else if digits_val(s.subrange(i, j)) <= i64::MAX as nat {
                cons_tok(
                    TokenV {
                        ltype: TokType::Int,
                        lexeme: s.subrange(i, j),
                        literal: LiteralV::Int(digits_val(s.subrange(i, j)) as int),
                        line,
                    },
                    scan_from(s, j, line),
                )
            } else {
                Err(ScanErrV { line, kind: ScanErrorKind::MalformedNumber })
            }
        } else if is_alpha_char(c) {
            let j = clampi(i + 1, ident_end(s, i + 1), len);
            cons_tok(
                TokenV {
                    ltype: match keyword_of(s.subrange(i, j)) {
                        Some(k) => k,
                        None => TokType::Identifier,
                    },
                    lexeme: s.subrange(i, j),
                    literal: LiteralV::Null,
                    line,
                },
                scan_from(s, j, line),
            )
        } else {
            Err(ScanErrV { line, kind: ScanErrorKind::UnexpectedChar(c) })
        }
    }
}

/// Scan a whole source text from its start, on line 1.
pub open spec fn scan_spec(s: Seq<char>) -> Result<Seq<TokenV>, ScanErrV> {
    scan_from(s, 0, 1)
}

/// The position `j` ends the comment that starts scanning at `i` exactly
/// when everything in `[i, j)` is not a newline and `j` is a newline or
/// the end; that position is `comment_end(s, i)`.
pub proof fn lemma_comment_end_unique(s: Seq<char>, i: int, j: int)
    requires
        0 <= i <= j <= s.len(),
        forall|m: int| i <= m < j ==> s[m] != '\n',
        j < s.len() ==> s[j] == '\n',
    ensures
        comment_end(s, i) == j,
    decreases s.len() - i,
{
    if i < s.len() && s[i] != '\n' {
        lemma_comment_end_unique(s, i + 1, j);
    }
}

/// The same characterization for the end of a string literal body.
pub proof fn lemma_str_body_end_unique(s: Seq<char>, i: int, j: int)
    requires
        0 <= i <= j <= s.len(),
        forall|m: int| i <= m < j ==> s[m] != '"',
        j < s.len() ==> s[j] == '"',
    ensures
        str_body_end(s, i) == j,
    decreases s.len() - i,
{
    if i < s.len() && s[i] != '"' {
        lemma_str_body_end_unique(s, i + 1, j);
    }
}

/// The same characterization for the end of a digit run.
pub proof fn lemma_digits_end_unique(s: Seq<char>, i: int, j: int)
    requires
        0 <= i <= j <= s.len(),
        forall|m: int| i <= m < j ==> is_digit_char(s[m]),
        j < s.len() ==> !is_digit_char(s[j]),
    ensures
        digits_end(s, i) == j,
    decreases s.len() - i,
{
    if i < s.len() && is_digit_char(s[i]) {
        lemma_digits_end_unique(s, i + 1, j);
    }
}

/// The same characterization for the end of an identifier run.
pub proof fn lemma_ident_end_unique(s: Seq<char>, i: int, j: int)
    requires
        0 <= i <= j <= s.len(),
        forall|m: int| i <= m < j ==> is_alnum_char(s[m]),
        j < s.len() ==> !is_alnum_char(s[j]),
    ensures
        ident_end(s, i) == j,
    decreases s.len() - i,
{
    if i < s.len() && is_alnum_char(s[i]) {
        lemma_ident_end_unique(s, i + 1, j);
    }
}

/// Extending a digit run by one character multiplies its value by ten and
/// adds the new digit.
pub proof fn lemma_digits_val_step(s: Seq<char>, i: int, m: int)
    requires
        0 <= i <= m,
        m + 1 <= s.len(),
    ensures
        digits_val(s.subrange(i, m + 1)) == digits_val(s.subrange(i, m)) * 10 + digit_val(s[m]),
{
    let a = s.subrange(i, m + 1);
    assert(a.drop_last() =~= s.subrange(i, m));
    assert(a.last() == s[m]);
}

/// A prefix of a digit run never has a larger value than the whole run.
pub proof fn lemma_digits_val_mono(s: Seq<char>, i: int, a: int, b: int)
    requires
        0 <= i <= a <= b <= s.len(),
    ensures
        digits_val(s.subrange(i, a)) <= digits_val(s.subrange(i, b)),
    decreases b - a,
{
    if a < b {
        lemma_digits_val_step(s, i, b - 1);
        lemma_digits_val_mono(s, i, a, b - 1);
    }
}

/// Gluing one more token onto the scanned prefix.
pub proof fn lemma_glue_cons(pre: Seq<TokenV>, t: TokenV, r: Result<Seq<TokenV>, ScanErrV>)
    ensures
        glue(pre, cons_tok(t, r)) == glue(pre.push(t), r),
{
    match r {
        Ok(ts) => {
            assert(pre + (seq![t] + ts) =~= pre.push(t) + ts);
        },
        Err(_) => {},
    }
}

} // verus!
