//! The scanner: a character cursor over the source text that produces the
//! token sequence, `Eof`-terminated, or the first fatal lexical error.
//! `scan_tokens` returns exactly what `scan_spec` says.

use vstd::prelude::*;

use crate::scan_spec::{
    clampi, comment_end, cons_tok, digit_val, digits_end, digits_val, eof_tok, glue, ident_end,
    is_alnum_char, is_alpha_char, is_digit_char, keyword_of, lemma_comment_end_unique,
    lemma_digits_end_unique, lemma_digits_val_mono, lemma_digits_val_step, lemma_glue_cons,
    lemma_ident_end_unique, lemma_str_body_end_unique, newlines_in, punct_tok, scan_from,
    single_kind, starts_other, str_body_end, twochar_kinds,
};
use crate::text::{char_is_alphabetic, chars_into_string, str_chars_vec};
use crate::token::{
    Literal, LiteralV, ScanErrV, ScanError, ScanErrorKind, TokType, Token, TokenV,
};

verus! {

/// The scanner's state: the source as characters, the start of the token
/// being scanned, the cursor, and the current 1-based line.
pub struct Scanner {
    src: Vec<char>,
    start: usize,
    current: usize,
    line: u64,
}

/// The mathematical value of a `Scanner`.
pub ghost struct ScannerV {
    pub src: Seq<char>,
    pub start: nat,
    pub current: nat,
    pub line: nat,
}

impl View for Scanner {
    type V = ScannerV;

    closed spec fn view(&self) -> ScannerV {
        ScannerV {
            src: self.src@,
            start: self.start as nat,
            current: self.current as nat,
            line: self.line as nat,
        }
    }
}

impl Scanner {
    /// The cursor and token start lie inside the source, the line is
    /// 1-based, and the line counter cannot overflow while scanning the
    /// rest of the source.
    pub open spec fn wf(self) -> bool {
        &&& self@.start <= self@.current
        &&& self@.current <= self@.src.len()
        &&& 1 <= self@.line
        &&& self@.line + self@.src.len() <= u64::MAX as nat + self@.current
    }

    /// A fresh scanner over `src`, at the start of line 1.
    pub fn new(src: std::string::String) -> (r: Scanner)
        requires
            src@.len() < u64::MAX as nat,
        ensures
            r@ == (ScannerV { src: src@, start: 0nat, current: 0nat, line: 1nat }),
            r.wf(),
    {
        Scanner { src: str_chars_vec(src.as_str()), start: 0, current: 0, line: 1 }
    }

    /// Whether the cursor has consumed the whole source.
    fn is_at_end(&self) -> (r: bool)
        ensures
            r == (self@.current >= self@.src.len()),
    {
        self.current >= self.src.len()
    }

    /// The next character, or `'\0'` past the end.
    fn peek(&self) -> (r: char)
        ensures
            r == if self@.current < self@.src.len() {
                self@.src[self@.current as int]
            } else {
                '\0'
            },
    {
        if self.current >= self.src.len() {
            '\0'
        } else {
            self.src[self.current]
        }
    }

    /// The character after the next one, or `'\0'` past the end.
    fn peek_next(&self) -> (r: char)
        requires
            self@.current < self@.src.len(),
        ensures
            r == if self@.current + 1 < self@.src.len() {
                self@.src[self@.current as int + 1]
            } else {
                '\0'
            },
    {
        let n = self.src.len();
        if self.current + 1 >= n {
            '\0'
        } else {
            self.src[self.current + 1]
        }
    }

    /// Consume and return the next character.
    fn advance(&mut self) -> (r: char)
        requires
            old(self)@.current < old(self)@.src.len(),
        ensures
            r == old(self)@.src[old(self)@.current as int],
            final(self)@ == (ScannerV { current: old(self)@.current + 1, ..old(self)@ }),
    {
        let n = self.src.len();
        let b = self.src[self.current];
        proof {
            assert(self.current < n);
        }
        self.current = self.current + 1;
        b
    }

    /// Consume the next character exactly when it equals `expected`.
    fn match_next(&mut self, expected: char) -> (r: bool)
        ensures
            r == (old(self)@.current < old(self)@.src.len() && old(self)@.src[old(
                self,
            )@.current as int] == expected),
            final(self)@ == (ScannerV {
                current: if r {
                    old(self)@.current + 1
                } else {
                    old(self)@.current
                },
                ..old(self)@
            }),
    {
        if self.current >= self.src.len() {
            return false;
        }
        if self.src[self.current] != expected {
            return false;
        }
        self.current = self.current + 1;
        true
    }

    /// The error for an unexpected character at the current line.
    fn char_error(&self, c: char) -> (r: ScanError)
        ensures
            r@ == (ScanErrV { line: self@.line, kind: ScanErrorKind::UnexpectedChar(c) }),
    {
        ScanError { line: self.line, kind: ScanErrorKind::UnexpectedChar(c) }
    }

    /// Whether `c` may start an identifier.
    fn is_alpha(&self, c: char) -> (r: bool)
        ensures
            r == is_alpha_char(c),
    {
        char_is_alphabetic(c) || c == '_'
    }

    /// Whether `c` may continue an identifier.
    fn is_alphanumeric(&self, c: char) -> (r: bool)
        ensures
            r == is_alnum_char(c),
    {
        self.is_alpha(c) || (c >= '0' && c <= '9')
    }

    /// The source substring in character positions `[a, b)`.
    fn substring(&self, a: usize, b: usize) -> (r: std::string::String)
        requires
            a <= b,
            b <= self@.src.len(),
        ensures
            r@ == self@.src.subrange(a as int, b as int),
    {
        let mut v: Vec<char> = Vec::new();
        let mut i: usize = a;
        while i < b
            invariant
                a <= i <= b,
                b <= self@.src.len(),
                v@ == self@.src.subrange(a as int, i as int),
            decreases b - i,
        {
            v.push(self.src[i]);
            i = i + 1;
            proof {
                assert(v@ =~= self@.src.subrange(a as int, i as int));
            }
        }
        chars_into_string(&v)
    }

    /// Append a token of kind `typ` with payload `literal` whose lexeme is
    /// the source span `[start, current)`, on the current line.
    fn add_token(&self, out: &mut Vec<Token>, typ: TokType, literal: Literal)
        requires
            self@.start <= self@.current,
            self@.current <= self@.src.len(),
        ensures
            final(out).deep_view() == old(out).deep_view().push(
                TokenV {
                    ltype: typ,
                    lexeme: self@.src.subrange(self@.start as int, self@.current as int),
                    literal: literal@,
                    line: self@.line,
                },
            ),
    {
        let ghost lit = literal@;
        let text = self.substring(self.start, self.current);
        out.push(Token::new(typ, text, literal, self.line));
        proof {
            assert(out.deep_view() =~= old(out).deep_view().push(
                TokenV {
                    ltype: typ,
                    lexeme: self@.src.subrange(self@.start as int, self@.current as int),
                    literal: lit,
                    line: self@.line,
                },
            ));
        }
    }

    /// Append a token with no payload.
    fn add_token_type(&self, out: &mut Vec<Token>, typ: TokType)
        requires
            self@.start <= self@.current,
            self@.current <= self@.src.len(),
        ensures
            final(out).deep_view() == old(out).deep_view().push(
                TokenV {
                    ltype: typ,
                    lexeme: self@.src.subrange(self@.start as int, self@.current as int),
                    literal: LiteralV::Null,
                    line: self@.line,
                },
            ),
    {
        self.add_token(out, typ, Literal::Null);
    }

    /// Does the span `[a, b)` of the source spell `pat`?
    fn range_eq_str(&self, a: usize, b: usize, pat: &str) -> (r: bool)
        requires
            a <= b,
            b <= self@.src.len(),
        ensures
            r == (self@.src.subrange(a as int, b as int) == pat@),
    {
        let ghost sub = self@.src.subrange(a as int, b as int);
        let p = str_chars_vec(pat);
        if b - a != p.len() {
            proof {
                assert(sub.len() != p@.len());
            }
            return false;
        }
        let mut i: usize = 0;
        while i < p.len()
            invariant
                i <= p.len(),
                p@ == pat@,
                a <= b <= self@.src.len(),
                b - a == p.len(),
                sub == self@.src.subrange(a as int, b as int),
                forall|m: int| 0 <= m < i ==> sub[m] == p@[m],
            decreases p.len() - i,
        {
            if self.src[a + i] != p[i] {
                proof {
                    assert(sub[i as int] != p@[i as int]);
                }
                return false;
            }
            i = i + 1;
        }
        proof {
            assert(sub =~= p@);
        }
        true
    }

    /// The keyword kind spelled by the span `[a, b)`, if any.
    fn kw_lookup(&self, a: usize, b: usize) -> (r: Option<TokType>)
        requires
            a <= b,
            b <= self@.src.len(),
        ensures
            r == keyword_of(self@.src.subrange(a as int, b as int)),
    {
        if self.range_eq_str(a, b, "if") {
            Some(TokType::If)
        } else if self.range_eq_str(a, b, "else") {
            Some(TokType::Else)
        } else if self.range_eq_str(a, b, "fn") {
            Some(TokType::Fn)
        } else if self.range_eq_str(a, b, "def") {
            Some(TokType::Def)
        } else if self.range_eq_str(a, b, "set") {
            Some(TokType::SetKw)
        } else if self.range_eq_str(a, b, "for") {
            Some(TokType::For)
        } else if self.range_eq_str(a, b, "foreach") {
            Some(TokType::ForEach)
        } else if self.range_eq_str(a, b, "while") {
            Some(TokType::While)
        } else if self.range_eq_str(a, b, "true") {
            Some(TokType::True)
        } else if self.range_eq_str(a, b, "false") {
            Some(TokType::False)
        } else if self.range_eq_str(a, b, "int") {
            Some(TokType::IntType)
        } else if self.range_eq_str(a, b, "float") {
            Some(TokType::FloatType)
        } else if self.range_eq_str(a, b, "str") {
            Some(TokType::StrType)
        } else if self.range_eq_str(a, b, "char") {
            Some(TokType::CharType)
        } else if self.range_eq_str(a, b, "ret") {
            Some(TokType::Ret)
        } else if self.range_eq_str(a, b, "ng") {
            Some(TokType::Ng)
        } else {
            None
        }
    }

    /// Scan the identifier or keyword whose first character the caller
    /// just consumed.
    fn identifier(&mut self, out: &mut Vec<Token>, Ghost(anchor): Ghost<
        Result<Seq<TokenV>, ScanErrV>,
    >)
        requires
            old(self).wf(),
            old(self)@.start + 1 == old(self)@.current,
            is_alpha_char(old(self)@.src[old(self)@.start as int]),
            starts_other(old(self)@.src[old(self)@.start as int]),
            anchor == glue(
                old(out).deep_view(),
                scan_from(old(self)@.src, old(self)@.start as int, old(self)@.line),
            ),
        ensures
            final(self).wf(),
            final(self)@.src == old(self)@.src,
            final(self)@.current > old(self)@.start,
            anchor == glue(
                final(out).deep_view(),
                scan_from(final(self)@.src, final(self)@.current as int, final(self)@.line),
            ),
    {
        let ghost s = self@.src;
        let ghost i = self@.start as int;
        let ghost line = self@.line;
        loop
            invariant
                self.wf(),
                self@.src == s,
                self@.start as int == i,
                self@.line == line,
                i + 1 <= self@.current as int <= s.len(),
                forall|m: int| i + 1 <= m < self@.current as int ==> is_alnum_char(s[m]),
            ensures
                self@.current as int == s.len() || !is_alnum_char(s[self@.current as int]),
            decreases s.len() - self@.current,
        {
            if self.is_at_end() {
                break;
            }
            let c = self.peek();
            if !self.is_alphanumeric(c) {
                break;
            }
            let _ = self.advance();
        }
        let ghost j = self@.current as int;
        proof {
            lemma_ident_end_unique(s, i + 1, j);
            assert(clampi(i + 1, ident_end(s, i + 1), s.len() as int) == j);
        }
        let kind = match self.kw_lookup(self.start, self.current) {
            Some(k) => k,
            None => TokType::Identifier,
        };
        self.add_token_type(out, kind);
        proof {
            let t = TokenV {
                ltype: match keyword_of(s.subrange(i, j)) {
                    Some(k) => k,
                    None => TokType::Identifier,
                },
                lexeme: s.subrange(i, j),
                literal: LiteralV::Null,
                line,
            };
            assert(scan_from(s, i, line) == cons_tok(t, scan_from(s, j, line)));
            lemma_glue_cons(old(out).deep_view(), t, scan_from(s, j, line));
        }
    }

    /// Scan the rest of the number whose first digit the caller just
    /// consumed: a digit run, optionally a point and a second digit run.
    fn number(&mut self, out: &mut Vec<Token>, Ghost(anchor): Ghost<
        Result<Seq<TokenV>, ScanErrV>,
    >) -> (r: Result<(), ScanError>)
        requires
            old(self).wf(),
            old(self)@.start + 1 == old(self)@.current,
            is_digit_char(old(self)@.src[old(self)@.start as int]),
            anchor == glue(
                old(out).deep_view(),
                scan_from(old(self)@.src, old(self)@.start as int, old(self)@.line),
            ),
        ensures
            final(self).wf(),
            final(self)@.src == old(self)@.src,
            final(self)@.current > old(self)@.start,
            match r {
                Ok(()) => anchor == glue(
                    final(out).deep_view(),
                    scan_from(final(self)@.src, final(self)@.current as int, final(self)@.line),
                ),
                Err(e) => anchor == Err::<Seq<TokenV>, ScanErrV>(e@),
            },
    {
        let ghost s = self@.src;
        let ghost i = self@.start as int;
        let ghost line = self@.line;
        loop
            invariant
                self.wf(),
                self@.src == s,
                self@.start as int == i,
                self@.line == line,
                i + 1 <= self@.current as int <= s.len(),
                forall|m: int| i + 1 <= m < self@.current as int ==> is_digit_char(s[m]),
            ensures
                self@.current as int == s.len() || !is_digit_char(s[self@.current as int]),
            decreases s.len() - self@.current,
        {
            let c = self.peek();
            if !(c >= '0' && c <= '9') {
                break;
            }
            let _ = self.advance();
        }
        let ghost j = self@.current as int;
        proof {
            lemma_digits_end_unique(s, i + 1, j);
            assert(clampi(i + 1, digits_end(s, i + 1), s.len() as int) == j);
        }
        let p = self.peek();
        let mut is_float = false;
        if p == '.' {
            let c2 = self.peek_next();
            if c2 >= '0' && c2 <= '9' {
                is_float = true;
            }
        }
        proof {
            assert(is_float == (j + 1 < s.len() && s[j] == '.' && is_digit_char(s[j + 1])));
        }
        if is_float {
            let _ = self.advance();
            loop
                invariant
                    self.wf(),
                    self@.src == s,
                    self@.start as int == i,
                    self@.line == line,
                    j + 1 <= self@.current as int <= s.len(),
                    forall|m: int| j + 2 <= m < self@.current as int ==> is_digit_char(s[m]),
                    j + 1 < s.len() && is_digit_char(s[j + 1]),
                ensures
                    self@.current as int == s.len() || !is_digit_char(s[self@.current as int]),
                decreases s.len() - self@.current,
            {
                let c = self.peek();
                if !(c >= '0' && c <= '9') {
                    break;
                }
                let _ = self.advance();
            }
            let ghost k = self@.current as int;
            proof {
                assert(forall|m: int| j + 1 <= m < k ==> is_digit_char(s[m]));
                lemma_digits_end_unique(s, j + 2, k);
                assert(clampi(j + 2, digits_end(s, j + 2), s.len() as int) == k);
            }
            let text = self.substring(self.start, self.current);
            self.add_token(out, TokType::Float, Literal::Float(text));
            proof {
                let t = TokenV {
                    ltype: TokType::Float,
                    lexeme: s.subrange(i, k),
                    literal: LiteralV::Float(s.subrange(i, k)),
                    line,
                };
                assert(scan_from(s, i, line) == cons_tok(t, scan_from(s, k, line)));
                lemma_glue_cons(old(out).deep_view(), t, scan_from(s, k, line));
            }
            return Ok(());
        }
        // integer: parse the digits, watching for overflow
        let ghost pre = out.deep_view();
        let mut acc: i64 = 0;
        let mut m: usize = self.start;
        proof {
            assert(s.subrange(i, i) =~= Seq::<char>::empty());
        }
        while m < self.current
            invariant
                self.wf(),
                self@.src == s,
                self@.start as int == i,
                self@.current as int == j,
                self@.line == line,
                s == old(self)@.src,
                i == old(self)@.start as int,
                pre == old(out).deep_view(),
                out.deep_view() == pre,
                anchor == glue(pre, scan_from(s, i, line)),
                digits_end(s, i + 1) == j,
                !(j + 1 < s.len() && s[j] == '.' && is_digit_char(s[j + 1])),
                i < j,
                i <= m as int <= j <= s.len(),
                forall|mm: int| i <= mm < j ==> is_digit_char(s[mm]),
                0 <= acc,
                acc as int == digits_val(s.subrange(i, m as int)),
            decreases j - m,
        {
            proof {
                assert(is_digit_char(s[m as int]));
            }
            let c = self.src[m];
            let d: u32 = (c as u32) - ('0' as u32);
            proof {
                assert(d as nat == digit_val(s[m as int]));
                assert(d < 10);
            }
            if acc > (i64::MAX - (d as i64)) / 10 {
                proof {
                    let whole = digits_val(s.subrange(i, j));
                    lemma_digits_val_step(s, i, m as int);
                    assert((acc as int) * 10 + (d as int) > i64::MAX as int) by (nonlinear_arith)
                        requires
                            (acc as int) > ((i64::MAX as int) - (d as int)) / 10,
                            0 <= (d as int),
                            (d as int) < 10,
                            0 <= (acc as int),
                    ;
                    lemma_digits_val_mono(s, i, m as int + 1, j);
                    assert(whole > i64::MAX as nat);
                    assert(scan_from(s, i, line) == Err::<Seq<TokenV>, ScanErrV>(
                        ScanErrV { line, kind: ScanErrorKind::MalformedNumber },
                    ));
                }
                return Err(ScanError { line: self.line, kind: ScanErrorKind::MalformedNumber });
            }
            proof {
                assert((acc as int) * 10 + (d as int) <= i64::MAX as int) by (nonlinear_arith)
                    requires
                        (acc as int) <= ((i64::MAX as int) - (d as int)) / 10,
                        0 <= (d as int),
                        (d as int) < 10,
                        0 <= (acc as int),
                ;
                lemma_digits_val_step(s, i, m as int);
            }
            acc = acc * 10 + (d as i64);
            m = m + 1;
        }
        proof {
            assert(s.subrange(i, j) == s.subrange(i, m as int));
        }
        self.add_token(out, TokType::Int, Literal::Int(acc));
        proof {
            let t = TokenV {
                ltype: TokType::Int,
                lexeme: s.subrange(i, j),
                literal: LiteralV::Int(digits_val(s.subrange(i, j)) as int),
                line,
            };
            assert(digits_val(s.subrange(i, j)) <= i64::MAX as nat);
            assert(scan_from(s, i, line) == cons_tok(t, scan_from(s, j, line)));
            lemma_glue_cons(old(out).deep_view(), t, scan_from(s, j, line));
        }
        Ok(())
    }

    /// Scan the rest of the string literal whose opening quote the caller
    /// just consumed.
    fn string(&mut self, out: &mut Vec<Token>, Ghost(anchor): Ghost<
        Result<Seq<TokenV>, ScanErrV>,
    >) -> (r: Result<(), ScanError>)
        requires
            old(self).wf(),
            old(self)@.start + 1 == old(self)@.current,
            old(self)@.src[old(self)@.start as int] == '"',
            anchor == glue(
                old(out).deep_view(),
                scan_from(old(self)@.src, old(self)@.start as int, old(self)@.line),
            ),
        ensures
            final(self).wf(),
            final(self)@.src == old(self)@.src,
            final(self)@.current > old(self)@.start,
            match r {
                Ok(()) => anchor == glue(
                    final(out).deep_view(),
                    scan_from(final(self)@.src, final(self)@.current as int, final(self)@.line),
                ),
                Err(e) => anchor == Err::<Seq<TokenV>, ScanErrV>(e@),
            },
    {
        let ghost s = self@.src;
        let ghost i = self@.start as int;
        let ghost line = self@.line;
        let line_start = self.line;
        loop
            invariant
                self.wf(),
                self@.src == s,
                self@.start as int == i,
                i + 1 <= self@.current as int <= s.len(),
                forall|m: int| i + 1 <= m < self@.current as int ==> s[m] != '"',
                self@.line == line + newlines_in(s, i + 1, self@.current as int),
                line_start as nat == line,
            ensures
                self@.current as int == s.len() || s[self@.current as int] == '"',
            decreases s.len() - self@.current,
        {
            if self.is_at_end() {
                break;
            }
            let c = self.peek();
            if c == '"' {
                break;
            }
            if c == '\n' {
                proof {
                    assert(self@.line + s.len() <= u64::MAX as nat + self@.current);
                    assert(self@.current < s.len());
                }
                self.line = self.line + 1;
            }
            let ghost cur0 = self@.current as int;
            let _ = self.advance();
            proof {
                lemma_newlines_snoc(s, i + 1, cur0);
            }
        }
        if self.is_at_end() {
            proof {
                lemma_str_body_end_unique(s, i + 1, s.len() as int);
            }
            return Err(ScanError { line: line_start, kind: ScanErrorKind::UnterminatedString });
        }
        let ghost j = self@.current as int;
        proof {
            lemma_str_body_end_unique(s, i + 1, j);
            assert(clampi(i + 1, str_body_end(s, i + 1), s.len() as int) == j);
        }
        let _ = self.advance();
        let val = self.substring(self.start + 1, self.current - 1);
        let text = self.substring(self.start, self.current);
        out.push(Token::new(TokType::String, text, Literal::Str(val), line_start));
        proof {
            let t = TokenV {
                ltype: TokType::String,
                lexeme: s.subrange(i, j + 1),
                literal: LiteralV::Str(s.subrange(i + 1, j)),
                line,
            };
            assert(out.deep_view() =~= old(out).deep_view().push(t));
            assert(scan_from(s, i, line) == cons_tok(
                t,
                scan_from(s, j + 1, line + newlines_in(s, i + 1, j)),
            ));
            lemma_glue_cons(
                old(out).deep_view(),
                t,
                scan_from(s, j + 1, line + newlines_in(s, i + 1, j)),
            );
        }
        Ok(())
    }

    /// Scan one token (or skip one piece of trivia) starting at the
    /// cursor, keeping the anchor equation between what has been emitted
    /// and what remains.
    fn scan_token(&mut self, out: &mut Vec<Token>, Ghost(anchor): Ghost<
        Result<Seq<TokenV>, ScanErrV>,
    >) -> (r: Result<(), ScanError>)
        requires
            old(self).wf(),
            old(self)@.start == old(self)@.current,
            old(self)@.current < old(self)@.src.len(),
            anchor == glue(
                old(out).deep_view(),
                scan_from(old(self)@.src, old(self)@.current as int, old(self)@.line),
            ),
        ensures
            final(self).wf(),
            final(self)@.src == old(self)@.src,
            final(self)@.current > old(self)@.current,
            match r {
                Ok(()) => anchor == glue(
                    final(out).deep_view(),
                    scan_from(final(self)@.src, final(self)@.current as int, final(self)@.line),
                ),
                Err(e) => anchor == Err::<Seq<TokenV>, ScanErrV>(e@),
            },
    {
        let ghost s = self@.src;
        let ghost i = self@.current as int;
        let ghost line = self@.line;
        let c = self.advance();
        match c {
            '(' => {
                self.add_token_type(out, TokType::lParen);
                proof {
                    step_single(old(out).deep_view(), s, i, line, TokType::lParen);
                }
                Ok(())
            },
            ')' => {
                self.add_token_type(out, TokType::rParen);
                proof {
                    step_single(old(out).deep_view(), s, i, line, TokType::rParen);
                }
                Ok(())
            },
            '{' => {
                self.add_token_type(out, TokType::lCurl);
                proof {
                    step_single(old(out).deep_view(), s, i, line, TokType::lCurl);
                }
                Ok(())
            },
            '}' => {
                self.add_token_type(out, TokType::rCurl);
                proof {
                    step_single(old(out).deep_view(), s, i, line, TokType::rCurl);
                }
                Ok(())
            },
            '[' => {
                self.add_token_type(out, TokType::lBrack);
                proof {
                    step_single(old(out).deep_view(), s, i, line, TokType::lBrack);
                }
                Ok(())
            },
            ']' => {
                self.add_token_type(out, TokType::rBrack);
                proof {
                    step_single(old(out).deep_view(), s, i, line, TokType::rBrack);
                }
                Ok(())
            },
            ';' => {
                self.add_token_type(out, TokType::Semicolon);
                proof {
                    step_single(old(out).deep_view(), s, i, line, TokType::Semicolon);
                }
                Ok(())
            },
            '+' => {
                self.add_token_type(out, TokType::Add);
                proof {
                    step_single(old(out).deep_view(), s, i, line, TokType::Add);
                }
                Ok(())
            },
            '-' => {
                self.add_token_type(out, TokType::Sub);
                proof {
                    step_single(old(out).deep_view(), s, i, line, TokType::Sub);
                }
                Ok(())
            },
            '*' => {
                self.add_token_type(out, TokType::Mul);
                proof {
                    step_single(old(out).deep_view(), s, i, line, TokType::Mul);
                }
                Ok(())
            },
            '/' => {
                if self.match_next('/') {
                    // a line comment: consume up to, but not including,
                    // the newline
                    loop
                        invariant
                            self.wf(),
                            self@.src == s,
                            self@.line == line,
                            i + 2 <= self@.current as int <= s.len(),
                            forall|m: int| i + 2 <= m < self@.current as int ==> s[m] != '\n',
                        ensures
                            self@.current as int == s.len() || s[self@.current as int] == '\n',
                        decreases s.len() - self@.current,
                    {
                        if self.is_at_end() {
                            break;
                        }
                        let p = self.peek();
                        if p == '\n' {
                            break;
                        }
                        let _ = self.advance();
                    }
                    proof {
                        let j = self@.current as int;
                        lemma_comment_end_unique(s, i + 2, j);
                        assert(clampi(i + 2, comment_end(s, i + 2), s.len() as int) == j);
                        assert(scan_from(s, i, line) == scan_from(s, j, line));
                    }
                    Ok(())
                } else {
                    self.add_token_type(out, TokType::Div);
                    proof {
                        let t = punct_tok(TokType::Div, s, i, 1, line);
                        assert(scan_from(s, i, line) == cons_tok(t, scan_from(s, i + 1, line)));
                        lemma_glue_cons(old(out).deep_view(), t, scan_from(s, i + 1, line));
                    }
                    Ok(())
                }
            },
            '!' => {
                let matched = self.match_next('=');
                let buf = if matched {
                    TokType::NotEq
                } else {
                    TokType::Not
                };
                self.add_token_type(out, buf);
                proof {
                    step_two(old(out).deep_view(), s, i, line, matched);
                }
                Ok(())
            },
            '=' => {
                if self.match_next('=') {
                    self.add_token_type(out, TokType::Equal);
                    proof {
                        let t = punct_tok(TokType::Equal, s, i, 2, line);
                        assert(scan_from(s, i, line) == cons_tok(t, scan_from(s, i + 2, line)));
                        lemma_glue_cons(old(out).deep_view(), t, scan_from(s, i + 2, line));
                    }
                    Ok(())
                } else {
                    Err(self.char_error(c))
                }
            },
            '<' => {
                let matched = self.match_next('=');
                let buf = if matched {
                    TokType::LessEq
                } else {
                    TokType::Less
                };
                self.add_token_type(out, buf);
                proof {
                    step_two(old(out).deep_view(), s, i, line, matched);
                }
                Ok(())
            },
            '>' => {
                let matched = self.match_next('=');
                let buf = if matched {
                    TokType::GreaterEq
                } else {
                    TokType::Greater
                };
                self.add_token_type(out, buf);
                proof {
                    step_two(old(out).deep_view(), s, i, line, matched);
                }
                Ok(())
            },
            ' ' | '\r' | '\t' => {
                proof {
                    assert(scan_from(s, i, line) == scan_from(s, i + 1, line));
                }
                Ok(())
            },
            '\n' => {
                proof {
                    assert(self@.line + 1 <= u64::MAX as nat);
                }
                self.line = self.line + 1;
                proof {
                    assert(scan_from(s, i, line) == scan_from(s, i + 1, line + 1));
                }
                Ok(())
            },
            '"' => self.string(out, Ghost(anchor)),
            _ => {
                if c >= '0' && c <= '9' {
                    self.number(out, Ghost(anchor))
                } else if self.is_alpha(c) {
                    self.identifier(out, Ghost(anchor));
                    Ok(())
                } else {
                    proof {
                        assert(scan_from(s, i, line) == Err::<Seq<TokenV>, ScanErrV>(
                            ScanErrV { line, kind: ScanErrorKind::UnexpectedChar(c) },
                        ));
                    }
                    Err(self.char_error(c))
                }
            },
        }
    }

    /// Drive the scan to the end of the source and append the `Eof`
    /// sentinel: the token sequence of `scan_spec`, or its error.
    pub fn scan_tokens(&mut self) -> (r: Result<Vec<Token>, ScanError>)
        requires
            old(self).wf(),
        ensures
            match r {
                Ok(v) => scan_from(
                    old(self)@.src,
                    old(self)@.current as int,
                    old(self)@.line,
                ) == Ok::<Seq<TokenV>, ScanErrV>(v.deep_view()),
                Err(e) => scan_from(old(self)@.src, old(self)@.current as int, old(self)@.line)
                    == Err::<Seq<TokenV>, ScanErrV>(e@),
            },
    {
        let ghost anchor = scan_from(self@.src, self@.current as int, self@.line);
        let mut out: Vec<Token> = Vec::new();
        proof {
            assert(out.deep_view() =~= Seq::<TokenV>::empty());
            assert(glue(out.deep_view(), anchor) == anchor) by {
                match anchor {
                    Ok(ts) => {
                        assert(Seq::<TokenV>::empty() + ts =~= ts);
                    },
                    Err(_) => {},
                }
            }
        }
        while !self.is_at_end()
            invariant
                self.wf(),
                self@.src == old(self)@.src,
                anchor == glue(
                    out.deep_view(),
                    scan_from(self@.src, self@.current as int, self@.line),
                ),
                anchor == scan_from(old(self)@.src, old(self)@.current as int, old(self)@.line),
            decreases self@.src.len() - self@.current,
        {
            self.start = self.current;
            let res = self.scan_token(&mut out, Ghost(anchor));
            if let Err(e) = res {
                return Err(e);
            }
        }
        let t = Token::new(TokType::Eof, std::string::String::new(), Literal::Null, self.line);
        let ghost pre = out.deep_view();
        out.push(t);
        proof {
            assert(scan_from(self@.src, self@.current as int, self@.line) == Ok::<
                Seq<TokenV>,
                ScanErrV,
            >(seq![eof_tok(self@.line)]));
            assert(out.deep_view() =~= pre.push(eof_tok(self@.line)));
            assert(pre + seq![eof_tok(self@.line)] =~= out.deep_view());
        }
        Ok(out)
    }
}

/// Scanning a single-character token prepends it and moves on by one.
proof fn step_single(pre: Seq<TokenV>, s: Seq<char>, i: int, line: nat, t: TokType)
    requires
        0 <= i < s.len(),
        single_kind(s[i]) == Some(t),
    ensures
        glue(pre, scan_from(s, i, line)) == glue(
            pre.push(punct_tok(t, s, i, 1, line)),
            scan_from(s, i + 1, line),
        ),
{
    let tv = punct_tok(t, s, i, 1, line);
    assert(scan_from(s, i, line) == cons_tok(tv, scan_from(s, i + 1, line)));
    lemma_glue_cons(pre, tv, scan_from(s, i + 1, line));
}

/// Scanning `!`, `<` or `>`, with or without a following `=`.
proof fn step_two(pre: Seq<TokenV>, s: Seq<char>, i: int, line: nat, matched: bool)
    requires
        0 <= i < s.len(),
        twochar_kinds(s[i]) is Some,
        matched == (i + 1 < s.len() && s[i + 1] == '='),
    ensures
        matched ==> glue(pre, scan_from(s, i, line)) == glue(
            pre.push(punct_tok(twochar_kinds(s[i])->Some_0.0, s, i, 2, line)),
            scan_from(s, i + 2, line),
        ),
        !matched ==> glue(pre, scan_from(s, i, line)) == glue(
            pre.push(punct_tok(twochar_kinds(s[i])->Some_0.1, s, i, 1, line)),
            scan_from(s, i + 1, line),
        ),
{
    if matched {
        let tv = punct_tok(twochar_kinds(s[i])->Some_0.0, s, i, 2, line);
        assert(scan_from(s, i, line) == cons_tok(tv, scan_from(s, i + 2, line)));
        lemma_glue_cons(pre, tv, scan_from(s, i + 2, line));
    } else {
        let tv = punct_tok(twochar_kinds(s[i])->Some_0.1, s, i, 1, line);
        assert(scan_from(s, i, line) == cons_tok(tv, scan_from(s, i + 1, line)));
        lemma_glue_cons(pre, tv, scan_from(s, i + 1, line));
    }
}

/// Counting newlines in `[a, b + 1)` adds the one at `b`, if it is one.
proof fn lemma_newlines_snoc(s: Seq<char>, a: int, b: int)
    requires
        a <= b,
    ensures
        newlines_in(s, a, b + 1) == newlines_in(s, a, b) + (if 0 <= b && b < s.len() && s[b]
            == '\n' {
            1nat
        } else {
            0nat
        }),
    decreases b - a,
{
    if a < b {
        lemma_newlines_snoc(s, a + 1, b);
    } else {
        reveal_with_fuel(newlines_in, 2);
    }
}

} // verus!
