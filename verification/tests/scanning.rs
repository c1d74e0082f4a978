use bracklang::scanner::Scanner;
use bracklang::token::{Literal, ScanError, ScanErrorKind, TokType};

fn scan(src: &str) -> Result<Vec<bracklang::token::Token>, ScanError> {
    let mut s = Scanner::new(String::from(src));
    s.scan_tokens()
}

#[test]
fn empty_input_scans_to_lone_eof() {
    let toks = scan("").unwrap();
    assert_eq!(toks.len(), 1);
    assert_eq!(toks[0].ltype, TokType::Eof);
    assert_eq!(toks[0].lexeme, "");
    assert_eq!(toks[0].literal, Literal::Null);
    assert_eq!(toks[0].line, 1);
}

#[test]
fn whitespace_and_comments_scan_like_empty() {
    let toks = scan("  \t\r// a comment\n// another\n   ").unwrap();
    assert_eq!(toks.len(), 1);
    assert_eq!(toks[0].ltype, TokType::Eof);
    assert_eq!(toks[0].line, 3);
}

#[test]
fn bare_integer() {
    let toks = scan("42").unwrap();
    assert_eq!(toks.len(), 2);
    assert_eq!(toks[0].ltype, TokType::Int);
    assert_eq!(toks[0].lexeme, "42");
    assert_eq!(toks[0].literal, Literal::Int(42));
    assert_eq!(toks[0].line, 1);
    assert_eq!(toks[1].ltype, TokType::Eof);
    assert_eq!(toks[1].line, 1);
}

#[test]
fn float_literal_keeps_its_text() {
    let toks = scan("3.25").unwrap();
    assert_eq!(toks[0].ltype, TokType::Float);
    assert_eq!(toks[0].lexeme, "3.25");
    assert_eq!(toks[0].literal, Literal::Float(String::from("3.25")));
}

#[test]
fn integer_then_bare_point_is_an_error() {
    // "1." is an Int token followed by an unexpected '.'
    let e = scan("1.").unwrap_err();
    assert_eq!(e.kind, ScanErrorKind::UnexpectedChar('.'));
    assert_eq!(e.line, 1);
}

#[test]
fn prefix_add_tokens() {
    let toks = scan("[+ 1 2]").unwrap();
    let kinds: Vec<TokType> = toks.iter().map(|t| t.ltype).collect();
    assert_eq!(
        kinds,
        vec![
            TokType::lBrack,
            TokType::Add,
            TokType::Int,
            TokType::Int,
            TokType::rBrack,
            TokType::Eof,
        ]
    );
    assert_eq!(toks[2].literal, Literal::Int(1));
    assert_eq!(toks[3].literal, Literal::Int(2));
}

#[test]
fn string_and_identifier_tokens() {
    let toks = scan("[def x \"hi\"]").unwrap();
    let kinds: Vec<TokType> = toks.iter().map(|t| t.ltype).collect();
    assert_eq!(
        kinds,
        vec![
            TokType::lBrack,
            TokType::Def,
            TokType::Identifier,
            TokType::String,
            TokType::rBrack,
            TokType::Eof,
        ]
    );
    assert_eq!(toks[2].lexeme, "x");
    assert_eq!(toks[3].lexeme, "\"hi\"");
    assert_eq!(toks[3].literal, Literal::Str(String::from("hi")));
}

#[test]
fn unexpected_character_aborts_scan() {
    let e = scan("@").unwrap_err();
    assert_eq!(e.kind, ScanErrorKind::UnexpectedChar('@'));
    assert_eq!(e.line, 1);
    assert_eq!(e.render(), "[line 1] Error: Unexpected character @.");
}

#[test]
fn bare_equal_sign_is_an_error() {
    let e = scan("\n=").unwrap_err();
    assert_eq!(e.kind, ScanErrorKind::UnexpectedChar('='));
    assert_eq!(e.line, 2);
}

#[test]
fn unterminated_string_is_an_error() {
    let e = scan("\"abc").unwrap_err();
    assert_eq!(e.kind, ScanErrorKind::UnterminatedString);
    assert_eq!(e.line, 1);
    assert_eq!(e.render(), "[line 1] Error: Unterminated string.");
}

#[test]
fn oversized_integer_is_an_error() {
    let e = scan("99999999999999999999").unwrap_err();
    assert_eq!(e.kind, ScanErrorKind::MalformedNumber);
    assert_eq!(e.line, 1);
    assert_eq!(e.render(), "[line 1] Error: Malformed number.");
}

#[test]
fn largest_integer_still_scans() {
    let toks = scan("9223372036854775807").unwrap();
    assert_eq!(toks[0].literal, Literal::Int(i64::MAX));
}

#[test]
fn operators_and_comparisons() {
    let toks = scan("+ - * / ! != == < <= > >= ; ( ) { }").unwrap();
    let kinds: Vec<TokType> = toks.iter().map(|t| t.ltype).collect();
    assert_eq!(
        kinds,
        vec![
            TokType::Add,
            TokType::Sub,
            TokType::Mul,
            TokType::Div,
            TokType::Not,
            TokType::NotEq,
            TokType::Equal,
            TokType::Less,
            TokType::LessEq,
            TokType::Greater,
            TokType::GreaterEq,
            TokType::Semicolon,
            TokType::lParen,
            TokType::rParen,
            TokType::lCurl,
            TokType::rCurl,
            TokType::Eof,
        ]
    );
}

#[test]
fn keywords_and_identifiers() {
    let toks =
        scan("if else fn def set for foreach while true false int float str char ret ng ifx _a9")
            .unwrap();
    let kinds: Vec<TokType> = toks.iter().map(|t| t.ltype).collect();
    assert_eq!(
        kinds,
        vec![
            TokType::If,
            TokType::Else,
            TokType::Fn,
            TokType::Def,
            TokType::SetKw,
            TokType::For,
            TokType::ForEach,
            TokType::While,
            TokType::True,
            TokType::False,
            TokType::IntType,
            TokType::FloatType,
            TokType::StrType,
            TokType::CharType,
            TokType::Ret,
            TokType::Ng,
            TokType::Identifier,
            TokType::Identifier,
            TokType::Eof,
        ]
    );
    assert_eq!(toks[16].lexeme, "ifx");
    assert_eq!(toks[17].lexeme, "_a9");
}

#[test]
fn line_numbers_follow_newlines() {
    let toks = scan("a\nb\n\nc").unwrap();
    assert_eq!(toks[0].line, 1);
    assert_eq!(toks[1].line, 2);
    assert_eq!(toks[2].line, 4);
    assert_eq!(toks[3].ltype, TokType::Eof);
    assert_eq!(toks[3].line, 4);
}

#[test]
fn multi_line_string_starts_on_its_first_line() {
    let toks = scan("\"a\nb\" c").unwrap();
    assert_eq!(toks[0].ltype, TokType::String);
    assert_eq!(toks[0].line, 1);
    assert_eq!(toks[0].literal, Literal::Str(String::from("a\nb")));
    assert_eq!(toks[1].ltype, TokType::Identifier);
    assert_eq!(toks[1].line, 2);
}

#[test]
fn comment_does_not_consume_the_newline() {
    let toks = scan("1 // rest of line\n2").unwrap();
    assert_eq!(toks[0].literal, Literal::Int(1));
    assert_eq!(toks[0].line, 1);
    assert_eq!(toks[1].literal, Literal::Int(2));
    assert_eq!(toks[1].line, 2);
}

#[test]
fn lexemes_concatenate_back_to_the_source() {
    let src = "[def x \"hi\"] // t\n [+ 1 2.5]";
    let toks = scan(src).unwrap();
    // every character of the source is either trivia or part of exactly
    // one lexeme, in order
    let mut rest = src;
    for t in &toks {
        let at = rest.find(t.lexeme.as_str()).unwrap_or(rest.len());
        rest = &rest[at + t.lexeme.len()..];
    }
    assert!(rest.is_empty());
}

#[test]
fn rescanning_a_lexeme_gives_the_same_token() {
    let toks = scan("[def x \"hi\"] != 3.5 77").unwrap();
    for t in &toks {
        let again = scan(&t.lexeme).unwrap();
        assert_eq!(again[0].ltype, t.ltype);
        assert_eq!(again[0].literal, t.literal);
        assert_eq!(again[0].lexeme, t.lexeme);
    }
}

#[test]
fn diagnostic_format() {
    assert_eq!(
        bracklang::token::error(12, String::from("Boom.")),
        "[line 12] Error: Boom."
    );
    assert_eq!(bracklang::token::error(0, String::from("x")), "[line 0] Error: x");
}
