//! Tokens produced by the lexer and the errors the analysis can report, each
//! with a mathematical counterpart used in contracts.
use vstd::prelude::*;

verus! {

/// A token of the assignment-statement grammar, as carried at run time.
/// Identifier text is already folded to upper case by the lexer.
#[derive(Debug)]
pub enum Token {
    Identifier(String),
    Constant(i32),
    Operation(char),
    Assign,
    LeftBracket,
    RightBracket,
    Comma,
    Semicolon,
    EndOfInput,
}

/// The mathematical counterpart of a `Token`.
pub enum SpecTok {
    Ident(Seq<char>),
    Num(int),
    Op(char),
    Assign,
    LBracket,
    RBracket,
    Comma,
    Semi,
    End,
}

impl View for Token {
    type V = SpecTok;

    open spec fn view(&self) -> SpecTok {
        match self {
            Token::Identifier(s) => SpecTok::Ident(s@),
            Token::Constant(n) => SpecTok::Num(*n as int),
            Token::Operation(c) => SpecTok::Op(*c),
            Token::Assign => SpecTok::Assign,
            Token::LeftBracket => SpecTok::LBracket,
            Token::RightBracket => SpecTok::RBracket,
            Token::Comma => SpecTok::Comma,
            Token::Semicolon => SpecTok::Semi,
            Token::EndOfInput => SpecTok::End,
        }
    }
}

/// An analysis error: the character offset where it was detected, and a
/// descriptive message. Lexical errors are malformed tokens at the character
/// level, syntax errors are violations of the grammar, semantic errors are
/// violations of a domain rule by an otherwise well-formed token.
#[derive(Debug)]
pub enum AnalysisError {
    Lexical(usize, String),
    Syntax(usize, String),
    Semantic(usize, String),
}

/// The mathematical counterpart of an `AnalysisError`.
pub enum SpecErr {
    Lex(int, Seq<char>),
    Syn(int, Seq<char>),
    Sem(int, Seq<char>),
}

impl View for AnalysisError {
    type V = SpecErr;

    open spec fn view(&self) -> SpecErr {
        match self {
            AnalysisError::Lexical(p, m) => SpecErr::Lex(*p as int, m@),
            AnalysisError::Syntax(p, m) => SpecErr::Syn(*p as int, m@),
            AnalysisError::Semantic(p, m) => SpecErr::Sem(*p as int, m@),
        }
    }
}

/// The abstraction of a positioned token list: positions as integers and
/// tokens by their mathematical views.
pub open spec fn toks_abs(ts: Seq<(usize, Token)>) -> Seq<(int, SpecTok)> {
    ts.map_values(|pt: (usize, Token)| (pt.0 as int, pt.1@))
}

/// Equality of two tokens, decided exactly as equality of their views.
pub fn token_eq(a: &Token, b: &Token) -> (r: bool)
    ensures
        r == (a@ == b@),
{
    match (a, b) {
        (Token::Identifier(x), Token::Identifier(y)) => x.eq(y),
        (Token::Constant(x), Token::Constant(y)) => *x == *y,
        (Token::Operation(x), Token::Operation(y)) => *x == *y,
        (Token::Assign, Token::Assign) => true,
        (Token::LeftBracket, Token::LeftBracket) => true,
        (Token::RightBracket, Token::RightBracket) => true,
        (Token::Comma, Token::Comma) => true,
        (Token::Semicolon, Token::Semicolon) => true,
        (Token::EndOfInput, Token::EndOfInput) => true,
        _ => false,
    }
}

} // verus!
