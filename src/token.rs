//! The values a lexer hands out, and their mathematical meaning.
use vstd::prelude::*;

verus! {

/// A classified unit of input.
#[derive(PartialEq, Clone, Debug)]
pub enum Token {
    LParen,
    RParen,
    /// A letter or underscore followed by letters, digits and underscores.
    Ident(String),
    /// The value of a run of decimal digits.
    Int(i64),
    /// The exact text of a decimal literal with one point and at least one digit;
    /// its floating-point value is left to the consumer.
    Float(String),
}

/// A lexeme that is no token, with its offending text.
#[derive(PartialEq, Clone, Debug)]
pub enum LexError {
    /// A single byte that begins no lexeme.
    Unrecognized(String),
    /// A numeric run followed by a letter, a run with a second point, or a lone point;
    /// the whole run is kept.
    Malformed(String),
    /// A run of digits whose value exceeds `i64::MAX`.
    Overflow(String),
}

/// The meaning of one result of the lexer.
pub enum Scanned {
    LParen,
    RParen,
    Ident(Seq<char>),
    Int(int),
    Float(Seq<char>),
    Unrecognized(Seq<char>),
    Malformed(Seq<char>),
    Overflow(Seq<char>),
}

pub open spec fn token_view(t: Token) -> Scanned {
    match t {
        Token::LParen => Scanned::LParen,
        Token::RParen => Scanned::RParen,
        Token::Ident(s) => Scanned::Ident(s@),
        Token::Int(v) => Scanned::Int(v as int),
        Token::Float(s) => Scanned::Float(s@),
    }
}

pub open spec fn error_view(e: LexError) -> Scanned {
    match e {
        LexError::Unrecognized(s) => Scanned::Unrecognized(s@),
        LexError::Malformed(s) => Scanned::Malformed(s@),
        LexError::Overflow(s) => Scanned::Overflow(s@),
    }
}

pub open spec fn result_view(r: Result<Token, LexError>) -> Scanned {
    match r {
        Ok(t) => token_view(t),
        Err(e) => error_view(e),
    }
}

} // verus!
