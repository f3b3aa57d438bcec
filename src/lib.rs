//! A pull-based lexer for a small parenthesised language of identifiers,
//! integers and decimal literals.
pub mod laws;
pub mod lexer;
pub mod model;
pub mod token;

pub use lexer::TokenIterator;
pub use token::{LexError, Token};
