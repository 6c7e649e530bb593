//! The token model: the closed set of lexical categories and the token value.

use vstd::prelude::*;

verus! {

/// The closed set of lexical categories a character sequence can fall under.
#[derive(Clone, Copy, Debug, PartialEq, Eq, Structural)]
pub enum TokenKind {
    /// A single character that matches no recognized category.
    Illegal,
    /// The end of the source text; no characters remain.
    EndOfInput,
    /// A maximal run of alphabetic or underscore characters.
    Identifier,
    /// A maximal run of decimal-digit characters.
    Integer,
    /// The single character `(`.
    OpenParen,
    /// The single character `)`.
    CloseParen,
}

/// A classified, immutable unit of lexical input: a kind together with the
/// literal text consumed to produce it.
#[derive(Debug, PartialEq)]
pub struct Token {
    pub kind: TokenKind,
    pub literal: String,
}

impl Token {
    /// Pairs a kind with a literal. No validation is performed: the lexer,
    /// as the only producer, guarantees the two are consistent.
    pub fn new(kind: TokenKind, literal: String) -> (t: Token)
        ensures
            t.kind == kind,
            t.literal == literal,
    {
        Token { kind, literal }
    }
}

} // verus!
