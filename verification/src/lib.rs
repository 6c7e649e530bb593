//! A lexical analyzer for a minimal Lisp-like language.
//!
//! The lexer turns a source text into a forward-only sequence of tokens:
//! parentheses, identifiers, integer literals, an end-of-input marker, and
//! single illegal characters. Tokenization never fails; unrecognized input
//! degrades to `Illegal` tokens.

pub mod classify;
pub mod lexer;
pub mod token;
