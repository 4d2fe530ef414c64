//! A parser for a minimal s-expression language: parenthesised lists of
//! symbols, quoted strings, integers and decimal literals.
//!
//! [`Expression::try_from`] reads a whole text in one pass, with an explicit
//! stack of open lists, and [`Expression::to_string`] writes a value out
//! again. What a text means is defined in [`grammar`], as functions on
//! sequences of characters; the parser is proved to compute exactly that.
//! [`laws`], [`sequence`], [`depth`] and [`round_trip`] prove what follows
//! from the grammar for every text.
//!
//! A decimal literal is kept as its text. Turning it into a floating-point
//! number is left to the caller.

pub mod depth;
pub mod error;
pub mod expression;
pub mod grammar;
pub mod laws;
pub mod parser;
pub mod render;
pub mod round_trip;
pub mod sequence;
pub mod text;

pub use error::ParseError;
pub use expression::{Expression, Sexp};
