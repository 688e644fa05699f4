//! A small interpreter for a parenthesized prefix arithmetic language.
//!
//! Source text is tokenized into parentheses, unsigned 64-bit numerals and
//! symbols, parsed by recursive descent into a sequence of expression trees,
//! and evaluated by a tree walk against a flat name-binding environment.

pub mod ast;
pub mod errors;
pub mod eval;
pub mod lexer;
pub mod parser;
