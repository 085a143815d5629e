//! An interpreter for a minimal eight-symbol, tape-based language.
//!
//! Three stages are pipelined: the scanner ([`lexer`]) turns source text
//! into tokens, the parser ([`parser`]) nests bracketed loops into a
//! statement tree, and the executor ([`interpreter`]) walks that tree
//! against a bounded, zero-initialized memory tape.

pub mod error;
pub mod interpreter;
pub mod lexer;
pub mod parser;
