//! A verified line calculator: expressions over non-negative integers
//! combined left-to-right with `+` and `-`.
//!
//! The pipeline is a character cursor, a tokenizer that classifies
//! codepoints into typed tokens, and a recursive-descent evaluator for
//! the grammar `expr := term (('+' | '-') term)*`, `term := INTEGER`.
//! Every stage is specified against a mathematical model of the input
//! text and proved to return exactly what that model prescribes.

pub mod cursor;
pub mod laws;
pub mod lexer;
pub mod parser;
pub mod text;
pub mod token;
