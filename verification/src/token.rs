//! Tokens produced by the tokenizer and the typed errors of the pipeline.

use vstd::prelude::*;

verus! {

/// The kind of a lexical unit. `Bof` is the sentinel a fresh cursor holds
/// before the first token has been fetched; `Eof` marks exhausted input.
#[derive(Clone, Copy, PartialEq, Eq, Structural, Debug)]
pub enum TokenKind {
    Bof,
    Integer,
    Plus,
    Minus,
    Eof,
}

/// A classified lexical unit: a kind and, for integers, the literal digits.
#[derive(PartialEq, Eq, Debug)]
pub struct Token {
    pub kind: TokenKind,
    pub val: Vec<char>,
}

/// The typed errors of one evaluation. All are recoverable at the
/// evaluate-one-line boundary; none aborts the process.
#[derive(PartialEq, Eq, Debug)]
pub enum ParseError {
    /// A codepoint outside whitespace, digits, `+` and `-`, with its
    /// position in the trimmed text.
    InvalidCharacter { c: char, pos: usize },
    /// The parser required one token kind and found another.
    UnexpectedToken { expected: TokenKind, found: TokenKind },
    /// A digit run whose value does not fit the result type.
    InvalidNumber { payload: Vec<char> },
    /// A subtraction drove the running result below zero.
    ArithmeticUnderflow,
    /// An addition drove the running result past the largest value.
    ArithmeticOverflow,
}

/// The mathematical image of a `ParseError`, used by the specification
/// of the evaluator.
pub enum EvalErr {
    InvalidCharacter { c: char, pos: int },
    UnexpectedToken { expected: TokenKind, found: TokenKind },
    InvalidNumber { payload: Seq<char> },
    ArithmeticUnderflow,
    ArithmeticOverflow,
}

impl View for ParseError {
    type V = EvalErr;

    open spec fn view(&self) -> EvalErr {
        match self {
            ParseError::InvalidCharacter { c, pos } => (EvalErr::InvalidCharacter {
                c: *c,
                pos: *pos as int,
            }),
            ParseError::UnexpectedToken { expected, found } => (EvalErr::UnexpectedToken {
                expected: *expected,
                found: *found,
            }),
            ParseError::InvalidNumber { payload } => (EvalErr::InvalidNumber { payload: payload@ }),
            ParseError::ArithmeticUnderflow => EvalErr::ArithmeticUnderflow,
            ParseError::ArithmeticOverflow => EvalErr::ArithmeticOverflow,
        }
    }
}

} // verus!
