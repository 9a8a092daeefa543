//! The ways in which reading an expression can fail.

use vstd::prelude::*;
use crate::token::Token;

verus! {

/// A structured parse error. The set of kinds is closed.
#[derive(Debug, PartialEq, Eq)]
pub enum ParseError {
    /// A specific token was required at this position but another one was present.
    Expected { expected: String, found: Token },
    /// The token sequence ended before a rule could complete.
    UnexpectedEndOfInput,
    /// The tokenizer met a character outside the language's alphabet.
    InvalidToken(char),
}

/// The mathematical content of a `ParseError`: the description is a sequence of characters.
pub ghost enum Failure {
    Expected { expected: Seq<char>, found: Token },
    UnexpectedEndOfInput,
    InvalidToken(char),
}

impl View for ParseError {
    type V = Failure;

    open spec fn view(&self) -> Failure {
        match self {
            ParseError::Expected { expected, found } => Failure::Expected {
                expected: expected@,
                found: *found,
            },
            ParseError::UnexpectedEndOfInput => Failure::UnexpectedEndOfInput,
            ParseError::InvalidToken(c) => Failure::InvalidToken(*c),
        }
    }
}

} // verus!
