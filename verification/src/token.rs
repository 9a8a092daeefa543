//! Tokens and the characters that spell them.

use vstd::prelude::*;

verus! {

/// An atomic lexical unit of the language.
#[derive(Debug, Copy, Clone, PartialEq, Eq, Structural)]
pub enum Token {
    LParen,
    RParen,
    Digit(u32),
    Plus,
    Minus,
}

impl Token {
    /// A digit token carries a value from 0 to 9; every other token is well formed as it is.
    pub open spec fn wf(self) -> bool {
        self matches Token::Digit(d) ==> d < 10
    }

    /// The character that spells the token.
    pub open spec fn glyph(self) -> char {
        match self {
            Token::LParen => '(',
            Token::RParen => ')',
            Token::Plus => '+',
            Token::Minus => '-',
            Token::Digit(d) => ('0' as u32 + d) as char,
        }
    }

    /// The numeric value that a token contributes to a literal.
    pub open spec fn digit_value(self) -> nat {
        match self {
            Token::Digit(d) => d as nat,
            _ => 0,
        }
    }
}

} // verus!
