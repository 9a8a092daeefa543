//! A recursive-descent parser and evaluator for a small arithmetic language:
//! integer literals, parentheses, `+` and `-`.
//!
//! Text flows one way: characters become tokens, tokens become an expression
//! tree, and the tree is reduced to a signed integer. Every executable function
//! is verified against a mathematical description of its result.

pub mod balance;
pub mod error;
pub mod expr;
pub mod lexer;
pub mod parser;
pub mod prefix;
pub mod token;

pub use error::ParseError;
pub use expr::{evaluate, Expr};
pub use lexer::tokenize;
pub use parser::{parse, parse_expr, parse_number, parse_term};
pub use token::Token;
