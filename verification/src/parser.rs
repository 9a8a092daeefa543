//! The grammar and the recursive-descent parser that follows it.
//!
//! ```text
//! expr   = term [ "+" term | "-" expr ]
//! term   = "(" expr ")" | number
//! number = digit { digit }
//! ```

use vstd::prelude::*;
use vstd::arithmetic::div_mod::{
    lemma_add_mod_noop,
    lemma_mod_add_multiples_vanish,
    lemma_mul_mod_noop_right,
    lemma_small_mod,
};
use crate::error::{Failure, ParseError};
use crate::expr::{wrap_i32, Expr};
use crate::lexer::{
    lemma_strip_concat,
    lemma_strip_push,
    spell,
    strip_whitespace,
    token_of,
    token_seq,
    tokenize,
    white_space,
};
use crate::prefix::{leading, lemma_leading, lemma_leading_unique};
use crate::token::Token;

verus! {

/// What a rule yields on a token sequence: a tree and the tokens it left, or a failure.
pub type Parsed = Result<(Expr, Seq<Token>), Failure>;

/// The number of digit tokens at the front of `s`.
pub open spec fn digit_run(s: Seq<Token>) -> nat {
    leading(s, |t: Token| t is Digit)
}

/// The base-10 positional value of a run of digits, most significant digit first.
pub open spec fn decimal_value(digits: Seq<Token>) -> nat
    decreases digits.len(),
{
    if digits.len() == 0 {
        0
    } else {
        10 * decimal_value(digits.drop_last()) + digits.last().digit_value()
    }
}

/// `number`: the longest run of digits at the front, which must not be empty,
/// read in base 10 and reduced into `i32`.
pub open spec fn number_rule(s: Seq<Token>) -> Parsed {
    if s.len() == 0 {
        Err(Failure::UnexpectedEndOfInput)
    } else if !(s[0] is Digit) {
        Err(Failure::Expected { expected: "digit"@, found: s[0] })
    } else {
        let n = digit_run(s) as int;
        Ok((Expr::Number(wrap_i32(decimal_value(s.take(n)) as int)), s.skip(n)))
    }
}

/// `term`: a parenthesized expression followed by its closing parenthesis, or a number.
pub open spec fn term_rule(s: Seq<Token>) -> Parsed
    decreases s.len(), 0nat,
{
    if s.len() == 0 {
        Err(Failure::UnexpectedEndOfInput)
    } else if s[0] == Token::LParen {
        match expr_rule(s.skip(1)) {
            Err(e) => Err(e),
            Ok((inner, rest)) => {
                if rest.len() == 0 {
                    Err(Failure::UnexpectedEndOfInput)
                } else if rest[0] == Token::RParen {
                    Ok((inner, rest.skip(1)))
                } else {
                    Err(Failure::Expected { expected: "right parenthesis"@, found: rest[0] })
                }
            },
        }
    } else {
        number_rule(s)
    }
}

/// `expr`: a term, then either `+` and one more term, or `-` and a whole
/// expression, or nothing. Subtraction therefore groups to the right.
///
/// A term never leaves more tokens than it was given (`lemma_rule_consumes`);
/// the comparison of lengths below only serves to show that the definition
/// terminates.
pub open spec fn expr_rule(s: Seq<Token>) -> Parsed
    decreases s.len(), 1nat,
{
    match term_rule(s) {
        Err(e) => Err(e),
        Ok((lhs, rest)) => {
            if rest.len() == 0 || rest.len() > s.len() {
                Ok((lhs, rest))
            } else if rest[0] == Token::Plus {
                match term_rule(rest.skip(1)) {
                    Err(e) => Err(e),
                    Ok((rhs, rest)) => Ok((Expr::Add(Box::new(lhs), Box::new(rhs)), rest)),
                }
            } else if rest[0] == Token::Minus {
                match expr_rule(rest.skip(1)) {
                    Err(e) => Err(e),
                    Ok((rhs, rest)) => Ok((Expr::Sub(Box::new(lhs), Box::new(rhs)), rest)),
                }
            } else {
                Ok((lhs, rest))
            }
        },
    }
}

/// Whether `rest` is what remains of `s` after a non-empty prefix was taken off.
pub open spec fn proper_suffix(rest: Seq<Token>, s: Seq<Token>) -> bool {
    &&& rest.len() < s.len()
    &&& rest == s.skip(s.len() - rest.len())
}

/// Every successful rule consumes a non-empty prefix and returns the untouched rest.
pub proof fn lemma_rule_consumes(s: Seq<Token>)
    ensures
        number_rule(s) matches Ok((_, rest)) ==> proper_suffix(rest, s),
        term_rule(s) matches Ok((_, rest)) ==> proper_suffix(rest, s),
        expr_rule(s) matches Ok((_, rest)) ==> proper_suffix(rest, s),
    decreases s.len(),
{
    lemma_leading(s, |t: Token| t is Digit);
    if s.len() > 0 {
        if s[0] == Token::LParen {
            let t = s.skip(1);
            lemma_rule_consumes(t);
            if let Ok((_, rest)) = expr_rule(t) {
                if rest.len() > 0 {
                    lemma_suffix_of_suffix(rest, t, s);
                    lemma_suffix_of_suffix(rest.skip(1), rest, s);
                }
            }
        }
        if let Ok((_, rest)) = term_rule(s) {
            if rest.len() > 0 {
                let t = rest.skip(1);
                lemma_rule_consumes(t);
                if let Ok((_, rest2)) = term_rule(t) {
                    lemma_suffix_of_suffix(rest2, t, rest);
                    lemma_suffix_of_suffix(rest2, rest, s);
                }
                if let Ok((_, rest2)) = expr_rule(t) {
                    lemma_suffix_of_suffix(rest2, t, rest);
                    lemma_suffix_of_suffix(rest2, rest, s);
                }
            }
        }
    }
}

/// A suffix of a suffix is a suffix.
proof fn lemma_suffix_of_suffix(a: Seq<Token>, b: Seq<Token>, c: Seq<Token>)
    requires
        a.len() <= b.len() <= c.len(),
        a == b.skip(b.len() - a.len()),
        b == c.skip(c.len() - b.len()),
    ensures
        a == c.skip(c.len() - a.len()),
{
    assert(a =~= c.skip(c.len() - a.len()));
}

/// One more digit multiplies the value read so far by ten and adds the digit;
/// 32-bit wrapping arithmetic keeps the remainder modulo 2^32 in step.
proof fn lemma_decimal_step(s: Seq<Token>, n: int, acc: u32, d: u32)
    requires
        0 <= n < s.len(),
        s[n] == Token::Digit(d),
        acc == decimal_value(s.take(n)) % 0x1_0000_0000,
    ensures
        acc.wrapping_mul(10).wrapping_add(d) == decimal_value(s.take(n + 1)) % 0x1_0000_0000,
{
    let m = 0x1_0000_0000int;
    let v = decimal_value(s.take(n)) as int;
    assert(s.take(n + 1).drop_last() =~= s.take(n));
    assert(decimal_value(s.take(n + 1)) == 10 * v + d);
    let p = acc.wrapping_mul(10);
    assert(p == (10 * acc) % m);
    assert(p == (10 * v) % m) by {
        lemma_mul_mod_noop_right(10, v, m);
    }
    assert((p + d) % m == (10 * v + d) % m) by {
        lemma_add_mod_noop(10 * v, d as int, m);
        lemma_add_mod_noop(p as int, d as int, m);
    }
    assert(p.wrapping_add(d) == (p + d) % m) by {
        if p + d > u32::MAX {
            lemma_mod_add_multiples_vanish(p + d - m, m);
            lemma_small_mod((p + d - m) as nat, m as nat);
        } else {
            lemma_small_mod((p + d) as nat, m as nat);
        }
    }
}

/// A 32-bit pattern read as a signed integer is the wrapped value of the pattern read unsigned.
proof fn lemma_reinterpret(x: u32)
    ensures
        (x as i32) == wrap_i32(x as int),
{
    assert(x < 0x8000_0000u32 ==> (x as i32) == x) by (bit_vector);
    assert(x >= 0x8000_0000u32 ==> (x as i32) == x - 0x1_0000_0000) by (bit_vector);
}

/// The outcome of a rule as the grammar states it: the remainder by its view, the error by its view.
pub open spec fn outcome(r: Result<(Expr, &[Token]), ParseError>) -> Parsed {
    match r {
        Ok((e, rest)) => Ok((e, rest@)),
        Err(err) => Err(err@),
    }
}

/// Parses a number: the longest run of digit tokens at the front of `tokens`.
pub fn parse_number(tokens: &[Token]) -> (r: Result<(Expr, &[Token]), ParseError>)
    ensures
        outcome(r) == number_rule(tokens@),
        r matches Ok((_, rest)) ==> proper_suffix(rest@, tokens@),
{
    match tokens.first() {
        Some(Token::Digit(first)) => {
            let mut num_digits: usize = 1;
            let mut number: u32 = *first;
            proof {
                assert(tokens@.take(1).drop_last() =~= Seq::<Token>::empty());
                reveal_with_fuel(decimal_value, 2);
                if tokens.len() == 1 {
                    lemma_leading_unique(tokens@, |t: Token| t is Digit, 1);
                }
            }
            while num_digits < tokens.len()
                invariant_except_break
                    1 <= num_digits <= tokens.len(),
                    forall|i: int| 0 <= i < num_digits ==> tokens@[i] is Digit,
                    number == decimal_value(tokens@.take(num_digits as int)) % 0x1_0000_0000,
                    num_digits == tokens.len() ==> num_digits == digit_run(tokens@),
                ensures
                    1 <= num_digits <= tokens.len(),
                    num_digits == digit_run(tokens@),
                    number == decimal_value(tokens@.take(num_digits as int)) % 0x1_0000_0000,
                decreases tokens.len() - num_digits,
            {
                match tokens[num_digits] {
                    Token::Digit(digit) => {
                        proof {
                            lemma_decimal_step(tokens@, num_digits as int, number, digit);
                        }
                        number = number.wrapping_mul(10).wrapping_add(digit);
                        num_digits += 1;
                    },
                    _ => {
                        proof {
                            lemma_leading_unique(tokens@, |t: Token| t is Digit, num_digits as int);
                        }
                        break ;
                    },
                }
                proof {
                    if num_digits == tokens.len() {
                        lemma_leading_unique(tokens@, |t: Token| t is Digit, num_digits as int);
                    }
                }
            }
            proof {
                lemma_reinterpret(number);
                assert(tokens@.skip(num_digits as int) =~= tokens@.subrange(
                    num_digits as int,
                    tokens@.len() as int,
                ));
            }
            Ok((Expr::Number(#[verifier::truncate] (number as i32)), &tokens[num_digits..tokens.len()]))
        },
        Some(token) => Err(ParseError::Expected { expected: "digit".to_string(), found: *token }),
        None => Err(ParseError::UnexpectedEndOfInput),
    }
}

/// Parses a term: a parenthesized expression, or else a number.
pub fn parse_term(tokens: &[Token]) -> (r: Result<(Expr, &[Token]), ParseError>)
    ensures
        outcome(r) == term_rule(tokens@),
        r matches Ok((_, rest)) ==> proper_suffix(rest@, tokens@),
    decreases tokens@.len(), 0nat,
{
    match tokens.first() {
        Some(Token::LParen) => {
            let (expr, remaining) = parse_expr(&tokens[1..tokens.len()])?;
            proof {
                lemma_suffix_of_suffix(remaining@, tokens@.skip(1), tokens@);
            }
            match remaining.first() {
                Some(Token::RParen) => {
                    proof {
                        lemma_suffix_of_suffix(remaining@.skip(1), remaining@, tokens@);
                    }
                    Ok((expr, &remaining[1..remaining.len()]))
                },
                Some(token) => Err(
                    ParseError::Expected {
                        expected: "right parenthesis".to_string(),
                        found: *token,
                    },
                ),
                None => Err(ParseError::UnexpectedEndOfInput),
            }
        },
        Some(_) => parse_number(tokens),
        None => Err(ParseError::UnexpectedEndOfInput),
    }
}

/// Parses an expression: a term, optionally followed by `+` and a term or by
/// `-` and an expression.
pub fn parse_expr(tokens: &[Token]) -> (r: Result<(Expr, &[Token]), ParseError>)
    ensures
        outcome(r) == expr_rule(tokens@),
        r matches Ok((_, rest)) ==> proper_suffix(rest@, tokens@),
    decreases tokens@.len(), 1nat,
{
    let (term, remaining) = parse_term(tokens)?;

    match remaining.first() {
        Some(Token::Plus) => {
            let (other, remaining2) = parse_term(&remaining[1..remaining.len()])?;
            proof {
                lemma_suffix_of_suffix(remaining2@, remaining@.skip(1), remaining@);
                lemma_suffix_of_suffix(remaining2@, remaining@, tokens@);
            }
            Ok((Expr::Add(Box::new(term), Box::new(other)), remaining2))
        },
        Some(Token::Minus) => {
            let (other, remaining2) = parse_expr(&remaining[1..remaining.len()])?;
            proof {
                lemma_suffix_of_suffix(remaining2@, remaining@.skip(1), remaining@);
                lemma_suffix_of_suffix(remaining2@, remaining@, tokens@);
            }
            Ok((Expr::Sub(Box::new(term), Box::new(other)), remaining2))
        },
        Some(_) => Ok((term, remaining)),
        None => Ok((term, remaining)),
    }
}

/// The tree that an input stands for: its tokens must form one expression, with nothing left over.
pub open spec fn tree_of(input: Seq<char>) -> Result<Expr, Failure> {
    match token_seq(input) {
        Err(e) => Err(e),
        Ok(tokens) => match expr_rule(tokens) {
            Err(e) => Err(e),
            Ok((expr, rest)) => {
                if rest.len() == 0 {
                    Ok(expr)
                } else {
                    Err(Failure::Expected { expected: "end of input"@, found: rest[0] })
                }
            },
        },
    }
}

/// Tokenizes the input and parses it as one expression. A token that is left
/// after the expression is reported as found where the end of input was expected.
pub fn parse(input: &String) -> (r: Result<Expr, ParseError>)
    ensures
        match r {
            Ok(expr) => tree_of(input@) == Ok::<Expr, Failure>(expr),
            Err(err) => tree_of(input@) == Err::<Expr, Failure>(err@),
        },
{
    let tokens = tokenize(input)?;
    let (expr, remaining) = parse_expr(tokens.as_slice())?;

    match remaining.first() {
        Some(token) => Err(
            ParseError::Expected { expected: "end of input".to_string(), found: *token },
        ),
        None => Ok(expr),
    }
}

/// The base-10 value of a string of decimal digits, most significant digit first.
pub open spec fn numeral_value(digits: Seq<char>) -> nat
    decreases digits.len(),
{
    if digits.len() == 0 {
        0
    } else {
        (10 * numeral_value(digits.drop_last()) + (digits.last() as u32 - '0' as u32)) as nat
    }
}

/// Whether every character of `s` is a decimal digit.
pub open spec fn all_decimal_digits(s: Seq<char>) -> bool {
    forall|i: int| 0 <= i < s.len() ==> '0' <= #[trigger] s[i] <= '9'
}

/// A non-empty string of decimal digits, with or without leading zeros, parses
/// to a single number: its base-10 value reduced into `i32`. When the value fits
/// in an `i32` the number is that value, and so is what the tree evaluates to.
pub proof fn lemma_parse_numeral(input: Seq<char>)
    requires
        input.len() > 0,
        all_decimal_digits(input),
    ensures
        tree_of(input) == Ok::<Expr, Failure>(
            Expr::Number(wrap_i32(numeral_value(input) as int)),
        ),
        numeral_value(input) <= i32::MAX ==> {
            &&& tree_of(input) matches Ok(tree)
            &&& tree == Expr::Number(numeral_value(input) as i32)
            &&& tree.value() == numeral_value(input)
        },
{
    lemma_numeral_tokens(input);
    let tokens = spell(input);
    assert(tokens[0] is Digit) by {
        assert('0' <= input[0] <= '9');
    }
    assert forall|i: int| 0 <= i < tokens.len() implies (|t: Token| t is Digit)(
        #[trigger] tokens[i],
    ) by {
        assert('0' <= input[i] <= '9');
    }
    lemma_leading_unique(tokens, |t: Token| t is Digit, tokens.len() as int);
    assert(tokens.take(tokens.len() as int) =~= tokens);
    let number = Expr::Number(wrap_i32(numeral_value(input) as int));
    let rest = tokens.skip(tokens.len() as int);
    assert(rest.len() == 0);
    assert(digit_run(tokens) == tokens.len());
    assert(number_rule(tokens) == Ok::<(Expr, Seq<Token>), Failure>((number, rest)));
    assert(tokens[0] != Token::LParen);
    assert(term_rule(tokens) == number_rule(tokens));
    assert(expr_rule(tokens) == term_rule(tokens));
    assert(token_seq(input) == Ok::<Seq<Token>, Failure>(tokens));
}

/// A string of decimal digits holds no white space and no character outside
/// the alphabet: its tokens are its digits, and they have its value.
proof fn lemma_numeral_tokens(input: Seq<char>)
    requires
        all_decimal_digits(input),
    ensures
        strip_whitespace(input) == input,
        token_seq(input) == Ok::<Seq<Token>, Failure>(spell(input)),
        decimal_value(spell(input)) == numeral_value(input),
    decreases input.len(),
{
    if input.len() == 0 {
        assert(strip_whitespace(input) =~= input);
    } else {
        let front = input.drop_last();
        let c = input.last();
        assert('0' <= c <= '9');
        assert(all_decimal_digits(front)) by {
            assert forall|i: int| 0 <= i < front.len() implies '0' <= #[trigger] front[i]
                <= '9' by {
                assert(front[i] == input[i]);
            }
        }
        lemma_numeral_tokens(front);
        assert(input =~= front.push(c));
        lemma_strip_push(front, c);
        assert(spell(input).drop_last() =~= spell(front));
    }
    assert forall|i: int| 0 <= i < input.len() implies (|c: char| token_of(c) is Some)(
        #[trigger] input[i],
    ) by {
        assert('0' <= input[i] <= '9');
    }
    lemma_leading_unique(input, |c: char| token_of(c) is Some, input.len() as int);
}

/// White space does not matter: inputs that agree once it is stripped stand
/// for the same tree, or fail in the same way.
pub proof fn lemma_parse_ignores_whitespace(a: Seq<char>, b: Seq<char>)
    requires
        strip_whitespace(a) == strip_whitespace(b),
    ensures
        tree_of(a) == tree_of(b),
{
}

/// A white-space character put anywhere into an input changes neither the
/// tree that it stands for nor the way in which it fails.
pub proof fn lemma_parse_skips_whitespace(before: Seq<char>, space: char, after: Seq<char>)
    requires
        white_space(space),
    ensures
        tree_of(before + seq![space] + after) == tree_of(before + after),
{
    assert(before + seq![space] =~= before.push(space));
    lemma_strip_push(before, space);
    lemma_strip_concat(before.push(space), after);
    lemma_strip_concat(before, after);
}

} // verus!
