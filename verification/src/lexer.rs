//! The tokenizer: characters to tokens.

use vstd::prelude::*;
use crate::error::{Failure, ParseError};
use crate::prefix::{leading, lemma_leading, lemma_leading_stops, lemma_leading_unique};
use crate::token::Token;

verus! {

/// Whether a character beyond ASCII is one that Unicode marks as `White_Space`.
pub uninterp spec fn unicode_white_space(c: char) -> bool;

/// Whether a character is white space: among ASCII characters the space and
/// the controls U+0009 to U+000D, beyond ASCII whatever Unicode lists.
pub open spec fn white_space(c: char) -> bool {
    if (c as u32) < 0x80 {
        c == ' ' || 0x09 <= (c as u32) <= 0x0d
    } else {
        unicode_white_space(c)
    }
}

/// `char::is_whitespace` of the standard library, which is true exactly for
/// the characters that Unicode marks as `White_Space`. The contract spells out
/// the ASCII members of that set; of a character beyond ASCII it only says
/// that the answer depends on the character alone. Together the two clauses
/// say that the result is `white_space(c)`.
pub assume_specification[ char::is_whitespace ](c: char) -> (r: bool)
    ensures
        (c as u32) < 0x80 ==> r == (c == ' ' || 0x09 <= (c as u32) <= 0x0d),
        (c as u32) >= 0x80 ==> r == unicode_white_space(c),
;

/// The value of `c` read as a digit in `radix`: `0`-`9` count 0 to 9 and the
/// letters `a`-`z`, in either case, count 10 to 35; a character is a digit of
/// the radix when its value is below the radix.
pub open spec fn digit_in_radix(c: char, radix: u32) -> Option<u32> {
    let v: int = if '0' <= c <= '9' {
        c as u32 - '0' as u32
    } else if 'a' <= c <= 'z' {
        c as u32 - 'a' as u32 + 10
    } else if 'A' <= c <= 'Z' {
        c as u32 - 'A' as u32 + 10
    } else {
        36
    };
    if v < radix {
        Some(v as u32)
    } else {
        None
    }
}

/// `char::to_digit` of the standard library: the value of the character as a
/// digit of the radix, or `None` if it is no such digit. The call panics on a
/// radix outside 2 to 36, which the precondition leaves out.
pub assume_specification[ char::to_digit ](c: char, radix: u32) -> (r: Option<u32>)
    requires
        2 <= radix <= 36,
    ensures
        r == digit_in_radix(c, radix),
;

/// The token that a character spells, if it belongs to the alphabet.
pub open spec fn token_of(c: char) -> Option<Token> {
    if c == '(' {
        Some(Token::LParen)
    } else if c == ')' {
        Some(Token::RParen)
    } else if c == '+' {
        Some(Token::Plus)
    } else if c == '-' {
        Some(Token::Minus)
    } else if '0' <= c <= '9' {
        Some(Token::Digit((c as u32 - '0' as u32) as u32))
    } else {
        None
    }
}

/// The input without its white space, in the same order.
pub open spec fn strip_whitespace(input: Seq<char>) -> Seq<char> {
    input.filter(|c: char| !white_space(c))
}

/// The number of characters at the front of `s` that belong to the alphabet.
pub open spec fn symbol_run(s: Seq<char>) -> nat {
    leading(s, |c: char| token_of(c) is Some)
}

/// The tokens that a sequence of characters of the alphabet spells.
pub open spec fn spell(s: Seq<char>) -> Seq<Token> {
    s.map_values(|c: char| token_of(c)->0)
}

/// The tokens of an input: white space is dropped, and every character that
/// is left becomes its token, in order. The first character outside the
/// alphabet, if there is one, makes the whole input invalid.
pub open spec fn token_seq(input: Seq<char>) -> Result<Seq<Token>, Failure> {
    let kept = strip_whitespace(input);
    let n = symbol_run(kept) as int;
    if n == kept.len() {
        Ok(spell(kept))
    } else {
        Err(Failure::InvalidToken(kept[n]))
    }
}

/// The characters that spell a sequence of tokens.
pub open spec fn unspell(tokens: Seq<Token>) -> Seq<char> {
    tokens.map_values(|t: Token| t.glyph())
}

/// Stripping goes character by character: one more character at the end is
/// dropped if it is white space and kept otherwise.
pub proof fn lemma_strip_push(s: Seq<char>, c: char)
    ensures
        strip_whitespace(s.push(c)) == if white_space(c) {
            strip_whitespace(s)
        } else {
            strip_whitespace(s).push(c)
        },
{
    s.lemma_filter_push(c, |c: char| !white_space(c));
}

/// Stripping a concatenation strips its parts.
pub proof fn lemma_strip_concat(s: Seq<char>, t: Seq<char>)
    ensures
        strip_whitespace(s + t) == strip_whitespace(s) + strip_whitespace(t),
{
    Seq::filter_distributes_over_add(s, t, |c: char| !white_space(c));
}

/// One more character after a run of symbols extends the run if it is a symbol and ends it if not.
proof fn lemma_symbol_run_push(s: Seq<char>, c: char)
    requires
        symbol_run(s) == s.len(),
    ensures
        symbol_run(s.push(c)) == if token_of(c) is Some {
            s.len() + 1
        } else {
            s.len()
        },
        token_of(c) is Some ==> spell(s.push(c)) == spell(s).push(token_of(c)->0),
{
    let p = |c: char| token_of(c) is Some;
    lemma_leading(s, p);
    let t = s.push(c);
    assert forall|i: int| 0 <= i < s.len() implies p(#[trigger] t[i]) by {
        assert(t[i] == s[i]);
    }
    if token_of(c) is Some {
        lemma_leading_unique(t, p, t.len() as int);
        assert(spell(t) =~= spell(s).push(token_of(c)->0));
    } else {
        lemma_leading_unique(t, p, s.len() as int);
    }
}

/// Converts the input into its tokens in a single pass from left to right.
///
/// The result is `token_seq` of the input. On success the tokens spell the
/// input without its white space, and every digit token carries a value
/// below ten.
pub fn tokenize(input: &String) -> (r: Result<Vec<Token>, ParseError>)
    ensures
        match r {
            Ok(tokens) => token_seq(input@) == Ok::<Seq<Token>, Failure>(tokens@),
            Err(err) => token_seq(input@) == Err::<Seq<Token>, Failure>(err@),
        },
        r matches Ok(tokens) ==> {
            &&& unspell(tokens@) == strip_whitespace(input@)
            &&& forall|i: int| 0 <= i < tokens@.len() ==> (#[trigger] tokens@[i]).wf()
        },
{
    let mut tokens: Vec<Token> = Vec::new();
    proof {
        assert(input@.take(0) =~= Seq::<char>::empty());
    }
    for c in it: input.as_str().chars()
        invariant
            it.seq() == input@,
            symbol_run(strip_whitespace(input@.take(it.index()))) == strip_whitespace(
                input@.take(it.index()),
            ).len(),
            tokens@ == spell(strip_whitespace(input@.take(it.index()))),
    {
        let ghost read = input@.take(it.index());
        let ghost kept = strip_whitespace(read);
        proof {
            assert(c == input@[it.index()]);
            assert(input@.take(it.index() + 1) =~= read.push(c));
            lemma_strip_push(read, c);
        }
        if !c.is_whitespace() {
            proof {
                lemma_symbol_run_push(kept, c);
            }
            let token = match c {
                '(' => Token::LParen,
                ')' => Token::RParen,
                '+' => Token::Plus,
                '-' => Token::Minus,
                _ => match c.to_digit(10) {
                    Some(d) => Token::Digit(d),
                    None => {
                        proof {
                            let rest = input@.skip(it.index() + 1);
                            assert(input@ =~= read.push(c) + rest);
                            lemma_strip_concat(read.push(c), rest);
                            lemma_leading_stops(
                                kept.push(c),
                                strip_whitespace(rest),
                                |c: char| token_of(c) is Some,
                            );
                            assert(strip_whitespace(input@)[kept.len() as int] == c);
                        }
                        return Err(ParseError::InvalidToken(c));
                    },
                },
            };
            assert(token_of(c) == Some(token));
            tokens.push(token);
        }
    }
    proof {
        assert(input@.take(input@.len() as int) =~= input@);
        lemma_tokens_spell_input(input@);
    }
    Ok(tokens)
}

/// Tokenizing loses nothing but white space: the characters that spell the
/// tokens, put together again, are the input without its white space. Every
/// token that comes out is well formed.
pub proof fn lemma_tokens_spell_input(input: Seq<char>)
    ensures
        token_seq(input) matches Ok(tokens) ==> {
            &&& unspell(tokens) == strip_whitespace(input)
            &&& forall|i: int| 0 <= i < tokens.len() ==> (#[trigger] tokens[i]).wf()
        },
{
    let kept = strip_whitespace(input);
    if let Ok(tokens) = token_seq(input) {
        lemma_leading(kept, |c: char| token_of(c) is Some);
        assert forall|i: int| 0 <= i < kept.len() implies {
            &&& (#[trigger] tokens[i]).glyph() == kept[i]
            &&& tokens[i].wf()
        } by {
            let c = kept[i];
            assert(token_of(c) is Some);
            assert(tokens[i] == token_of(c)->0);
        }
        assert(unspell(tokens) =~= kept);
    }
}

/// White space does not matter: inputs that agree once it is stripped have the same tokens.
pub proof fn lemma_tokens_ignore_whitespace(a: Seq<char>, b: Seq<char>)
    requires
        strip_whitespace(a) == strip_whitespace(b),
    ensures
        token_seq(a) == token_seq(b),
{
}

} // verus!
