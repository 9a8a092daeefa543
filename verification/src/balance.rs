//! Parentheses are balanced in whatever a rule consumes.

use vstd::prelude::*;
use crate::error::Failure;
use crate::expr::Expr;
use crate::parser::{expr_rule, lemma_rule_consumes, number_rule, proper_suffix, term_rule};
use crate::prefix::lemma_leading;
use crate::token::Token;

verus! {

/// What a token adds to the nesting depth.
pub open spec fn paren_step(t: Token) -> int {
    match t {
        Token::LParen => 1,
        Token::RParen => -1,
        _ => 0,
    }
}

/// The number of left parentheses in `s` minus the number of right ones.
pub open spec fn paren_depth(s: Seq<Token>) -> int
    decreases s.len(),
{
    if s.len() == 0 {
        0
    } else {
        paren_depth(s.drop_last()) + paren_step(s.last())
    }
}

/// Every right parenthesis closes an earlier left one, and none is left open.
pub open spec fn balanced(s: Seq<Token>) -> bool {
    &&& paren_depth(s) == 0
    &&& forall|k: int| 0 <= k <= s.len() ==> paren_depth(#[trigger] s.take(k)) >= 0
}

/// The tokens that a rule took off `s` when it left `rest`.
pub open spec fn consumed(s: Seq<Token>, rest: Seq<Token>) -> Seq<Token> {
    s.take(s.len() - rest.len())
}

/// Whatever a successful rule consumes has balanced parentheses.
pub proof fn lemma_rule_balanced(s: Seq<Token>)
    ensures
        number_rule(s) matches Ok((_, rest)) ==> balanced(consumed(s, rest)),
        term_rule(s) matches Ok((_, rest)) ==> balanced(consumed(s, rest)),
        expr_rule(s) matches Ok((_, rest)) ==> balanced(consumed(s, rest)),
    decreases s.len(),
{
    lemma_number_balanced(s);
    if s.len() > 0 && s[0] == Token::LParen {
        lemma_rule_balanced(s.skip(1));
        lemma_group_balanced(s);
    }
    if let Ok((lhs, rest)) = term_rule(s) {
        lemma_rule_consumes(s);
        if rest.len() > 0 {
            lemma_rule_balanced(rest.skip(1));
            lemma_chain_balanced(s, lhs, rest);
        }
    }
}

/// A number consumes digits only.
proof fn lemma_number_balanced(s: Seq<Token>)
    ensures
        number_rule(s) matches Ok((_, rest)) ==> balanced(consumed(s, rest)),
{
    if let Ok((_, rest)) = number_rule(s) {
        let digits = consumed(s, rest);
        lemma_leading(s, |t: Token| t is Digit);
        assert forall|i: int| 0 <= i < digits.len() implies paren_step(#[trigger] digits[i])
            == 0 by {
            assert(s[i] is Digit);
        }
        lemma_balanced_flat(digits);
    }
}

/// A group is balanced when the expression between its parentheses is.
proof fn lemma_group_balanced(s: Seq<Token>)
    requires
        s.len() > 0,
        s[0] == Token::LParen,
        expr_rule(s.skip(1)) matches Ok((_, rest)) ==> balanced(consumed(s.skip(1), rest)),
    ensures
        term_rule(s) matches Ok((_, rest)) ==> balanced(consumed(s, rest)),
{
    let t = s.skip(1);
    lemma_rule_consumes(t);
    if let Ok((_, rest)) = expr_rule(t) {
        if rest.len() > 0 && rest[0] == Token::RParen {
            let inner = consumed(t, rest);
            lemma_balanced_wrap(inner);
            assert(consumed(s, rest.skip(1)) =~= seq![Token::LParen] + inner
                + seq![Token::RParen]);
        }
    }
}

/// A term, an operator and what follows it are balanced when the two operands are.
proof fn lemma_chain_balanced(s: Seq<Token>, lhs: Expr, rest: Seq<Token>)
    requires
        term_rule(s) == Ok::<(Expr, Seq<Token>), Failure>((lhs, rest)),
        rest.len() > 0,
        proper_suffix(rest, s),
        balanced(consumed(s, rest)),
        term_rule(rest.skip(1)) matches Ok((_, rest2)) ==> balanced(
            consumed(rest.skip(1), rest2),
        ),
        expr_rule(rest.skip(1)) matches Ok((_, rest2)) ==> balanced(
            consumed(rest.skip(1), rest2),
        ),
    ensures
        expr_rule(s) matches Ok((_, rest)) ==> balanced(consumed(s, rest)),
{
    if rest[0] == Token::Plus || rest[0] == Token::Minus {
        let t = rest.skip(1);
        let left = consumed(s, rest) + seq![rest[0]];
        lemma_rule_consumes(t);
        lemma_balanced_flat(seq![rest[0]]);
        lemma_balanced_concat(consumed(s, rest), seq![rest[0]]);
        if let Ok((_, rest2)) = term_rule(t) {
            lemma_balanced_concat(left, consumed(t, rest2));
            assert(consumed(s, rest2) =~= left + consumed(t, rest2));
        }
        if let Ok((_, rest2)) = expr_rule(t) {
            lemma_balanced_concat(left, consumed(t, rest2));
            assert(consumed(s, rest2) =~= left + consumed(t, rest2));
        }
    }
}

/// The depth of a concatenation is the sum of the depths.
proof fn lemma_depth_concat(a: Seq<Token>, b: Seq<Token>)
    ensures
        paren_depth(a + b) == paren_depth(a) + paren_depth(b),
    decreases b.len(),
{
    if b.len() == 0 {
        assert(a + b =~= a);
    } else {
        assert((a + b).drop_last() =~= a + b.drop_last());
        lemma_depth_concat(a, b.drop_last());
    }
}

/// A sequence without parentheses is balanced.
proof fn lemma_balanced_flat(s: Seq<Token>)
    requires
        forall|i: int| 0 <= i < s.len() ==> paren_step(#[trigger] s[i]) == 0,
    ensures
        balanced(s),
    decreases s.len(),
{
    if s.len() > 0 {
        let front = s.drop_last();
        lemma_balanced_flat(front);
        assert forall|k: int| 0 <= k <= s.len() implies paren_depth(#[trigger] s.take(k))
            >= 0 by {
            if k < s.len() {
                assert(s.take(k) =~= front.take(k));
            } else {
                assert(s.take(k) =~= s);
            }
        }
    } else {
        assert forall|k: int| 0 <= k <= s.len() implies paren_depth(#[trigger] s.take(k))
            >= 0 by {
            assert(s.take(k) =~= s);
        }
    }
}

/// Two balanced sequences, one after the other, are balanced.
proof fn lemma_balanced_concat(a: Seq<Token>, b: Seq<Token>)
    requires
        balanced(a),
        balanced(b),
    ensures
        balanced(a + b),
{
    lemma_depth_concat(a, b);
    assert forall|k: int| 0 <= k <= (a + b).len() implies paren_depth(
        #[trigger] (a + b).take(k),
    ) >= 0 by {
        if k <= a.len() {
            assert((a + b).take(k) =~= a.take(k));
        } else {
            assert((a + b).take(k) =~= a + b.take(k - a.len()));
            lemma_depth_concat(a, b.take(k - a.len()));
        }
    }
}

/// A balanced sequence between a left and a right parenthesis is balanced.
proof fn lemma_balanced_wrap(a: Seq<Token>)
    requires
        balanced(a),
    ensures
        balanced(seq![Token::LParen] + a + seq![Token::RParen]),
{
    let open = seq![Token::LParen];
    let close = seq![Token::RParen];
    let whole = open + a + close;
    assert(open.drop_last() =~= Seq::<Token>::empty());
    assert(close.drop_last() =~= Seq::<Token>::empty());
    assert(paren_depth(open) == 1) by {
        reveal_with_fuel(paren_depth, 2);
    }
    assert(paren_depth(close) == -1) by {
        reveal_with_fuel(paren_depth, 2);
    }
    lemma_depth_concat(open, a);
    lemma_depth_concat(open + a, close);
    assert forall|k: int| 0 <= k <= whole.len() implies paren_depth(#[trigger] whole.take(k))
        >= 0 by {
        if k == 0 {
            assert(whole.take(k) =~= Seq::<Token>::empty());
        } else if k <= a.len() + 1 {
            assert(whole.take(k) =~= open + a.take(k - 1));
            lemma_depth_concat(open, a.take(k - 1));
        } else {
            assert(whole.take(k) =~= whole);
        }
    }
}

} // verus!
