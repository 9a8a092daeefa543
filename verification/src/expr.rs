//! Expression trees and their evaluation.

use vstd::prelude::*;
use vstd::arithmetic::div_mod::{
    lemma_add_mod_noop,
    lemma_mod_add_multiples_vanish,
    lemma_small_mod,
    lemma_sub_mod_noop,
};

verus! {

/// A node of the parsed arithmetic tree. A parent owns its children.
#[derive(Debug, PartialEq, Eq)]
pub enum Expr {
    Add(Box<Expr>, Box<Expr>),
    Sub(Box<Expr>, Box<Expr>),
    Number(i32),
}

/// The 32-bit signed integer congruent to `x` modulo 2^32.
pub open spec fn wrap_i32(x: int) -> i32 {
    let r = x % 0x1_0000_0000;
    if r < 0x8000_0000 {
        r as i32
    } else {
        (r - 0x1_0000_0000) as i32
    }
}

impl Expr {
    /// The mathematical value of the tree, over the unbounded integers.
    pub open spec fn value(self) -> int
        decreases self,
    {
        match self {
            Expr::Number(v) => v as int,
            Expr::Add(l, r) => l.value() + r.value(),
            Expr::Sub(l, r) => l.value() - r.value(),
        }
    }
}

/// A value that fits in 32 bits is left as it is.
pub proof fn lemma_wrap_i32_fits(x: int)
    requires
        i32::MIN <= x <= i32::MAX,
    ensures
        wrap_i32(x) == x,
{
    let m = 0x1_0000_0000int;
    if x >= 0 {
        lemma_small_mod(x as nat, m as nat);
    } else {
        lemma_mod_add_multiples_vanish(x, m);
        lemma_small_mod((x + m) as nat, m as nat);
    }
}

/// A wrapped value is congruent to the value it came from.
pub proof fn lemma_wrap_i32_congruent(x: int)
    ensures
        (wrap_i32(x) as int) % 0x1_0000_0000 == x % 0x1_0000_0000,
{
    let m = 0x1_0000_0000int;
    let r = x % m;
    lemma_small_mod(r as nat, m as nat);
    if r >= 0x8000_0000 {
        lemma_mod_add_multiples_vanish(r - m, m);
    }
}

/// Wrapping commutes with addition and subtraction: to wrap the operands
/// first changes nothing.
pub proof fn lemma_wrap_i32_sum(a: int, b: int)
    ensures
        wrap_i32(wrap_i32(a) + wrap_i32(b)) == wrap_i32(a + b),
        wrap_i32(wrap_i32(a) - wrap_i32(b)) == wrap_i32(a - b),
{
    let m = 0x1_0000_0000int;
    let wa = wrap_i32(a) as int;
    let wb = wrap_i32(b) as int;
    lemma_wrap_i32_congruent(a);
    lemma_wrap_i32_congruent(b);
    lemma_add_mod_noop(a, b, m);
    lemma_add_mod_noop(wa, wb, m);
    assert((wa + wb) % m == (a + b) % m);
    lemma_sub_mod_noop(a, b, m);
    lemma_sub_mod_noop(wa, wb, m);
    assert((wa - wb) % m == (a - b) % m);
}

/// What 32-bit two's-complement addition and subtraction return is the exact
/// result, wrapped.
proof fn lemma_wrapping_ops(a: i32, b: i32)
    ensures
        a.wrapping_add(b) == wrap_i32(a + b),
        a.wrapping_sub(b) == wrap_i32(a - b),
{
    let m = 0x1_0000_0000int;
    lemma_wrap_i32_fits(a.wrapping_add(b) as int);
    lemma_wrap_i32_fits(a.wrapping_sub(b) as int);
    lemma_mod_add_multiples_vanish(a + b, m);
    lemma_mod_add_multiples_vanish(a + b - m, m);
    lemma_mod_add_multiples_vanish(a - b, m);
    lemma_mod_add_multiples_vanish(a - b - m, m);
}

/// Reduces a tree to a signed integer. Sums and differences wrap around at 32
/// bits, so the result is the tree's mathematical value reduced into `i32`,
/// and is that value itself whenever it fits.
pub fn evaluate(expr: &Expr) -> (r: i32)
    ensures
        r == wrap_i32(expr.value()),
        i32::MIN <= expr.value() <= i32::MAX ==> r == expr.value(),
    decreases *expr,
{
    proof {
        if i32::MIN <= expr.value() <= i32::MAX {
            lemma_wrap_i32_fits(expr.value());
        }
    }
    match expr {
        Expr::Add(lhs, rhs) => {
            let lhs_value = evaluate(lhs);
            let rhs_value = evaluate(rhs);
            proof {
                lemma_wrapping_ops(lhs_value, rhs_value);
                lemma_wrap_i32_sum(lhs.value(), rhs.value());
            }
            lhs_value.wrapping_add(rhs_value)
        },
        Expr::Sub(lhs, rhs) => {
            let lhs_value = evaluate(lhs);
            let rhs_value = evaluate(rhs);
            proof {
                lemma_wrapping_ops(lhs_value, rhs_value);
                lemma_wrap_i32_sum(lhs.value(), rhs.value());
            }
            lhs_value.wrapping_sub(rhs_value)
        },
        Expr::Number(number) => {
            proof {
                lemma_wrap_i32_fits(*number as int);
            }
            *number
        },
    }
}

} // verus!
