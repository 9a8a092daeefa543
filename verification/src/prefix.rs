//! The longest prefix of a sequence whose elements all satisfy a predicate.

use vstd::prelude::*;

verus! {

/// The number of elements at the front of `s` that satisfy `p`.
pub open spec fn leading<T>(s: Seq<T>, p: spec_fn(T) -> bool) -> nat
    decreases s.len(),
{
    if s.len() > 0 && p(s[0]) {
        1 + leading(s.skip(1), p)
    } else {
        0
    }
}

/// The first `leading(s, p)` elements satisfy `p`, and the next one, if there is one, does not.
pub proof fn lemma_leading<T>(s: Seq<T>, p: spec_fn(T) -> bool)
    ensures
        leading(s, p) <= s.len(),
        forall|i: int| 0 <= i < leading(s, p) ==> p(#[trigger] s[i]),
        leading(s, p) < s.len() ==> !p(s[leading(s, p) as int]),
    decreases s.len(),
{
    if s.len() > 0 && p(s[0]) {
        let t = s.skip(1);
        lemma_leading(t, p);
        assert forall|i: int| 0 <= i < leading(s, p) implies p(#[trigger] s[i]) by {
            if i > 0 {
                assert(s[i] == t[i - 1]);
            }
        }
        if leading(s, p) < s.len() {
            assert(s[leading(s, p) as int] == t[leading(t, p) as int]);
        }
    }
}

/// A prefix whose elements satisfy `p` and which no such element follows is the longest one.
pub proof fn lemma_leading_unique<T>(s: Seq<T>, p: spec_fn(T) -> bool, n: int)
    requires
        0 <= n <= s.len(),
        forall|i: int| 0 <= i < n ==> p(#[trigger] s[i]),
        n < s.len() ==> !p(s[n]),
    ensures
        leading(s, p) == n,
    decreases n,
{
    if n > 0 {
        let t = s.skip(1);
        assert(p(s[0]));
        assert forall|i: int| 0 <= i < n - 1 implies p(#[trigger] t[i]) by {
            assert(t[i] == s[i + 1]);
        }
        lemma_leading_unique(t, p, n - 1);
    }
}

/// A prefix that stops inside `s` stops at the same place whatever follows `s`.
pub proof fn lemma_leading_stops<T>(s: Seq<T>, t: Seq<T>, p: spec_fn(T) -> bool)
    requires
        leading(s, p) < s.len(),
    ensures
        leading(s + t, p) == leading(s, p),
{
    lemma_leading(s, p);
    let n = leading(s, p) as int;
    assert forall|i: int| 0 <= i < n implies p(#[trigger] (s + t)[i]) by {
        assert((s + t)[i] == s[i]);
    }
    assert((s + t)[n] == s[n]);
    lemma_leading_unique(s + t, p, n);
}

} // verus!
