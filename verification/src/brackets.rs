//! Bracket depth: how loop starts and loop ends nest in a token sequence.

use vstd::prelude::*;
use crate::scanner::Token;

verus! {

/// The number of loops that are open after the first `n` tokens: loop starts
/// minus loop ends. It is negative where a loop end came without a start.
pub open spec fn depth_after(tokens: Seq<Token>, n: int) -> int
    decreases n,
{
    if n <= 0 {
        0
    } else {
        depth_after(tokens, n - 1) + match tokens[n - 1] {
            Token::LoopStart => 1int,
            Token::LoopEnd => -1int,
            _ => 0int,
        }
    }
}

/// Some loop end closes a loop that was never opened.
pub open spec fn has_unmatched_end(tokens: Seq<Token>) -> bool {
    exists|n: int| 0 <= n <= tokens.len() && #[trigger] depth_after(tokens, n) < 0
}

/// Some loop is never closed.
pub open spec fn has_unmatched_start(tokens: Seq<Token>) -> bool {
    depth_after(tokens, tokens.len() as int) > 0
}

/// Every loop end closes an open loop, and every loop is closed.
pub open spec fn balanced(tokens: Seq<Token>) -> bool {
    !has_unmatched_end(tokens) && !has_unmatched_start(tokens)
}

/// The greatest depth reached within the first `n` tokens.
pub open spec fn peak_depth_upto(tokens: Seq<Token>, n: int) -> int
    decreases n,
{
    if n <= 0 {
        0
    } else {
        let before = peak_depth_upto(tokens, n - 1);
        let here = depth_after(tokens, n);
        if here > before {
            here
        } else {
            before
        }
    }
}

/// The bracket nesting depth of a token sequence: the greatest number of
/// loops open at once.
pub open spec fn peak_depth(tokens: Seq<Token>) -> int {
    peak_depth_upto(tokens, tokens.len() as int)
}

/// Tells the tokens that stand for something from `Ignore`.
pub open spec fn is_significant() -> spec_fn(Token) -> bool {
    |token: Token| token != Token::Ignore
}

/// The tokens without those that are ignored.
pub open spec fn significant(tokens: Seq<Token>) -> Seq<Token> {
    tokens.filter(is_significant())
}

/// Depths within the first `n` tokens depend on those tokens alone.
pub proof fn lemma_depth_of_prefix(tokens: Seq<Token>, other: Seq<Token>, n: int)
    requires
        0 <= n <= tokens.len(),
        n <= other.len(),
        forall|i: int| 0 <= i < n ==> tokens[i] == other[i],
    ensures
        depth_after(tokens, n) == depth_after(other, n),
        peak_depth_upto(tokens, n) == peak_depth_upto(other, n),
    decreases n,
{
    if n > 0 {
        lemma_depth_of_prefix(tokens, other, n - 1);
    }
}

/// Inside a span of tokens the depth is that of the whole, counted from the span's start.
pub proof fn lemma_depth_subrange(tokens: Seq<Token>, from: int, to: int, n: int)
    requires
        0 <= from <= to <= tokens.len(),
        0 <= n <= to - from,
    ensures
        depth_after(tokens.subrange(from, to), n) == depth_after(tokens, from + n) - depth_after(
            tokens,
            from,
        ),
    decreases n,
{
    if n > 0 {
        lemma_depth_subrange(tokens, from, to, n - 1);
        assert(tokens.subrange(from, to)[n - 1] == tokens[from + n - 1]);
    }
}

/// The peak is at least every depth up to `n`, at least zero, and is reached.
pub proof fn lemma_peak_bounds(tokens: Seq<Token>, n: int)
    requires
        0 <= n,
    ensures
        forall|m: int| 0 <= m <= n ==> #[trigger] depth_after(tokens, m) <= peak_depth_upto(tokens, n),
        exists|m: int| 0 <= m <= n && #[trigger] depth_after(tokens, m) == peak_depth_upto(tokens, n),
    decreases n,
{
    if n > 0 {
        lemma_peak_bounds(tokens, n - 1);
        let m = choose|m: int|
            0 <= m <= n - 1 && #[trigger] depth_after(tokens, m) == peak_depth_upto(tokens, n - 1);
        if depth_after(tokens, n) > peak_depth_upto(tokens, n - 1) {
            assert(depth_after(tokens, n) == peak_depth_upto(tokens, n));
        } else {
            assert(depth_after(tokens, m) == peak_depth_upto(tokens, n));
        }
    } else {
        assert(depth_after(tokens, 0) == peak_depth_upto(tokens, 0));
    }
}

/// A depth that is reached and never exceeded is the peak.
pub proof fn lemma_peak_is(tokens: Seq<Token>, peak: int)
    requires
        forall|m: int| 0 <= m <= tokens.len() ==> #[trigger] depth_after(tokens, m) <= peak,
        exists|m: int| 0 <= m <= tokens.len() && #[trigger] depth_after(tokens, m) == peak,
    ensures
        peak_depth(tokens) == peak,
{
    lemma_peak_bounds(tokens, tokens.len() as int);
}

/// The depths of a loop written after `front`: those of `front`, then one
/// more than those of `inner` between the brackets, then what `front` and
/// `inner` leave open together.
pub proof fn lemma_loop_profile(front: Seq<Token>, inner: Seq<Token>)
    ensures
        ({
            let whole = (front.push(Token::LoopStart) + inner).push(Token::LoopEnd);
            let base = depth_after(front, front.len() as int);
            &&& forall|n: int|
                0 <= n <= front.len() ==> #[trigger] depth_after(whole, n) == depth_after(front, n)
            &&& forall|k: int|
                0 <= k <= inner.len() ==> #[trigger] depth_after(whole, front.len() + 1 + k)
                    == base + 1 + depth_after(inner, k)
            &&& depth_after(whole, whole.len() as int) == base + depth_after(
                inner,
                inner.len() as int,
            )
        }),
{
    let whole = (front.push(Token::LoopStart) + inner).push(Token::LoopEnd);
    let split = front.len() as int;
    assert forall|n: int| 0 <= n <= front.len() implies #[trigger] depth_after(whole, n)
        == depth_after(front, n) by {
        lemma_depth_of_prefix(whole, front, n);
    }
    assert(whole[split] == Token::LoopStart);
    assert(depth_after(whole, split + 1) == depth_after(whole, split) + 1);
    assert(whole.subrange(split + 1, split + 1 + inner.len()) =~= inner);
    assert forall|k: int| 0 <= k <= inner.len() implies #[trigger] depth_after(
        whole,
        front.len() + 1 + k,
    ) == depth_after(front, split) + 1 + depth_after(inner, k) by {
        lemma_depth_subrange(whole, split + 1, split + 1 + inner.len(), k);
    }
    assert(whole[whole.len() - 1] == Token::LoopEnd);
    assert(depth_after(whole, whole.len() as int) == depth_after(whole, whole.len() - 1) - 1);
    assert(whole.len() - 1 == front.len() + 1 + inner.len());
}

/// What one more token adds to the significant tokens of a prefix.
pub proof fn lemma_significant_step(tokens: Seq<Token>, i: int)
    requires
        0 <= i < tokens.len(),
    ensures
        significant(tokens.take(i + 1)) == if tokens[i] == Token::Ignore {
            significant(tokens.take(i))
        } else {
            significant(tokens.take(i)).push(tokens[i])
        },
{
    assert(tokens.take(i + 1) =~= tokens.take(i).push(tokens[i]));
    tokens.take(i).lemma_filter_push(tokens[i], is_significant());
}

/// Leaving out the ignored tokens changes neither the depth at the end of a
/// prefix nor the peak within it.
pub proof fn lemma_significant_depths(tokens: Seq<Token>, n: int)
    requires
        0 <= n <= tokens.len(),
    ensures
        ({
            let kept = significant(tokens.take(n));
            &&& depth_after(kept, kept.len() as int) == depth_after(tokens, n)
            &&& peak_depth(kept) == peak_depth_upto(tokens, n)
            &&& (forall|m: int| 0 <= m <= n ==> #[trigger] depth_after(tokens, m) >= 0) <==> (
            forall|m: int| 0 <= m <= kept.len() ==> #[trigger] depth_after(kept, m) >= 0)
        }),
    decreases n,
{
    let kept = significant(tokens.take(n));
    if n == 0 {
        assert(tokens.take(0) =~= Seq::<Token>::empty());
        assert(kept.len() == 0) by {
            tokens.take(0).lemma_filter_len(is_significant());
        }
        assert(depth_after(tokens, 0) >= 0);
        assert(depth_after(kept, 0) >= 0);
    } else {
        let shorter = significant(tokens.take(n - 1));
        lemma_significant_depths(tokens, n - 1);
        lemma_significant_step(tokens, n - 1);
        lemma_peak_bounds(tokens, n - 1);
        if tokens[n - 1] == Token::Ignore {
            assert(kept == shorter);
            if forall|m: int| 0 <= m <= n - 1 ==> #[trigger] depth_after(tokens, m) >= 0 {
                assert forall|m: int| 0 <= m <= n implies #[trigger] depth_after(tokens, m)
                    >= 0 by {
                    if m == n {
                        assert(depth_after(tokens, n - 1) >= 0);
                    }
                }
            }
        } else {
            assert(kept == shorter.push(tokens[n - 1]));
            let last = shorter.len() as int;
            assert forall|m: int| 0 <= m <= last implies #[trigger] depth_after(kept, m)
                == depth_after(shorter, m) by {
                lemma_depth_of_prefix(kept, shorter, m);
            }
            lemma_depth_of_prefix(kept, shorter, last);
            assert(depth_after(kept, last + 1) == depth_after(tokens, n));
            if forall|m: int| 0 <= m <= n ==> #[trigger] depth_after(tokens, m) >= 0 {
                assert forall|m: int| 0 <= m <= kept.len() implies #[trigger] depth_after(kept, m)
                    >= 0 by {
                    if m <= last {
                        assert(depth_after(kept, m) == depth_after(shorter, m));
                    }
                }
            }
            if forall|m: int| 0 <= m <= kept.len() ==> #[trigger] depth_after(kept, m) >= 0 {
                assert forall|m: int| 0 <= m <= shorter.len() implies #[trigger] depth_after(
                    shorter,
                    m,
                ) >= 0 by {
                    assert(depth_after(kept, m) == depth_after(shorter, m));
                }
                assert forall|m: int| 0 <= m <= n implies #[trigger] depth_after(tokens, m)
                    >= 0 by {
                    if m == n {
                        assert(depth_after(kept, last + 1) >= 0);
                    }
                }
            }
        }
    }
}

/// The significant tokens are balanced exactly where all the tokens are,
/// and nest as deeply.
pub proof fn lemma_significant_balance(tokens: Seq<Token>)
    ensures
        has_unmatched_end(significant(tokens)) == has_unmatched_end(tokens),
        has_unmatched_start(significant(tokens)) == has_unmatched_start(tokens),
        balanced(significant(tokens)) == balanced(tokens),
        peak_depth(significant(tokens)) == peak_depth(tokens),
{
    lemma_significant_depths(tokens, tokens.len() as int);
    assert(tokens.take(tokens.len() as int) =~= tokens);
}

} // verus!
