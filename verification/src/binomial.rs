//! Binomial coefficients as a mathematical function, and the facts about
//! them that the board encoding rests on.

use vstd::prelude::*;

verus! {

/// The binomial coefficient "`n` choose `k`": the number of ways to pick `k`
/// items out of `n`. It is `0` when `n < k` or when either argument is
/// negative.
pub open spec fn binomial(k: int, n: int) -> int
    decreases n,
{
    if k < 0 || n < 0 {
        0
    } else if k == 0 {
        1
    } else if n == 0 {
        0
    } else {
        binomial(k - 1, n - 1) + binomial(k, n - 1)
    }
}

/// Pascal's rule: `binomial(k, n) == binomial(k - 1, n - 1) + binomial(k, n - 1)`
/// for all `k >= 1` and `n >= k`.
pub proof fn lemma_pascal(k: int, n: int)
    requires
        k >= 1,
        n >= k,
    ensures
        binomial(k, n) == binomial(k - 1, n - 1) + binomial(k, n - 1),
{
}

/// A binomial coefficient is never negative.
pub proof fn lemma_binomial_nonneg(k: int, n: int)
    ensures
        binomial(k, n) >= 0,
    decreases n,
{
    if k > 0 && n > 0 {
        lemma_binomial_nonneg(k - 1, n - 1);
        lemma_binomial_nonneg(k, n - 1);
    }
}

/// There is no way to pick more items than there are.
pub proof fn lemma_binomial_zero(k: int, n: int)
    requires
        n < k,
    ensures
        binomial(k, n) == 0,
    decreases n,
{
    if k > 0 && n > 0 {
        lemma_binomial_zero(k - 1, n - 1);
        lemma_binomial_zero(k, n - 1);
    }
}

/// Picking all items can be done in exactly one way.
pub proof fn lemma_binomial_full(n: int)
    requires
        n >= 0,
    ensures
        binomial(n, n) == 1,
    decreases n,
{
    if n > 0 {
        lemma_binomial_full(n - 1);
        lemma_binomial_zero(n, n - 1);
    }
}

/// Picking one item out of `n` can be done in `n` ways.
pub proof fn lemma_binomial_one(n: int)
    requires
        n >= 0,
    ensures
        binomial(1, n) == n,
    decreases n,
{
    if n > 0 {
        lemma_binomial_one(n - 1);
        assert(binomial(0, n - 1) == 1);
    }
}

/// For a fixed `k`, the binomial coefficient does not decrease with `n`.
pub proof fn lemma_binomial_mono(k: int, n: int, m: int)
    requires
        n <= m,
    ensures
        binomial(k, n) <= binomial(k, m),
    decreases m - n,
{
    if n < m {
        lemma_binomial_mono(k, n, m - 1);
        lemma_binomial_nonneg(k - 1, m - 1);
        lemma_binomial_nonneg(k, m);
    }
}

/// The absorption identity: `k * binomial(k, n) == n * binomial(k - 1, n - 1)`.
pub proof fn lemma_binomial_absorb(k: int, n: int)
    requires
        k >= 1,
        n >= 1,
    ensures
        k * binomial(k, n) == n * binomial(k - 1, n - 1),
    decreases n, k,
{
    let a = binomial(k - 1, n - 1);
    let b = binomial(k, n - 1);
    if n == 1 {
        if k == 1 {
        } else {
            lemma_binomial_zero(k - 1, 0);
            lemma_binomial_zero(k, 1);
            assert(k * 0 == 0 && 1 * 0 == 0);
        }
    } else if k == 1 {
        lemma_binomial_one(n);
        assert(1 * n == n * 1);
    } else {
        // k * b == (n - 1) * binomial(k - 1, n - 2)
        lemma_binomial_absorb(k, n - 1);
        // (k - 1) * a == (n - 1) * binomial(k - 2, n - 2)
        lemma_binomial_absorb(k - 1, n - 1);
        let c = binomial(k - 1, n - 2);
        let d = binomial(k - 2, n - 2);
        assert(a == d + c);
        assert(k * (a + b) == n * a) by (nonlinear_arith)
            requires
                k * b == (n - 1) * c,
                (k - 1) * a == (n - 1) * d,
                a == d + c,
        ;
    }
}

/// The ratio between neighbours in a row:
/// `(k + 1) * binomial(k + 1, n) == (n - k) * binomial(k, n)`.
pub proof fn lemma_binomial_ratio(k: int, n: int)
    requires
        k >= 0,
        n >= 1,
    ensures
        (k + 1) * binomial(k + 1, n) == (n - k) * binomial(k, n),
{
    let a = binomial(k + 1, n);
    let b = binomial(k, n);
    let c = binomial(k, n - 1);
    lemma_binomial_absorb(k + 1, n);
    if k == 0 {
        assert(1 * a == n * 1) by (nonlinear_arith)
            requires
                (k + 1) * a == n * c,
                c == 1,
                k == 0,
        ;
        assert((n - 0) * 1 == n) by (nonlinear_arith);
    } else {
        let d = binomial(k - 1, n - 1);
        lemma_binomial_absorb(k, n);
        assert(b == d + c);
        assert((k + 1) * a == (n - k) * b) by (nonlinear_arith)
            requires
                (k + 1) * a == n * c,
                k * b == n * d,
                b == d + c,
        ;
    }
}

/// In the first half of a row the binomial coefficient does not decrease
/// with `k`.
pub proof fn lemma_binomial_mono_k(k: int, n: int)
    requires
        k >= 0,
        n >= 2 * k + 1,
    ensures
        binomial(k, n) <= binomial(k + 1, n),
{
    lemma_binomial_ratio(k, n);
    lemma_binomial_nonneg(k, n);
    lemma_binomial_nonneg(k + 1, n);
    let a = binomial(k + 1, n);
    let b = binomial(k, n);
    assert(b <= a) by (nonlinear_arith)
        requires
            (k + 1) * a == (n - k) * b,
            n - k >= k + 1,
            k >= 0,
            a >= 0,
            b >= 0,
    ;
}

} // verus!
