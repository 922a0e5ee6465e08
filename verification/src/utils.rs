//! Combinatorial helpers: binomial coefficients, their inverse, and the
//! division that the sowing rule uses.

use vstd::prelude::*;
use vstd::arithmetic::div_mod::{
    lemma_fundamental_div_mod, lemma_fundamental_div_mod_converse, lemma_mod_bound,
};
use crate::binomial::{
    binomial, lemma_binomial_absorb, lemma_binomial_mono, lemma_binomial_mono_k,
    lemma_binomial_nonneg, lemma_binomial_one, lemma_binomial_zero,
};
use crate::coding::{
    below, class_size, class_start, lemma_below_mono, lemma_class_next, lemma_class_within,
    lemma_under_nonneg, n_codes,
};
use crate::{FPITS, PITS, SEEDS};

verus! {

/// The largest binomial coefficient that the board encoding needs:
/// `FPITS` out of `FPITS + SEEDS`.
pub const BINOM_MAX: usize = 76_904_685;

/// `BINOM_MAX` is the binomial coefficient `FPITS` out of `FPITS + SEEDS`.
pub proof fn lemma_binomial_top()
    ensures
        binomial(FPITS as int, (FPITS + SEEDS) as int) == BINOM_MAX,
{
    lemma_binomial_one(33);
    lemma_binomial_absorb(2, 34);
    lemma_binomial_absorb(3, 35);
    lemma_binomial_absorb(4, 36);
    lemma_binomial_absorb(5, 37);
    lemma_binomial_absorb(6, 38);
    lemma_binomial_absorb(7, 39);
    lemma_binomial_absorb(8, 40);
}

/// Every binomial coefficient within the configured board size is at most
/// `BINOM_MAX`.
pub proof fn lemma_binomial_bound(k: int, n: int)
    requires
        0 <= k <= FPITS,
        n <= FPITS + SEEDS,
    ensures
        0 <= binomial(k, n) <= BINOM_MAX,
    decreases FPITS - k,
{
    lemma_binomial_nonneg(k, n);
    let top = (FPITS + SEEDS) as int;
    lemma_binomial_mono(k, n, top);
    if k == FPITS {
        lemma_binomial_top();
    } else {
        lemma_binomial_mono_k(k, top);
        lemma_binomial_bound(k + 1, top);
    }
}

/// The binomial coefficient `n` choose `k`; `0` if `n < k`.
pub fn binom(k: usize, n: usize) -> (res: usize)
    requires
        k <= FPITS,
        n <= FPITS + SEEDS,
    ensures
        res == binomial(k as int, n as int),
        res <= BINOM_MAX,
{
    proof {
        lemma_binomial_bound(k as int, n as int);
    }
    if n < k {
        proof {
            lemma_binomial_zero(k as int, n as int);
        }
        return 0;
    }
    let m: usize = n - k;
    let mut p: usize = 1;
    let mut i: usize = 0;
    while i < k
        invariant
            i <= k,
            k <= FPITS,
            m + k <= FPITS + SEEDS,
            p == binomial(i as int, (m + i) as int),
        decreases k - i,
    {
        i = i + 1;
        proof {
            let c = binomial(i as int, (m + i) as int);
            lemma_binomial_absorb(i as int, (m + i) as int);
            lemma_binomial_bound(i as int, (m + i) as int);
            assert(p * (m + i) == i * c) by (nonlinear_arith)
                requires
                    i * c == (m + i) * p,
            ;
            assert(i * c <= 8 * BINOM_MAX) by (nonlinear_arith)
                requires
                    0 <= c <= BINOM_MAX,
                    0 < i <= 8,
            ;
            assert((i * c) / (i as int) == c) by (nonlinear_arith)
                requires
                    i > 0,
            ;
        }
        p = p * (m + i) / i;
    }
    p
}

/// The largest `n` with `binom(k, n) <= x`, among the `n` that the
/// configured board size admits, together with `binom(k, n)`.
pub fn binom_maxinv(k: usize, x: usize) -> (res: (usize, usize))
    requires
        1 <= k <= FPITS,
    ensures
        k - 1 <= res.0 <= FPITS + SEEDS,
        res.1 == binomial(k as int, res.0 as int),
        res.1 <= x,
        res.0 == FPITS + SEEDS || binomial(k as int, res.0 + 1) > x,
{
    let mut a: usize = k - 1;
    let mut b: usize = FPITS + SEEDS + 1;
    proof {
        lemma_binomial_zero(k as int, a as int);
    }
    while b - a > 1
        invariant
            1 <= k <= FPITS,
            k - 1 <= a < b <= FPITS + SEEDS + 1,
            binomial(k as int, a as int) <= x,
            b == FPITS + SEEDS + 1 || binomial(k as int, b as int) > x,
        decreases b - a,
    {
        let c: usize = (a + b + 1) / 2;
        if binom(k, c) <= x {
            a = c;
        } else {
            b = c;
        }
    }
    (a, binom(k, a))
}

/// The largest `x` below `cap` with `below(k, x, false) <= g`, together
/// with `below(k, x, false)`: the search that `binom_maxinv` makes, for
/// positions that must leave an opponent pit empty.
pub fn dense_maxinv(k: usize, g: usize, cap: usize) -> (res: (usize, usize))
    requires
        PITS <= k <= FPITS,
        k <= cap <= FPITS + SEEDS,
    ensures
        k - 1 <= res.0 < cap,
        res.1 == below(k as int, res.0 as int, false),
        res.1 <= g,
        res.0 == cap - 1 || below(k as int, res.0 + 1, false) > g,
{
    let shift: usize = k - PITS;
    let mut a: usize = k - 1;
    let mut b: usize = cap;
    proof {
        lemma_binomial_zero(k as int, a as int);
        lemma_binomial_zero(k as int, a - shift);
    }
    while b - a > 1
        invariant
            PITS <= k <= FPITS,
            shift == k - PITS,
            k - 1 <= a < b <= cap,
            cap <= FPITS + SEEDS,
            below(k as int, a as int, false) <= g,
            b == cap || below(k as int, b as int, false) > g,
        decreases b - a,
    {
        let c: usize = a + (b - a) / 2;
        proof {
            lemma_below_mono(k as int, c as int, c as int, false);
        }
        let v: usize = binom(k, c) - binom(k, c - shift);
        if v <= g {
            a = c;
        } else {
            b = c;
        }
    }
    proof {
        lemma_below_mono(k as int, a as int, a as int, false);
    }
    (a, binom(k, a) - binom(k, a - shift))
}

/// The table has a board, and no more boards than `BINOM_MAX`.
pub proof fn lemma_n_codes_bound()
    ensures
        0 < n_codes() <= BINOM_MAX,
        0 <= class_size(SEEDS - 1) <= BINOM_MAX,
{
    lemma_class_next(SEEDS as int);
    lemma_class_next(SEEDS - 1);
    lemma_class_within(0);
    crate::coding::lemma_first_class();
    lemma_binomial_bound(FPITS as int, (FPITS + SEEDS) as int);
    lemma_binomial_nonneg(FPITS as int, (SEEDS + PITS) as int);
    lemma_binomial_bound(FPITS - 1, SEEDS + FPITS - 2);
    lemma_binomial_nonneg(FPITS - 1, SEEDS + PITS - 2);
}

/// The number of boards of the table with `n` seeds.
pub fn n_boards(n: usize) -> (res: usize)
    requires
        n <= SEEDS,
    ensures
        res == class_size(n as int),
        res <= BINOM_MAX,
{
    proof {
        lemma_under_nonneg(FPITS - 1, n + FPITS - 1, false);
    }
    binom(FPITS - 1, n + FPITS - 1) - binom(FPITS - 1, n + PITS - 1)
}

/// The code of the first board with `n` seeds.
pub fn enc_min(n: usize) -> (res: usize)
    requires
        n <= SEEDS,
    ensures
        res == class_start(n as int),
        res <= BINOM_MAX,
{
    proof {
        lemma_below_mono(FPITS as int, n + FPITS - 1, n + FPITS - 1, false);
        lemma_class_next(SEEDS - 1);
        lemma_below_mono(FPITS as int, SEEDS + FPITS - 2, SEEDS + FPITS - 2, false);
    }
    let raw: usize = binom(FPITS, n + FPITS - 1) - binom(FPITS, n + PITS - 1);
    if n >= SEEDS {
        raw - n_boards(SEEDS - 1)
    } else {
        raw
    }
}

/// The number of boards of the table: every code is below it.
pub fn nboards() -> (res: usize)
    ensures
        res == n_codes(),
        0 < res <= BINOM_MAX,
{
    proof {
        lemma_n_codes_bound();
    }
    enc_min(SEEDS) + n_boards(SEEDS)
}

/// Quotient and remainder of `n` by `d`, with the remainder in `1..=d`.
pub open spec fn divmod_spec(n: int, d: int) -> (int, int) {
    ((n - 1) / d, (n - 1) % d + 1)
}

/// What `divmod_spec` gives: a quotient `q >= 0` and a remainder `r` in
/// `1..=d` with `n == q * d + r`.
pub proof fn lemma_divmod_spec(n: int, d: int)
    requires
        n >= 1,
        d >= 1,
    ensures
        divmod_spec(n, d).0 >= 0,
        1 <= divmod_spec(n, d).1 <= d,
        n == divmod_spec(n, d).0 * d + divmod_spec(n, d).1,
{
    lemma_fundamental_div_mod(n - 1, d);
    lemma_mod_bound(n - 1, d);
    let q = (n - 1) / d;
    assert(d * q == q * d) by (nonlinear_arith);
    assert(q >= 0) by (nonlinear_arith)
        requires
            n - 1 == d * q + (n - 1) % d,
            0 <= (n - 1) % d < d,
            n >= 1,
            d >= 1,
    ;
}

/// `divmod_spec` gives back the quotient and remainder that a number was
/// made of.
pub proof fn lemma_divmod_unique(q: int, r: int, d: int)
    requires
        d >= 1,
        1 <= r <= d,
    ensures
        divmod_spec(q * d + r, d) == (q, r),
{
    lemma_fundamental_div_mod_converse(q * d + r - 1, d, q, r - 1);
}

/// Euclidean division whose remainder lies in `1..=d` instead of `0..d`.
pub fn divmod(n: u8, d: u8) -> (res: (u8, usize))
    requires
        n >= 1,
        d >= 1,
    ensures
        res.0 as int == divmod_spec(n as int, d as int).0,
        res.1 as int == divmod_spec(n as int, d as int).1,
        1 <= res.1 <= d,
        n == res.0 * d + res.1,
{
    let m: u8 = n - 1;
    let q: u8 = m / d;
    let r: u8 = m % d;
    proof {
        assert(m as int == d as int * (m as int / d as int) + m as int % d as int)
            by (nonlinear_arith)
            requires
                d >= 1,
        ;
        assert((m as int / d as int) * d as int == d as int * (m as int / d as int))
            by (nonlinear_arith);
    }
    (q, (r + 1) as usize)
}

} // verus!
