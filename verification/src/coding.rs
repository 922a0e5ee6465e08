//! The dense code of a board, as a mathematical function, and the proof
//! that it numbers the boards of the table one to one.
//!
//! A board with seed counts `s[0], .., s[FPITS - 1]` is first turned into
//! the strictly increasing sequence of its *positions*
//! `p[i] = s[0] + .. + s[i] + i`. Boards are ordered by seed class and,
//! within a class, by their positions read from the last to the first. The
//! code of a board is the number of boards of the table before it in this
//! order. The table leaves out the boards whose opponent pits all hold a
//! seed, and the whole class of `SEEDS - 1` seeds.

use vstd::prelude::*;
use crate::binomial::{binomial, lemma_binomial_mono, lemma_binomial_nonneg, lemma_binomial_zero};
use crate::rules::{is_board, is_position, sum_upto, total};
use crate::{FPITS, PITS, SEEDS};

verus! {

/// The positions of a board: the sum of the first `i + 1` seed counts,
/// plus `i`.
pub open spec fn positions(s: Seq<int>) -> Seq<int> {
    Seq::new(FPITS as nat, |i: int| sum_upto(s, i + 1) + i)
}

/// The board that has the positions `ps`.
pub open spec fn board_of(ps: Seq<int>) -> Seq<int> {
    Seq::new(
        FPITS as nat,
        |i: int|
            if i == 0 {
                ps[0]
            } else {
                ps[i] - ps[i - 1] - 1
            },
    )
}

/// The positions `ps` are those of a board: they start at `0` or later and
/// increase strictly.
pub open spec fn ascending(ps: Seq<int>) -> bool {
    &&& ps.len() == FPITS
    &&& ps[0] >= 0
    &&& forall|i: int| 1 <= i < FPITS ==> ps[i - 1] < #[trigger] ps[i]
}

/// Pit `m` of the board with positions `ps` is empty.
pub open spec fn closed_gap(ps: Seq<int>, m: int) -> bool {
    ps[m] == ps[m - 1] + 1
}

/// Some pit of the opponent is empty.
pub open spec fn gapped(ps: Seq<int>) -> bool {
    exists|m: int| PITS <= m < FPITS && #[trigger] closed_gap(ps, m)
}

/// An opponent pit after pit `i + 1` is empty: the positions up to `i` are
/// then free of any condition.
pub open spec fn free_at(ps: Seq<int>, i: int) -> bool {
    exists|m: int| i + 2 <= m < FPITS && PITS <= m && #[trigger] closed_gap(ps, m)
}

/// The number of ways to place `k` positions below `x`. If they are not
/// `free`, an opponent pit among the first `k` pits must be empty.
pub open spec fn below(k: int, x: int, free: bool) -> int {
    binomial(k, x) - if free {
        0
    } else {
        binomial(k, x - (k - PITS))
    }
}

/// The number of ways to place `k` positions below the position `c` of pit
/// `k`. If they are not `free`, an opponent pit among the first `k + 1`
/// pits must be empty.
pub open spec fn under(k: int, c: int, free: bool) -> int {
    binomial(k, c) - if free {
        0
    } else {
        binomial(k, c - (k - PITS + 1))
    }
}

/// What position `i` adds to the rank of a board: the number of boards
/// that agree with it after pit `i` and have a lower position there.
pub open spec fn digit(ps: Seq<int>, i: int) -> int {
    below(i + 1, ps[i], free_at(ps, i))
}

/// The sum of the digits of the first `k` positions.
pub open spec fn low_rank(ps: Seq<int>, k: int) -> int
    decreases k,
{
    if k <= 0 {
        0
    } else {
        low_rank(ps, k - 1) + digit(ps, k - 1)
    }
}

/// The sum of the digits of the positions from `k` on.
pub open spec fn high_rank(ps: Seq<int>, k: int) -> int
    decreases FPITS - k,
{
    if k >= FPITS {
        0
    } else {
        digit(ps, k) + high_rank(ps, k + 1)
    }
}

/// The number of boards of the table with `n` seeds.
pub open spec fn class_size(n: int) -> int {
    under(FPITS - 1, n + FPITS - 1, false)
}

/// The code of the first board with `n` seeds: the number of boards of the
/// table with fewer seeds.
pub open spec fn class_start(n: int) -> int {
    below(FPITS as int, n + FPITS - 1, false) - if n >= SEEDS {
        class_size(SEEDS - 1)
    } else {
        0
    }
}

/// The number of boards of the table.
pub open spec fn n_codes() -> int {
    class_start(SEEDS as int) + class_size(SEEDS as int)
}

/// The board belongs to the table: it holds at most `SEEDS` seeds and not
/// `SEEDS - 1`, and some pit of the opponent is empty.
pub open spec fn reachable(s: Seq<int>) -> bool {
    &&& is_position(s)
    &&& total(s) != SEEDS - 1
    &&& exists|m: int| PITS <= m < FPITS && #[trigger] s[m] == 0
}

/// The code of a board of the table.
pub open spec fn code(s: Seq<int>) -> int {
    low_rank(positions(s), FPITS as int) - if total(s) == SEEDS {
        class_size(SEEDS - 1)
    } else {
        0
    }
}

/// Pascal's rule for every `n`, negative ones too.
pub proof fn lemma_pascal_any(k: int, n: int)
    requires
        k >= 1,
    ensures
        binomial(k, n + 1) == binomial(k - 1, n) + binomial(k, n),
{
    if n < 0 {
        lemma_binomial_zero(k, n + 1);
        lemma_binomial_zero(k, n);
        assert(binomial(k - 1, n) == 0);
    }
}

/// One more place below: `below(k, x + 1) == below(k, x) + under(k - 1, x)`.
pub proof fn lemma_below_step(k: int, x: int, free: bool)
    requires
        k >= 1,
    ensures
        below(k, x + 1, free) == below(k, x, free) + under(k - 1, x, free),
{
    lemma_pascal_any(k, x);
    lemma_pascal_any(k, x - (k - PITS));
}

/// The places under a position are those below the place before it, and
/// those that take that place: `under(k, c) == below(k, c - 1) +
/// binomial(k - 1, c - 1)`.
pub proof fn lemma_under_split(k: int, c: int, free: bool)
    requires
        k >= 1,
    ensures
        under(k, c, free) == below(k, c - 1, free) + binomial(k - 1, c - 1),
{
    lemma_pascal_any(k, c - 1);
}

/// `under` is never negative.
pub proof fn lemma_under_nonneg(k: int, c: int, free: bool)
    requires
        free || k + 1 >= PITS,
    ensures
        under(k, c, free) >= 0,
{
    lemma_binomial_nonneg(k, c);
    if !free {
        lemma_binomial_mono(k, c - (k - PITS + 1), c);
    }
}

/// `below` does not decrease with the bound, and is never negative.
pub proof fn lemma_below_mono(k: int, x: int, y: int, free: bool)
    requires
        x <= y,
        free || k >= PITS,
    ensures
        0 <= below(k, x, free) <= below(k, y, free),
    decreases y - x,
{
    lemma_binomial_nonneg(k, x);
    if !free {
        lemma_binomial_mono(k, x - (k - PITS), x);
    }
    if x < y {
        lemma_below_mono(k, x, y - 1, free);
        if free {
            lemma_binomial_mono(k, y - 1, y);
        } else {
            lemma_below_step(k, y - 1, free);
            lemma_under_nonneg(k - 1, y - 1, free);
        }
    }
}

/// Whether the positions up to `k - 2` are free: they are if those up to
/// `k - 1` are, or if pit `k` is an empty pit of the opponent.
pub proof fn lemma_free_step(ps: Seq<int>, k: int)
    ensures
        free_at(ps, k - 2) <==> free_at(ps, k - 1) || (PITS <= k < FPITS && closed_gap(ps, k)),
{
    if free_at(ps, k - 2) {
        let m = choose|m: int| k <= m < FPITS && PITS <= m && #[trigger] closed_gap(ps, m);
        if m > k {
            assert(k + 1 <= m < FPITS && PITS <= m && closed_gap(ps, m));
        }
    }
    if free_at(ps, k - 1) {
        let m = choose|m: int| k + 1 <= m < FPITS && PITS <= m && #[trigger] closed_gap(ps, m);
        assert(k <= m < FPITS && PITS <= m && closed_gap(ps, m));
    }
    if PITS <= k < FPITS && closed_gap(ps, k) {
        assert(k <= k < FPITS && PITS <= k && closed_gap(ps, k));
    }
}

/// If the positions up to `k - 1` are not free, the empty pit of the
/// opponent is among the first `k + 1` pits.
pub proof fn lemma_gap_low(ps: Seq<int>, k: int)
    requires
        gapped(ps),
        !free_at(ps, k - 1),
    ensures
        k >= PITS,
        (k >= FPITS || !closed_gap(ps, k)) ==> k - 1 >= PITS,
{
    let m = choose|m: int| PITS <= m < FPITS && #[trigger] closed_gap(ps, m);
    if m >= k + 1 {
        assert(k + 1 <= m < FPITS && PITS <= m && closed_gap(ps, m));
    }
}

/// The rank that the first `k` positions add lies between the digit of
/// the last of them and what the next place would give.
pub proof fn lemma_rank_bounds(ps: Seq<int>, k: int)
    requires
        ascending(ps),
        gapped(ps),
        0 <= k <= FPITS,
    ensures
        0 <= low_rank(ps, k),
        k < FPITS ==> low_rank(ps, k) < under(k, ps[k], free_at(ps, k - 1)),
        k >= 1 ==> below(k, ps[k - 1], free_at(ps, k - 1)) <= low_rank(ps, k),
        k >= 1 && (free_at(ps, k - 1) || k == FPITS || !closed_gap(ps, k)) ==> low_rank(ps, k)
            < below(k, ps[k - 1] + 1, free_at(ps, k - 1)),
    decreases k,
{
    let z = free_at(ps, k - 1);
    if k == 0 {
        lemma_free_step(ps, 1);
        if !z {
            lemma_gap_low(ps, 0);
        }
        assert(binomial(0, ps[0]) == 1);
    } else {
        let x = ps[k - 1];
        let zz = free_at(ps, k - 2);
        lemma_rank_bounds(ps, k - 1);
        lemma_free_step(ps, k);
        if !z {
            lemma_gap_low(ps, k);
        }
        lemma_below_mono(k, x, x, z);
        if z || k == FPITS || !closed_gap(ps, k) {
            assert(zz == z);
            lemma_below_step(k, x, z);
            if k < FPITS {
                let c = ps[k];
                lemma_under_split(k, c, z);
                lemma_binomial_nonneg(k - 1, c - 1);
                if z {
                    lemma_binomial_mono(k, x + 1, c);
                } else {
                    lemma_below_mono(k, x + 1, c - 1, z);
                }
            }
        } else {
            let c = ps[k];
            assert(zz);
            assert(x == c - 1);
            lemma_under_split(k, c, z);
        }
    }
}

/// Whether positions are free depends on the later positions only.
pub proof fn lemma_free_frame(a: Seq<int>, b: Seq<int>, i: int)
    requires
        forall|m: int| i + 1 <= m < FPITS ==> a[m] == b[m],
    ensures
        free_at(a, i) == free_at(b, i),
{
    if free_at(a, i) {
        let m = choose|m: int| i + 2 <= m < FPITS && PITS <= m && #[trigger] closed_gap(a, m);
        assert(closed_gap(b, m));
    }
    if free_at(b, i) {
        let m = choose|m: int| i + 2 <= m < FPITS && PITS <= m && #[trigger] closed_gap(b, m);
        assert(closed_gap(a, m));
    }
}

/// The digits of the positions from `k` on depend on those positions only.
pub proof fn lemma_high_frame(a: Seq<int>, b: Seq<int>, k: int)
    requires
        0 <= k,
        forall|m: int| k <= m < FPITS ==> a[m] == b[m],
    ensures
        high_rank(a, k) == high_rank(b, k),
    decreases FPITS - k,
{
    if k < FPITS {
        lemma_high_frame(a, b, k + 1);
        lemma_free_frame(a, b, k);
    }
}

/// The digits of all positions add up to the same, from either end.
pub proof fn lemma_rank_split(ps: Seq<int>, k: int)
    requires
        0 <= k <= FPITS,
    ensures
        low_rank(ps, k) + high_rank(ps, k) == low_rank(ps, FPITS as int),
    decreases FPITS - k,
{
    if k < FPITS {
        lemma_rank_split(ps, k + 1);
    }
}

/// Two boards whose positions agree from `k` on, and whose first `k`
/// positions add the same rank, are the same board.
pub proof fn lemma_digits_agree(a: Seq<int>, b: Seq<int>, k: int)
    requires
        ascending(a),
        ascending(b),
        gapped(a),
        gapped(b),
        0 <= k <= FPITS,
        forall|m: int| k <= m < FPITS ==> a[m] == b[m],
        low_rank(a, k) == low_rank(b, k),
    ensures
        a == b,
    decreases k,
{
    if k == 0 {
        assert(a =~= b);
    } else {
        lemma_free_frame(a, b, k - 1);
        let z = free_at(a, k - 1);
        lemma_rank_bounds(a, k);
        lemma_rank_bounds(b, k);
        if !z {
            lemma_gap_low(a, k);
        }
        if a[k - 1] < b[k - 1] {
            assert(k == FPITS || !closed_gap(a, k));
            lemma_below_mono(k, a[k - 1] + 1, b[k - 1], z);
            assert(false);
        }
        if b[k - 1] < a[k - 1] {
            assert(k == FPITS || !closed_gap(b, k));
            lemma_below_mono(k, b[k - 1] + 1, a[k - 1], z);
            assert(false);
        }
        lemma_digits_agree(a, b, k - 1);
    }
}

/// The positions of a board increase strictly, a pit is empty where they
/// leave no gap, and the last one tells the number of seeds.
pub proof fn lemma_positions(s: Seq<int>)
    requires
        is_board(s),
    ensures
        ascending(positions(s)),
        positions(s)[FPITS - 1] == total(s) + FPITS - 1,
        forall|m: int| 1 <= m < FPITS ==> (#[trigger] closed_gap(positions(s), m) <==> s[m] == 0),
        board_of(positions(s)) == s,
{
    let ps = positions(s);
    assert forall|i: int| 1 <= i < FPITS implies ps[i - 1] < #[trigger] ps[i] by {
        assert(sum_upto(s, i + 1) == sum_upto(s, i) + s[i]);
    }
    assert(sum_upto(s, 1) == sum_upto(s, 0) + s[0]);
    assert forall|m: int| 1 <= m < FPITS implies (#[trigger] closed_gap(ps, m) <==> s[m] == 0) by {
        assert(sum_upto(s, m + 1) == sum_upto(s, m) + s[m]);
    }
    assert forall|i: int| 0 <= i < FPITS implies board_of(ps)[i] == s[i] by {
        assert(sum_upto(s, i + 1) == sum_upto(s, i) + s[i]);
    }
    assert(board_of(ps) =~= s);
}

/// The seeds in the first `i` pits of the board with positions `ps`.
pub proof fn lemma_board_sums(ps: Seq<int>, i: int)
    requires
        ps.len() == FPITS,
        1 <= i <= FPITS,
    ensures
        sum_upto(board_of(ps), i) == ps[i - 1] - (i - 1),
    decreases i,
{
    if i > 1 {
        lemma_board_sums(ps, i - 1);
    } else {
        assert(sum_upto(board_of(ps), 0) == 0);
    }
}

/// The board with positions `ps` has these positions, is a board if they
/// are ascending, and holds as many seeds as the last of them tells.
pub proof fn lemma_board_of(ps: Seq<int>)
    requires
        ascending(ps),
    ensures
        positions(board_of(ps)) == ps,
        is_board(board_of(ps)),
        total(board_of(ps)) == ps[FPITS - 1] - (FPITS - 1),
{
    let s = board_of(ps);
    assert forall|i: int| 0 <= i < FPITS implies positions(s)[i] == ps[i] by {
        lemma_board_sums(ps, i + 1);
    }
    assert(positions(s) =~= ps);
    lemma_board_sums(ps, FPITS as int);
    assert forall|k: int| 0 <= k < FPITS implies #[trigger] s[k] >= 0 by {
        if k > 0 {
            assert(ps[k - 1] < ps[k]);
        }
    }
}

/// A board of the table has ascending positions with an empty pit of the
/// opponent among them.
pub proof fn lemma_reachable_positions(s: Seq<int>)
    requires
        reachable(s),
    ensures
        ascending(positions(s)),
        gapped(positions(s)),
        !free_at(positions(s), FPITS - 1),
        !free_at(positions(s), FPITS - 2),
{
    lemma_positions(s);
    let m = choose|m: int| PITS <= m < FPITS && #[trigger] s[m] == 0;
    assert(closed_gap(positions(s), m));
}

/// The first code after a class is the first code of the next one.
pub proof fn lemma_class_next(n: int)
    ensures
        below(FPITS as int, n + FPITS - 1, false) + class_size(n) == below(
            FPITS as int,
            n + FPITS,
            false,
        ),
        class_size(n) >= 0,
{
    lemma_below_step(FPITS as int, n + FPITS - 1, false);
    lemma_under_nonneg(FPITS - 1, n + FPITS - 1, false);
}

/// The classes lie one after the other in the table: a class with fewer
/// seeds ends before one with more seeds starts.
pub proof fn lemma_class_order(n: int, m: int)
    requires
        0 <= n < m <= SEEDS,
        n != SEEDS - 1,
        m != SEEDS - 1,
    ensures
        0 <= class_start(n),
        class_start(n) + class_size(n) <= class_start(m),
{
    lemma_class_next(n);
    lemma_class_next(SEEDS - 1);
    lemma_below_mono(FPITS as int, n + FPITS - 1, n + FPITS - 1, false);
    if m < SEEDS {
        lemma_below_mono(FPITS as int, n + FPITS, m + FPITS - 1, false);
    } else {
        lemma_below_mono(FPITS as int, n + FPITS, SEEDS + FPITS - 2, false);
    }
}

/// Every class lies within the table.
pub proof fn lemma_class_within(n: int)
    requires
        0 <= n <= SEEDS,
        n != SEEDS - 1,
    ensures
        0 <= class_start(n),
        0 <= class_size(n),
        class_start(n) + class_size(n) <= n_codes(),
{
    lemma_class_next(n);
    if n < SEEDS {
        lemma_class_order(n, SEEDS as int);
        lemma_class_next(SEEDS as int);
    } else {
        lemma_class_next(SEEDS - 1);
        lemma_below_mono(FPITS as int, SEEDS + FPITS - 2, SEEDS + FPITS - 2, false);
    }
}

/// The code of a board lies in the range of its seed class.
pub proof fn lemma_code_range(s: Seq<int>)
    requires
        reachable(s),
    ensures
        class_start(total(s)) <= code(s) < class_start(total(s)) + class_size(total(s)),
        0 <= code(s) < n_codes(),
{
    let ps = positions(s);
    lemma_reachable_positions(s);
    lemma_positions(s);
    lemma_rank_bounds(ps, FPITS as int);
    lemma_class_next(total(s));
    crate::rules::lemma_sum_bounds(s, FPITS as int);
    lemma_class_within(total(s));
}

/// The table starts with the one board that holds no seed.
pub proof fn lemma_first_class()
    ensures
        class_start(0) == 0,
        class_size(0) == 1,
{
    lemma_binomial_zero(FPITS as int, FPITS - 1);
    lemma_binomial_zero(FPITS as int, PITS - 1);
    lemma_binomial_zero(FPITS - 1, PITS - 1);
    crate::binomial::lemma_binomial_full(FPITS - 1);
}

/// A board without seeds belongs to the table and has code `0`.
pub proof fn lemma_first_code(s: Seq<int>)
    requires
        is_board(s),
        total(s) == 0,
    ensures
        reachable(s),
        code(s) == 0,
{
    crate::rules::lemma_sum_bounds(s, FPITS as int);
    assert(s[PITS as int] == 0);
    lemma_code_range(s);
    lemma_first_class();
}

/// No two boards of the table share a code.
pub proof fn lemma_code_injective(a: Seq<int>, b: Seq<int>)
    requires
        reachable(a),
        reachable(b),
        code(a) == code(b),
    ensures
        a == b,
{
    lemma_code_range(a);
    lemma_code_range(b);
    let n = total(a);
    let m = total(b);
    crate::rules::lemma_sum_bounds(a, FPITS as int);
    crate::rules::lemma_sum_bounds(b, FPITS as int);
    if n < m {
        lemma_class_order(n, m);
    }
    if m < n {
        lemma_class_order(m, n);
    }
    lemma_reachable_positions(a);
    lemma_reachable_positions(b);
    lemma_digits_agree(positions(a), positions(b), FPITS as int);
    lemma_positions(a);
    lemma_positions(b);
}

/// Placing the top position: the code, moved past the class that the table
/// leaves out, tells the number of seeds, and what is left of it is below
/// the number of boards with that many seeds.
pub proof fn lemma_place_top(c: int, g: int, top: int)
    requires
        0 <= c < n_codes(),
        g == c + if c >= class_start(SEEDS as int) {
            class_size(SEEDS - 1)
        } else {
            0
        },
        FPITS - 1 <= top < FPITS + SEEDS,
        below(FPITS as int, top, false) <= g,
        top == FPITS + SEEDS - 1 || below(FPITS as int, top + 1, false) > g,
    ensures
        0 <= g - below(FPITS as int, top, false) < under(FPITS - 1, top, false),
        c >= class_start(SEEDS as int) <==> top == SEEDS + FPITS - 1,
        top != SEEDS + FPITS - 2,
{
    let f = FPITS as int;
    lemma_class_next(SEEDS as int);
    lemma_class_next(SEEDS - 1);
    lemma_below_step(f, top, false);
    if c >= class_start(SEEDS as int) {
        if top < SEEDS + FPITS - 1 {
            lemma_below_mono(f, top + 1, SEEDS + FPITS - 1, false);
        }
    } else {
        if top >= SEEDS + FPITS - 2 {
            lemma_below_mono(f, SEEDS + FPITS - 2, top, false);
        }
    }
}

/// Placing one more position: with `x` as position `k - 1`, the digits
/// from there on add `below(k, x, free)` to those from `k` on, what is
/// left of the code is below the number of ways to place the rest, and the
/// rest is free if it was so before or if the new position leaves pit `k`
/// empty.
pub proof fn lemma_place(ps: Seq<int>, qs: Seq<int>, k: int, x: int, g: int, free: bool)
    requires
        1 <= k < FPITS,
        ps.len() == FPITS,
        qs == ps.update(k - 1, x),
        free == free_at(ps, k - 1),
        free || k >= PITS,
        g < under(k, ps[k], free),
        below(k, x, free) <= g,
        x < ps[k],
        x == ps[k] - 1 || below(k, x + 1, free) > g,
    ensures
        free_at(qs, k - 2) == (free || x + 1 == ps[k]),
        high_rank(qs, k - 1) == below(k, x, free) + high_rank(ps, k),
        0 <= g - below(k, x, free) < under(k - 1, x, free || x + 1 == ps[k]),
        free || x + 1 == ps[k] || k - 1 >= PITS,
{
    lemma_free_frame(ps, qs, k - 1);
    lemma_high_frame(ps, qs, k);
    lemma_free_step(qs, k);
    assert(closed_gap(qs, k) <==> x + 1 == ps[k]);
    lemma_below_step(k, x, free);
    lemma_under_split(k, ps[k], free);
    if !free && x + 1 != ps[k] && k == PITS {
        lemma_binomial_nonneg(k, x + 1);
        assert(below(k, x + 1, free) == 0);
    }
}

/// The largest `x` below `cap` with `below(k, x, free) <= g`; `k - 1` if
/// no `x` from `k` on is such.
pub open spec fn digit_for(k: int, g: int, cap: int, free: bool) -> int
    decreases cap - k,
{
    if cap <= k {
        k - 1
    } else if below(k, cap - 1, free) <= g {
        cap - 1
    } else {
        digit_for(k, g, cap - 1, free)
    }
}

/// What `digit_for` finds.
pub proof fn lemma_digit_for(k: int, g: int, cap: int, free: bool)
    requires
        1 <= k <= cap,
        0 <= g,
        free || k >= PITS,
    ensures
        k - 1 <= digit_for(k, g, cap, free) < cap,
        below(k, digit_for(k, g, cap, free), free) <= g,
        digit_for(k, g, cap, free) == cap - 1 || below(k, digit_for(k, g, cap, free) + 1, free)
            > g,
    decreases cap,
{
    if cap <= k {
        lemma_binomial_zero(k, k - 1);
        if !free {
            lemma_binomial_zero(k, k - 1 - (k - PITS));
        }
    } else if below(k, cap - 1, free) <= g {
    } else {
        lemma_digit_for(k, g, cap - 1, free);
    }
}

/// The positions `ps`, with the first `k` of them placed anew so that
/// they add `g` to the rank.
pub open spec fn placed(ps: Seq<int>, k: int, g: int, free: bool) -> Seq<int>
    decreases k,
{
    if k <= 0 {
        ps
    } else {
        let x = digit_for(k, g, ps[k], free);
        placed(ps.update(k - 1, x), k - 1, g - below(k, x, free), free || x + 1 == ps[k])
    }
}

/// The code `c`, moved past the class that the table leaves out.
pub open spec fn shifted(c: int) -> int {
    c + if c >= class_start(SEEDS as int) {
        class_size(SEEDS - 1)
    } else {
        0
    }
}

/// The positions of the board with code `c`.
pub open spec fn decoded_positions(c: int) -> Seq<int> {
    let g = shifted(c);
    let top = digit_for(FPITS as int, g, FPITS + SEEDS, false);
    placed(
        Seq::new(FPITS as nat, |i: int| 0int).update(FPITS - 1, top),
        FPITS - 1,
        g - below(FPITS as int, top, false),
        false,
    )
}

/// The board with code `c`.
pub open spec fn decoded(c: int) -> Seq<int> {
    board_of(decoded_positions(c))
}

/// Placing the first `k` positions gives ascending positions with an empty
/// pit of the opponent, whose digits add up to `g` more than the digits of
/// the positions from `k` on.
pub proof fn lemma_placed(ps: Seq<int>, k: int, g: int, free: bool)
    requires
        0 <= k < FPITS,
        ps.len() == FPITS,
        forall|m: int| k <= m < FPITS ==> m <= #[trigger] ps[m],
        forall|m: int| k < m < FPITS ==> ps[m - 1] < #[trigger] ps[m],
        free == free_at(ps, k - 1),
        free || k >= PITS,
        0 <= g < under(k, ps[k], free),
    ensures
        placed(ps, k, g, free).len() == FPITS,
        forall|m: int| k <= m < FPITS ==> placed(ps, k, g, free)[m] == ps[m],
        ascending(placed(ps, k, g, free)),
        gapped(placed(ps, k, g, free)),
        high_rank(placed(ps, k, g, free), 0) == g + high_rank(ps, k),
    decreases k,
{
    if k == 0 {
        lemma_free_step(ps, 1);
        assert(binomial(0, ps[0]) == 1);
        let m = choose|m: int| 1 <= m < FPITS && PITS <= m && #[trigger] closed_gap(ps, m);
        assert(gapped(ps));
    } else {
        let x = digit_for(k, g, ps[k], free);
        let qs = ps.update(k - 1, x);
        lemma_digit_for(k, g, ps[k], free);
        lemma_place(ps, qs, k, x, g, free);
        lemma_placed(qs, k - 1, g - below(k, x, free), free || x + 1 == ps[k]);
        let rs = placed(qs, k - 1, g - below(k, x, free), free || x + 1 == ps[k]);
        assert(placed(ps, k, g, free) == rs);
        assert forall|m: int| k <= m < FPITS implies rs[m] == ps[m] by {
            assert(rs[m] == qs[m]);
        }
    }
}

/// Every code of the table is the code of a board: the board `decoded(c)`
/// belongs to the table and has the code `c`.
pub proof fn lemma_code_onto(c: int)
    requires
        0 <= c < n_codes(),
    ensures
        reachable(decoded(c)),
        code(decoded(c)) == c,
{
    let g = shifted(c);
    let f = FPITS as int;
    lemma_class_next(SEEDS - 1);
    lemma_class_within(SEEDS as int);
    let top = digit_for(f, g, FPITS + SEEDS, false);
    lemma_digit_for(f, g, FPITS + SEEDS, false);
    lemma_place_top(c, g, top);
    let ps = Seq::new(FPITS as nat, |i: int| 0int).update(FPITS - 1, top);
    assert(!free_at(ps, FPITS - 2));
    assert(!free_at(ps, FPITS - 1));
    assert(high_rank(ps, f) == 0);
    assert(high_rank(ps, f - 1) == below(f, top, false));
    lemma_placed(ps, f - 1, g - below(f, top, false), false);
    let qs = decoded_positions(c);
    lemma_rank_split(qs, 0);
    lemma_board_of(qs);
    let b = decoded(c);
    lemma_positions(b);
    let m = choose|m: int| PITS <= m < FPITS && #[trigger] closed_gap(qs, m);
    assert(b[m] == 0);
}

/// Decoding the code of a board gives the board back.
pub proof fn lemma_decode_encode(s: Seq<int>)
    requires
        reachable(s),
    ensures
        decoded(code(s)) == s,
{
    lemma_code_range(s);
    lemma_code_onto(code(s));
    lemma_code_injective(decoded(code(s)), s);
}

} // verus!
