//! The order of the boards in the table, and the step from one board to
//! the next.
//!
//! Within a seed class the boards are ordered by their positions, read
//! from the last to the first. The code of a board grows with this order,
//! and the table holds the boards of a class one after the other, so the
//! board that follows another in the order has the next code.

use vstd::prelude::*;
use crate::coding::{
    ascending, board_of, class_size, class_start, closed_gap, code, decoded, free_at, gapped,
    lemma_below_mono, lemma_board_of, lemma_class_order, lemma_class_within, lemma_code_injective,
    lemma_code_onto, lemma_code_range, lemma_free_frame, lemma_gap_low, lemma_high_frame,
    lemma_positions, lemma_rank_bounds, lemma_rank_split, lemma_reachable_positions, low_rank,
    positions, reachable,
};
use crate::rules::{lemma_sum_bounds, total};
use crate::{FPITS, PITS, SEEDS};

verus! {

/// `a` and `b` agree after pit `h`, and `a` has the lower position there.
pub open spec fn lower_at(a: Seq<int>, b: Seq<int>, h: int) -> bool {
    &&& 0 <= h < FPITS
    &&& a[h] < b[h]
    &&& forall|i: int| h < i < FPITS ==> a[i] == b[i]
}

/// The positions `a` come before the positions `b`.
pub open spec fn before(a: Seq<int>, b: Seq<int>) -> bool {
    exists|h: int| #[trigger] lower_at(a, b, h)
}

/// Of two sequences of positions that agree from `k` on, one comes before
/// the other, or they are the same.
pub proof fn lemma_order_total(a: Seq<int>, b: Seq<int>, k: int)
    requires
        a.len() == FPITS,
        b.len() == FPITS,
        0 <= k <= FPITS,
        forall|i: int| k <= i < FPITS ==> a[i] == b[i],
    ensures
        a == b || before(a, b) || before(b, a),
        before(a, b) ==> exists|h: int| h < k && #[trigger] lower_at(a, b, h),
        before(b, a) ==> exists|h: int| h < k && #[trigger] lower_at(b, a, h),
    decreases k,
{
    if k == 0 {
        assert(a =~= b);
        if before(a, b) {
            let h = choose|h: int| #[trigger] lower_at(a, b, h);
            assert(false);
        }
        if before(b, a) {
            let h = choose|h: int| #[trigger] lower_at(b, a, h);
            assert(false);
        }
    } else if a[k - 1] == b[k - 1] {
        lemma_order_total(a, b, k - 1);
    } else {
        if a[k - 1] < b[k - 1] {
            assert(lower_at(a, b, k - 1));
        } else {
            assert(lower_at(b, a, k - 1));
        }
        if before(a, b) {
            let h = choose|h: int| #[trigger] lower_at(a, b, h);
            if h >= k {
                assert(a[h] == b[h]);
            }
            if h < k - 1 {
                assert(a[k - 1] == b[k - 1]);
            }
            assert(lower_at(a, b, k - 1));
        }
        if before(b, a) {
            let h = choose|h: int| #[trigger] lower_at(b, a, h);
            if h >= k {
                assert(a[h] == b[h]);
            }
            if h < k - 1 {
                assert(a[k - 1] == b[k - 1]);
            }
            assert(lower_at(b, a, k - 1));
        }
    }
}

/// No positions come before themselves, and of two different ones only
/// one comes before the other.
pub proof fn lemma_order_strict(a: Seq<int>, b: Seq<int>)
    requires
        before(a, b),
    ensures
        a != b,
        !before(b, a),
{
    let h = choose|h: int| #[trigger] lower_at(a, b, h);
    if before(b, a) {
        let g = choose|g: int| #[trigger] lower_at(b, a, g);
        if g < h {
            assert(b[h] == a[h]);
        } else if h < g {
            assert(a[g] == b[g]);
        }
    }
}

/// The rank grows with the order of the positions.
pub proof fn lemma_rank_monotone(a: Seq<int>, b: Seq<int>)
    requires
        ascending(a),
        ascending(b),
        gapped(a),
        gapped(b),
        before(a, b),
    ensures
        low_rank(a, FPITS as int) < low_rank(b, FPITS as int),
{
    let h = choose|h: int| #[trigger] lower_at(a, b, h);
    let k = h + 1;
    lemma_free_frame(a, b, k - 1);
    let z = free_at(a, k - 1);
    lemma_rank_bounds(a, k);
    lemma_rank_bounds(b, k);
    if !z {
        lemma_gap_low(a, k);
    }
    if k < FPITS {
        assert(a[k] == b[k]);
        assert(b[k - 1] < b[k]);
        assert(!closed_gap(a, k));
    }
    lemma_below_mono(k, a[k - 1] + 1, b[k - 1], z);
    lemma_high_frame(a, b, k);
    lemma_rank_split(a, k);
    lemma_rank_split(b, k);
}

/// The code grows with the order of the boards of a class.
pub proof fn lemma_code_monotone(a: Seq<int>, b: Seq<int>)
    requires
        reachable(a),
        reachable(b),
        total(a) == total(b),
        before(positions(a), positions(b)),
    ensures
        code(a) < code(b),
{
    lemma_reachable_positions(a);
    lemma_reachable_positions(b);
    lemma_rank_monotone(positions(a), positions(b));
}

/// Of two boards of one class, the one with the lower code comes first.
pub proof fn lemma_code_order(a: Seq<int>, b: Seq<int>)
    requires
        reachable(a),
        reachable(b),
        total(a) == total(b),
        code(a) < code(b),
    ensures
        before(positions(a), positions(b)),
{
    lemma_reachable_positions(a);
    lemma_reachable_positions(b);
    lemma_order_total(positions(a), positions(b), FPITS as int);
    if before(positions(b), positions(a)) {
        lemma_code_monotone(b, a);
    }
}

/// A board whose code lies in the range of a class belongs to that class.
pub proof fn lemma_class_of_code(s: Seq<int>, n: int)
    requires
        reachable(s),
        0 <= n <= SEEDS,
        n != SEEDS - 1,
        class_start(n) <= code(s) < class_start(n) + class_size(n),
    ensures
        total(s) == n,
{
    let m = total(s);
    lemma_code_range(s);
    lemma_sum_bounds(s, FPITS as int);
    if m < n {
        lemma_class_order(m, n);
    }
    if n < m {
        lemma_class_order(n, m);
    }
}

/// The first pit from pit `i` on that is not empty; `FPITS` if they all
/// are.
pub open spec fn first_open(ps: Seq<int>, i: int) -> int
    decreases FPITS - i,
{
    if i >= FPITS {
        FPITS as int
    } else if !closed_gap(ps, i) {
        i
    } else {
        first_open(ps, i + 1)
    }
}

/// The positions that follow `ps` among all ascending positions: the
/// position before the first pit after pit `0` that is not empty goes one
/// up, and the positions before it go down as far as they can.
pub open spec fn stepped(ps: Seq<int>) -> Seq<int> {
    let m = first_open(ps, 1);
    Seq::new(
        FPITS as nat,
        |i: int|
            if i < m - 1 {
                i
            } else if i == m - 1 {
                ps[i] + 1
            } else {
                ps[i]
            },
    )
}

/// What `first_open` finds.
pub proof fn lemma_first_open(ps: Seq<int>, i: int)
    requires
        1 <= i <= FPITS,
    ensures
        i <= first_open(ps, i) <= FPITS,
        forall|j: int| i <= j < first_open(ps, i) ==> #[trigger] closed_gap(ps, j),
        first_open(ps, i) < FPITS ==> !closed_gap(ps, first_open(ps, i)),
    decreases FPITS - i,
{
    if i < FPITS && closed_gap(ps, i) {
        lemma_first_open(ps, i + 1);
    }
}

/// Up to the first pit that is not empty, the positions go up one by one.
pub proof fn lemma_run(ps: Seq<int>, j: int)
    requires
        0 <= j < first_open(ps, 1),
    ensures
        ps[j] == ps[0] + j,
    decreases j,
{
    lemma_first_open(ps, 1);
    if j > 0 {
        lemma_run(ps, j - 1);
        assert(closed_gap(ps, j));
    }
}

/// Ascending positions lie between their index and the last position.
pub proof fn lemma_ascending_bounds(q: Seq<int>, i: int)
    requires
        ascending(q),
        0 <= i < FPITS,
    ensures
        i <= q[i],
        q[i] + (FPITS - 1 - i) <= q[FPITS - 1],
{
    lemma_ascending_low(q, i);
    lemma_ascending_high(q, i);
}

proof fn lemma_ascending_low(q: Seq<int>, i: int)
    requires
        ascending(q),
        0 <= i < FPITS,
    ensures
        i <= q[i],
    decreases i,
{
    if i > 0 {
        lemma_ascending_low(q, i - 1);
        assert(q[i - 1] < q[i]);
    }
}

proof fn lemma_ascending_high(q: Seq<int>, i: int)
    requires
        ascending(q),
        0 <= i < FPITS,
    ensures
        q[i] + (FPITS - 1 - i) <= q[FPITS - 1],
    decreases FPITS - i,
{
    if i < FPITS - 1 {
        lemma_ascending_high(q, i + 1);
        assert(q[i] < q[i + 1]);
    }
}

/// Positions that are as low as they can be up to `k` come before all
/// ascending positions that agree with them from `k` on.
pub proof fn lemma_floor(a: Seq<int>, q: Seq<int>, k: int)
    requires
        a.len() == FPITS,
        ascending(q),
        0 <= k <= FPITS,
        forall|i: int| 0 <= i < k ==> a[i] == i,
        forall|i: int| k <= i < FPITS ==> a[i] == q[i],
    ensures
        a == q || before(a, q),
{
    lemma_order_total(a, q, k);
    if before(q, a) {
        let h = choose|h: int| h < k && #[trigger] lower_at(q, a, h);
        lemma_ascending_bounds(q, h);
    }
}

/// The step leads to ascending positions that come after `ps` and end as
/// they do.
pub proof fn lemma_step_up(ps: Seq<int>)
    requires
        ascending(ps),
        first_open(ps, 1) < FPITS,
    ensures
        ascending(stepped(ps)),
        before(ps, stepped(ps)),
        stepped(ps)[FPITS - 1] == ps[FPITS - 1],
{
    let m = first_open(ps, 1);
    let t = stepped(ps);
    lemma_first_open(ps, 1);
    assert(ps[m - 1] < ps[m]);
    assert forall|i: int| 1 <= i < FPITS implies t[i - 1] < #[trigger] t[i] by {
        if i < m {
            lemma_ascending_bounds(ps, i);
        } else if i > m {
            assert(ps[i - 1] < ps[i]);
        }
    }
    assert(lower_at(ps, t, m - 1));
}

/// No ascending positions lie between `ps` and the step from them.
pub proof fn lemma_step_next(ps: Seq<int>, q: Seq<int>)
    requires
        ascending(ps),
        first_open(ps, 1) < FPITS,
        ascending(q),
        before(ps, q),
    ensures
        q == stepped(ps) || before(stepped(ps), q),
{
    let m = first_open(ps, 1);
    let t = stepped(ps);
    lemma_first_open(ps, 1);
    let h = choose|h: int| #[trigger] lower_at(ps, q, h);
    if h >= m {
        assert(lower_at(t, q, h));
    } else if h < m - 1 {
        lemma_run(ps, h);
        lemma_run(ps, h + 1);
        assert(q[h + 1] == ps[h + 1]);
        assert(q[h] < q[h + 1]);
        assert(false);
    } else {
        if q[m - 1] > t[m - 1] {
            assert(lower_at(t, q, m - 1));
        } else {
            lemma_floor(t, q, m - 1);
        }
    }
}

/// No ascending positions with the same last position come after
/// positions that go up one by one.
pub proof fn lemma_step_last(ps: Seq<int>, q: Seq<int>)
    requires
        ascending(ps),
        first_open(ps, 1) >= FPITS,
        ascending(q),
        q[FPITS - 1] == ps[FPITS - 1],
    ensures
        !before(ps, q),
{
    lemma_first_open(ps, 1);
    if before(ps, q) {
        let h = choose|h: int| #[trigger] lower_at(ps, q, h);
        lemma_run(ps, h);
        lemma_run(ps, FPITS - 1);
        lemma_ascending_bounds(q, h);
    }
}

/// The order of positions is transitive.
pub proof fn lemma_order_trans(a: Seq<int>, b: Seq<int>, c: Seq<int>)
    requires
        before(a, b),
        before(b, c),
    ensures
        before(a, c),
{
    let h = choose|h: int| #[trigger] lower_at(a, b, h);
    let g = choose|g: int| #[trigger] lower_at(b, c, g);
    if h >= g {
        assert(lower_at(a, c, h));
    } else {
        assert(lower_at(a, c, g));
    }
}

/// The boards of a class lie in the table one after the other: for every
/// `k` below the size of the class with `n` seeds, the board with code
/// `class_start(n) + k` holds `n` seeds. A walk through the class gives
/// this board as its `k`-th, with this code.
pub proof fn lemma_kth_board(n: int, k: int)
    requires
        0 <= n <= SEEDS,
        n != SEEDS - 1,
        0 <= k < class_size(n),
    ensures
        reachable(decoded(class_start(n) + k)),
        total(decoded(class_start(n) + k)) == n,
        code(decoded(class_start(n) + k)) == class_start(n) + k,
{
    lemma_class_within(n);
    lemma_code_onto(class_start(n) + k);
    lemma_class_of_code(decoded(class_start(n) + k), n);
}

/// Where a walk through the class with `n` seeds stands that is about to
/// visit the positions `ps` and has given out the codes below `c`: the
/// boards of the class with a code below `c` are those that come before
/// `ps`.
pub open spec fn passed(ps: Seq<int>, c: int, n: int) -> bool {
    forall|b: Seq<int>|
        reachable(b) && total(b) == n ==> (code(b) < c <==> before(#[trigger] positions(b), ps))
}

/// The positions of the board that holds `n` seeds in its last pit.
pub open spec fn first_positions(n: int) -> Seq<int> {
    Seq::new(
        FPITS as nat,
        |i: int|
            if i < FPITS - 1 {
                i
            } else {
                n + FPITS - 1
            },
    )
}

/// A walk starts at the positions of the board that holds all seeds in
/// its last pit, with the first code of the class.
pub proof fn lemma_walk_start(n: int)
    requires
        0 <= n <= SEEDS,
        n != SEEDS - 1,
    ensures
        ascending(first_positions(n)),
        passed(first_positions(n), class_start(n), n),
{
    let ps = first_positions(n);
    assert forall|b: Seq<int>| reachable(b) && total(b) == n implies (code(b) < class_start(n)
        <==> before(#[trigger] positions(b), ps)) by {
        lemma_code_range(b);
        let qs = positions(b);
        lemma_positions(b);
        if before(qs, ps) {
            let h = choose|h: int| #[trigger] lower_at(qs, ps, h);
            lemma_ascending_bounds(qs, h);
        }
    }
}

/// A walk that visits positions with an empty pit of the opponent gives
/// out their board under the next code, and goes on to the step from
/// them; if there is no step, the class is done.
pub proof fn lemma_walk_yield(ps: Seq<int>, c: int, n: int)
    requires
        0 <= n <= SEEDS,
        n != SEEDS - 1,
        ascending(ps),
        gapped(ps),
        ps[FPITS - 1] == n + FPITS - 1,
        passed(ps, c, n),
        class_start(n) <= c,
    ensures
        reachable(board_of(ps)),
        total(board_of(ps)) == n,
        code(board_of(ps)) == c,
        c < class_start(n) + class_size(n),
        first_open(ps, 1) < FPITS ==> passed(stepped(ps), c + 1, n),
        first_open(ps, 1) >= FPITS ==> c + 1 == class_start(n) + class_size(n),
{
    let s = board_of(ps);
    lemma_board_of(ps);
    lemma_positions(s);
    assert(reachable(s)) by {
        let m = choose|m: int| PITS <= m < FPITS && #[trigger] closed_gap(ps, m);
        assert(s[m] == 0);
    }
    lemma_code_range(s);
    lemma_class_within(n);
    assert(!before(ps, ps)) by {
        if before(ps, ps) {
            lemma_order_strict(ps, ps);
        }
    }
    if code(s) > c {
        let d = decoded(c);
        lemma_code_onto(c);
        lemma_class_of_code(d, n);
        assert(!before(positions(d), ps));
        lemma_code_order(d, s);
    }
    if first_open(ps, 1) < FPITS {
        let ts = stepped(ps);
        lemma_step_up(ps);
        assert forall|b: Seq<int>| reachable(b) && total(b) == n implies (code(b) < c + 1
            <==> before(#[trigger] positions(b), ts)) by {
            let qs = positions(b);
            lemma_reachable_positions(b);
            if code(b) < c {
                lemma_order_trans(qs, ps, ts);
            } else if code(b) == c {
                lemma_code_injective(b, s);
            } else {
                lemma_code_order(s, b);
                lemma_step_next(ps, qs);
                if before(qs, ts) {
                    lemma_order_strict(qs, ts);
                }
            }
        }
    } else {
        if c + 1 < class_start(n) + class_size(n) {
            let d = decoded(c + 1);
            lemma_code_onto(c + 1);
            lemma_class_of_code(d, n);
            lemma_code_order(s, d);
            lemma_positions(d);
            lemma_step_last(ps, positions(d));
        }
    }
}

/// A walk that visits positions without an empty pit of the opponent
/// gives out nothing, and goes on to the step from them; if there is no
/// step, the class is done.
pub proof fn lemma_walk_skip(ps: Seq<int>, c: int, n: int)
    requires
        0 <= n <= SEEDS,
        n != SEEDS - 1,
        ascending(ps),
        !gapped(ps),
        ps[FPITS - 1] == n + FPITS - 1,
        passed(ps, c, n),
        class_start(n) <= c <= class_start(n) + class_size(n),
    ensures
        first_open(ps, 1) < FPITS ==> passed(stepped(ps), c, n),
        first_open(ps, 1) >= FPITS ==> c == class_start(n) + class_size(n),
{
    lemma_class_within(n);
    if first_open(ps, 1) < FPITS {
        let ts = stepped(ps);
        lemma_step_up(ps);
        assert forall|b: Seq<int>| reachable(b) && total(b) == n implies (code(b) < c
            <==> before(#[trigger] positions(b), ts)) by {
            let qs = positions(b);
            lemma_reachable_positions(b);
            if code(b) < c {
                lemma_order_trans(qs, ps, ts);
            } else {
                lemma_order_total(qs, ps, FPITS as int);
                assert(before(ps, qs));
                lemma_step_next(ps, qs);
                if before(qs, ts) {
                    lemma_order_strict(qs, ts);
                }
            }
        }
    } else {
        if c < class_start(n) + class_size(n) {
            let d = decoded(c);
            lemma_code_onto(c);
            lemma_class_of_code(d, n);
            let qs = positions(d);
            lemma_reachable_positions(d);
            lemma_positions(d);
            lemma_step_last(ps, qs);
            lemma_order_total(qs, ps, FPITS as int);
        }
    }
}

} // verus!
