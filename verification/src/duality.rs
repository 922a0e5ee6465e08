//! Moves forwards and backwards are inverse to each other: what
//! `predecessors` lists are exactly the boards from which a move without a
//! capture leads to the board at hand.

use vstd::prelude::*;
use crate::rules::{
    arc_min, back_laps, backs_laps_upto, backs_reach_upto, backs_upto, capturable, collected, dist,
    haul, is_back_move, is_board, landing, laps, lemma_arc_min_ge, lemma_arc_min_le,
    lemma_chain_range, lemma_haul_range, moves_upto, played, predecessors, reach, reward, rotated,
    sown, starved, successors, unsown, valid_sow, wrap,
};
use crate::utils::{lemma_divmod_spec, lemma_divmod_unique};
use crate::{FPITS, PITS};

verus! {

/// A concatenation holds what its two parts hold.
proof fn lemma_concat_contains<T>(a: Seq<T>, b: Seq<T>, x: T)
    ensures
        (a + b).contains(x) <==> a.contains(x) || b.contains(x),
{
    if a.contains(x) {
        let k = choose|k: int| 0 <= k < a.len() && a[k] == x;
        assert((a + b)[k] == x);
    }
    if b.contains(x) {
        let k = choose|k: int| 0 <= k < b.len() && b[k] == x;
        assert((a + b)[a.len() + k] == x);
    }
    if (a + b).contains(x) {
        let k = choose|k: int| 0 <= k < (a + b).len() && (a + b)[k] == x;
        if k < a.len() {
            assert(a[k] == x);
        } else {
            assert(b[k - a.len()] == x);
        }
    }
}

/// A sequence with one more item holds that item and what it held before.
proof fn lemma_push_contains<T>(a: Seq<T>, y: T, x: T)
    ensures
        a.push(y).contains(x) <==> a.contains(x) || x == y,
{
    if a.contains(x) {
        let k = choose|k: int| 0 <= k < a.len() && a[k] == x;
        assert(a.push(y)[k] == x);
    }
    if x == y {
        assert(a.push(y)[a.len() as int] == x);
    }
    if a.push(y).contains(x) {
        let k = choose|k: int| 0 <= k < a.push(y).len() && a.push(y)[k] == x;
        if k < a.len() {
            assert(a[k] == x);
        }
    }
}

/// What `moves_upto` lists: the outcome of each allowed move from the pits
/// before pit `i`.
pub proof fn lemma_moves_contains(s: Seq<int>, i: int, m: (Seq<int>, int))
    ensures
        moves_upto(s, i).contains(m) <==> exists|p: int|
            0 <= p < i && valid_sow(s, p) && m == (#[trigger] played(s, p), reward(s, p)),
    decreases i,
{
    if i > 0 {
        lemma_moves_contains(s, i - 1, m);
        let prev = moves_upto(s, i - 1);
        let here = (played(s, i - 1), reward(s, i - 1));
        if valid_sow(s, i - 1) {
            lemma_push_contains(prev, here, m);
        }
        if moves_upto(s, i).contains(m) {
            if prev.contains(m) {
                let p = choose|p: int|
                    0 <= p < i - 1 && valid_sow(s, p) && m == (
                        #[trigger] played(s, p),
                        reward(s, p),
                    );
                assert(0 <= p < i && valid_sow(s, p) && m == (played(s, p), reward(s, p)));
            } else {
                assert(valid_sow(s, i - 1) && m == (played(s, i - 1), reward(s, i - 1)));
            }
        }
        if exists|p: int|
            0 <= p < i && valid_sow(s, p) && m == (#[trigger] played(s, p), reward(s, p)) {
            let p = choose|p: int|
                0 <= p < i && valid_sow(s, p) && m == (#[trigger] played(s, p), reward(s, p));
            if p < i - 1 {
                assert(prev.contains(m));
            }
        }
    } else {
        assert(moves_upto(s, i) =~= Seq::empty());
    }
}

/// There are no more moves than pits to play.
pub proof fn lemma_moves_len(s: Seq<int>, i: int)
    requires
        0 <= i,
    ensures
        moves_upto(s, i).len() <= i,
    decreases i,
{
    if i > 0 {
        lemma_moves_len(s, i - 1);
    }
}

/// What `backs_laps_upto` lists: one board for each number of laps below
/// `m`.
pub proof fn lemma_laps_contains(s: Seq<int>, i: int, r: int, m: int, x: Seq<int>)
    ensures
        backs_laps_upto(s, i, r, m).contains(x) <==> exists|n: int|
            0 <= n < m && x == #[trigger] unsown(s, i, r, n),
    decreases m,
{
    if m > 0 {
        lemma_laps_contains(s, i, r, m - 1, x);
        let prev = backs_laps_upto(s, i, r, m - 1);
        lemma_push_contains(prev, unsown(s, i, r, m - 1), x);
        if backs_laps_upto(s, i, r, m).contains(x) {
            if prev.contains(x) {
                let n = choose|n: int| 0 <= n < m - 1 && x == #[trigger] unsown(s, i, r, n);
                assert(0 <= n < m && x == unsown(s, i, r, n));
            } else {
                assert(x == unsown(s, i, r, m - 1));
            }
        }
        if exists|n: int| 0 <= n < m && x == #[trigger] unsown(s, i, r, n) {
            let n = choose|n: int| 0 <= n < m && x == #[trigger] unsown(s, i, r, n);
            if n < m - 1 {
                assert(prev.contains(x));
            }
        }
    } else {
        assert(backs_laps_upto(s, i, r, m) =~= Seq::empty());
    }
}

/// What `backs_reach_upto` lists: one board for each reach up to `r` whose
/// landing pit shows no capture, and each number of laps that the seed
/// counts allow.
pub proof fn lemma_reach_contains(s: Seq<int>, i: int, r: int, x: Seq<int>)
    ensures
        backs_reach_upto(s, i, r).contains(x) <==> exists|r2: int, n: int|
            1 <= r2 <= r && !capturable(s, wrap(i + r2)) && 0 <= n < back_laps(s, i, r2) && x
                == #[trigger] unsown(s, i, r2, n),
    decreases r,
{
    if r > 0 {
        lemma_reach_contains(s, i, r - 1, x);
        let prev = backs_reach_upto(s, i, r - 1);
        let here = backs_laps_upto(s, i, r, back_laps(s, i, r));
        lemma_laps_contains(s, i, r, back_laps(s, i, r), x);
        if !capturable(s, wrap(i + r)) {
            lemma_concat_contains(prev, here, x);
        }
        if backs_reach_upto(s, i, r).contains(x) {
            if prev.contains(x) {
                let (r2, n) = choose|r2: int, n: int|
                    1 <= r2 <= r - 1 && !capturable(s, wrap(i + r2)) && 0 <= n < back_laps(
                        s,
                        i,
                        r2,
                    ) && x == #[trigger] unsown(s, i, r2, n);
                assert(1 <= r2 <= r && !capturable(s, wrap(i + r2)) && 0 <= n < back_laps(
                    s,
                    i,
                    r2,
                ) && x == unsown(s, i, r2, n));
            } else {
                let n = choose|n: int|
                    0 <= n < back_laps(s, i, r) && x == #[trigger] unsown(s, i, r, n);
                assert(1 <= r <= r && !capturable(s, wrap(i + r)) && 0 <= n < back_laps(s, i, r)
                    && x == unsown(s, i, r, n));
            }
        }
        if exists|r2: int, n: int|
            1 <= r2 <= r && !capturable(s, wrap(i + r2)) && 0 <= n < back_laps(s, i, r2) && x
                == #[trigger] unsown(s, i, r2, n) {
            let (r2, n) = choose|r2: int, n: int|
                1 <= r2 <= r && !capturable(s, wrap(i + r2)) && 0 <= n < back_laps(s, i, r2)
                    && x == #[trigger] unsown(s, i, r2, n);
            if r2 < r {
                assert(prev.contains(x));
            } else {
                assert(here.contains(x));
            }
        }
    } else {
        assert(backs_reach_upto(s, i, r) =~= Seq::empty());
    }
}

/// What `backs_upto` lists: one board for each back-move from an empty pit
/// before pit `i`.
pub proof fn lemma_backs_contains(s: Seq<int>, i: int, x: Seq<int>)
    requires
        i <= PITS,
    ensures
        backs_upto(s, i).contains(x) <==> exists|i2: int, r: int, n: int|
            i2 < i && is_back_move(s, i2, r, n) && x == #[trigger] unsown(s, i2, r, n),
    decreases i,
{
    if i > 0 {
        lemma_backs_contains(s, i - 1, x);
        let prev = backs_upto(s, i - 1);
        let here = backs_reach_upto(s, i - 1, FPITS - 1);
        lemma_reach_contains(s, i - 1, FPITS - 1, x);
        if s[i - 1] == 0 {
            lemma_concat_contains(prev, here, x);
        }
        if backs_upto(s, i).contains(x) {
            if prev.contains(x) {
                let (i2, r, n) = choose|i2: int, r: int, n: int|
                    i2 < i - 1 && is_back_move(s, i2, r, n) && x == #[trigger] unsown(
                        s,
                        i2,
                        r,
                        n,
                    );
                assert(i2 < i && is_back_move(s, i2, r, n) && x == unsown(s, i2, r, n));
            } else {
                let (r, n) = choose|r: int, n: int|
                    1 <= r <= FPITS - 1 && !capturable(s, wrap(i - 1 + r)) && 0 <= n
                        < back_laps(s, i - 1, r) && x == #[trigger] unsown(s, i - 1, r, n);
                assert(i - 1 < i && is_back_move(s, i - 1, r, n) && x == unsown(s, i - 1, r, n));
            }
        }
        if exists|i2: int, r: int, n: int|
            i2 < i && is_back_move(s, i2, r, n) && x == #[trigger] unsown(s, i2, r, n) {
            let (i2, r, n) = choose|i2: int, r: int, n: int|
                i2 < i && is_back_move(s, i2, r, n) && x == #[trigger] unsown(s, i2, r, n);
            if i2 < i - 1 {
                assert(prev.contains(x));
            } else {
                assert(1 <= r <= FPITS - 1 && !capturable(s, wrap(i - 1 + r)) && 0 <= n
                    < back_laps(s, i - 1, r) && x == unsown(s, i - 1, r, n));
                assert(here.contains(x));
            }
        }
    } else {
        assert(backs_upto(s, i) =~= Seq::empty());
    }
}

/// Changing sides twice gives the board back.
pub proof fn lemma_rotated_twice(s: Seq<int>)
    requires
        s.len() == FPITS,
    ensures
        rotated(rotated(s)) == s,
{
    assert(rotated(rotated(s)) =~= s);
}

/// A capture that takes no seed leaves the board as it is.
pub proof fn lemma_no_capture(s: Seq<int>, j: int)
    requires
        s.len() == FPITS,
        j < FPITS,
    ensures
        !capturable(s, j) ==> collected(s, j) == s && haul(s, j) == 0,
        haul(s, j) == 0 ==> !capturable(s, j),
{
    lemma_haul_range(s, j);
    lemma_chain_range(s, j - 1);
    if !capturable(s, j) {
        assert(collected(s, j) =~= s);
    }
}

/// Sowing `n` laps and `r` more seeds from pit `i` and taking the same
/// move back undo each other.
pub proof fn lemma_sow_unsow(s: Seq<int>, i: int, r: int, n: int)
    requires
        s.len() == FPITS,
        0 <= i < FPITS,
        s[i] == 0,
        1 <= r <= FPITS - 1,
        n >= 0,
    ensures
        sown(unsown(s, i, r, n), i) == s,
        landing(unsown(s, i, r, n), i) == wrap(i + r),
        laps(unsown(s, i, r, n), i) == n,
        reach(unsown(s, i, r, n), i) == r,
{
    let x = unsown(s, i, r, n);
    assert(x[i] == n * (FPITS - 1) + r) by (nonlinear_arith)
        requires
            x[i] == s[i] + (FPITS - 1) * n + r,
            s[i] == 0,
    ;
    lemma_divmod_unique(n, r, FPITS - 1);
    assert(sown(x, i) =~= s);
}

/// Taking back the move that sowing pit `i` made gives the board back.
pub proof fn lemma_unsow_sow(s: Seq<int>, i: int)
    requires
        s.len() == FPITS,
        0 <= i < FPITS,
        s[i] > 0,
    ensures
        unsown(sown(s, i), i, reach(s, i), laps(s, i)) == s,
        1 <= reach(s, i) <= FPITS - 1,
        laps(s, i) >= 0,
{
    lemma_divmod_spec(s[i], FPITS - 1);
    assert((FPITS - 1) * laps(s, i) == laps(s, i) * (FPITS - 1)) by (nonlinear_arith);
    assert(unsown(sown(s, i), i, reach(s, i), laps(s, i)) =~= s);
}

/// After a move from pit `p`, every pit within reach holds more seeds
/// than laps were made, and no other pit holds fewer.
proof fn lemma_sown_counts(u: Seq<int>, p: int)
    requires
        is_board(u),
        0 <= p < FPITS,
        u[p] > 0,
    ensures
        arc_min(sown(u, p), p, reach(u, p)) >= laps(u, p) + 1,
        arc_min(sown(u, p), p, FPITS - 1) >= laps(u, p),
        sown(u, p)[p] == 0,
        1 <= reach(u, p) <= FPITS - 1,
        laps(u, p) >= 0,
{
    let c = sown(u, p);
    let r = reach(u, p);
    let n = laps(u, p);
    lemma_divmod_spec(u[p], FPITS - 1);
    assert forall|d: int| 1 <= d <= r implies c[#[trigger] wrap(p + d)] >= n + 1 by {
        assert(dist(p, wrap(p + d)) == d);
        assert(u[wrap(p + d)] >= 0);
    }
    lemma_arc_min_ge(c, p, r, n + 1);
    assert forall|d: int| 1 <= d <= FPITS - 1 implies c[#[trigger] wrap(p + d)] >= n by {
        assert(dist(p, wrap(p + d)) == d);
        assert(u[wrap(p + d)] >= 0);
    }
    lemma_arc_min_ge(c, p, FPITS - 1, n);
}

/// A move without a capture is one of the back-moves of the board that it
/// leads to.
proof fn lemma_move_back(u: Seq<int>, p: int)
    requires
        is_board(u),
        valid_sow(u, p),
        reward(u, p) == 0,
    ensures
        rotated(played(u, p)) == sown(u, p),
        !starved(sown(u, p)),
        is_back_move(sown(u, p), p, reach(u, p), laps(u, p)),
        unsown(sown(u, p), p, reach(u, p), laps(u, p)) == u,
{
    let c = sown(u, p);
    let j = landing(u, p);
    lemma_unsow_sow(u, p);
    lemma_no_capture(c, j);
    lemma_rotated_twice(c);
    lemma_sown_counts(u, p);
}

/// Every move without a capture can be taken back: if playing a pit of
/// board `u` captures nothing and leads to `v`, then `u` is among the
/// predecessors of `v`.
pub proof fn lemma_successor_in_predecessors(u: Seq<int>, v: Seq<int>)
    requires
        is_board(u),
        successors(u).contains((v, 0int)),
    ensures
        predecessors(v).contains(u),
{
    lemma_moves_contains(u, PITS as int, (v, 0int));
    let p = choose|p: int|
        0 <= p < PITS && valid_sow(u, p) && (v, 0int) == (#[trigger] played(u, p), reward(u, p));
    let c = sown(u, p);
    let r = reach(u, p);
    let n = laps(u, p);
    lemma_move_back(u, p);
    lemma_backs_contains(c, PITS as int, u);
    assert(p < PITS && is_back_move(c, p, r, n) && u == unsown(c, p, r, n));
}

/// Every predecessor leads back by a move without a capture: if `v` is
/// among the predecessors of `u`, then `v` is a board, and playing one of
/// its pits captures nothing and leads to `u`.
pub proof fn lemma_predecessor_in_successors(u: Seq<int>, v: Seq<int>)
    requires
        is_board(u),
        predecessors(u).contains(v),
    ensures
        is_board(v),
        successors(v).contains((u, 0int)),
{
    let c = rotated(u);
    assert(!starved(c)) by {
        if starved(c) {
            assert(predecessors(u) =~= Seq::empty());
        }
    }
    lemma_backs_contains(c, PITS as int, v);
    let (i, r, n) = choose|i: int, r: int, n: int|
        i < PITS && is_back_move(c, i, r, n) && v == #[trigger] unsown(c, i, r, n);
    assert forall|k: int| 0 <= k < FPITS implies #[trigger] v[k] >= 0 by {
        if k != i {
            let d = dist(i, k);
            assert(wrap(i + d) == k);
            lemma_arc_min_le(c, i, FPITS - 1, d);
            if d <= r {
                lemma_arc_min_le(c, i, r, d);
            }
        }
    }
    lemma_sow_unsow(c, i, r, n);
    lemma_no_capture(c, wrap(i + r));
    lemma_rotated_twice(u);
    assert(valid_sow(v, i));
    assert(played(v, i) == u);
    assert(reward(v, i) == 0);
    lemma_moves_contains(v, PITS as int, (u, 0int));
}

} // verus!
