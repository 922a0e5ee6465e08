//! What an unstable board awaits: the outcome of each of its moves without
//! a capture that leads to a board which is still unstable. The counter of
//! the board and the scores that are on their way to it add up to that
//! number.

use vstd::prelude::*;
use crate::coding::{
    code, decoded, lemma_code_injective, lemma_code_onto, lemma_code_range, lemma_decode_encode,
    n_codes, reachable,
};
use crate::duality::{
    lemma_backs_contains, lemma_laps_contains, lemma_moves_contains,
    lemma_predecessor_in_successors, lemma_reach_contains, lemma_successor_in_predecessors,
};
use crate::rules::{
    back_laps, backs_laps_upto, backs_reach_upto, backs_upto, capturable, collected, is_back_move,
    is_board, landing, lemma_chain_range, lemma_played_gap, lemma_played_total, lemma_sum_bounds,
    moves_upto, played, predecessors, reward, rotated, sown, starved, successors, total, unsown,
    valid_sow, wrap, is_position,
};
use crate::state::Status;
use crate::table::{in_class, is_class, quiet};
use crate::utils::lemma_divmod_spec;
use crate::{FPITS, PITS, SEEDS};

verus! {

/// The number of moves without a capture among the first `k` moves that
/// lead to a board which is still unstable.
pub open spec fn waits(t: Seq<Status>, moves: Seq<(Seq<int>, int)>, k: int) -> int
    decreases k,
{
    if k <= 0 {
        0
    } else {
        waits(t, moves, k - 1) + if moves[k - 1].1 == 0 && t[code(moves[k - 1].0)] is Unstable {
            1int
        } else {
            0int
        }
    }
}

/// The number of moves without a capture among the first `k` moves that
/// lead to board `v`.
pub open spec fn leads(moves: Seq<(Seq<int>, int)>, v: Seq<int>, k: int) -> int
    decreases k,
{
    if k <= 0 {
        0
    } else {
        leads(moves, v, k - 1) + if moves[k - 1].1 == 0 && moves[k - 1].0 == v {
            1int
        } else {
            0int
        }
    }
}

/// The number of times that board `u` stands among the first `k` boards.
pub open spec fn times(s: Seq<Seq<int>>, u: Seq<int>, k: int) -> int
    decreases k,
{
    if k <= 0 {
        0
    } else {
        times(s, u, k - 1) + if s[k - 1] == u {
            1int
        } else {
            0int
        }
    }
}

/// A count over the first `k` boards does not depend on the boards after
/// them.
pub proof fn lemma_times_frame(a: Seq<Seq<int>>, b: Seq<Seq<int>>, u: Seq<int>, k: int)
    requires
        0 <= k <= a.len(),
        k <= b.len(),
        forall|i: int| 0 <= i < k ==> a[i] == b[i],
    ensures
        times(a, u, k) == times(b, u, k),
        0 <= times(a, u, k) <= k,
    decreases k,
{
    if k > 0 {
        lemma_times_frame(a, b, u, k - 1);
    }
}

/// One more board counts if it is the board that is counted.
pub proof fn lemma_times_push(s: Seq<Seq<int>>, x: Seq<int>, u: Seq<int>)
    ensures
        times(s.push(x), u, s.len() as int + 1) == times(s, u, s.len() as int) + if x == u {
            1int
        } else {
            0int
        },
{
    lemma_times_frame(s, s.push(x), u, s.len() as int);
}

/// A board stands among the first `k` boards if it is counted there.
pub proof fn lemma_times_contains(s: Seq<Seq<int>>, u: Seq<int>, k: int)
    requires
        0 <= k <= s.len(),
    ensures
        times(s, u, k) >= 1 <==> exists|i: int| 0 <= i < k && s[i] == u,
    decreases k,
{
    if k > 0 {
        lemma_times_contains(s, u, k - 1);
        if times(s, u, k - 1) >= 1 {
            let i = choose|i: int| 0 <= i < k - 1 && s[i] == u;
            assert(0 <= i < k && s[i] == u);
        }
        if exists|i: int| 0 <= i < k && s[i] == u {
            let i = choose|i: int| 0 <= i < k && s[i] == u;
            if i < k - 1 {
                assert(0 <= i < k - 1 && s[i] == u);
            }
        }
        lemma_times_frame(s, s, u, k - 1);
    }
}

/// In a list that holds no board twice, no board is counted twice.
pub proof fn lemma_times_once(s: Seq<Seq<int>>, u: Seq<int>, k: int)
    requires
        0 <= k <= s.len(),
        s.no_duplicates(),
    ensures
        0 <= times(s, u, k) <= 1,
    decreases k,
{
    if k > 0 {
        lemma_times_once(s, u, k - 1);
        lemma_times_contains(s, u, k - 1);
        if s[k - 1] == u && times(s, u, k - 1) >= 1 {
            let i = choose|i: int| 0 <= i < k - 1 && s[i] == u;
            assert(s[i] == s[k - 1]);
        }
    }
}

/// A count over the first `k` moves does not depend on the moves after
/// them.
pub proof fn lemma_leads_frame(
    a: Seq<(Seq<int>, int)>,
    b: Seq<(Seq<int>, int)>,
    v: Seq<int>,
    k: int,
)
    requires
        0 <= k <= a.len(),
        k <= b.len(),
        forall|i: int| 0 <= i < k ==> a[i] == b[i],
    ensures
        leads(a, v, k) == leads(b, v, k),
        0 <= leads(a, v, k),
    decreases k,
{
    if k > 0 {
        lemma_leads_frame(a, b, v, k - 1);
    }
}

/// A move without a capture leads to board `v` if such a move is counted.
pub proof fn lemma_leads_contains(moves: Seq<(Seq<int>, int)>, v: Seq<int>, k: int)
    requires
        0 <= k <= moves.len(),
    ensures
        leads(moves, v, k) >= 1 <==> exists|i: int| 0 <= i < k && moves[i] == (v, 0int),
    decreases k,
{
    if k > 0 {
        lemma_leads_contains(moves, v, k - 1);
        lemma_leads_frame(moves, moves, v, k - 1);
        if leads(moves, v, k - 1) >= 1 {
            let i = choose|i: int| 0 <= i < k - 1 && moves[i] == (v, 0int);
            assert(0 <= i < k && moves[i] == (v, 0int));
        }
        if exists|i: int| 0 <= i < k && moves[i] == (v, 0int) {
            let i = choose|i: int| 0 <= i < k && moves[i] == (v, 0int);
            if i < k - 1 {
                assert(0 <= i < k - 1 && moves[i] == (v, 0int));
            }
        }
    }
}

/// Playing different pits leads to different boards.
pub proof fn lemma_played_distinct(s: Seq<int>, p: int, q: int)
    requires
        is_board(s),
        0 <= p < PITS,
        0 <= q < PITS,
        p != q,
        s[p] > 0,
        s[q] > 0,
    ensures
        played(s, p) != played(s, q),
{
    lemma_played_gap(s, p);
    lemma_divmod_spec(s[q], FPITS - 1);
    let c = sown(s, q);
    let j = landing(s, q);
    lemma_chain_range(c, j);
    assert(wrap(p + PITS + PITS) == p);
    assert(collected(c, j)[p] == c[p]);
    assert(c[p] >= s[p]);
    assert(played(s, q)[p + PITS] == c[p]);
}

/// No two of the moves from the pits before pit `i` lead to the same
/// board.
pub proof fn lemma_leads_once(s: Seq<int>, i: int, v: Seq<int>)
    requires
        is_board(s),
        0 <= i <= PITS,
    ensures
        0 <= leads(moves_upto(s, i), v, moves_upto(s, i).len() as int) <= 1,
    decreases i,
{
    if i > 0 {
        lemma_leads_once(s, i - 1, v);
        let prev = moves_upto(s, i - 1);
        let all = moves_upto(s, i);
        lemma_leads_frame(prev, all, v, prev.len() as int);
        if valid_sow(s, i - 1) && played(s, i - 1) == v && leads(prev, v, prev.len() as int) >= 1 {
            lemma_leads_contains(prev, v, prev.len() as int);
            let k = choose|k: int| 0 <= k < prev.len() && prev[k] == (v, 0int);
            assert(prev.contains((v, 0int)));
            lemma_moves_contains(s, i - 1, (v, 0int));
            let p = choose|p: int|
                0 <= p < i - 1 && valid_sow(s, p) && (v, 0int) == (
                    #[trigger] played(s, p),
                    reward(s, p),
                );
            lemma_played_distinct(s, p, i - 1);
        }
    }
}

/// A list made of two lists holds no board twice if neither of them does
/// and they share no board.
pub proof fn lemma_concat_distinct(a: Seq<Seq<int>>, b: Seq<Seq<int>>)
    requires
        a.no_duplicates(),
        b.no_duplicates(),
        forall|x: Seq<int>| !(a.contains(x) && b.contains(x)),
    ensures
        (a + b).no_duplicates(),
{
    let s = a + b;
    assert forall|i: int, j: int| 0 <= i < s.len() && 0 <= j < s.len() && i != j implies s[i]
        != s[j] by {
        if i < a.len() && j >= a.len() {
            assert(a.contains(s[i]));
            assert(b[j - a.len()] == s[j]);
            assert(b.contains(s[j]));
        } else if j < a.len() && i >= a.len() {
            assert(a.contains(s[j]));
            assert(b[i - a.len()] == s[i]);
            assert(b.contains(s[i]));
        } else if i >= a.len() {
            assert(b[i - a.len()] == s[i]);
            assert(b[j - a.len()] == s[j]);
        }
    }
}

/// Taking back different numbers of laps gives different boards.
pub proof fn lemma_laps_distinct(s: Seq<int>, i: int, r: int, n: int)
    requires
        s.len() == FPITS,
        0 <= i < FPITS,
    ensures
        backs_laps_upto(s, i, r, n).no_duplicates(),
    decreases n,
{
    if n > 0 {
        lemma_laps_distinct(s, i, r, n - 1);
        let prev = backs_laps_upto(s, i, r, n - 1);
        let x = unsown(s, i, r, n - 1);
        lemma_laps_contains(s, i, r, n - 1, x);
        if prev.contains(x) {
            let k = choose|k: int| 0 <= k < n - 1 && x == #[trigger] unsown(s, i, r, k);
            assert(unsown(s, i, r, k)[i] == s[i] + (FPITS - 1) * k + r);
            assert(unsown(s, i, r, n - 1)[i] == s[i] + (FPITS - 1) * (n - 1) + r);
            assert((FPITS - 1) * k != (FPITS - 1) * (n - 1)) by (nonlinear_arith)
                requires
                    k < n - 1,
            ;
        }
        assert(prev.push(x).no_duplicates()) by {
            let all = prev.push(x);
            assert forall|a: int, b: int|
                0 <= a < all.len() && 0 <= b < all.len() && a != b implies all[a] != all[b] by {
                if a == prev.len() {
                    assert(prev.contains(prev[b]));
                } else if b == prev.len() {
                    assert(prev.contains(prev[a]));
                }
            }
        }
    } else {
        assert(backs_laps_upto(s, i, r, n) =~= Seq::empty());
    }
}

/// Taking back different moves from one pit gives different boards.
pub proof fn lemma_reach_distinct(s: Seq<int>, i: int, r: int)
    requires
        s.len() == FPITS,
        0 <= i < FPITS,
        0 <= r <= FPITS - 1,
    ensures
        backs_reach_upto(s, i, r).no_duplicates(),
    decreases r,
{
    if r > 0 {
        lemma_reach_distinct(s, i, r - 1);
        let prev = backs_reach_upto(s, i, r - 1);
        let here = backs_laps_upto(s, i, r, back_laps(s, i, r));
        lemma_laps_distinct(s, i, r, back_laps(s, i, r));
        if !capturable(s, wrap(i + r)) {
            assert forall|x: Seq<int>| !(prev.contains(x) && here.contains(x)) by {
                lemma_reach_contains(s, i, r - 1, x);
                lemma_laps_contains(s, i, r, back_laps(s, i, r), x);
                if prev.contains(x) && here.contains(x) {
                    let (r2, n2) = choose|r2: int, n2: int|
                        1 <= r2 <= r - 1 && !capturable(s, wrap(i + r2)) && 0 <= n2 < back_laps(
                            s,
                            i,
                            r2,
                        ) && x == #[trigger] unsown(s, i, r2, n2);
                    let n = choose|n: int|
                        0 <= n < back_laps(s, i, r) && x == #[trigger] unsown(s, i, r, n);
                    assert(unsown(s, i, r2, n2)[i] == s[i] + (FPITS - 1) * n2 + r2);
                    assert(unsown(s, i, r, n)[i] == s[i] + (FPITS - 1) * n + r);
                    assert((FPITS - 1) * n2 + r2 == (FPITS - 1) * n + r);
                    assert(false) by (nonlinear_arith)
                        requires
                            7 * n2 + r2 == 7 * n + r,
                            1 <= r2 < r <= 7,
                    ;
                }
            }
            lemma_concat_distinct(prev, here);
        }
    } else {
        assert(backs_reach_upto(s, i, r) =~= Seq::empty());
    }
}

/// Taking back different moves gives different boards.
pub proof fn lemma_backs_distinct(s: Seq<int>, i: int)
    requires
        is_board(s),
        0 <= i <= PITS,
    ensures
        backs_upto(s, i).no_duplicates(),
    decreases i,
{
    if i > 0 {
        lemma_backs_distinct(s, i - 1);
        let prev = backs_upto(s, i - 1);
        let here = backs_reach_upto(s, i - 1, FPITS - 1);
        lemma_reach_distinct(s, i - 1, FPITS - 1);
        if s[i - 1] == 0 {
            assert forall|x: Seq<int>| !(prev.contains(x) && here.contains(x)) by {
                lemma_backs_contains(s, i - 1, x);
                lemma_reach_contains(s, i - 1, FPITS - 1, x);
                if prev.contains(x) && here.contains(x) {
                    let (i2, r2, n2) = choose|i2: int, r2: int, n2: int|
                        i2 < i - 1 && is_back_move(s, i2, r2, n2) && x == #[trigger] unsown(
                            s,
                            i2,
                            r2,
                            n2,
                        );
                    let (r, n) = choose|r: int, n: int|
                        1 <= r <= FPITS - 1 && !capturable(s, wrap(i - 1 + r)) && 0 <= n
                            < back_laps(s, i - 1, r) && x == #[trigger] unsown(s, i - 1, r, n);
                    assert(unsown(s, i - 1, r, n)[i - 1] >= 1);
                    assert(unsown(s, i2, r2, n2)[i - 1] <= 0);
                }
            }
            lemma_concat_distinct(prev, here);
        }
    } else {
        assert(backs_upto(s, i) =~= Seq::empty());
    }
}

/// No board stands twice among the predecessors of a board.
pub proof fn lemma_predecessors_distinct(s: Seq<int>)
    requires
        is_board(s),
    ensures
        predecessors(s).no_duplicates(),
{
    let c = rotated(s);
    assert(is_board(c)) by {
        assert forall|k: int| 0 <= k < FPITS implies #[trigger] c[k] >= 0 by {
            assert(s[wrap(k + PITS)] >= 0);
        }
    }
    if !starved(c) {
        lemma_backs_distinct(c, PITS as int);
    }
}

/// Board `u` stands among the predecessors of board `v` as often as a
/// move of `u` without a capture leads to `v`: once or not at all.
pub proof fn lemma_leads_times(u: Seq<int>, v: Seq<int>)
    requires
        is_board(u),
        is_board(v),
    ensures
        leads(successors(u), v, successors(u).len() as int) == times(
            predecessors(v),
            u,
            predecessors(v).len() as int,
        ),
        0 <= leads(successors(u), v, successors(u).len() as int) <= 1,
{
    let moves = successors(u);
    let preds = predecessors(v);
    lemma_leads_once(u, PITS as int, v);
    lemma_predecessors_distinct(v);
    lemma_times_once(preds, u, preds.len() as int);
    lemma_leads_contains(moves, v, moves.len() as int);
    lemma_times_contains(preds, u, preds.len() as int);
    if leads(moves, v, moves.len() as int) >= 1 {
        let i = choose|i: int| 0 <= i < moves.len() && moves[i] == (v, 0int);
        assert(moves.contains((v, 0int)));
        lemma_successor_in_predecessors(u, v);
        let j = choose|j: int| 0 <= j < preds.len() && preds[j] == u;
    }
    if times(preds, u, preds.len() as int) >= 1 {
        let j = choose|j: int| 0 <= j < preds.len() && preds[j] == u;
        assert(preds.contains(u));
        lemma_predecessor_in_successors(v, u);
        let i = choose|i: int| 0 <= i < moves.len() && moves[i] == (v, 0int);
    }
}

/// A move leads to a board of the table, which holds the seeds that the
/// move did not capture; and a move captures no seed, or two or more.
pub proof fn lemma_move(u: Seq<int>, k: int)
    requires
        is_position(u),
        total(u) != SEEDS - 1,
        0 <= k < successors(u).len(),
    ensures
        reachable(successors(u)[k].0),
        total(successors(u)[k].0) == total(u) - successors(u)[k].1,
        successors(u)[k].1 == 0 || successors(u)[k].1 >= 2,
{
    let m = successors(u)[k];
    assert(successors(u).contains(m));
    lemma_moves_contains(u, PITS as int, m);
    let p = choose|p: int|
        0 <= p < PITS && valid_sow(u, p) && m == (#[trigger] played(u, p), reward(u, p));
    lemma_played_gap(u, p);
    lemma_played_total(u, p);
    lemma_moved_board(u, p);
    lemma_sum_bounds(u, FPITS as int);
}

/// A move leads from a board to a board.
pub proof fn lemma_moved_board(u: Seq<int>, p: int)
    requires
        is_board(u),
        0 <= p < PITS,
        u[p] > 0,
    ensures
        is_board(played(u, p)),
{
    lemma_divmod_spec(u[p], FPITS - 1);
    let c = sown(u, p);
    assert forall|k: int| 0 <= k < FPITS implies #[trigger] c[k] >= 0 by {
        assert(u[k] >= 0);
    }
    let e = collected(c, landing(u, p));
    assert forall|k: int| 0 <= k < FPITS implies #[trigger] e[k] >= 0 by {
        assert(c[k] >= 0);
    }
    let v = played(u, p);
    assert forall|k: int| 0 <= k < FPITS implies #[trigger] v[k] >= 0 by {
        assert(e[wrap(k + PITS)] >= 0);
    }
}

/// What a change of one board of the table does to what board `u`
/// awaits: if the board that changed became stable, `u` awaits one
/// outcome less for each of its moves without a capture that leads there.
pub proof fn lemma_waits_flip(t: Seq<Status>, c: int, s: Status, v: Seq<int>, u: Seq<int>, k: int)
    requires
        reachable(u),
        reachable(v),
        code(v) == c,
        t.len() == n_codes(),
        t[c] is Unstable,
        0 <= k <= successors(u).len(),
    ensures
        waits(t.update(c, s), successors(u), k) == waits(t, successors(u), k) - if s is Stable {
            leads(successors(u), v, k)
        } else {
            0
        },
    decreases k,
{
    if k > 0 {
        lemma_waits_flip(t, c, s, v, u, k - 1);
        let m = successors(u)[k - 1];
        lemma_move(u, k - 1);
        lemma_code_range(m.0);
        lemma_code_range(v);
        if code(m.0) == c {
            lemma_code_injective(m.0, v);
        }
    }
}

/// A board all of whose moves lead to unstable boards awaits the outcome
/// of each of its moves without a capture.
pub proof fn lemma_waits_fresh(t: Seq<Status>, u: Seq<int>, k: int)
    requires
        reachable(u),
        t.len() == n_codes(),
        forall|c: int| #[trigger] in_class(total(u), c) ==> t[c] is Unstable,
        0 <= k <= successors(u).len(),
    ensures
        waits(t, successors(u), k) == quiet(successors(u), k),
    decreases k,
{
    if k > 0 {
        lemma_waits_fresh(t, u, k - 1);
        let m = successors(u)[k - 1];
        lemma_move(u, k - 1);
        lemma_code_range(m.0);
        if m.1 == 0 {
            assert(in_class(total(u), code(m.0)));
        }
    }
}

/// A board awaits no less than nothing.
pub proof fn lemma_waits_nonneg(t: Seq<Status>, moves: Seq<(Seq<int>, int)>, k: int)
    ensures
        0 <= waits(t, moves, k),
    decreases k,
{
    if k > 0 {
        lemma_waits_nonneg(t, moves, k - 1);
    }
}

/// What a board awaits depends on the boards with as many seeds only.
pub proof fn lemma_waits_frame(a: Seq<Status>, b: Seq<Status>, u: Seq<int>, k: int)
    requires
        reachable(u),
        a.len() == n_codes(),
        b.len() == n_codes(),
        forall|c: int| #[trigger] in_class(total(u), c) ==> a[c] == b[c],
        0 <= k <= successors(u).len(),
    ensures
        waits(a, successors(u), k) == waits(b, successors(u), k),
    decreases k,
{
    if k > 0 {
        lemma_waits_frame(a, b, u, k - 1);
        let m = successors(u)[k - 1];
        lemma_move(u, k - 1);
        lemma_code_range(m.0);
        if m.1 == 0 {
            assert(in_class(total(u), code(m.0)));
        }
    }
}

/// The number of successors that an unstable board awaits; `0` for a
/// stable board.
pub open spec fn awaited(s: Status) -> int {
    match s {
        Status::Stable(_) => 0,
        Status::Unstable(_, r) => r as int,
    }
}

/// Every unstable board with `n` seeds awaits as many successors as it
/// has moves without a capture that lead to boards which are still
/// unstable, and scores on their way to it among `pending`.
pub open spec fn counted(t: Seq<Status>, n: int, pending: Seq<Seq<int>>) -> bool {
    forall|c: int|
        #[trigger] in_class(n, c) && t[c] is Unstable ==> awaited(t[c]) == waits(
            t,
            successors(decoded(c)),
            successors(decoded(c)).len() as int,
        ) + times(pending, decoded(c), pending.len() as int)
}

/// As `counted`, when board `v` has just become stable and its score is
/// on its way to the first `k` of its predecessors only.
pub open spec fn owing(t: Seq<Status>, n: int, pending: Seq<Seq<int>>, v: Seq<int>, k: int)
    -> bool {
    forall|c: int|
        #[trigger] in_class(n, c) && t[c] is Unstable ==> awaited(t[c]) == waits(
            t,
            successors(decoded(c)),
            successors(decoded(c)).len() as int,
        ) + times(pending, decoded(c), pending.len() as int) + leads(
            successors(decoded(c)),
            v,
            successors(decoded(c)).len() as int,
        ) - times(predecessors(v), decoded(c), k)
}

/// When the score of a board that became stable is on its way to all its
/// predecessors, the counters are in order again.
pub proof fn lemma_owing_done(t: Seq<Status>, n: int, pending: Seq<Seq<int>>, v: Seq<int>)
    requires
        is_class(n),
        is_board(v),
        owing(t, n, pending, v, predecessors(v).len() as int),
    ensures
        counted(t, n, pending),
{
    assert forall|c: int| #[trigger] in_class(n, c) && t[c] is Unstable implies awaited(t[c])
        == waits(t, successors(decoded(c)), successors(decoded(c)).len() as int) + times(
        pending,
        decoded(c),
        pending.len() as int,
    ) by {
        crate::coding::lemma_class_within(n);
        lemma_code_onto(c);
        lemma_leads_times(decoded(c), v);
    }
}

/// What a change of the board with code `c` does to the counters: if the
/// board stays unstable, the counters of the others are in order as
/// before; if it becomes stable, its score is owed to its predecessors.
pub proof fn lemma_counted_flip(
    t: Seq<Status>,
    n: int,
    pending: Seq<Seq<int>>,
    c: int,
    s: Status,
    v: Seq<int>,
)
    requires
        is_class(n),
        t.len() == n_codes(),
        reachable(v),
        total(v) == n,
        code(v) == c,
        t[c] is Unstable,
        forall|d: int|
            #[trigger] in_class(n, d) && d != c && t[d] is Unstable ==> awaited(t[d]) == waits(
                t,
                successors(decoded(d)),
                successors(decoded(d)).len() as int,
            ) + times(pending, decoded(d), pending.len() as int),
        s is Unstable ==> awaited(s) == waits(t, successors(v), successors(v).len() as int)
            + times(pending, v, pending.len() as int),
    ensures
        s is Unstable ==> counted(t.update(c, s), n, pending),
        s is Stable ==> owing(t.update(c, s), n, pending, v, 0),
{
    let t2 = t.update(c, s);
    crate::coding::lemma_class_within(n);
    lemma_code_range(v);
    lemma_decode_encode(v);
    assert forall|d: int| #[trigger] in_class(n, d) && t2[d] is Unstable implies awaited(t2[d])
        == waits(t2, successors(decoded(d)), successors(decoded(d)).len() as int) + times(
        pending,
        decoded(d),
        pending.len() as int,
    ) + if s is Stable {
        leads(successors(decoded(d)), v, successors(decoded(d)).len() as int)
    } else {
        0
    } by {
        lemma_code_onto(d);
        lemma_waits_flip(t, c, s, v, decoded(d), successors(decoded(d)).len() as int);
    }
}

} // verus!
