//! The table of the analysis, and what holds of it while the analysis
//! runs.

use vstd::prelude::*;
use crate::awari::Awari;
use crate::coding::{
    class_size, class_start, code, decoded, lemma_class_order, lemma_class_within, lemma_code_onto,
    n_codes, reachable,
};
use crate::rules::{lemma_sum_bounds, successors, total};
use crate::state::{lemma_keeps_trans, State, Status};
use crate::waits::{awaited, counted, times, waits};
use crate::{FPITS, SEEDS};

verus! {

/// `n` is a seed class of the table.
pub open spec fn is_class(n: int) -> bool {
    0 <= n <= SEEDS && n != SEEDS - 1
}

/// `c` is the code of a board with `n` seeds.
pub open spec fn in_class(n: int, c: int) -> bool {
    class_start(n) <= c < class_start(n) + class_size(n)
}

/// Every score or bound of a board with `n` seeds fits the class: it lies
/// within `-n..=n` and is even or odd as `n` is.
pub open spec fn bounded(t: Seq<Status>, n: int) -> bool {
    forall|c: int| #[trigger] in_class(n, c) ==> t[c].fits(n)
}

/// Every class with fewer than `n` seeds is bounded.
pub open spec fn bounded_below(t: Seq<Status>, n: int) -> bool {
    forall|m: int, c: int| 0 <= m < n && is_class(m) && #[trigger] in_class(m, c) ==> t[c].fits(m)
}

/// Every board with `n` seeds is stable.
pub open spec fn stable_class(t: Seq<Status>, n: int) -> bool {
    forall|c: int| #[trigger] in_class(n, c) ==> t[c] is Stable
}

/// Every unstable board with `n` seeds has a bound of at most `sat_lvl`,
/// and awaits a successor unless `sat_lvl` is `n`.
pub open spec fn ceiling(t: Seq<Status>, n: int, sat_lvl: int) -> bool {
    forall|c: int| #[trigger] in_class(n, c) ==> t[c].capped(n, sat_lvl)
}

/// The two tables agree on every board that does not hold `n` seeds.
pub open spec fn same_outside(a: Seq<Status>, b: Seq<Status>, n: int) -> bool {
    &&& a.len() == b.len()
    &&& forall|c: int| 0 <= c < a.len() && !in_class(n, c) ==> a[c] == #[trigger] b[c]
}

/// Table `b` is a later stage of table `a`: no stable board changed, and
/// no bound of an unstable board went down.
pub open spec fn advanced(a: Seq<Status>, b: Seq<Status>) -> bool {
    &&& a.len() == b.len()
    &&& forall|c: int| 0 <= c < a.len() ==> a[c].precedes(#[trigger] b[c])
}

/// Table `b` is a later stage of table `a` within the sweep at saturation
/// level `sat_lvl`: every board kept what `Status::keeps` names.
pub open spec fn kept(a: Seq<Status>, b: Seq<Status>, sat_lvl: int) -> bool {
    &&& a.len() == b.len()
    &&& forall|c: int| 0 <= c < a.len() ==> a[c].keeps(#[trigger] b[c], sat_lvl)
}

/// The work left on the boards with codes from `lo` up to `hi`.
pub open spec fn weight_sum(t: Seq<Status>, lo: int, hi: int) -> nat
    decreases hi - lo,
{
    if hi <= lo {
        0
    } else {
        weight_sum(t, lo, hi - 1) + t[hi - 1].weight()
    }
}

/// A change of one board changes the work left by the difference.
pub proof fn lemma_weight_update(t: Seq<Status>, lo: int, hi: int, i: int, v: Status)
    requires
        0 <= lo <= hi <= t.len(),
        0 <= i < t.len(),
    ensures
        weight_sum(t.update(i, v), lo, hi) == if lo <= i < hi {
            weight_sum(t, lo, hi) - t[i].weight() + v.weight()
        } else {
            weight_sum(t, lo, hi) as int
        },
        lo <= i < hi ==> weight_sum(t, lo, hi) >= t[i].weight(),
    decreases hi - lo,
{
    if lo < hi {
        lemma_weight_update(t, lo, hi - 1, i, v);
    }
}

/// A code belongs to one class only.
pub proof fn lemma_one_class(n: int, m: int, c: int)
    requires
        is_class(n),
        is_class(m),
        in_class(n, c),
        in_class(m, c),
    ensures
        n == m,
{
    if n < m {
        lemma_class_order(n, m);
    }
    if m < n {
        lemma_class_order(m, n);
    }
}

/// What holds of the other classes still holds after a change to class
/// `n` alone.
pub proof fn lemma_frame(a: Seq<Status>, b: Seq<Status>, n: int)
    requires
        is_class(n),
        a.len() == n_codes(),
        same_outside(a, b, n),
    ensures
        bounded_below(a, n) ==> bounded_below(b, n),
        forall|m: int| is_class(m) && m != n && bounded(a, m) ==> bounded(b, m),
        forall|m: int| is_class(m) && m != n && stable_class(a, m) ==> #[trigger] stable_class(b,
            m),
        forall|m: int, l: int|
            is_class(m) && m != n && ceiling(a, m, l) ==> #[trigger] ceiling(b, m, l),
{
    assert forall|m: int, c: int| is_class(m) && m != n && #[trigger] in_class(m, c) implies a[c]
        == b[c] by {
        lemma_class_within(m);
        if in_class(n, c) {
            lemma_one_class(n, m, c);
        }
    }
}

/// A later stage within a sweep is a later stage, and keeps the ceiling.
pub proof fn lemma_kept(a: Seq<Status>, b: Seq<Status>, n: int, sat_lvl: int)
    requires
        is_class(n),
        a.len() == n_codes(),
        kept(a, b, sat_lvl),
    ensures
        advanced(a, b),
        ceiling(a, n, sat_lvl) ==> ceiling(b, n, sat_lvl),
{
    assert forall|c: int| 0 <= c < a.len() implies a[c].precedes(#[trigger] b[c]) by {
        assert(a[c].keeps(b[c], sat_lvl));
    }
    if ceiling(a, n, sat_lvl) {
        assert forall|c: int| #[trigger] in_class(n, c) implies b[c].capped(n, sat_lvl) by {
            lemma_class_within(n);
            assert(a[c].keeps(b[c], sat_lvl));
        }
    }
}

/// Two later stages within a sweep, one after the other, make one.
pub proof fn lemma_kept_trans(a: Seq<Status>, b: Seq<Status>, c: Seq<Status>, sat_lvl: int)
    requires
        kept(a, b, sat_lvl),
        kept(b, c, sat_lvl),
    ensures
        kept(a, c, sat_lvl),
{
    assert forall|d: int| 0 <= d < a.len() implies a[d].keeps(#[trigger] c[d], sat_lvl) by {
        assert(a[d].keeps(b[d], sat_lvl));
        assert(b[d].keeps(c[d], sat_lvl));
        lemma_keeps_trans(a[d], b[d], c[d], sat_lvl);
    }
}

/// A table is a later stage of itself.
pub proof fn lemma_kept_same(t: Seq<Status>, sat_lvl: int)
    ensures
        kept(t, t, sat_lvl),
{
}

/// A change of one board to a status that it may take within a sweep
/// gives a later stage within the sweep.
pub proof fn lemma_kept_update(t: Seq<Status>, i: int, v: Status, sat_lvl: int)
    requires
        0 <= i < t.len(),
        t[i].keeps(v, sat_lvl),
    ensures
        kept(t, t.update(i, v), sat_lvl),
{
}

/// The best score that a capturing move among the first `k` moves
/// secures on a board with `n` seeds: what the move captures, less the
/// score of the board that it leads to; `-n` if no such move captures.
pub open spec fn best_capture(t: Seq<Status>, moves: Seq<(Seq<int>, int)>, k: int, n: int) -> int
    decreases k,
{
    if k <= 0 {
        -n
    } else {
        let prev = best_capture(t, moves, k - 1, n);
        let gain = moves[k - 1].1 - t[code(moves[k - 1].0)].value();
        if moves[k - 1].1 > 0 && gain > prev {
            gain
        } else {
            prev
        }
    }
}

/// The number of moves without a capture among the first `k` moves.
pub open spec fn quiet(moves: Seq<(Seq<int>, int)>, k: int) -> int
    decreases k,
{
    if k <= 0 {
        0
    } else {
        quiet(moves, k - 1) + if moves[k - 1].1 == 0 {
            1int
        } else {
            0int
        }
    }
}

/// The status with which the analysis of board `u` starts: the best
/// score that a capturing move secures as its bound, and its moves without
/// a capture to await.
pub open spec fn first_status(t: Seq<Status>, u: Seq<int>) -> Status {
    let moves = successors(u);
    Status::Unstable(
        best_capture(t, moves, moves.len() as int, total(u)) as i8,
        quiet(moves, moves.len() as int) as u8,
    )
}

/// The best capture among the moves of a board depends on the boards with
/// fewer seeds only.
pub proof fn lemma_best_capture_frame(a: Seq<Status>, b: Seq<Status>, u: Seq<int>, k: int)
    requires
        reachable(u),
        a.len() == n_codes(),
        same_outside(a, b, total(u)),
        0 <= k <= successors(u).len(),
    ensures
        best_capture(a, successors(u), k, total(u)) == best_capture(b, successors(u), k, total(u)),
    decreases k,
{
    if k > 0 {
        lemma_best_capture_frame(a, b, u, k - 1);
        let m = successors(u)[k - 1];
        if m.1 > 0 {
            crate::waits::lemma_move(u, k - 1);
            crate::coding::lemma_code_range(m.0);
            lemma_sum_bounds(u, FPITS as int);
            lemma_sum_bounds(m.0, FPITS as int);
            if in_class(total(u), code(m.0)) {
                lemma_one_class(total(u), total(m.0), code(m.0));
            }
        }
    }
}

/// The first status of a board depends on the boards with fewer seeds
/// only.
pub proof fn lemma_first_status_frame(a: Seq<Status>, b: Seq<Status>, u: Seq<int>)
    requires
        reachable(u),
        a.len() == n_codes(),
        same_outside(a, b, total(u)),
    ensures
        first_status(a, u) == first_status(b, u),
{
    lemma_best_capture_frame(a, b, u, successors(u).len() as int);
}

/// The boards to which the scores on a stack are on their way.
pub open spec fn addressees(stack: Seq<(Awari, i8)>) -> Seq<Seq<int>> {
    stack.map_values(|e: (Awari, i8)| e.0@)
}

/// The scores on a stack, each with the board that it is on its way to.
pub open spec fn entries(stack: Seq<(Awari, i8)>) -> Seq<(Seq<int>, int)> {
    stack.map_values(|e: (Awari, i8)| (e.0@, e.1 as int))
}

/// The stack holds scores for boards with `n` seeds, which fit the class
/// and lie within the saturation level.
pub open spec fn on_way(stack: Seq<(Awari, i8)>, n: int, sat_lvl: int) -> bool {
    forall|k: int|
        0 <= k < stack.len() ==> reachable((#[trigger] stack[k]).0@) && total(stack[k].0@) == n
            && -sat_lvl <= stack[k].1 <= sat_lvl && (stack[k].1 - n) % 2 == 0
}

/// There are as many moves without a capture as moves at most.
pub proof fn lemma_quiet_bounds(moves: Seq<(Seq<int>, int)>, k: int)
    requires
        0 <= k,
    ensures
        0 <= quiet(moves, k) <= k,
    decreases k,
{
    if k > 0 {
        lemma_quiet_bounds(moves, k - 1);
    }
}

/// The counters of a class are in order whatever the boards with other
/// numbers of seeds hold.
pub proof fn lemma_counted_frame(a: Seq<Status>, b: Seq<Status>, n: int, m: int)
    requires
        is_class(n),
        is_class(m),
        m != n,
        a.len() == n_codes(),
        same_outside(a, b, n),
        counted(a, m, Seq::empty()),
    ensures
        counted(b, m, Seq::empty()),
{
    assert forall|c: int| #[trigger] in_class(m, c) implies a[c] == b[c] by {
        lemma_class_within(m);
        if in_class(n, c) {
            lemma_one_class(n, m, c);
        }
    }
    assert forall|c: int| #[trigger] in_class(m, c) && b[c] is Unstable implies awaited(b[c])
        == waits(b, successors(decoded(c)), successors(decoded(c)).len() as int) + times(
        Seq::<Seq<int>>::empty(),
        decoded(c),
        0,
    ) by {
        lemma_class_within(m);
        lemma_code_onto(c);
        crate::order::lemma_class_of_code(decoded(c), m);
        crate::waits::lemma_waits_frame(
            a,
            b,
            decoded(c),
            successors(decoded(c)).len() as int,
        );
    }
}

/// The table of the analysis: one state for each code.
pub trait Table {
    /// What the table holds, by code. An implementation says here what
    /// its `get` reads; where it says nothing, nothing is known of it.
    open spec fn states(&self) -> Seq<Status> {
        arbitrary()
    }

    /// The state of the board with code `i`.
    fn get(&self, i: usize) -> (res: State)
        requires
            i < self.states().len(),
        ensures
            res@ == self.states()[i as int],
    ;

    /// Sets the state of the board with code `i`.
    fn insert(&mut self, i: usize, s: State)
        requires
            i < old(self).states().len(),
        ensures
            final(self).states() == old(self).states().update(i as int, s@),
    ;

    /// Called before the boards with `n` seeds are analysed.
    fn pre_hook(&mut self, n: usize)
        ensures
            final(self).states() == old(self).states(),
    ;

    /// Called after the boards with `n` seeds were analysed.
    fn post_hook(&mut self, n: usize)
        ensures
            final(self).states() == old(self).states(),
    ;

    /// Called when the analysis is complete.
    fn finish_hook(&mut self)
        ensures
            final(self).states() == old(self).states(),
    ;
}

} // verus!
