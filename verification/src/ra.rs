//! The retrograde analysis: the fixed-point computation that fills the
//! table of scores, one seed class after the other.

use vstd::prelude::*;
use crate::awari::{Awari, moves_view};
use crate::coding::{
    class_size, class_start, code, decoded, lemma_class_within, lemma_code_injective,
    lemma_code_onto, lemma_first_class, n_codes, reachable,
};
use crate::duality::lemma_moves_len;
use crate::rules::{lemma_sum_bounds, successors, total};
use crate::sound::{
    boards, lemma_settled, lemma_solved_empty, lemma_solved_frame, lemma_sound_deliver,
    lemma_sound_done, lemma_sound_first, lemma_sound_frame, lemma_sound_lower, lemma_sound_push,
    lemma_sound_visit, solved, sound, sound_owing,
};
use crate::state::{lemma_stabilized, lemma_updated};
use crate::table::{
    addressees, advanced, best_capture, bounded, bounded_below, ceiling, entries, first_status,
    in_class, is_class, kept, lemma_counted_frame, lemma_first_status_frame, lemma_frame,
    lemma_kept, lemma_kept_same, lemma_kept_trans, lemma_kept_update, lemma_one_class,
    lemma_quiet_bounds, lemma_weight_update, on_way, quiet, same_outside, stable_class,
    weight_sum,
};
use crate::waits::{
    awaited, counted, lemma_counted_flip, lemma_owing_done, lemma_times_frame, lemma_times_push,
    lemma_waits_fresh, lemma_waits_nonneg, owing, times, waits,
};
use crate::{FPITS, PITS, SEEDS};

pub use crate::state::{State, Status};
pub use crate::storage::NaiveRAM;
pub use crate::table::Table;

verus! {

/// The analysis, over the table that it fills.
pub struct Driver<T: Table> {
    pub table: T,
}

impl<T: Table> Driver<T> {
    /// Hands the final score `up` of a successor to board `u`, and on to
    /// the predecessors of every board that this makes stable. Every score
    /// that is handed on lies within the saturation level, and every board
    /// that takes a score still awaited one. The score must be that of a
    /// stable board to which a move of `u` without a capture leads, and the
    /// only one that is on its way.
    pub fn propagate(&mut self, u: Awari, up: i8, sat_lvl: i8)
        requires
            old(self).table.states().len() == n_codes(),
            reachable(u@),
            0 <= sat_lvl <= total(u@),
            (total(u@) - sat_lvl) % 2 == 0,
            -sat_lvl <= up <= sat_lvl,
            (up - total(u@)) % 2 == 0,
            bounded(old(self).table.states(), total(u@)),
            ceiling(old(self).table.states(), total(u@), sat_lvl as int),
            counted(old(self).table.states(), total(u@), seq![u@]),
            sound(old(self).table.states(), total(u@), sat_lvl as int, seq![(u@, up as int)]),
        ensures
            final(self).table.states().len() == n_codes(),
            bounded(final(self).table.states(), total(u@)),
            ceiling(final(self).table.states(), total(u@), sat_lvl as int),
            counted(final(self).table.states(), total(u@), Seq::empty()),
            sound(final(self).table.states(), total(u@), sat_lvl as int, Seq::empty()),
            same_outside(old(self).table.states(), final(self).table.states(), total(u@)),
            advanced(old(self).table.states(), final(self).table.states()),
            kept(old(self).table.states(), final(self).table.states(), sat_lvl as int),
            kept(
                old(self).table.states().update(
                    code(u@),
                    old(self).table.states()[code(u@)].updated(up, sat_lvl),
                ),
                final(self).table.states(),
                sat_lvl as int,
            ),
    {
        let ghost n = total(u@);
        let ghost first = self.table.states();
        proof {
            lemma_sum_bounds(u@, FPITS as int);
            lemma_class_within(n);
            crate::coding::lemma_code_range(u@);
        }
        let mut stack: Vec<(Awari, i8)> = Vec::new();
        proof {
            assert(addressees(stack@).push(u@) =~= seq![u@]);
            assert(entries(stack@).push((u@, up as int)) =~= seq![(u@, up as int)]);
        }
        self.deliver(&u, up, sat_lvl, &mut stack);
        let ghost told = self.table.states();
        proof {
            assert(in_class(n, code(u@)));
            lemma_updated(first[code(u@)], up, sat_lvl, n);
            lemma_kept_update(first, code(u@), first[code(u@)].updated(up, sat_lvl),
                sat_lvl as int);
        }
        self.drain(stack, sat_lvl, Ghost(n));
        proof {
            lemma_kept_trans(first, told, self.table.states(), sat_lvl as int);
            lemma_kept(first, self.table.states(), n, sat_lvl as int);
        }
    }

    /// Hands score `a` to board `b`. If that makes the board stable, its
    /// score goes on the stack for each of its predecessors.
    fn deliver(&mut self, b: &Awari, a: i8, sat_lvl: i8, stack: &mut Vec<(Awari, i8)>)
        requires
            old(self).table.states().len() == n_codes(),
            reachable(b@),
            0 <= sat_lvl <= total(b@),
            (total(b@) - sat_lvl) % 2 == 0,
            -sat_lvl <= a <= sat_lvl,
            (a - total(b@)) % 2 == 0,
            bounded(old(self).table.states(), total(b@)),
            ceiling(old(self).table.states(), total(b@), sat_lvl as int),
            counted(old(self).table.states(), total(b@), addressees(old(stack)@).push(b@)),
            on_way(old(stack)@, total(b@), sat_lvl as int),
            sound(
                old(self).table.states(),
                total(b@),
                sat_lvl as int,
                entries(old(stack)@).push((b@, a as int)),
            ),
        ensures
            sound(final(self).table.states(), total(b@), sat_lvl as int, entries(final(stack)@)),
            final(self).table.states() == old(self).table.states().update(
                code(b@),
                old(self).table.states()[code(b@)].updated(a, sat_lvl),
            ),
            old(self).table.states()[code(b@)] is Unstable ==> awaited(
                old(self).table.states()[code(b@)],
            ) >= 1,
            bounded(final(self).table.states(), total(b@)),
            ceiling(final(self).table.states(), total(b@), sat_lvl as int),
            counted(final(self).table.states(), total(b@), addressees(final(stack)@)),
            on_way(final(stack)@, total(b@), sat_lvl as int),
            !(old(self).table.states()[code(b@)] is Unstable && final(self).table.states()[code(
                b@,
            )] is Stable) ==> final(stack)@ == old(stack)@,
    {
        let ghost n = total(b@);
        let ghost t = self.table.states();
        let ghost pend = addressees(stack@);
        let ghost pairs = entries(stack@);
        proof {
            lemma_sum_bounds(b@, FPITS as int);
            lemma_class_within(n);
            crate::coding::lemma_decode_encode(b@);
        }
        let c = b.encode();
        let mut s = self.table.get(c);
        let ghost was = s@;
        let r = s.update(a, sat_lvl);
        self.table.insert(c, s);
        proof {
            assert(in_class(n, c as int));
            lemma_updated(was, a, sat_lvl, n);
            lemma_times_push(pend, b@, b@);
            lemma_times_frame(pend, pend, b@, pend.len() as int);
            assert(boards(pairs) =~= pend);
            lemma_sound_deliver(t, n, sat_lvl, pairs, b@, a);
            if was is Unstable {
                lemma_waits_nonneg(t, successors(b@), successors(b@).len() as int);
                assert(awaited(was) >= 1);
                // the others count the score that is on its way to `b`
                // only if they are `b`
                assert forall|d: int|
                    #[trigger] in_class(n, d) && d != c && t[d] is Unstable implies awaited(t[d])
                    == waits(t, successors(decoded(d)), successors(decoded(d)).len() as int)
                    + times(pend, decoded(d), pend.len() as int) by {
                    lemma_code_onto(d);
                    lemma_times_push(pend, b@, decoded(d));
                    if decoded(d) == b@ {
                        assert(code(decoded(d)) == c);
                    }
                }
                lemma_counted_flip(t, n, pend, c as int, s@, b@);
            } else {
                assert(self.table.states() =~= t);
                assert forall|d: int|
                    #[trigger] in_class(n, d) && t[d] is Unstable implies awaited(t[d]) == waits(
                    t,
                    successors(decoded(d)),
                    successors(decoded(d)).len() as int,
                ) + times(pend, decoded(d), pend.len() as int) by {
                    lemma_code_onto(d);
                    lemma_times_push(pend, b@, decoded(d));
                    if decoded(d) == b@ {
                        assert(code(decoded(d)) == c);
                    }
                }
            }
        }
        match r {
            Some(x) => {
                self.push_preds(b, x, sat_lvl, stack);
            },
            None => {},
        }
    }

    /// Puts the final score `x` of board `b` on the stack for each of its
    /// predecessors that the table holds.
    fn push_preds(&self, b: &Awari, x: i8, sat_lvl: i8, stack: &mut Vec<(Awari, i8)>)
        requires
            self.table.states().len() == n_codes(),
            reachable(b@),
            -sat_lvl <= x <= sat_lvl,
            (x - total(b@)) % 2 == 0,
            owing(self.table.states(), total(b@), addressees(old(stack)@), b@, 0),
            on_way(old(stack)@, total(b@), sat_lvl as int),
            self.table.states()[code(b@)] == Status::Stable(x),
            sound_owing(
                self.table.states(),
                total(b@),
                sat_lvl as int,
                entries(old(stack)@),
                b@,
                0,
            ),
        ensures
            counted(self.table.states(), total(b@), addressees(final(stack)@)),
            on_way(final(stack)@, total(b@), sat_lvl as int),
            sound(self.table.states(), total(b@), sat_lvl as int, entries(final(stack)@)),
    {
        let ghost n = total(b@);
        let ghost t = self.table.states();
        proof {
            lemma_sum_bounds(b@, FPITS as int);
            lemma_class_within(n);
        }
        let preds = b.predecessors();
        let ghost pv = crate::rules::predecessors(b@);
        let mut k: usize = 0;
        while k < preds.len()
            invariant
                k <= preds@.len(),
                is_class(n),
                n == total(b@),
                -sat_lvl <= x <= sat_lvl,
                (x - n) % 2 == 0,
                t == self.table.states(),
                t.len() == n_codes(),
                pv == crate::rules::predecessors(b@),
                crate::awari::boards_view(preds@) == pv,
                forall|j: int| 0 <= j < preds@.len() ==> total(#[trigger] preds@[j]@) == n,
                owing(t, n, addressees(stack@), b@, k as int),
                on_way(stack@, n, sat_lvl as int),
                reachable(b@),
                t[code(b@)] == Status::Stable(x),
                sound_owing(t, n, sat_lvl as int, entries(stack@), b@, k as int),
            decreases preds@.len() - k,
        {
            let v = preds[k];
            let ghost pend = addressees(stack@);
            let ghost pairs = entries(stack@);
            proof {
                assert(pv[k as int] == v@);
                lemma_sound_push(t, n, sat_lvl as int, pairs, b@, k as int, reachable(v@));
            }
            if v.reachable() {
                stack.push((v, x));
                proof {
                    assert(entries(stack@) =~= pairs.push((v@, x as int)));
                    assert(addressees(stack@) =~= pend.push(v@));
                    assert forall|c: int|
                        #[trigger] in_class(n, c) && t[c] is Unstable implies awaited(t[c])
                        == waits(t, successors(decoded(c)), successors(decoded(c)).len() as int)
                        + times(addressees(stack@), decoded(c), addressees(stack@).len() as int)
                        + crate::waits::leads(
                        successors(decoded(c)),
                        b@,
                        successors(decoded(c)).len() as int,
                    ) - times(pv, decoded(c), k + 1) by {
                        lemma_times_push(pend, v@, decoded(c));
                    }
                }
            } else {
                proof {
                    assert forall|c: int|
                        #[trigger] in_class(n, c) && t[c] is Unstable implies awaited(t[c])
                        == waits(t, successors(decoded(c)), successors(decoded(c)).len() as int)
                        + times(pend, decoded(c), pend.len() as int) + crate::waits::leads(
                        successors(decoded(c)),
                        b@,
                        successors(decoded(c)).len() as int,
                    ) - times(pv, decoded(c), k + 1) by {
                        lemma_class_within(n);
                        lemma_code_onto(c);
                    }
                }
            }
            k = k + 1;
        }
        proof {
            lemma_owing_done(t, n, addressees(stack@), b@);
            lemma_sound_done(t, n, sat_lvl as int, entries(stack@), b@);
        }
    }

    /// Hands out the scores on the stack, and those that this puts on the
    /// stack in turn, until none is left.
    fn drain(&mut self, stack: Vec<(Awari, i8)>, sat_lvl: i8, Ghost(n): Ghost<int>)
        requires
            is_class(n),
            old(self).table.states().len() == n_codes(),
            0 <= sat_lvl <= n,
            (n - sat_lvl) % 2 == 0,
            bounded(old(self).table.states(), n),
            ceiling(old(self).table.states(), n, sat_lvl as int),
            counted(old(self).table.states(), n, addressees(stack@)),
            on_way(stack@, n, sat_lvl as int),
            sound(old(self).table.states(), n, sat_lvl as int, entries(stack@)),
        ensures
            final(self).table.states().len() == n_codes(),
            bounded(final(self).table.states(), n),
            ceiling(final(self).table.states(), n, sat_lvl as int),
            counted(final(self).table.states(), n, Seq::empty()),
            sound(final(self).table.states(), n, sat_lvl as int, Seq::empty()),
            same_outside(old(self).table.states(), final(self).table.states(), n),
            kept(old(self).table.states(), final(self).table.states(), sat_lvl as int),
    {
        let ghost lo = class_start(n);
        let ghost hi = class_start(n) + class_size(n);
        let ghost first = self.table.states();
        let mut stack = stack;
        proof {
            lemma_class_within(n);
            lemma_kept_same(first, sat_lvl as int);
        }
        while stack.len() > 0
            invariant
                is_class(n),
                lo == class_start(n),
                hi == class_start(n) + class_size(n),
                0 <= lo <= hi <= n_codes(),
                0 <= sat_lvl <= n,
                (n - sat_lvl) % 2 == 0,
                first.len() == n_codes(),
                self.table.states().len() == n_codes(),
                bounded(self.table.states(), n),
                ceiling(self.table.states(), n, sat_lvl as int),
                counted(self.table.states(), n, addressees(stack@)),
                on_way(stack@, n, sat_lvl as int),
                sound(self.table.states(), n, sat_lvl as int, entries(stack@)),
                same_outside(first, self.table.states(), n),
                kept(first, self.table.states(), sat_lvl as int),
            decreases weight_sum(self.table.states(), lo, hi), stack@.len(),
        {
            let ghost before = self.table.states();
            let ghost full = stack@;
            let (b, a) = stack.pop().unwrap();
            proof {
                assert(full[full.len() - 1] == (b, a));
                assert(addressees(stack@).push(b@) =~= addressees(full));
                assert(entries(stack@).push((b@, a as int)) =~= entries(full));
                crate::coding::lemma_code_range(b@);
            }
            self.deliver(&b, a, sat_lvl, &mut stack);
            proof {
                let c = code(b@);
                assert(in_class(n, c));
                lemma_updated(before[c], a, sat_lvl, n);
                lemma_weight_update(before, lo, hi, c, before[c].updated(a, sat_lvl));
                lemma_kept_update(before, c, before[c].updated(a, sat_lvl), sat_lvl as int);
                lemma_kept_trans(first, before, self.table.states(), sat_lvl as int);
            }
        }
        proof {
            assert(addressees(stack@) =~= Seq::<Seq<int>>::empty());
            assert(entries(stack@) =~= Seq::<(Seq<int>, int)>::empty());
        }
    }

    /// Gives every board with `n` seeds its first state: the best score
    /// that a capturing move secures, or `-n` if there is none, and the
    /// number of moves without a capture, whose outcome is awaited.
    pub fn seed(&mut self, n: usize)
        requires
            is_class(n as int),
            old(self).table.states().len() == n_codes(),
            bounded_below(old(self).table.states(), n as int),
        ensures
            final(self).table.states().len() == n_codes(),
            same_outside(old(self).table.states(), final(self).table.states(), n as int),
            bounded(final(self).table.states(), n as int),
            bounded_below(final(self).table.states(), n as int),
            ceiling(final(self).table.states(), n as int, n as int),
            forall|c: int|
                #[trigger] in_class(n as int, c) ==> final(self).table.states()[c] == first_status(
                    old(self).table.states(),
                    decoded(c),
                ),
            counted(final(self).table.states(), n as int, Seq::empty()),
            sound(final(self).table.states(), n as int, n as int, Seq::empty()),
    {
        let ghost first = self.table.states();
        let ghost lo = class_start(n as int);
        let ghost hi = class_start(n as int) + class_size(n as int);
        proof {
            lemma_class_within(n as int);
        }
        let mut it = Awari::iter_config(n);
        let mut item = it.next();
        while item.is_some()
            invariant
                is_class(n as int),
                lo == class_start(n as int),
                hi == class_start(n as int) + class_size(n as int),
                0 <= lo <= hi <= n_codes(),
                it.wf(),
                it.class() == n,
                lo <= it.position() <= hi,
                match item {
                    Some((c, b)) => it.position() == c + 1 && lo <= c < hi && reachable(b@)
                        && total(b@) == n && code(b@) == c,
                    None => it.position() == hi,
                },
                first.len() == n_codes(),
                self.table.states().len() == n_codes(),
                same_outside(first, self.table.states(), n as int),
                bounded_below(first, n as int),
                forall|c: int|
                    lo <= c < it.position() - (if item.is_some() {
                        1int
                    } else {
                        0int
                    }) ==> (#[trigger] self.table.states()[c]).fits(n as int) && self.table.states(
                        )[c]
                        == first_status(first, decoded(c)),
            decreases hi - it.position() + (if item.is_some() {
                    1int
                } else {
                    0int
                }),
        {
            let (c, u) = item.unwrap();
            proof {
                lemma_frame(first, self.table.states(), n as int);
                lemma_first_status_frame(first, self.table.states(), u@);
                lemma_code_onto(c as int);
                lemma_code_injective(decoded(c as int), u@);
            }
            let st = self.first_state(&u);
            self.table.insert(c, st);
            assert(in_class(n as int, c as int));
            item = it.next();
        }
        proof {
            lemma_frame(first, self.table.states(), n as int);
            let t = self.table.states();
            assert forall|c: int| #[trigger] in_class(n as int, c) implies t[c].capped(
                n as int,
                n as int,
            ) by {
                assert(t[c].fits(n as int));
            }
            assert forall|c: int| #[trigger] in_class(n as int, c) && t[c] is Unstable implies
                awaited(
                t[c],
            ) == waits(t, successors(decoded(c)), successors(decoded(c)).len() as int) + times(
                Seq::<Seq<int>>::empty(),
                decoded(c),
                0,
            ) by {
                let u = decoded(c);
                lemma_code_onto(c);
                crate::order::lemma_class_of_code(u, n as int);
                lemma_waits_fresh(t, u, successors(u).len() as int);
                lemma_moves_len(u, PITS as int);
                lemma_quiet_bounds(successors(u), successors(u).len() as int);
                assert(t[c] == first_status(first, u));
            }
            lemma_sound_first(first, t, n as int);
        }
    }

    /// The first state of a board: see `seed`.
    fn first_state(&self, u: &Awari) -> (res: State)
        requires
            reachable(u@),
            self.table.states().len() == n_codes(),
            bounded_below(self.table.states(), total(u@)),
        ensures
            res@ == first_status(self.table.states(), u@),
            res@.fits(total(u@)),
    {
        let ghost n = total(u@);
        let ghost t = self.table.states();
        proof {
            lemma_sum_bounds(u@, FPITS as int);
        }
        let succ = u.successors();
        proof {
            lemma_moves_len(u@, PITS as int);
        }
        let mut score: i8 = -(u.seeds() as i8);
        let mut awaited: u8 = 0;
        let mut k: usize = 0;
        while k < succ.len()
            invariant
                k <= succ@.len(),
                succ@.len() <= PITS,
                awaited == quiet(successors(u@), k as int),
                score == best_capture(t, successors(u@), k as int, n),
                awaited <= k,
                -n <= score <= n,
                (score - n) % 2 == 0,
                n == total(u@),
                reachable(u@),
                t == self.table.states(),
                self.table.states().len() == n_codes(),
                bounded_below(self.table.states(), n),
                moves_view(succ@) == successors(u@),
                forall|j: int|
                    0 <= j < succ@.len() ==> total((#[trigger] succ@[j]).0@) + succ@[j].1 == n,
            decreases succ@.len() - k,
        {
            let (v, r) = succ[k];
            proof {
                let m = moves_view(succ@)[k as int];
                assert(m == (v@, r as int));
            }
            if r > 0 {
                proof {
                    crate::waits::lemma_move(u@, k as int);
                    lemma_sum_bounds(v@, FPITS as int);
                }
                let c = v.encode();
                assert(in_class(n - r, c as int));
                let val: i8 = self.table.get(c).value();
                let cand: i8 = r as i8 - val;
                if cand > score {
                    score = cand;
                }
            } else {
                awaited = awaited + 1;
            }
            k = k + 1;
        }
        State::new(score, awaited)
    }

    /// Visits every board with `n` seeds at saturation level `sat_lvl`:
    /// makes stable each board whose score can no longer change, and
    /// propagates its score to its predecessors. Afterwards every board
    /// that is still unstable has a bound below the level and awaits as
    /// many successors as it has moves without a capture to unstable
    /// boards, and every score is as the moves tell. At level `0` all
    /// boards that are still unstable become stable with score `0`, and
    /// the score of every board of the class is the worth of its best move.
    pub fn sweep(&mut self, n: usize, sat_lvl: i8)
        requires
            is_class(n as int),
            0 <= sat_lvl <= n,
            (n - sat_lvl) % 2 == 0,
            old(self).table.states().len() == n_codes(),
            bounded(old(self).table.states(), n as int),
            ceiling(old(self).table.states(), n as int, sat_lvl as int),
            counted(old(self).table.states(), n as int, Seq::empty()),
            sound(old(self).table.states(), n as int, sat_lvl as int, Seq::empty()),
        ensures
            final(self).table.states().len() == n_codes(),
            bounded(final(self).table.states(), n as int),
            ceiling(final(self).table.states(), n as int, sat_lvl - 2),
            counted(final(self).table.states(), n as int, Seq::empty()),
            sat_lvl > 0 ==> sound(
                final(self).table.states(),
                n as int,
                sat_lvl as int,
                Seq::empty(),
            ),
            sat_lvl == 0 ==> forall|c: int|
                #[trigger] in_class(n as int, c) ==> final(self).table.states()[c] == old(
                    self,
                ).table.states()[c].stabilized(0),
            sat_lvl == 0 && n >= 1 ==> solved(final(self).table.states(), n as int),
            same_outside(old(self).table.states(), final(self).table.states(), n as int),
            advanced(old(self).table.states(), final(self).table.states()),
            sat_lvl == 0 ==> stable_class(final(self).table.states(), n as int),
    {
        let ghost first = self.table.states();
        let ghost lo = class_start(n as int);
        let ghost hi = class_start(n as int) + class_size(n as int);
        proof {
            lemma_class_within(n as int);
        }
        let mut it = Awari::iter_config(n);
        let mut item = it.next();
        while item.is_some()
            invariant
                is_class(n as int),
                0 <= sat_lvl <= n,
                (n - sat_lvl) % 2 == 0,
                lo == class_start(n as int),
                hi == class_start(n as int) + class_size(n as int),
                0 <= lo <= hi <= n_codes(),
                it.wf(),
                it.class() == n,
                lo <= it.position() <= hi,
                match item {
                    Some((c, b)) => it.position() == c + 1 && lo <= c < hi && reachable(b@)
                        && total(b@) == n && code(b@) == c,
                    None => it.position() == hi,
                },
                first.len() == n_codes(),
                self.table.states().len() == n_codes(),
                bounded(self.table.states(), n as int),
                ceiling(self.table.states(), n as int, sat_lvl as int),
                sat_lvl > 0 ==> counted(self.table.states(), n as int, Seq::empty()),
                sat_lvl > 0 ==> sound(self.table.states(), n as int, sat_lvl as int, Seq::empty()),
                sat_lvl == 0 ==> forall|c: int|
                    #[trigger] in_class(n as int, c) ==> self.table.states()[c] == if c
                        < it.position() - (if item.is_some() {
                        1int
                    } else {
                        0int
                    }) {
                        first[c].stabilized(0)
                    } else {
                        first[c]
                    },
                same_outside(first, self.table.states(), n as int),
                kept(first, self.table.states(), sat_lvl as int),
                forall|c: int|
                    lo <= c < it.position() - (if item.is_some() {
                        1int
                    } else {
                        0int
                    }) ==> (#[trigger] self.table.states()[c]).swept(sat_lvl as int),
                sat_lvl == 0 ==> forall|c: int|
                    lo <= c < it.position() - (if item.is_some() {
                        1int
                    } else {
                        0int
                    }) ==> #[trigger] self.table.states()[c] is Stable,
            decreases hi - it.position() + (if item.is_some() {
                    1int
                } else {
                    0int
                }),
        {
            let (c, u) = item.unwrap();
            let ghost before = self.table.states();
            let mut s = self.table.get(c);
            let ghost was = s@;
            let r = s.try_stabilize(sat_lvl);
            self.table.insert(c, s);
            let ghost mid = self.table.states();
            proof {
                assert(in_class(n as int, c as int));
                lemma_stabilized(was, sat_lvl, n as int);
                lemma_kept_update(before, c as int, s@, sat_lvl as int);
                lemma_kept_trans(first, before, mid, sat_lvl as int);
                if sat_lvl > 0 {
                    lemma_times_frame(Seq::<Seq<int>>::empty(), Seq::<Seq<int>>::empty(), u@, 0);
                    crate::coding::lemma_decode_encode(u@);
                    lemma_sound_visit(before, n as int, sat_lvl, u@);
                    if was is Unstable {
                        lemma_times_frame(
                            Seq::<Seq<int>>::empty(),
                            Seq::<Seq<int>>::empty(),
                            u@,
                            0,
                        );
                        crate::coding::lemma_decode_encode(u@);
                        lemma_counted_flip(
                            before,
                            n as int,
                            Seq::<Seq<int>>::empty(),
                            c as int,
                            s@,
                            u@,
                        );
                    } else {
                        assert(mid =~= before);
                    }
                }
            }
            match r {
                Some(x) => {
                    self.spread(&u, x, sat_lvl);
                },
                None => {},
            }
            proof {
                let now = self.table.states();
                lemma_kept_trans(first, mid, now, sat_lvl as int);
                assert forall|d: int| lo <= d < c + 1 implies (#[trigger] now[d]).swept(
                    sat_lvl as int,
                ) by {
                    assert(mid[d].keeps(now[d], sat_lvl as int));
                }
                if sat_lvl == 0 {
                    assert forall|d: int| lo <= d < c + 1 implies #[trigger] now[d] is Stable by {
                        assert(mid[d].keeps(now[d], sat_lvl as int));
                    }
                }
            }
            item = it.next();
        }
        proof {
            let t = self.table.states();
            lemma_kept(first, t, n as int, sat_lvl as int);
            assert forall|c: int| #[trigger] in_class(n as int, c) implies t[c].capped(
                n as int,
                sat_lvl - 2,
            ) by {
                assert(t[c].swept(sat_lvl as int));
                assert(t[c].fits(n as int));
            }
            if sat_lvl == 0 {
                assert forall|c: int| #[trigger] in_class(n as int, c) implies t[c] is Stable by {
                    assert(t[c].swept(sat_lvl as int));
                }
                if n >= 1 {
                    lemma_settled(first, t, n as int);
                }
            }
        }
    }

    /// Propagates the final score `x` of board `u`, which has just become
    /// stable, to each of its predecessors that the table holds, and on.
    fn spread(&mut self, u: &Awari, x: i8, sat_lvl: i8)
        requires
            reachable(u@),
            0 <= sat_lvl <= total(u@),
            (total(u@) - sat_lvl) % 2 == 0,
            -sat_lvl <= x <= sat_lvl,
            (x - total(u@)) % 2 == 0,
            old(self).table.states().len() == n_codes(),
            bounded(old(self).table.states(), total(u@)),
            ceiling(old(self).table.states(), total(u@), sat_lvl as int),
            owing(old(self).table.states(), total(u@), Seq::empty(), u@, 0),
            old(self).table.states()[code(u@)] == Status::Stable(x),
            sound_owing(old(self).table.states(), total(u@), sat_lvl as int, Seq::empty(), u@, 0),
        ensures
            final(self).table.states().len() == n_codes(),
            bounded(final(self).table.states(), total(u@)),
            ceiling(final(self).table.states(), total(u@), sat_lvl as int),
            counted(final(self).table.states(), total(u@), Seq::empty()),
            sound(final(self).table.states(), total(u@), sat_lvl as int, Seq::empty()),
            same_outside(old(self).table.states(), final(self).table.states(), total(u@)),
            kept(old(self).table.states(), final(self).table.states(), sat_lvl as int),
    {
        let ghost n = total(u@);
        proof {
            lemma_sum_bounds(u@, FPITS as int);
        }
        let mut stack: Vec<(Awari, i8)> = Vec::new();
        proof {
            assert(addressees(stack@) =~= Seq::<Seq<int>>::empty());
            assert(entries(stack@) =~= Seq::<(Seq<int>, int)>::empty());
        }
        self.push_preds(u, x, sat_lvl, &mut stack);
        self.drain(stack, sat_lvl, Ghost(n));
    }

    /// Analyses the boards with `n` seeds, given that the boards with
    /// fewer seeds were analysed: seeds the class, then sweeps it at the
    /// saturation levels `n`, `n - 2`, and so on while they are positive,
    /// and for an even `n` at level `0` too. Afterwards the boards of an
    /// even class are all stable, and the score of each is the worth of
    /// its best move. In an odd class no move beats the score of a stable
    /// board; a board that is still unstable has a negative bound and
    /// awaits a successor that is unstable too.
    pub fn iteration(&mut self, n: usize)
        requires
            1 <= n,
            is_class(n as int),
            old(self).table.states().len() == n_codes(),
            bounded_below(old(self).table.states(), n as int),
        ensures
            final(self).table.states().len() == n_codes(),
            same_outside(old(self).table.states(), final(self).table.states(), n as int),
            bounded_below(final(self).table.states(), n + 1),
            n % 2 == 0 ==> stable_class(final(self).table.states(), n as int),
            n % 2 == 1 ==> ceiling(final(self).table.states(), n as int, -1),
            counted(final(self).table.states(), n as int, Seq::empty()),
            n % 2 == 0 ==> solved(final(self).table.states(), n as int),
            n % 2 == 1 ==> sound(final(self).table.states(), n as int, 1, Seq::empty()),
    {
        let ghost first = self.table.states();
        self.table.pre_hook(n);
        self.seed(n);
        let mut l: usize = 0;
        while l < (n + 1) / 2
            invariant
                1 <= n,
                is_class(n as int),
                l <= (n + 1) / 2,
                first.len() == n_codes(),
                self.table.states().len() == n_codes(),
                bounded(self.table.states(), n as int),
                bounded_below(self.table.states(), n as int),
                ceiling(self.table.states(), n as int, n - 2 * l),
                counted(self.table.states(), n as int, Seq::empty()),
                sound(
                    self.table.states(),
                    n as int,
                    if l == 0 {
                        n as int
                    } else {
                        n - 2 * l + 2
                    },
                    Seq::empty(),
                ),
                same_outside(first, self.table.states(), n as int),
            decreases (n + 1) / 2 - l,
        {
            let ghost before = self.table.states();
            let sat_lvl: i8 = (n - 2 * l) as i8;
            proof {
                lemma_sound_lower(
                    before,
                    n as int,
                    if l == 0 {
                        n as int
                    } else {
                        n - 2 * l + 2
                    },
                    sat_lvl as int,
                    Seq::empty(),
                );
            }
            self.sweep(n, sat_lvl);
            proof {
                lemma_frame(before, self.table.states(), n as int);
            }
            l = l + 1;
        }
        if n % 2 == 0 {
            let ghost before = self.table.states();
            proof {
                lemma_sound_lower(before, n as int, 2, 0, Seq::empty());
            }
            self.sweep(n, 0);
            proof {
                lemma_frame(before, self.table.states(), n as int);
            }
        }
        self.table.post_hook(n);
    }

    /// Starts the analysis: the board without seeds is stable with score
    /// `0`.
    pub fn begin(&mut self)
        requires
            old(self).table.states().len() == n_codes(),
        ensures
            final(self).table.states() == old(self).table.states().update(0, Status::Stable(0)),
            bounded_below(final(self).table.states(), 1),
            solved(final(self).table.states(), 0),
    {
        proof {
            lemma_first_class();
            crate::utils::lemma_n_codes_bound();
            lemma_solved_empty(self.table.states().update(0, Status::Stable(0)));
        }
        self.table.pre_hook(0);
        self.table.insert(0, State::stable(0));
        self.table.post_hook(0);
    }

    /// Fills the table: the board without seeds is stable with score `0`,
    /// then the classes are analysed by ascending number of seeds.
    /// Afterwards every score or bound fits its class; every board with an
    /// even number of seeds is stable, and its score is the worth of its
    /// best move; no move beats the score of a stable board with an odd
    /// number of seeds; and a board that is still unstable has a negative
    /// bound and awaits a successor that is unstable too.
    pub fn run(&mut self)
        requires
            old(self).table.states().len() == n_codes(),
        ensures
            final(self).table.states().len() == n_codes(),
            final(self).table.states()[0] == Status::Stable(0),
            bounded_below(final(self).table.states(), SEEDS + 1),
            forall|m: int|
                is_class(m) && m % 2 == 0 ==> #[trigger] stable_class(
                    final(self).table.states(),
                    m,
                ),
            forall|m: int|
                is_class(m) && m % 2 == 1 ==> #[trigger] ceiling(final(self).table.states(), m, -1),
            forall|m: int|
                is_class(m) && m >= 1 ==> #[trigger] counted(
                    final(self).table.states(),
                    m,
                    Seq::empty(),
                ),
            forall|m: int|
                is_class(m) && m % 2 == 0 ==> #[trigger] solved(final(self).table.states(), m),
            forall|m: int|
                is_class(m) && m % 2 == 1 ==> #[trigger] sound(
                    final(self).table.states(),
                    m,
                    1,
                    Seq::empty(),
                ),
    {
        proof {
            lemma_first_class();
            crate::utils::lemma_n_codes_bound();
        }
        self.begin();
        let mut n: usize = 1;
        while n < SEEDS - 1
            invariant
                1 <= n <= SEEDS - 1,
                0 < n_codes(),
                class_start(0) == 0,
                class_size(0) == 1,
                self.table.states().len() == n_codes(),
                self.table.states()[0] == Status::Stable(0),
                bounded_below(self.table.states(), n as int),
                forall|m: int|
                    0 <= m < n && m % 2 == 0 ==> #[trigger] stable_class(self.table.states(), m),
                forall|m: int|
                    0 <= m < n && m % 2 == 1 ==> #[trigger] ceiling(self.table.states(), m, -1),
                forall|m: int|
                    1 <= m < n ==> #[trigger] counted(self.table.states(), m, Seq::empty()),
                forall|m: int|
                    0 <= m < n && m % 2 == 0 ==> #[trigger] solved(self.table.states(), m),
                forall|m: int|
                    0 <= m < n && m % 2 == 1 ==> #[trigger] sound(
                        self.table.states(),
                        m,
                        1,
                        Seq::empty(),
                    ),
            decreases SEEDS - n,
        {
            let ghost before = self.table.states();
            self.iteration(n);
            proof {
                lemma_frame(before, self.table.states(), n as int);
                let now = self.table.states();
                assert forall|m: int| 1 <= m < n implies #[trigger] counted(
                    now,
                    m,
                    Seq::empty(),
                ) by {
                    lemma_counted_frame(before, now, n as int, m);
                }
                assert forall|m: int| 0 <= m < n && m % 2 == 0 implies #[trigger] solved(now,
                    m) by {
                    lemma_solved_frame(before, now, n as int, m);
                }
                assert forall|m: int| 0 <= m < n && m % 2 == 1 implies #[trigger] sound(
                    now,
                    m,
                    1,
                    Seq::empty(),
                ) by {
                    lemma_sound_frame(before, now, n as int, m, 1);
                }
                assert(!in_class(n as int, 0)) by {
                    if in_class(n as int, 0) {
                        lemma_one_class(n as int, 0, 0);
                    }
                }
            }
            n = n + 1;
        }
        let ghost before = self.table.states();
        self.iteration(SEEDS);
        proof {
            lemma_frame(before, self.table.states(), SEEDS as int);
            let now = self.table.states();
            assert forall|m: int| is_class(m) && 1 <= m < SEEDS implies #[trigger] counted(
                now,
                m,
                Seq::empty(),
            ) by {
                lemma_counted_frame(before, now, SEEDS as int, m);
            }
            assert forall|m: int| is_class(m) && m < SEEDS && m % 2 == 0 implies #[trigger] solved(
                now,
                m,
            ) by {
                lemma_solved_frame(before, now, SEEDS as int, m);
            }
            assert forall|m: int| is_class(m) && m < SEEDS && m % 2 == 1 implies #[trigger] sound(
                now,
                m,
                1,
                Seq::empty(),
            ) by {
                lemma_sound_frame(before, now, SEEDS as int, m, 1);
            }
            assert(!in_class(SEEDS as int, 0)) by {
                if in_class(SEEDS as int, 0) {
                    lemma_one_class(SEEDS as int, 0, 0);
                }
            }
        }
        self.table.finish_hook();
    }
}

} // verus!
