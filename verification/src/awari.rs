//! The awari board: its moves forwards and backwards.

use vstd::prelude::*;
use crate::binomial::{binomial, lemma_binomial_mono};
use crate::coding::{
    ascending, below, board_of, class_size, class_start, closed_gap, code, decoded, free_at, gapped,
    high_rank, lemma_below_mono, lemma_board_of, lemma_class_within, lemma_code_injective,
    lemma_code_onto, lemma_code_range, lemma_decode_encode, lemma_free_step, lemma_place,
    lemma_place_top, lemma_positions, lemma_rank_split, low_rank, n_codes, positions, reachable,
    under,
};
use crate::order::{
    first_open, first_positions, lemma_step_up, lemma_walk_skip, lemma_walk_start, lemma_walk_yield,
    passed, stepped,
};
use crate::pattern::{
    holds, lemma_first_pattern, lemma_next_pattern, lemma_unpack, lemma_with_mask, next_word,
};
use crate::rules::{
    arc_min, back_laps, backs_laps_upto, backs_reach_upto, backs_upto, capturable, chain, collected,
    dist, haul, is_board, is_position, landing, laps, lemma_arc_min_le, lemma_chain_range,
    lemma_chain_reaches, lemma_chain_stops, lemma_sum_bounds, lemma_sum_mono, lemma_sum_update,
    moves_upto, played, predecessors, reach, reward, rotated, sown, starved, successors, sum_upto,
    total, unsown, valid_sow, wrap,
};
use crate::utils::{
    binom, BINOM_MAX, binom_maxinv, dense_maxinv, divmod, enc_min, lemma_binomial_bound,
    lemma_n_codes_bound, n_boards,
};
use crate::{FPITS, PITS, SEEDS, START_SEEDS};

verus! {

/// An awari board: the number of seeds in each pit. Pits `0..PITS` belong
/// to the player to move, pits `PITS..FPITS` to the opponent.
#[derive(Clone, Copy, Debug, PartialEq, Eq)]
pub struct Awari(pub [u8; FPITS]);

impl View for Awari {
    type V = Seq<int>;

    open spec fn view(&self) -> Seq<int> {
        Seq::new(FPITS as nat, |k: int| self.0[k] as int)
    }
}

/// The boards that a list of boards stands for.
pub open spec fn boards_view(v: Seq<Awari>) -> Seq<Seq<int>> {
    v.map_values(|b: Awari| b@)
}

/// The boards and rewards that a list of moves stands for.
pub open spec fn moves_view(v: Seq<(Awari, u8)>) -> Seq<(Seq<int>, int)> {
    v.map_values(|m: (Awari, u8)| (m.0@, m.1 as int))
}

/// The positions that an array of positions stands for.
pub open spec fn ints(p: [usize; FPITS]) -> Seq<int> {
    Seq::new(FPITS as nat, |i: int| p[i] as int)
}

impl Default for Awari {
    /// The board at the start of a game: `START_SEEDS` seeds in every pit.
    fn default() -> (res: Awari)
        ensures
            res@ == Seq::new(FPITS as nat, |k: int| START_SEEDS as int),
    {
        let res = Awari([START_SEEDS as u8; FPITS]);
        assert(res@ =~= Seq::new(FPITS as nat, |k: int| START_SEEDS as int));
        res
    }
}

impl Awari {
    /// Puts `v` seeds into pit `j`.
    fn put(&mut self, j: usize, v: u8)
        requires
            j < FPITS,
        ensures
            final(self)@ == old(self)@.update(j as int, v as int),
            total(final(self)@) == total(old(self)@) + v - old(self)@[j as int],
    {
        self.0[j] = v;
        proof {
            assert(self@ =~= old(self)@.update(j as int, v as int));
            lemma_sum_update(old(self)@, j as int, v as int, FPITS as int);
        }
    }

    /// The number of seeds on the board.
    pub fn seeds(&self) -> (res: usize)
        ensures
            res == total(self@),
    {
        let mut n: usize = 0;
        let mut i: usize = 0;
        while i < FPITS
            invariant
                i <= FPITS,
                n == sum_upto(self@, i as int),
                n <= 255 * i,
            decreases FPITS - i,
        {
            n = n + self.0[i] as usize;
            i = i + 1;
        }
        n
    }

    /// Rotate the board: the two players change sides.
    pub fn rotate(&mut self)
        ensures
            final(self)@ == rotated(old(self)@),
            total(final(self)@) == total(old(self)@),
    {
        let mut i: usize = 0;
        while i < PITS
            invariant
                i <= PITS,
                total(self@) == total(old(self)@),
                forall|k: int|
                    0 <= k < FPITS ==> #[trigger] self@[k] == if k < i || (PITS <= k < PITS + i) {
                        old(self)@[wrap(k + PITS)]
                    } else {
                        old(self)@[k]
                    },
            decreases PITS - i,
        {
            let a: u8 = self.0[i];
            let b: u8 = self.0[i + PITS];
            self.put(i, b);
            self.put(i + PITS, a);
            i = i + 1;
        }
        assert(self@ =~= rotated(old(self)@));
    }

    /// Sows the seeds of pit `i` round the board and returns the pit that
    /// received the last seed and the number of full laps.
    pub fn sow(&mut self, i: usize) -> (res: (usize, u8))
        requires
            i < PITS,
            old(self)@[i as int] > 0,
            is_position(old(self)@),
        ensures
            final(self)@ == sown(old(self)@, i as int),
            res.0 == landing(old(self)@, i as int),
            res.1 == laps(old(self)@, i as int),
            total(final(self)@) == total(old(self)@),
    {
        let n: u8 = self.0[i];
        let (q, r) = divmod(n, (FPITS - 1) as u8);
        proof {
            lemma_sum_bounds(self@, FPITS as int);
        }
        self.put(i, 0);
        let mut d: usize = 1;
        while d < FPITS
            invariant
                1 <= d <= FPITS,
                i < PITS,
                is_position(old(self)@),
                n == old(self)@[i as int],
                n >= 1,
                q == laps(old(self)@, i as int),
                r == reach(old(self)@, i as int),
                1 <= r <= FPITS - 1,
                n == q * (FPITS - 1) + r,
                forall|k: int, l: int|
                    0 <= k < l < FPITS ==> #[trigger] old(self)@[k] + #[trigger] old(self)@[l]
                        <= total(old(self)@),
                total(self@) == total(old(self)@) - n + q * (d - 1) + if d - 1 < r {
                    d - 1
                } else {
                    r as int
                },
                forall|k: int|
                    0 <= k < FPITS ==> #[trigger] self@[k] == if k == i {
                        0
                    } else if dist(i as int, k) < d {
                        old(self)@[k] + q + if dist(i as int, k) <= r {
                            1int
                        } else {
                            0int
                        }
                    } else {
                        old(self)@[k]
                    },
            decreases FPITS - d,
        {
            let j: usize = (i + d) % FPITS;
            let add: u8 = if d <= r { q + 1 } else { q };
            let cur: u8 = self.0[j];
            proof {
                assert(j == wrap(i + d));
                assert(dist(i as int, j as int) == d);
                assert(j != i);
                assert(self@[j as int] == cur);
                if j < i {
                    assert(old(self)@[j as int] + old(self)@[i as int] <= total(old(self)@));
                } else {
                    assert(old(self)@[i as int] + old(self)@[j as int] <= total(old(self)@));
                }
                assert(q * d == q * (d - 1) + q) by (nonlinear_arith);
            }
            self.put(j, cur + add);
            d = d + 1;
        }
        assert(self@ =~= sown(old(self)@, i as int));
        let j: usize = (i + r) % FPITS;
        assert(j == wrap(i + r));
        (j, q)
    }

    /// Captures the seeds that a move won whose last seed fell into pit
    /// `i`: walking backwards from that pit, every pit of the opponent with
    /// two or three seeds is emptied, up to the first pit that is not such.
    /// Returns the number of seeds captured.
    pub fn collect(&mut self, i: usize) -> (res: u8)
        requires
            i < FPITS,
            is_position(old(self)@),
        ensures
            final(self)@ == collected(old(self)@, i as int),
            res == haul(old(self)@, i as int),
            total(final(self)@) == total(old(self)@) - res,
    {
        let mut j: usize = i;
        let mut n: u8 = 0;
        while j >= PITS && (self.0[j] == 2 || self.0[j] == 3)
            invariant
                j <= i < FPITS,
                n <= 3 * (i - j),
                chain(old(self)@, i as int) == (i - j) + chain(old(self)@, j as int),
                haul(old(self)@, i as int) == n + haul(old(self)@, j as int),
                total(self@) == total(old(self)@) - n,
                forall|k: int|
                    0 <= k < FPITS ==> #[trigger] self@[k] == if j < k <= i {
                        0
                    } else {
                        old(self)@[k]
                    },
            decreases j,
        {
            assert(self@[j as int] == old(self)@[j as int]);
            assert(capturable(old(self)@, j as int));
            n = n + self.0[j];
            self.put(j, 0);
            j = j - 1;
        }
        proof {
            assert(self@[j as int] == old(self)@[j as int]);
            assert(!capturable(old(self)@, j as int));
            assert(self@ =~= collected(old(self)@, i as int));
        }
        n
    }

    /// Plays pit `i`: sows its seeds, captures, and hands the board to the
    /// other player. Returns the number of seeds captured.
    pub fn play(&mut self, i: usize) -> (res: u8)
        requires
            i < PITS,
            old(self)@[i as int] > 0,
            is_position(old(self)@),
        ensures
            final(self)@ == played(old(self)@, i as int),
            res == reward(old(self)@, i as int),
            total(final(self)@) == total(old(self)@) - res,
    {
        let (j, _) = self.sow(i);
        let k = self.collect(j);
        self.rotate();
        k
    }

    /// Whether pit `i` may be played.
    pub fn valid_sow(&self, i: usize) -> (res: bool)
        requires
            is_position(self@),
        ensures
            res == valid_sow(self@, i as int),
    {
        if i >= PITS {
            return false;
        }
        let n: u8 = self.0[i];
        if n == 0 {
            return false;
        }
        let (q, r) = divmod(n, (FPITS - 1) as u8);
        let j: usize = (i + r) % FPITS;
        let ghost c = sown(self@, i as int);
        proof {
            assert(j == wrap(i + r));
            lemma_sum_bounds(self@, FPITS as int);
            lemma_chain_range(c, j as int);
        }
        if j < i {
            // the last seed fell on the mover's side after a lap
            proof {
                assert(dist(i as int, PITS as int) <= r);
                assert(collected(c, j as int)[PITS as int] == c[PITS as int]);
                assert(c[PITS as int] >= 1);
            }
            return true;
        }
        let mut k: usize = FPITS;
        while k > PITS
            invariant
                PITS <= k <= FPITS,
                i < PITS,
                i <= j < FPITS,
                j == i + r,
                q == laps(self@, i as int),
                r == reach(self@, i as int),
                n == self@[i as int],
                n >= q + 1,
                c == sown(self@, i as int),
                is_position(self@),
                forall|a: int, b: int|
                    0 <= a < b < FPITS ==> #[trigger] self@[a] + #[trigger] self@[b] <= total(
                        self@,
                    ),
                forall|m: int|
                    k <= m < FPITS ==> if m > j {
                        #[trigger] c[m] == 0
                    } else {
                        capturable(c, m)
                    },
            decreases k,
        {
            k = k - 1;
            assert(self@[i as int] + self@[k as int] <= total(self@));
            let x: u8 = self.0[k] + q;
            if k > j {
                assert(c[k as int] == x);
                if x > 0 {
                    proof {
                        lemma_chain_range(c, j as int);
                        assert(collected(c, j as int)[k as int] == c[k as int]);
                    }
                    return true;
                }
            } else {
                assert(c[k as int] == x + 1);
                if !(x == 1 || x == 2) {
                    proof {
                        lemma_chain_stops(c, j as int, k as int);
                        assert(collected(c, j as int)[k as int] == c[k as int]);
                    }
                    return true;
                }
            }
        }
        proof {
            let e = collected(c, j as int);
            if j >= PITS {
                lemma_chain_reaches(c, j as int, PITS as int);
            }
            assert forall|m: int| PITS <= m < FPITS implies #[trigger] e[m] == 0 by {
                if m > j {
                    assert(c[m] == 0);
                }
            }
        }
        false
    }

    /// Every move that the player to move may make: the board that it
    /// leads to, seen by the other player, and the seeds that it captures.
    pub fn successors(&self) -> (res: Vec<(Awari, u8)>)
        requires
            is_position(self@),
        ensures
            moves_view(res@) == successors(self@),
            forall|k: int|
                0 <= k < res@.len() ==> total((#[trigger] res@[k]).0@) + res@[k].1 == total(self@),
    {
        let mut v: Vec<(Awari, u8)> = Vec::new();
        let mut i: usize = 0;
        assert(moves_view(v@) =~= moves_upto(self@, 0));
        while i < PITS
            invariant
                i <= PITS,
                is_position(self@),
                moves_view(v@) == moves_upto(self@, i as int),
                forall|k: int|
                    0 <= k < v@.len() ==> total((#[trigger] v@[k]).0@) + v@[k].1 == total(self@),
            decreases PITS - i,
        {
            if self.valid_sow(i) {
                let mut s: Awari = *self;
                let k = s.play(i);
                let ghost before = v@;
                v.push((s, k));
                assert(moves_view(v@) =~= moves_view(before).push((s@, k as int)));
            }
            i = i + 1;
        }
        v
    }

    /// Whether the opponent has no seed left.
    pub fn starved(&self) -> (res: bool)
        ensures
            res == starved(self@),
    {
        let mut k: usize = PITS;
        while k < FPITS
            invariant
                PITS <= k <= FPITS,
                forall|m: int| PITS <= m < k ==> #[trigger] self@[m] == 0,
            decreases FPITS - k,
        {
            if self.0[k] != 0 {
                assert(self@[k as int] != 0);
                return false;
            }
            k = k + 1;
        }
        true
    }

    /// Takes back a move from pit `i` that made `n` full laps and reached
    /// `r` more pits: those `r` pits give back `n + 1` seeds each, every
    /// other pit `n`, and pit `i` receives them all.
    pub fn unsow(&mut self, i: usize, r: usize, n: u8)
        requires
            i < FPITS,
            1 <= r <= FPITS - 1,
            is_position(old(self)@),
            forall|k: int|
                0 <= k < FPITS && k != i ==> #[trigger] old(self)@[k] >= n + if dist(i as int, k)
                    <= r {
                    1int
                } else {
                    0int
                },
        ensures
            final(self)@ == unsown(old(self)@, i as int, r as int, n as int),
            total(final(self)@) == total(old(self)@),
    {
        let mut d: usize = 1;
        proof {
            lemma_sum_bounds(self@, FPITS as int);
        }
        while d < FPITS
            invariant
                1 <= d <= FPITS,
                i < FPITS,
                1 <= r <= FPITS - 1,
                is_position(old(self)@),
                forall|k: int|
                    0 <= k < FPITS && k != i ==> #[trigger] old(self)@[k] >= n + if dist(
                        i as int,
                        k,
                    ) <= r {
                        1int
                    } else {
                        0int
                    },
                total(self@) == total(old(self)@) - n * (d - 1) - if d - 1 < r {
                    d - 1
                } else {
                    r as int
                },
                forall|k: int|
                    0 <= k < FPITS ==> #[trigger] self@[k] == if k != i && dist(i as int, k) < d {
                        old(self)@[k] - n - if dist(i as int, k) <= r {
                            1int
                        } else {
                            0int
                        }
                    } else {
                        old(self)@[k]
                    },
            decreases FPITS - d,
        {
            let j: usize = (i + d) % FPITS;
            let cur: u8 = self.0[j];
            proof {
                assert(j == wrap(i + d));
                assert(dist(i as int, j as int) == d);
                assert(self@[j as int] == cur);
                assert(old(self)@[j as int] >= n + if d <= r { 1int } else { 0int });
                assert(n * d == n * (d - 1) + n) by (nonlinear_arith);
            }
            let sub: u8 = if d <= r { n + 1 } else { n };
            self.put(j, cur - sub);
            d = d + 1;
        }
        let cur: u8 = self.0[i];
        proof {
            assert(self@[i as int] == cur);
            assert forall|k: int| 0 <= k < FPITS implies #[trigger] self@[k] >= 0 by {}
            lemma_sum_bounds(self@, FPITS as int);
            assert(self@[i as int] <= total(self@));
            assert(n * (d - 1) == (FPITS - 1) * n) by (nonlinear_arith)
                requires
                    d == FPITS,
            ;
        }
        let back: u8 = (FPITS - 1) as u8 * n + r as u8;
        self.put(i, cur + back);
        assert(self@ =~= unsown(old(self)@, i as int, r as int, n as int));
    }

    /// Every board from which a move without a capture leads to this one,
    /// each seen by the player who made the move.
    pub fn predecessors(&self) -> (res: Vec<Awari>)
        requires
            is_position(self@),
        ensures
            boards_view(res@) == predecessors(self@),
            forall|k: int| 0 <= k < res@.len() ==> total(#[trigger] res@[k]@) == total(self@),
    {
        let mut cpy: Awari = *self;
        cpy.rotate();
        let mut v: Vec<Awari> = Vec::new();
        assert(boards_view(v@) =~= Seq::<Seq<int>>::empty());
        if cpy.starved() {
            return v;
        }
        let mut i: usize = 0;
        while i < PITS
            invariant
                i <= PITS,
                is_position(cpy@),
                total(cpy@) == total(self@),
                boards_view(v@) == backs_upto(cpy@, i as int),
                forall|k: int| 0 <= k < v@.len() ==> total(#[trigger] v@[k]@) == total(self@),
            decreases PITS - i,
        {
            if cpy.0[i] == 0 {
                assert(cpy@[i as int] == 0);
                cpy.back_moves(i, &mut v);
            } else {
                assert(cpy@[i as int] != 0);
            }
            i = i + 1;
        }
        v
    }

    /// Appends to `v` the boards before a move from the empty pit `i`.
    fn back_moves(&self, i: usize, v: &mut Vec<Awari>)
        requires
            i < PITS,
            self@[i as int] == 0,
            is_position(self@),
            forall|k: int| 0 <= k < old(v)@.len() ==> total(#[trigger] old(v)@[k]@) == total(self@),
        ensures
            boards_view(final(v)@) == boards_view(old(v)@) + backs_reach_upto(
                self@,
                i as int,
                FPITS - 1,
            ),
            forall|k: int| 0 <= k < final(v)@.len() ==> total(#[trigger] final(v)@[k]@) == total(
                self@),
    {
        // the smallest count on each arc that starts after pit `i`
        let mut cmin: [u8; FPITS] = [0u8; FPITS];
        let first: usize = (i + 1) % FPITS;
        let mut m: u8 = self.0[first];
        assert(first == wrap(i + 1));
        assert(self@[wrap(i + 1)] == m);
        cmin[1] = m;
        let mut r: usize = 2;
        while r < FPITS
            invariant
                2 <= r <= FPITS,
                i < PITS,
                m == arc_min(self@, i as int, r - 1),
                forall|a: int| 1 <= a < r ==> #[trigger] cmin@[a] == arc_min(self@, i as int, a),
            decreases FPITS - r,
        {
            let j: usize = (i + r) % FPITS;
            let x: u8 = self.0[j];
            assert(j == wrap(i + r));
            assert(self@[wrap(i + r)] == x);
            if m > x {
                m = x;
            }
            cmin[r] = m;
            r = r + 1;
        }
        proof {
            lemma_sum_bounds(self@, FPITS as int);
            lemma_arc_min_le(self@, i as int, FPITS - 1, 1);
            assert(self@[wrap(i + 1)] <= total(self@));
        }
        let last: u8 = m + 1;
        let ghost base = boards_view(v@);
        let mut r: usize = 1;
        assert(boards_view(v@) =~= base + backs_reach_upto(self@, i as int, 0));
        while r < FPITS
            invariant
                1 <= r <= FPITS,
                i < PITS,
                self@[i as int] == 0,
                is_position(self@),
                last == arc_min(self@, i as int, FPITS - 1) + 1,
                forall|a: int|
                    1 <= a < FPITS ==> #[trigger] cmin@[a] == arc_min(self@, i as int, a),
                boards_view(v@) == base + backs_reach_upto(self@, i as int, r - 1),
                forall|k: int| 0 <= k < v@.len() ==> total(#[trigger] v@[k]@) == total(self@),
            decreases FPITS - r,
        {
            let j: usize = (i + r) % FPITS;
            assert(j == wrap(i + r));
            assert(self@[j as int] == self.0[j as int]);
            if j < PITS || (self.0[j] != 2 && self.0[j] != 3) {
                let lim: u8 = if cmin[r] < last { cmin[r] } else { last };
                assert(lim == back_laps(self@, i as int, r as int));
                let ghost mid = boards_view(v@);
                let mut n: u8 = 0;
                assert(boards_view(v@) =~= mid + backs_laps_upto(self@, i as int, r as int, 0));
                while n < lim
                    invariant
                        n <= lim,
                        i < PITS,
                        1 <= r < FPITS,
                        self@[i as int] == 0,
                        is_position(self@),
                        lim == back_laps(self@, i as int, r as int),
                        boards_view(v@) == mid + backs_laps_upto(
                            self@,
                            i as int,
                            r as int,
                            n as int,
                        ),
                        forall|k: int|
                            0 <= k < v@.len() ==> total(#[trigger] v@[k]@) == total(self@),
                    decreases lim - n,
                {
                    let mut s: Awari = *self;
                    proof {
                        assert forall|k: int| 0 <= k < FPITS && k != i implies #[trigger] s@[k]
                            >= n + if dist(i as int, k) <= r {
                            1int
                        } else {
                            0int
                        } by {
                            let d = dist(i as int, k);
                            assert(wrap(i + d) == k);
                            lemma_arc_min_le(self@, i as int, FPITS - 1, d);
                            if d <= r {
                                lemma_arc_min_le(self@, i as int, r as int, d);
                            }
                        }
                    }
                    s.unsow(i, r, n);
                    let ghost before = v@;
                    v.push(s);
                    assert(boards_view(v@) =~= boards_view(before).push(s@));
                    n = n + 1;
                    assert(boards_view(v@) =~= mid + backs_laps_upto(
                        self@,
                        i as int,
                        r as int,
                        n as int,
                    ));
                }
                assert(boards_view(v@) =~= base + backs_reach_upto(self@, i as int, r as int));
            } else {
                assert(capturable(self@, wrap(i + r)));
            }
            r = r + 1;
        }
    }

    /// The code of the board: its index in the table.
    pub fn encode(&self) -> (res: usize)
        requires
            reachable(self@),
        ensures
            res == code(self@),
            res < n_codes(),
            class_start(total(self@)) <= res < class_start(total(self@)) + class_size(
                total(self@),
            ),
    {
        let ghost ps = positions(self@);
        proof {
            lemma_positions(self@);
            lemma_code_range(self@);
        }
        // the last empty pit of the opponent
        let mut j: usize = FPITS - 1;
        while self.0[j] != 0
            invariant
                PITS <= j < FPITS,
                reachable(self@),
                forall|m: int| j < m < FPITS ==> #[trigger] self@[m] != 0,
            decreases j,
        {
            proof {
                let m = choose|m: int| PITS <= m < FPITS && #[trigger] self@[m] == 0;
                assert(self@[j as int] != 0);
                assert(m < j);
            }
            j = j - 1;
        }
        assert(self@[j as int] == 0);
        let mut g: usize = 0;
        let mut c: usize = 0;
        let mut i: usize = 0;
        while i < FPITS
            invariant
                i <= FPITS,
                PITS <= j < FPITS,
                reachable(self@),
                ps == positions(self@),
                self@[j as int] == 0,
                forall|m: int| j < m < FPITS ==> #[trigger] self@[m] != 0,
                forall|m: int|
                    1 <= m < FPITS ==> (#[trigger] closed_gap(ps, m) <==> self@[m] == 0),
                c == sum_upto(self@, i as int),
                g == low_rank(ps, i as int),
                g <= i * BINOM_MAX,
            decreases FPITS - i,
        {
            proof {
                lemma_sum_mono(self@, i + 1, FPITS as int);
            }
            c = c + self.0[i] as usize;
            let p: usize = c + i;
            assert(p == ps[i as int]);
            let free: bool = j >= i + 2;
            proof {
                if free {
                    assert(closed_gap(ps, j as int));
                }
                if free_at(ps, i as int) {
                    let m = choose|m: int|
                        i + 2 <= m < FPITS && PITS <= m && #[trigger] closed_gap(ps, m);
                    assert(self@[m] == 0);
                }
                assert(free == free_at(ps, i as int));
                lemma_binomial_bound(i + 1, p as int);
                if !free {
                    lemma_below_mono(i + 1, p as int, p as int, false);
                }
            }
            let mut t: usize = binom(i + 1, p);
            if !free {
                t = t - binom(i + 1, p - (i + 1 - PITS));
            }
            g = g + t;
            i = i + 1;
        }
        if c == SEEDS {
            g = g - n_boards(SEEDS - 1);
        }
        g
    }

    /// The board with the given code.
    pub fn decode(c: usize) -> (res: Awari)
        requires
            c < n_codes(),
        ensures
            reachable(res@),
            code(res@) == c,
            res@ == decoded(c as int),
            forall|b: Seq<int>| reachable(b) && code(b) == c ==> b == res@,
    {
        let mut g: usize = c;
        proof {
            lemma_n_codes_bound();
        }
        if c >= enc_min(SEEDS) {
            g = g + n_boards(SEEDS - 1);
        }
        let ghost whole = g as int;
        let (top, v) = dense_maxinv(FPITS, g, FPITS + SEEDS);
        proof {
            lemma_place_top(c as int, g as int, top as int);
        }
        g = g - v;
        let mut p: [usize; FPITS] = [0usize; FPITS];
        p[FPITS - 1] = top;
        let mut free: bool = false;
        let mut k: usize = FPITS - 1;
        proof {
            let ps = ints(p);
            assert(!free_at(ps, FPITS - 2));
            assert(!free_at(ps, FPITS - 1));
            assert(high_rank(ps, FPITS as int) == 0);
            assert(high_rank(ps, FPITS - 1) == below(FPITS as int, top as int, false));
        }
        while k > 0
            invariant
                k < FPITS,
                p[FPITS - 1] == top,
                forall|m: int| k <= m < FPITS ==> m <= #[trigger] p[m] < FPITS + SEEDS,
                forall|m: int| k < m < FPITS ==> p[m - 1] < #[trigger] p[m],
                free == free_at(ints(p), k - 1),
                free || k >= PITS,
                g + high_rank(ints(p), k as int) == whole,
                g < under(k as int, p[k as int] as int, free),
            decreases k,
        {
            let cap: usize = p[k];
            let ghost ps = ints(p);
            let ghost g0 = g as int;
            let x: usize;
            let v: usize;
            if free {
                let (a, b) = binom_maxinv(k, g);
                proof {
                    if a >= cap {
                        lemma_binomial_mono(k as int, cap as int, a as int);
                    }
                }
                x = a;
                v = b;
            } else {
                let (a, b) = dense_maxinv(k, g, cap);
                x = a;
                v = b;
            }
            p[k - 1] = x;
            g = g - v;
            proof {
                assert(ints(p) =~= ps.update(k - 1, x as int));
                lemma_place(ps, ints(p), k as int, x as int, g0, free);
            }
            if !free && x + 1 == cap {
                free = true;
            }
            k = k - 1;
        }
        let ghost ps = ints(p);
        let mut s: Awari = Awari([0u8; FPITS]);
        proof {
            assert(free);
            assert(binomial(0, ps[0]) == 1);
            assert(g == 0);
            lemma_rank_split(ps, 0);
            lemma_free_step(ps, 1);
            let m = choose|m: int| 1 <= m < FPITS && PITS <= m && #[trigger] closed_gap(ps, m);
            assert(gapped(ps));
            assert(ascending(ps));
            lemma_board_of(ps);
        }
        s.put(0, p[0] as u8);
        let mut i: usize = 1;
        while i < FPITS
            invariant
                1 <= i <= FPITS,
                ps == ints(p),
                ascending(ps),
                ps[FPITS - 1] < FPITS + SEEDS,
                forall|m: int| 0 <= m < i ==> #[trigger] s@[m] == board_of(ps)[m],
            decreases FPITS - i,
        {
            proof {
                assert(ps[i as int] <= ps[FPITS - 1]) by {
                    lemma_ascending_le(ps, i as int, FPITS - 1);
                }
                assert(ps[i - 1] < ps[i as int]);
                assert(ps[i - 1] >= 0) by {
                    lemma_ascending_le(ps, 0, i - 1);
                }
            }
            s.put(i, (p[i] - p[i - 1] - 1) as u8);
            i = i + 1;
        }
        proof {
            assert(s@ =~= board_of(ps));
            let b = s@;
            let m = choose|m: int| 1 <= m < FPITS && PITS <= m && #[trigger] closed_gap(ps, m);
            assert(b[m] == 0);
            assert(reachable(b));
            assert(code(b) == c);
            assert forall|o: Seq<int>| reachable(o) && code(o) == c implies o == b by {
                lemma_code_injective(o, b);
            }
            lemma_code_onto(c as int);
        }
        s
    }

    /// Whether the board belongs to the table: it holds at most `SEEDS`
    /// seeds and not `SEEDS - 1`, and some pit of the opponent is empty.
    pub fn reachable(&self) -> (res: bool)
        ensures
            res == reachable(self@),
    {
        let n = self.seeds();
        if n > SEEDS || n + 1 == SEEDS {
            return false;
        }
        assert(is_board(self@));
        let mut k: usize = PITS;
        while k < FPITS
            invariant
                PITS <= k <= FPITS,
                is_position(self@),
                total(self@) != SEEDS - 1,
                forall|m: int| PITS <= m < k ==> #[trigger] self@[m] != 0,
            decreases FPITS - k,
        {
            if self.0[k] == 0 {
                assert(self@[k as int] == 0);
                return true;
            }
            k = k + 1;
        }
        false
    }

    /// Whether every pit of the opponent holds a seed.
    fn crowded(&self) -> (res: bool)
        ensures
            res == !gapped(positions(self@)),
    {
        proof {
            assert(is_board(self@));
            lemma_positions(self@);
        }
        let mut k: usize = PITS;
        while k < FPITS
            invariant
                PITS <= k <= FPITS,
                forall|j: int|
                    1 <= j < FPITS ==> (#[trigger] closed_gap(positions(self@), j) <==> self@[j]
                        == 0),
                forall|j: int| PITS <= j < k ==> !#[trigger] closed_gap(positions(self@), j),
            decreases FPITS - k,
        {
            if self.0[k] == 0 {
                assert(self@[k as int] == 0);
                assert(closed_gap(positions(self@), k as int));
                return false;
            }
            assert(self@[k as int] != 0);
            k = k + 1;
        }
        true
    }

    /// The boards of the table with `n` seeds, by ascending code.
    pub fn iter_config(n: usize) -> (res: Iter)
        requires
            n <= SEEDS,
            n != SEEDS - 1,
        ensures
            res.wf(),
            res.class() == n,
            res.position() == class_start(n as int),
    {
        let x: u64 = 1u64 << ((FPITS - 1) as u64);
        let top: u64 = (n + FPITS - 1) as u64;
        let low: u64 = (FPITS - 1) as u64;
        assert(x >= 1 && ((x - 1) as u64) < (1u64 << top)) by (bit_vector)
            requires
                x == 1u64 << low,
                low <= top,
                top < 64,
        ;
        proof {
            lemma_first_pattern((x - 1) as u64, n as int);
            lemma_walk_start(n as int);
            lemma_n_codes_bound();
            lemma_class_within(n as int);
        }
        Iter {
            curr: x - 1,
            mask: 1u64 << top,
            code: enc_min(n),
            class: n,
            ps: Ghost(first_positions(n as int)),
        }
    }

    /// The board whose positions are the bits set in `x`: the zero bits
    /// before each of them are the seeds of a pit.
    fn unpack(x: u64, Ghost(ps): Ghost<Seq<int>>) -> (res: Awari)
        requires
            ascending(ps),
            ps[FPITS - 1] <= 61,
            holds(x, ps, 0, FPITS as int, 0),
        ensures
            res@ == board_of(ps),
    {
        let mut x: u64 = x;
        let mut s: Awari = Awari([0u8; FPITS]);
        let mut i: usize = 0;
        while i < FPITS
            invariant
                i <= FPITS,
                ascending(ps),
                ps[FPITS - 1] <= 61,
                i < FPITS ==> holds(
                    x,
                    ps,
                    i as int,
                    FPITS as int,
                    if i == 0 {
                        0
                    } else {
                        ps[i - 1] + 1
                    },
                ),
                forall|k: int| 0 <= k < i ==> #[trigger] s@[k] == board_of(ps)[k],
            decreases FPITS - i,
        {
            let ghost base = if i == 0 {
                0
            } else {
                ps[i - 1] + 1
            };
            proof {
                lemma_ascending_le(ps, i as int, FPITS - 1);
                if i > 0 {
                    assert(ps[i - 1] < ps[i as int]);
                    lemma_ascending_le(ps, 0, i - 1);
                }
                lemma_unpack(x, ps, i as int, base);
            }
            let tz: u32 = x.trailing_zeros();
            s.put(i, tz as u8);
            x = x >> ((tz + 1) as u64);
            i = i + 1;
        }
        assert(s@ =~= board_of(ps));
        s
    }
}

/// A walk through the boards of the table that hold a given number of
/// seeds. The board to visit next is kept as a bit pattern: the bits set
/// are its positions, the last of them apart in `mask`.
pub struct Iter {
    curr: u64,
    mask: u64,
    code: usize,
    class: usize,
    ps: Ghost<Seq<int>>,
}

impl Iter {
    /// The number of seeds on the boards of this walk.
    pub closed spec fn class(&self) -> int {
        self.class as int
    }

    /// The code of the board that comes next.
    pub closed spec fn position(&self) -> int {
        self.code as int
    }

    /// The walk is within its seed class: it has given out the codes of
    /// the class below the one that comes next, and the pattern holds the
    /// positions of the first board that it has not visited.
    pub closed spec fn wf(&self) -> bool {
        &&& self.class <= SEEDS
        &&& self.class != SEEDS - 1
        &&& self.mask == 1u64 << ((self.class + FPITS - 1) as u64)
        &&& class_start(self.class as int) <= self.code <= class_start(self.class as int)
            + class_size(self.class as int)
        &&& if self.curr >= self.mask {
            self.code == class_start(self.class as int) + class_size(self.class as int)
        } else {
            &&& ascending(self.ps@)
            &&& self.ps@[FPITS - 1] == self.class + FPITS - 1
            &&& holds(self.curr, self.ps@, 0, FPITS - 1, 0)
            &&& passed(self.ps@, self.code as int, self.class as int)
        }
    }

    /// The next board of the walk with its code, or `None` after the last
    /// board of the class. The codes that a walk gives start with the first
    /// code of the class and go up one by one.
    pub fn next(&mut self) -> (res: Option<(usize, Awari)>)
        requires
            old(self).wf(),
        ensures
            final(self).wf(),
            final(self).class() == old(self).class(),
            class_start(old(self).class()) <= old(self).position() <= class_start(
                old(self).class(),
            ) + class_size(old(self).class()),
            match res {
                Some((c, b)) => {
                    &&& c == old(self).position()
                    &&& c < class_start(old(self).class()) + class_size(old(self).class())
                    &&& final(self).position() == c + 1
                    &&& reachable(b@)
                    &&& total(b@) == old(self).class()
                    &&& code(b@) == c
                    &&& b@ == decoded(c as int)
                },
                None => {
                    &&& old(self).position() == class_start(old(self).class()) + class_size(
                        old(self).class(),
                    )
                    &&& final(self).position() == old(self).position()
                },
            },
    {
        proof {
            lemma_class_within(self.class as int);
            lemma_n_codes_bound();
        }
        let ghost n = self.class as int;
        loop
            invariant
                self.wf(),
                self.class == old(self).class,
                self.code == old(self).code,
                n == self.class,
                class_start(n) + class_size(n) <= BINOM_MAX,
            decreases
                    if self.curr >= self.mask {
                        0
                    } else {
                        0x8000_0000_0000_0000 - self.curr
                    },
        {
            if self.curr >= self.mask {
                return None;
            }
            let ghost ps = self.ps@;
            let top: u64 = (self.class + FPITS - 1) as u64;
            proof {
                lemma_with_mask(self.curr, ps);
                lemma_next_pattern(self.curr, ps);
                lemma_board_of(ps);
            }
            let s = Awari::unpack(self.curr | self.mask, Ghost(ps));
            // the next pattern with as many bits set
            let c: u64 = self.curr;
            let a: u32 = c.trailing_zeros();
            let t: u64 = c | (c - 1);
            let z: u64 = !t & (t + 1);
            self.curr = (t + 1) | ((z - 1) >> ((a + 1) as u64));
            proof {
                assert(self.curr == next_word(c, ps[0] as u64));
                let mk = self.mask;
                assert(mk <= 0x2000_0000_0000_0000u64) by (bit_vector)
                    requires
                        top <= 61,
                        mk == 1u64 << top,
                ;
                if first_open(ps, 1) < FPITS {
                    self.ps = Ghost(stepped(ps));
                    lemma_step_up(ps);
                }
            }
            if s.crowded() {
                proof {
                    lemma_walk_skip(ps, self.code as int, n);
                }
            } else {
                proof {
                    lemma_walk_yield(ps, self.code as int, n);
                    lemma_decode_encode(s@);
                }
                let r: usize = self.code;
                self.code = r + 1;
                return Some((r, s));
            }
        }
    }
}

/// Ascending positions do not decrease from an earlier to a later pit.
pub proof fn lemma_ascending_le(ps: Seq<int>, i: int, j: int)
    requires
        ascending(ps),
        0 <= i <= j < FPITS,
    ensures
        ps[0] <= ps[i] <= ps[j],
    decreases j,
{
    if i < j {
        lemma_ascending_le(ps, i, j - 1);
        assert(ps[j - 1] < ps[j]);
    } else if i > 0 {
        lemma_ascending_le(ps, i - 1, i - 1);
        assert(ps[i - 1] < ps[i]);
    }
}

} // verus!