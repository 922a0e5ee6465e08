//! The rules of the game as mathematical functions on boards: sowing,
//! capturing, the change of player, and the moves that are allowed.
//!
//! A board is a sequence of `FPITS` seed counts. Pits `0..PITS` belong to
//! the player to move, pits `PITS..FPITS` to the opponent.

use vstd::prelude::*;
use crate::utils::{divmod_spec, lemma_divmod_spec};
use crate::{FPITS, PITS, SEEDS};

verus! {

/// `s` has one non-negative seed count per pit.
pub open spec fn is_board(s: Seq<int>) -> bool {
    &&& s.len() == FPITS
    &&& forall|k: int| 0 <= k < FPITS ==> #[trigger] s[k] >= 0
}

/// The number of seeds in the first `i` pits.
pub open spec fn sum_upto(s: Seq<int>, i: int) -> int
    decreases i,
{
    if i <= 0 {
        0
    } else {
        sum_upto(s, i - 1) + s[i - 1]
    }
}

/// The number of seeds on the board: its seed class.
pub open spec fn total(s: Seq<int>) -> int {
    sum_upto(s, FPITS as int)
}

/// `s` is a board that a game can hold: at most `SEEDS` seeds in all.
pub open spec fn is_position(s: Seq<int>) -> bool {
    is_board(s) && total(s) <= SEEDS
}

/// The number of steps from pit `i` forward to pit `j`, round the board.
pub open spec fn dist(i: int, j: int) -> int {
    if j >= i {
        j - i
    } else {
        j - i + FPITS
    }
}

/// The pit that lies `x` steps after pit `0`, for less than two laps.
pub open spec fn wrap(x: int) -> int {
    if x >= FPITS {
        x - FPITS
    } else {
        x
    }
}

/// The board seen from the other player's side.
pub open spec fn rotated(s: Seq<int>) -> Seq<int> {
    Seq::new(FPITS as nat, |k: int| s[wrap(k + PITS)])
}

/// The number of full laps that sowing pit `i` makes.
pub open spec fn laps(s: Seq<int>, i: int) -> int {
    divmod_spec(s[i], FPITS - 1).0
}

/// The number of pits that the last, partial lap of sowing pit `i` reaches.
pub open spec fn reach(s: Seq<int>, i: int) -> int {
    divmod_spec(s[i], FPITS - 1).1
}

/// The pit that receives the last seed when pit `i` is sown.
pub open spec fn landing(s: Seq<int>, i: int) -> int {
    wrap(i + reach(s, i))
}

/// The board after the seeds of pit `i` were sown: the pit is empty, every
/// other pit got one seed per lap, and the pits within reach one more.
pub open spec fn sown(s: Seq<int>, i: int) -> Seq<int> {
    Seq::new(
        FPITS as nat,
        |j: int|
            if j == i {
                0
            } else {
                s[j] + laps(s, i) + if dist(i, j) <= reach(s, i) {
                    1int
                } else {
                    0int
                }
            },
    )
}

/// The board before `n` laps and `r` more seeds were sown from pit `i`.
pub open spec fn unsown(s: Seq<int>, i: int, r: int, n: int) -> Seq<int> {
    Seq::new(
        FPITS as nat,
        |j: int|
            if j == i {
                s[i] + (FPITS - 1) * n + r
            } else {
                s[j] - n - if dist(i, j) <= r {
                    1int
                } else {
                    0int
                }
            },
    )
}

/// Whether the seeds of pit `j` are captured when the capture reaches it:
/// an opponent's pit with two or three seeds.
pub open spec fn capturable(s: Seq<int>, j: int) -> bool {
    PITS <= j < FPITS && (s[j] == 2 || s[j] == 3)
}

/// The number of pits captured when the last seed fell into pit `j`.
pub open spec fn chain(s: Seq<int>, j: int) -> int
    decreases j,
{
    if capturable(s, j) {
        1 + chain(s, j - 1)
    } else {
        0
    }
}

/// The number of seeds captured when the last seed fell into pit `j`.
pub open spec fn haul(s: Seq<int>, j: int) -> int
    decreases j,
{
    if capturable(s, j) {
        s[j] + haul(s, j - 1)
    } else {
        0
    }
}

/// The board after the capture that starts at pit `j`.
pub open spec fn collected(s: Seq<int>, j: int) -> Seq<int> {
    Seq::new(
        FPITS as nat,
        |k: int|
            if j - chain(s, j) < k <= j {
                0
            } else {
                s[k]
            },
    )
}

/// The board after pit `i` was played, seen by the player who moves next.
pub open spec fn played(s: Seq<int>, i: int) -> Seq<int> {
    rotated(collected(sown(s, i), landing(s, i)))
}

/// The number of seeds that playing pit `i` captures.
pub open spec fn reward(s: Seq<int>, i: int) -> int {
    haul(sown(s, i), landing(s, i))
}

/// The opponent has no seed left.
pub open spec fn starved(s: Seq<int>) -> bool {
    forall|k: int| PITS <= k < FPITS ==> #[trigger] s[k] == 0
}

/// Pit `i` may be played: it is a pit of the player to move, it holds a
/// seed, and the move leaves the opponent at least one seed.
pub open spec fn valid_sow(s: Seq<int>, i: int) -> bool {
    &&& 0 <= i < PITS
    &&& s[i] > 0
    &&& !starved(collected(sown(s, i), landing(s, i)))
}

/// The moves from the pits before pit `i`, in the order of the pits: for
/// each pit that may be played, the board that the move leads to and the
/// number of seeds that it captures.
pub open spec fn moves_upto(s: Seq<int>, i: int) -> Seq<(Seq<int>, int)>
    decreases i,
{
    if i <= 0 {
        Seq::empty()
    } else {
        let prev = moves_upto(s, i - 1);
        if valid_sow(s, i - 1) {
            prev.push((played(s, i - 1), reward(s, i - 1)))
        } else {
            prev
        }
    }
}

/// The moves of the player to move.
pub open spec fn successors(s: Seq<int>) -> Seq<(Seq<int>, int)> {
    moves_upto(s, PITS as int)
}

/// The smallest seed count among the `m` pits that follow pit `i`.
pub open spec fn arc_min(s: Seq<int>, i: int, m: int) -> int
    decreases m,
{
    if m <= 1 {
        s[wrap(i + 1)]
    } else {
        let a = arc_min(s, i, m - 1);
        let b = s[wrap(i + m)];
        if a > b {
            b
        } else {
            a
        }
    }
}

/// The number of lap counts with which a move from pit `i` whose last lap
/// reached `r` pits can have led to `s`: the `r` pits within reach hold
/// more seeds than laps were made, and no other pit holds fewer.
pub open spec fn back_laps(s: Seq<int>, i: int, r: int) -> int {
    let a = arc_min(s, i, r);
    let b = arc_min(s, i, FPITS - 1) + 1;
    if a < b {
        a
    } else {
        b
    }
}

/// `s` is what sowing `n` laps and `r` more seeds from pit `i` left,
/// without a capture.
pub open spec fn is_back_move(s: Seq<int>, i: int, r: int, n: int) -> bool {
    &&& 0 <= i < PITS
    &&& s[i] == 0
    &&& 1 <= r <= FPITS - 1
    &&& !capturable(s, wrap(i + r))
    &&& 0 <= n < back_laps(s, i, r)
}

/// The boards before a move from pit `i` that reached `r` pits in its last
/// lap, for fewer than `n` laps, by the number of laps.
pub open spec fn backs_laps_upto(s: Seq<int>, i: int, r: int, n: int) -> Seq<Seq<int>>
    decreases n,
{
    if n <= 0 {
        Seq::empty()
    } else {
        backs_laps_upto(s, i, r, n - 1).push(unsown(s, i, r, n - 1))
    }
}

/// The boards before a move from pit `i` that reached at most `r` pits in
/// its last lap, by that number and then by the number of laps.
pub open spec fn backs_reach_upto(s: Seq<int>, i: int, r: int) -> Seq<Seq<int>>
    decreases r,
{
    if r <= 0 {
        Seq::empty()
    } else {
        let prev = backs_reach_upto(s, i, r - 1);
        if capturable(s, wrap(i + r)) {
            prev
        } else {
            prev + backs_laps_upto(s, i, r, back_laps(s, i, r))
        }
    }
}

/// The boards before a move from one of the pits before pit `i`, by the
/// pit, then as `backs_reach_upto` orders them.
pub open spec fn backs_upto(s: Seq<int>, i: int) -> Seq<Seq<int>>
    decreases i,
{
    if i <= 0 {
        Seq::empty()
    } else {
        let prev = backs_upto(s, i - 1);
        if s[i - 1] == 0 {
            prev + backs_reach_upto(s, i - 1, FPITS - 1)
        } else {
            prev
        }
    }
}

/// The boards from which a move without a capture leads to `s`, seen by
/// the player who made that move.
pub open spec fn predecessors(s: Seq<int>) -> Seq<Seq<int>> {
    let c = rotated(s);
    if starved(c) {
        Seq::empty()
    } else {
        backs_upto(c, PITS as int)
    }
}

/// Changing one pit changes the sum of a prefix by the difference, if the
/// pit lies in the prefix.
pub proof fn lemma_sum_update(s: Seq<int>, j: int, v: int, i: int)
    requires
        0 <= j < s.len(),
        0 <= i <= s.len(),
    ensures
        sum_upto(s.update(j, v), i) == sum_upto(s, i) + if j < i {
            v - s[j]
        } else {
            0
        },
    decreases i,
{
    if i > 0 {
        lemma_sum_update(s, j, v, i - 1);
    }
}

/// No pit of a prefix holds more seeds than the prefix, and two pits
/// together do not either.
pub proof fn lemma_sum_bounds(s: Seq<int>, i: int)
    requires
        0 <= i <= s.len(),
        forall|k: int| 0 <= k < s.len() ==> #[trigger] s[k] >= 0,
    ensures
        sum_upto(s, i) >= 0,
        forall|k: int| 0 <= k < i ==> #[trigger] s[k] <= sum_upto(s, i),
        forall|k: int, l: int| 0 <= k < l < i ==> #[trigger] s[k] + #[trigger] s[l] <= sum_upto(s,
            i),
    decreases i,
{
    if i > 0 {
        lemma_sum_bounds(s, i - 1);
    }
}

/// The sums of prefixes of a board do not decrease with their length.
pub proof fn lemma_sum_mono(s: Seq<int>, i: int, j: int)
    requires
        0 <= i <= j <= s.len(),
        forall|k: int| 0 <= k < s.len() ==> #[trigger] s[k] >= 0,
    ensures
        sum_upto(s, i) <= sum_upto(s, j),
    decreases j - i,
{
    if i < j {
        lemma_sum_mono(s, i, j - 1);
    }
}

/// A capture takes at most the opponent's pits up to the landing pit.
pub proof fn lemma_chain_range(s: Seq<int>, j: int)
    requires
        j < FPITS,
    ensures
        0 <= chain(s, j),
        j >= PITS ==> chain(s, j) <= j - PITS + 1,
        j < PITS ==> chain(s, j) == 0,
    decreases j,
{
    if capturable(s, j) {
        lemma_chain_range(s, j - 1);
    }
}

/// A capture stops before the first pit that cannot be captured.
pub proof fn lemma_chain_stops(s: Seq<int>, j: int, k: int)
    requires
        k <= j < FPITS,
        !capturable(s, k),
    ensures
        0 <= chain(s, j) <= j - k,
    decreases j - k,
{
    if j > k && capturable(s, j) {
        lemma_chain_stops(s, j - 1, k);
    }
}

/// A capture takes every pit from the landing pit down to pit `k`, if all
/// of them can be captured.
pub proof fn lemma_chain_reaches(s: Seq<int>, j: int, k: int)
    requires
        k <= j < FPITS,
        forall|m: int| k <= m <= j ==> capturable(s, m),
    ensures
        chain(s, j) >= j - k + 1,
    decreases j - k,
{
    if j > k {
        lemma_chain_reaches(s, j - 1, k);
    } else {
        lemma_chain_range(s, j - 1);
    }
}

/// The seeds captured all come from the pits that the capture takes.
pub proof fn lemma_haul_range(s: Seq<int>, j: int)
    requires
        j < FPITS,
    ensures
        0 <= haul(s, j) <= 3 * chain(s, j),
        chain(s, j) == 0 <==> haul(s, j) == 0,
    decreases j,
{
    if capturable(s, j) {
        lemma_haul_range(s, j - 1);
        lemma_chain_range(s, j - 1);
    }
}

/// A capture takes at least two seeds.
pub proof fn lemma_haul_min(s: Seq<int>, j: int)
    requires
        j < FPITS,
    ensures
        haul(s, j) == 0 || haul(s, j) >= 2,
    decreases j,
{
    if capturable(s, j) {
        lemma_haul_range(s, j - 1);
    }
}

/// After a move the pit that was played is empty, and it is a pit of the
/// opponent for the player who moves next.
pub proof fn lemma_played_gap(s: Seq<int>, i: int)
    requires
        s.len() == FPITS,
        0 <= i < PITS,
    ensures
        played(s, i)[i + PITS] == 0,
        played(s, i).len() == FPITS,
{
    let c = sown(s, i);
    let j = landing(s, i);
    assert(wrap(i + PITS + PITS) == i);
    assert(collected(c, j)[i] == 0);
}

/// The smallest count on an arc is at most the count of each of its pits.
pub proof fn lemma_arc_min_le(s: Seq<int>, i: int, m: int, d: int)
    requires
        1 <= d <= m,
    ensures
        arc_min(s, i, m) <= s[wrap(i + d)],
    decreases m,
{
    if m > 1 && d < m {
        lemma_arc_min_le(s, i, m - 1, d);
    }
}

/// The smallest count on an arc is at least any bound that all its pits
/// meet.
pub proof fn lemma_arc_min_ge(s: Seq<int>, i: int, m: int, x: int)
    requires
        1 <= m,
        forall|d: int| 1 <= d <= m ==> s[#[trigger] wrap(i + d)] >= x,
    ensures
        arc_min(s, i, m) >= x,
    decreases m,
{
    if m > 1 {
        lemma_arc_min_ge(s, i, m - 1, x);
        assert(s[wrap(i + m)] >= x);
    } else {
        assert(s[wrap(i + 1)] >= x);
    }
}

/// The seeds in the first `k` pits after the players changed sides.
pub proof fn lemma_rotated_sums(s: Seq<int>, k: int)
    requires
        s.len() == FPITS,
        0 <= k <= FPITS,
    ensures
        sum_upto(rotated(s), k) == if k <= PITS {
            sum_upto(s, PITS + k) - sum_upto(s, PITS as int)
        } else {
            sum_upto(s, FPITS as int) - sum_upto(s, PITS as int) + sum_upto(s, k - PITS)
        },
    decreases k,
{
    if k > 0 {
        lemma_rotated_sums(s, k - 1);
        assert(rotated(s)[k - 1] == s[wrap(k - 1 + PITS)]);
        if k == PITS + 1 {
            assert(sum_upto(s, 0) == 0);
        }
    }
}

/// A change of sides keeps the seeds.
pub proof fn lemma_rotated_total(s: Seq<int>)
    requires
        s.len() == FPITS,
    ensures
        total(rotated(s)) == total(s),
{
    lemma_rotated_sums(s, FPITS as int);
}

/// A capture takes the seeds that it counts.
pub proof fn lemma_collected_total(s: Seq<int>, j: int)
    requires
        s.len() == FPITS,
        j < FPITS,
    ensures
        total(collected(s, j)) == total(s) - haul(s, j),
    decreases j,
{
    if capturable(s, j) {
        lemma_collected_total(s, j - 1);
        lemma_chain_range(s, j - 1);
        let before = collected(s, j - 1);
        assert(collected(s, j) =~= before.update(j, 0));
        lemma_sum_update(before, j, 0, FPITS as int);
    } else {
        assert(collected(s, j) =~= s);
    }
}

/// The board while pit `i` is sown, when the first `d` pits after it got
/// their seeds.
pub open spec fn sown_part(s: Seq<int>, i: int, d: int) -> Seq<int> {
    Seq::new(
        FPITS as nat,
        |j: int|
            if j == i {
                0
            } else if dist(i, j) <= d {
                sown(s, i)[j]
            } else {
                s[j]
            },
    )
}

/// The seeds on the board while pit `i` is sown.
pub proof fn lemma_sown_part(s: Seq<int>, i: int, d: int)
    requires
        s.len() == FPITS,
        0 <= i < FPITS,
        0 <= d <= FPITS - 1,
    ensures
        total(sown_part(s, i, d)) == total(s) - s[i] + laps(s, i) * d + if d < reach(s, i) {
            d
        } else {
            reach(s, i)
        },
    decreases d,
{
    if d == 0 {
        assert(sown_part(s, i, 0) =~= s.update(i, 0));
        lemma_sum_update(s, i, 0, FPITS as int);
        assert(laps(s, i) * 0 == 0);
    } else {
        lemma_sown_part(s, i, d - 1);
        let prev = sown_part(s, i, d - 1);
        let j = wrap(i + d);
        assert(dist(i, j) == d);
        assert(sown_part(s, i, d) =~= prev.update(j, sown(s, i)[j]));
        lemma_sum_update(prev, j, sown(s, i)[j], FPITS as int);
        assert(laps(s, i) * d == laps(s, i) * (d - 1) + laps(s, i)) by (nonlinear_arith);
    }
}

/// Sowing keeps the seeds.
pub proof fn lemma_sown_total(s: Seq<int>, i: int)
    requires
        s.len() == FPITS,
        0 <= i < FPITS,
        s[i] > 0,
    ensures
        total(sown(s, i)) == total(s),
{
    lemma_sown_part(s, i, FPITS - 1);
    lemma_divmod_spec(s[i], FPITS - 1);
    assert(sown_part(s, i, FPITS - 1) =~= sown(s, i));
}

/// A move keeps the seeds, but for those that it captures.
pub proof fn lemma_played_total(s: Seq<int>, i: int)
    requires
        s.len() == FPITS,
        0 <= i < FPITS,
        s[i] > 0,
    ensures
        total(played(s, i)) == total(s) - reward(s, i),
        reward(s, i) == 0 || reward(s, i) >= 2,
{
    let c = sown(s, i);
    let j = landing(s, i);
    lemma_divmod_spec(s[i], FPITS - 1);
    lemma_sown_total(s, i);
    lemma_collected_total(c, j);
    lemma_rotated_total(collected(c, j));
    lemma_haul_min(c, j);
}

} // verus!
