//! What the scores of the table mean: the score of a stable board is the
//! worth of its best move, where a move is worth what it captures, less
//! the score of the board that it leads to; and the bound of an unstable
//! board is the worth of the best move known so far.

use vstd::prelude::*;
use crate::coding::{
    code, decoded, lemma_class_within, lemma_code_injective, lemma_code_onto, lemma_code_range,
    lemma_decode_encode, n_codes, reachable,
};
use crate::duality::{lemma_predecessor_in_successors, lemma_successor_in_predecessors};
use crate::rules::{is_board, moves_upto, predecessors, successors, total, valid_sow};
use crate::state::Status;
use crate::table::{
    best_capture, bounded, bounded_below, ceiling, first_status, in_class, is_class,
    lemma_best_capture_frame, lemma_one_class, same_outside,
};
use crate::waits::{
    awaited, counted, lemma_move, lemma_times_contains, lemma_times_frame, times, waits,
};
use crate::{FPITS, PITS};

verus! {

/// What a move is worth to the player who makes it: the seeds that it
/// captures, less the score of the board that it leads to.
pub open spec fn worth(t: Seq<Status>, m: (Seq<int>, int)) -> int {
    m.1 - t[code(m.0)].value()
}

/// Move `k` is no reason to score more than `v`: it is worth `v` at most,
/// or, where it captures nothing and leads to an unstable board, `v` is
/// at least the saturation level `lvl`, which that board cannot beat.
pub open spec fn rated(t: Seq<Status>, moves: Seq<(Seq<int>, int)>, k: int, v: int, lvl: int)
    -> bool {
    if moves[k].1 == 0 && t[code(moves[k].0)] is Unstable {
        v >= lvl
    } else {
        worth(t, moves[k]) <= v
    }
}

/// No move of board `u` is a reason to score more than `v`.
pub open spec fn tops(t: Seq<Status>, u: Seq<int>, v: int, lvl: int) -> bool {
    forall|k: int| 0 <= k < successors(u).len() ==> #[trigger] rated(t, successors(u), k, v, lvl)
}

/// Move `k` captures nothing, leads to a stable board, and is worth `v`.
pub open spec fn gives(t: Seq<Status>, moves: Seq<(Seq<int>, int)>, k: int, v: int) -> bool {
    moves[k].1 == 0 && t[code(moves[k].0)] is Stable && worth(t, moves[k]) == v
}

/// Board `u` can score `v`: by its best capturing move, by having no move
/// that captures and `v` the lowest score, or by a move without a
/// capture to a stable board.
pub open spec fn reached(t: Seq<Status>, u: Seq<int>, v: int) -> bool {
    v == best_capture(t, successors(u), successors(u).len() as int, total(u)) || exists|k: int|
        0 <= k < successors(u).len() && #[trigger] gives(t, successors(u), k, v)
}

/// The worth of move `k` is in the bound `b` of board `u`, or on its way
/// to it, if the move captures nothing and leads to a stable board.
pub open spec fn told(
    t: Seq<Status>,
    moves: Seq<(Seq<int>, int)>,
    k: int,
    u: Seq<int>,
    b: int,
    pend: Seq<(Seq<int>, int)>,
) -> bool {
    moves[k].1 == 0 && t[code(moves[k].0)] is Stable ==> worth(t, moves[k]) <= b || pend.contains(
        (u, t[code(moves[k].0)].value()),
    )
}

/// The bound `b` of board `u` takes in every move without a capture that
/// leads to a stable board, but for the scores on their way to it.
pub open spec fn known(t: Seq<Status>, u: Seq<int>, b: int, pend: Seq<(Seq<int>, int)>) -> bool {
    forall|k: int|
        0 <= k < successors(u).len() ==> #[trigger] told(t, successors(u), k, u, b, pend)
}

/// The score on its way is that of a stable board to which a move
/// without a capture leads from the board that it is on its way to.
pub open spec fn sent(t: Seq<Status>, e: (Seq<int>, int)) -> bool {
    exists|k: int| 0 <= k < successors(e.0).len() && #[trigger] gives(t, successors(e.0), k, -e.1)
}

/// The board with code `c` is scored as its moves tell.
pub open spec fn sound_at(
    t: Seq<Status>,
    n: int,
    lvl: int,
    pend: Seq<(Seq<int>, int)>,
    c: int,
) -> bool {
    let u = decoded(c);
    match t[c] {
        Status::Stable(v) => tops(t, u, v as int, lvl) && reached(t, u, v as int),
        Status::Unstable(b, _) => {
            &&& b >= best_capture(t, successors(u), successors(u).len() as int, n)
            &&& known(t, u, b as int, pend)
            &&& reached(t, u, b as int)
        },
    }
}

/// Every board with `n` seeds is scored as its moves tell, at saturation
/// level `lvl` and with the scores `pend` on their way.
pub open spec fn sound(t: Seq<Status>, n: int, lvl: int, pend: Seq<(Seq<int>, int)>) -> bool {
    &&& forall|c: int| #[trigger] in_class(n, c) ==> sound_at(t, n, lvl, pend, c)
    &&& forall|i: int| 0 <= i < pend.len() ==> sent(t, #[trigger] pend[i])
}

/// The worth of the best move among the first `k` moves of a board with
/// `n` seeds; `-n` if it has no move.
pub open spec fn best_reply(t: Seq<Status>, moves: Seq<(Seq<int>, int)>, k: int, n: int) -> int
    decreases k,
{
    if k <= 0 {
        -n
    } else {
        let prev = best_reply(t, moves, k - 1, n);
        if worth(t, moves[k - 1]) > prev {
            worth(t, moves[k - 1])
        } else {
            prev
        }
    }
}

/// Every board with `n` seeds is stable, and its score is the worth of
/// its best move.
pub open spec fn solved(t: Seq<Status>, n: int) -> bool {
    forall|c: int|
        #[trigger] in_class(n, c) ==> t[c] is Stable && t[c].value() == best_reply(
            t,
            successors(decoded(c)),
            successors(decoded(c)).len() as int,
            n,
        )
}

/// The best reply is worth as much as every move, and is the worth of a
/// move or the lowest score.
pub proof fn lemma_best_reply(t: Seq<Status>, moves: Seq<(Seq<int>, int)>, k: int, n: int)
    requires
        0 <= k <= moves.len(),
    ensures
        best_reply(t, moves, k, n) >= -n,
        forall|j: int| 0 <= j < k ==> #[trigger] worth(t, moves[j]) <= best_reply(t, moves, k, n),
        best_reply(t, moves, k, n) == -n || exists|j: int|
            0 <= j < k && #[trigger] worth(t, moves[j]) == best_reply(t, moves, k, n),
    decreases k,
{
    if k > 0 {
        lemma_best_reply(t, moves, k - 1, n);
        let prev = best_reply(t, moves, k - 1, n);
        if worth(t, moves[k - 1]) > prev {
            assert(worth(t, moves[k - 1]) == best_reply(t, moves, k, n));
        } else if prev != -n {
            let j = choose|j: int| 0 <= j < k - 1 && #[trigger] worth(t, moves[j]) == prev;
            assert(0 <= j < k && worth(t, moves[j]) == best_reply(t, moves, k, n));
        }
    }
}

/// The best capture is worth as much as every move that captures, and is
/// the worth of such a move or the lowest score.
pub proof fn lemma_best_capture(t: Seq<Status>, moves: Seq<(Seq<int>, int)>, k: int, n: int)
    requires
        0 <= k <= moves.len(),
    ensures
        best_capture(t, moves, k, n) >= -n,
        forall|j: int|
            0 <= j < k && moves[j].1 > 0 ==> #[trigger] worth(t, moves[j]) <= best_capture(
                t,
                moves,
                k,
                n,
            ),
        best_capture(t, moves, k, n) == -n || exists|j: int|
            0 <= j < k && moves[j].1 > 0 && #[trigger] worth(t, moves[j]) == best_capture(
                t,
                moves,
                k,
                n,
            ),
    decreases k,
{
    if k > 0 {
        lemma_best_capture(t, moves, k - 1, n);
        let prev = best_capture(t, moves, k - 1, n);
        let gain = worth(t, moves[k - 1]);
        if moves[k - 1].1 > 0 && gain > prev {
            assert(moves[k - 1].1 > 0 && worth(t, moves[k - 1]) == best_capture(t, moves, k, n));
        } else if prev != -n {
            let j = choose|j: int|
                0 <= j < k - 1 && moves[j].1 > 0 && #[trigger] worth(t, moves[j]) == prev;
            assert(0 <= j < k && moves[j].1 > 0 && worth(t, moves[j]) == best_capture(
                t,
                moves,
                k,
                n,
            ));
        }
    }
}

/// A score that no move beats and that a move or the lowest score gives
/// is the worth of the best move.
pub proof fn lemma_is_best_reply(t: Seq<Status>, u: Seq<int>, v: int, lvl: int)
    requires
        tops(t, u, v, lvl),
        reached(t, u, v),
        v >= -total(u),
        forall|k: int|
            0 <= k < successors(u).len() && successors(u)[k].1 == 0 ==> t[#[trigger] code(
                successors(u)[k].0,
            )] is Stable,
    ensures
        v == best_reply(t, successors(u), successors(u).len() as int, total(u)),
{
    let moves = successors(u);
    let n = total(u);
    let len = moves.len() as int;
    lemma_best_reply(t, moves, len, n);
    lemma_best_capture(t, moves, len, n);
    let best = best_reply(t, moves, len, n);
    assert forall|j: int| 0 <= j < len implies #[trigger] worth(t, moves[j]) <= v by {
        assert(rated(t, moves, j, v, lvl));
        if moves[j].1 == 0 {
            assert(t[code(moves[j].0)] is Stable);
        }
    }
    assert(best <= v) by {
        if best != -n {
            let j = choose|j: int| 0 <= j < len && #[trigger] worth(t, moves[j]) == best;
            assert(worth(t, moves[j]) <= v);
        }
    }
    assert(v <= best) by {
        if v == best_capture(t, moves, len, n) {
            if v != -n {
                let j = choose|j: int|
                    0 <= j < len && moves[j].1 > 0 && #[trigger] worth(t, moves[j]) == v;
                assert(worth(t, moves[j]) <= best);
            }
        } else {
            let k = choose|k: int| 0 <= k < len && #[trigger] gives(t, moves, k, v);
            assert(worth(t, moves[k]) <= best);
        }
    }
}

/// Where the moves of a board lead: a move without a capture to a board
/// with as many seeds, a move that captures to one with fewer; and a move
/// leads to the board with a given code if it is that board.
pub proof fn lemma_move_code(u: Seq<int>, k: int, z: Seq<int>)
    requires
        reachable(u),
        reachable(z),
        total(z) == total(u),
        0 <= k < successors(u).len(),
    ensures
        0 <= code(successors(u)[k].0) < n_codes(),
        successors(u)[k].1 == 0 ==> in_class(total(u), code(successors(u)[k].0)),
        successors(u)[k].1 > 0 ==> !in_class(total(u), code(successors(u)[k].0)),
        code(successors(u)[k].0) == code(z) <==> successors(u)[k].0 == z,
{
    let m = successors(u)[k];
    lemma_move(u, k);
    lemma_code_range(m.0);
    lemma_code_range(z);
    lemma_code_range(u);
    crate::rules::lemma_sum_bounds(u, FPITS as int);
    crate::rules::lemma_sum_bounds(m.0, FPITS as int);
    if code(m.0) == code(z) {
        lemma_code_injective(m.0, z);
    }
    if m.1 > 0 && in_class(total(u), code(m.0)) {
        lemma_one_class(total(u), total(m.0), code(m.0));
    }
}

/// The worth of a move and the best capture of a board do not depend on
/// the status of a board with as many seeds to which the move does not
/// lead.
pub proof fn lemma_worth_frame(t: Seq<Status>, c: int, s: Status, z: Seq<int>, u: Seq<int>, k: int)
    requires
        t.len() == n_codes(),
        reachable(u),
        reachable(z),
        total(z) == total(u),
        code(z) == c,
        0 <= k < successors(u).len(),
    ensures
        successors(u)[k].0 != z ==> worth(t.update(c, s), successors(u)[k]) == worth(
            t,
            successors(u)[k],
        ) && t.update(c, s)[code(successors(u)[k].0)] == t[code(successors(u)[k].0)],
        successors(u)[k].0 == z ==> successors(u)[k].1 == 0 && t.update(c, s)[code(
            successors(u)[k].0,
        )] == s,
        best_capture(t.update(c, s), successors(u), successors(u).len() as int, total(u))
            == best_capture(t, successors(u), successors(u).len() as int, total(u)),
{
    lemma_move_code(u, k, z);
    lemma_move(u, k);
    lemma_code_range(z);
    crate::rules::lemma_sum_bounds(z, FPITS as int);
    let t2 = t.update(c, s);
    assert(same_outside(t, t2, total(u)));
    lemma_best_capture_frame(t, t2, u, successors(u).len() as int);
}

/// As `told`, when board `z` has just become stable and its score is on
/// its way to the first `j` of its predecessors only.
pub open spec fn told_but(
    t: Seq<Status>,
    moves: Seq<(Seq<int>, int)>,
    k: int,
    u: Seq<int>,
    b: int,
    pend: Seq<(Seq<int>, int)>,
    z: Seq<int>,
    j: int,
) -> bool {
    moves[k].1 == 0 && t[code(moves[k].0)] is Stable ==> worth(t, moves[k]) <= b || pend.contains(
        (u, t[code(moves[k].0)].value()),
    ) || (moves[k].0 == z && times(predecessors(z), u, j) == 0)
}

/// As `known`, when board `z` has just become stable and its score is on
/// its way to the first `j` of its predecessors only.
pub open spec fn known_but(
    t: Seq<Status>,
    u: Seq<int>,
    b: int,
    pend: Seq<(Seq<int>, int)>,
    z: Seq<int>,
    j: int,
) -> bool {
    forall|k: int|
        0 <= k < successors(u).len() ==> #[trigger] told_but(t, successors(u), k, u, b, pend, z, j)
}

/// As `sound_at`, when board `z` has just become stable and its score is
/// on its way to the first `j` of its predecessors only.
pub open spec fn owing_at(
    t: Seq<Status>,
    n: int,
    lvl: int,
    pend: Seq<(Seq<int>, int)>,
    z: Seq<int>,
    j: int,
    c: int,
) -> bool {
    let u = decoded(c);
    match t[c] {
        Status::Stable(v) => tops(t, u, v as int, lvl) && reached(t, u, v as int),
        Status::Unstable(b, _) => {
            &&& b >= best_capture(t, successors(u), successors(u).len() as int, n)
            &&& known_but(t, u, b as int, pend, z, j)
            &&& reached(t, u, b as int)
        },
    }
}

/// As `sound`, when board `z` has just become stable and its score is on
/// its way to the first `j` of its predecessors only.
pub open spec fn sound_owing(
    t: Seq<Status>,
    n: int,
    lvl: int,
    pend: Seq<(Seq<int>, int)>,
    z: Seq<int>,
    j: int,
) -> bool {
    &&& forall|c: int| #[trigger] in_class(n, c) ==> owing_at(t, n, lvl, pend, z, j, c)
    &&& forall|i: int| 0 <= i < pend.len() ==> sent(t, #[trigger] pend[i])
}

/// What holds of the other boards when the unstable board `z` with code
/// `c0` takes the status `s`, and the score `gone` is no longer on its
/// way to it: they are scored as their moves tell, but for the score of
/// `z` that is owed to them if `z` became stable.
pub proof fn lemma_sound_others(
    t: Seq<Status>,
    n: int,
    lvl: int,
    full: Seq<(Seq<int>, int)>,
    pend: Seq<(Seq<int>, int)>,
    z: Seq<int>,
    s: Status,
    c: int,
)
    requires
        is_class(n),
        0 <= lvl,
        t.len() == n_codes(),
        reachable(z),
        total(z) == n,
        t[code(z)] is Unstable,
        s is Stable ==> -lvl <= s.value() <= lvl,
        sound(t, n, lvl, full),
        forall|e: (Seq<int>, int)| #[trigger] full.contains(e) ==> pend.contains(e) || e.0 == z,
        forall|i: int| 0 <= i < pend.len() ==> full.contains(#[trigger] pend[i]),
        forall|i: int|
            0 <= i < pend.len() ==> reachable((#[trigger] pend[i]).0) && total(pend[i].0) == n,
        in_class(n, c),
        c != code(z),
    ensures
        owing_at(t.update(code(z), s), n, lvl, pend, z, 0, c),
        s is Unstable ==> sound_at(t.update(code(z), s), n, lvl, pend, c),
{
    let c0 = code(z);
    let t2 = t.update(c0, s);
    let u = decoded(c);
    let moves = successors(u);
    lemma_class_within(n);
    lemma_code_onto(c);
    crate::order::lemma_class_of_code(u, n);
    lemma_code_range(z);
    assert(sound_at(t, n, lvl, full, c));
    assert(u != z);
    assert forall|k: int| 0 <= k < moves.len() implies (moves[k].0 != z ==> worth(t2, moves[k])
        == worth(t, moves[k]) && t2[code(moves[k].0)] == t[code(moves[k].0)]) && (moves[k].0 == z
        ==> moves[k].1 == 0 && t2[code(moves[k].0)] == s && t[code(moves[k].0)] is Unstable) by {
        lemma_worth_frame(t, c0, s, z, u, k);
    }
    if moves.len() > 0 {
        lemma_worth_frame(t, c0, s, z, u, 0);
    } else {
        assert(best_capture(t2, moves, 0, n) == best_capture(t, moves, 0, n));
    }
    match t[c] {
        Status::Stable(v) => {
            assert forall|k: int| 0 <= k < moves.len() implies #[trigger] rated(
                t2,
                moves,
                k,
                v as int,
                lvl,
            ) by {
                assert(rated(t, moves, k, v as int, lvl));
            }
            if v != best_capture(t, moves, moves.len() as int, n) {
                let k = choose|k: int| 0 <= k < moves.len() && #[trigger] gives(t, moves, k,
                    v as int);
                assert(gives(t2, moves, k, v as int));
            }
        },
        Status::Unstable(b, _) => {
            assert forall|k: int| 0 <= k < moves.len() implies #[trigger] told_but(
                t2,
                moves,
                k,
                u,
                b as int,
                pend,
                z,
                0,
            ) by {
                assert(told(t, moves, k, u, b as int, full));
                if moves[k].0 != z && moves[k].1 == 0 && t[code(moves[k].0)] is Stable {
                    if !(worth(t, moves[k]) <= b) {
                        assert(full.contains((u, t[code(moves[k].0)].value())));
                    }
                }
            }
            if s is Unstable {
                assert forall|k: int| 0 <= k < moves.len() implies #[trigger] told(
                    t2,
                    moves,
                    k,
                    u,
                    b as int,
                    pend,
                ) by {
                    assert(told_but(t2, moves, k, u, b as int, pend, z, 0));
                }
            }
            if b != best_capture(t, moves, moves.len() as int, n) {
                let k = choose|k: int| 0 <= k < moves.len() && #[trigger] gives(t, moves, k,
                    b as int);
                assert(gives(t2, moves, k, b as int));
            }
        },
    }
}

/// The scores on their way still are scores of stable boards when an
/// unstable board takes another status.
pub proof fn lemma_sent_kept(
    t: Seq<Status>,
    n: int,
    lvl: int,
    full: Seq<(Seq<int>, int)>,
    pend: Seq<(Seq<int>, int)>,
    z: Seq<int>,
    s: Status,
)
    requires
        t.len() == n_codes(),
        reachable(z),
        total(z) == n,
        t[code(z)] is Unstable,
        sound(t, n, lvl, full),
        forall|i: int| 0 <= i < pend.len() ==> full.contains(#[trigger] pend[i]),
        forall|i: int|
            0 <= i < pend.len() ==> reachable((#[trigger] pend[i]).0) && total(pend[i].0) == n,
    ensures
        forall|i: int| 0 <= i < pend.len() ==> sent(t.update(code(z), s), #[trigger] pend[i]),
{
    let c0 = code(z);
    let t2 = t.update(c0, s);
    assert forall|i: int| 0 <= i < pend.len() implies sent(t2, #[trigger] pend[i]) by {
        let e = pend[i];
        assert(full.contains(e));
        let j = choose|j: int| 0 <= j < full.len() && full[j] == e;
        assert(sent(t, full[j]));
        let k = choose|k: int| 0 <= k < successors(e.0).len() && #[trigger] gives(
            t,
            successors(e.0),
            k,
            -e.1,
        );
        lemma_worth_frame(t, c0, s, z, e.0, k);
        assert(gives(t2, successors(e.0), k, -e.1));
    }
}

/// A board that awaits nothing has no move without a capture that leads
/// to an unstable board.
pub proof fn lemma_waits_zero(t: Seq<Status>, moves: Seq<(Seq<int>, int)>, k: int)
    requires
        0 <= k <= moves.len(),
        waits(t, moves, k) == 0,
    ensures
        forall|j: int| 0 <= j < k && moves[j].1 == 0 ==> t[#[trigger] code(moves[j].0)] is Stable,
    decreases k,
{
    if k > 0 {
        crate::waits::lemma_waits_nonneg(t, moves, k - 1);
        lemma_waits_zero(t, moves, k - 1);
    }
}

/// A board that awaits a successor has a move without a capture that
/// leads to an unstable board.
pub proof fn lemma_waits_some(t: Seq<Status>, moves: Seq<(Seq<int>, int)>, k: int) -> (j: int)
    requires
        0 <= k <= moves.len(),
        waits(t, moves, k) >= 1,
    ensures
        0 <= j < k,
        moves[j].1 == 0,
        t[code(moves[j].0)] is Unstable,
    decreases k,
{
    if moves[k - 1].1 == 0 && t[code(moves[k - 1].0)] is Unstable {
        k - 1
    } else {
        lemma_waits_some(t, moves, k - 1)
    }
}

/// The board `z` with code `c0`, which took a score and is still
/// unstable, is scored as its moves tell.
pub proof fn lemma_sound_self_unstable(
    t: Seq<Status>,
    n: int,
    lvl: int,
    full: Seq<(Seq<int>, int)>,
    pend: Seq<(Seq<int>, int)>,
    z: Seq<int>,
    a: int,
    s: Status,
)
    requires
        is_class(n),
        t.len() == n_codes(),
        reachable(z),
        total(z) == n,
        t[code(z)] is Unstable,
        s is Unstable,
        s.value() >= t[code(z)].value(),
        s.value() >= -a,
        s.value() == t[code(z)].value() || s.value() == -a,
        sound_at(t, n, lvl, full, code(z)),
        sent(t, (z, a)),
        forall|e: (Seq<int>, int)|
            #[trigger] full.contains(e) ==> pend.contains(e) || e == (z, a),
    ensures
        sound_at(t.update(code(z), s), n, lvl, pend, code(z)),
{
    let c0 = code(z);
    let t2 = t.update(c0, s);
    let moves = successors(z);
    let b0 = t[c0].value();
    let b1 = s.value();
    lemma_code_range(z);
    lemma_decode_encode(z);
    assert forall|k: int| 0 <= k < moves.len() implies (moves[k].0 != z ==> worth(t2, moves[k])
        == worth(t, moves[k]) && t2[code(moves[k].0)] == t[code(moves[k].0)]) && (moves[k].0 == z
        ==> moves[k].1 == 0 && t2[code(moves[k].0)] == s) by {
        lemma_worth_frame(t, c0, s, z, z, k);
    }
    if moves.len() > 0 {
        lemma_worth_frame(t, c0, s, z, z, 0);
    } else {
        assert(best_capture(t2, moves, 0, n) == best_capture(t, moves, 0, n));
    }
    assert forall|k: int| 0 <= k < moves.len() implies #[trigger] told(
        t2,
        moves,
        k,
        z,
        b1,
        pend,
    ) by {
        assert(told(t, moves, k, z, b0, full));
        if moves[k].0 != z && moves[k].1 == 0 && t[code(moves[k].0)] is Stable {
            if !(worth(t, moves[k]) <= b0) {
                assert(full.contains((z, t[code(moves[k].0)].value())));
            }
        }
    }
    if b1 == b0 {
        if b0 != best_capture(t, moves, moves.len() as int, n) {
            let k = choose|k: int| 0 <= k < moves.len() && #[trigger] gives(t, moves, k, b0);
            assert(gives(t2, moves, k, b1));
        }
    } else {
        let k = choose|k: int| 0 <= k < moves.len() && #[trigger] gives(t, moves, k, -a);
        assert(gives(t2, moves, k, b1));
    }
}

/// The board `z` with code `c0`, which became stable because it awaited
/// nothing more, is scored as its moves tell.
pub proof fn lemma_sound_self_exhausted(
    t: Seq<Status>,
    n: int,
    lvl: int,
    full: Seq<(Seq<int>, int)>,
    z: Seq<int>,
    a: Option<int>,
    s: Status,
)
    requires
        is_class(n),
        t.len() == n_codes(),
        reachable(z),
        total(z) == n,
        t[code(z)] is Unstable,
        s is Stable,
        s.value() >= t[code(z)].value(),
        a is Some ==> s.value() >= -a->0,
        s.value() == t[code(z)].value() || (a is Some && s.value() == -a->0),
        sound_at(t, n, lvl, full, code(z)),
        a is Some ==> sent(t, (z, a->0)),
        forall|e: (Seq<int>, int)|
            #[trigger] full.contains(e) && e.0 == z ==> a is Some && e.1 == a->0,
        waits(t, successors(z), successors(z).len() as int) == 0,
    ensures
        tops(t.update(code(z), s), z, s.value(), lvl),
        reached(t.update(code(z), s), z, s.value()),
{
    let c0 = code(z);
    let t2 = t.update(c0, s);
    let moves = successors(z);
    let len = moves.len() as int;
    let b0 = t[c0].value();
    let v = s.value();
    lemma_code_range(z);
    lemma_decode_encode(z);
    lemma_waits_zero(t, moves, len);
    lemma_best_capture(t, moves, len, n);
    assert forall|k: int| 0 <= k < moves.len() implies moves[k].0 != z && worth(t2, moves[k])
        == worth(t, moves[k]) && t2[code(moves[k].0)] == t[code(moves[k].0)] by {
        lemma_worth_frame(t, c0, s, z, z, k);
        if moves[k].0 == z {
            assert(t[code(moves[k].0)] is Stable);
        }
    }
    if moves.len() > 0 {
        lemma_worth_frame(t, c0, s, z, z, 0);
    } else {
        assert(best_capture(t2, moves, 0, n) == best_capture(t, moves, 0, n));
    }
    assert forall|k: int| 0 <= k < moves.len() implies #[trigger] rated(t2, moves, k, v, lvl) by {
        lemma_move(z, k);
        if moves[k].1 > 0 {
            assert(worth(t, moves[k]) <= best_capture(t, moves, len, n));
        } else {
            assert(t[code(moves[k].0)] is Stable);
            assert(told(t, moves, k, z, b0, full));
            if !(worth(t, moves[k]) <= b0) {
                assert(full.contains((z, t[code(moves[k].0)].value())));
            }
        }
    }
    if v == b0 {
        if b0 != best_capture(t, moves, len, n) {
            let k = choose|k: int| 0 <= k < moves.len() && #[trigger] gives(t, moves, k, b0);
            assert(gives(t2, moves, k, v));
        }
    } else {
        let k = choose|k: int| 0 <= k < moves.len() && #[trigger] gives(t, moves, k, -a->0);
        assert(gives(t2, moves, k, v));
    }
}

/// The board `z` with code `c0`, which became stable because its score
/// reached the saturation level, is scored as its moves tell.
pub proof fn lemma_sound_self_saturated(
    t: Seq<Status>,
    n: int,
    lvl: int,
    full: Seq<(Seq<int>, int)>,
    z: Seq<int>,
    a: Option<int>,
    s: Status,
)
    requires
        is_class(n),
        0 <= lvl,
        t.len() == n_codes(),
        reachable(z),
        total(z) == n,
        t[code(z)] is Unstable,
        s is Stable,
        s.value() == lvl,
        t[code(z)].value() <= lvl,
        s.value() == t[code(z)].value() || (a is Some && s.value() == -a->0),
        sound_at(t, n, lvl, full, code(z)),
        a is Some ==> sent(t, (z, a->0)),
        forall|e: (Seq<int>, int)| #[trigger] full.contains(e) ==> -lvl <= e.1 <= lvl,
    ensures
        tops(t.update(code(z), s), z, s.value(), lvl),
        reached(t.update(code(z), s), z, s.value()),
{
    let c0 = code(z);
    let t2 = t.update(c0, s);
    let moves = successors(z);
    let len = moves.len() as int;
    let b0 = t[c0].value();
    let v = s.value();
    lemma_code_range(z);
    lemma_decode_encode(z);
    lemma_best_capture(t, moves, len, n);
    assert forall|k: int| 0 <= k < moves.len() implies (moves[k].0 != z ==> worth(t2, moves[k])
        == worth(t, moves[k]) && t2[code(moves[k].0)] == t[code(moves[k].0)]) && (moves[k].0 == z
        ==> moves[k].1 == 0 && t2[code(moves[k].0)] == s) by {
        lemma_worth_frame(t, c0, s, z, z, k);
    }
    if moves.len() > 0 {
        lemma_worth_frame(t, c0, s, z, z, 0);
    } else {
        assert(best_capture(t2, moves, 0, n) == best_capture(t, moves, 0, n));
    }
    assert forall|k: int| 0 <= k < moves.len() implies #[trigger] rated(t2, moves, k, v, lvl) by {
        lemma_move(z, k);
        if moves[k].1 > 0 {
            assert(worth(t, moves[k]) <= best_capture(t, moves, len, n));
        } else if moves[k].0 != z && t[code(moves[k].0)] is Stable {
            assert(told(t, moves, k, z, b0, full));
            if !(worth(t, moves[k]) <= b0) {
                assert(full.contains((z, t[code(moves[k].0)].value())));
            }
        }
    }
    if v == b0 {
        if b0 != best_capture(t, moves, len, n) {
            let k = choose|k: int| 0 <= k < moves.len() && #[trigger] gives(t, moves, k, b0);
            assert(moves[k].0 != z);
            assert(gives(t2, moves, k, v));
        }
    } else {
        let k = choose|k: int| 0 <= k < moves.len() && #[trigger] gives(t, moves, k, -a->0);
        assert(moves[k].0 != z);
        assert(gives(t2, moves, k, v));
    }
}

/// The score of board `z`, which has just become stable, goes on its way
/// to one more of its predecessors, or that predecessor is none of the
/// table.
pub proof fn lemma_sound_push(
    t: Seq<Status>,
    n: int,
    lvl: int,
    pend: Seq<(Seq<int>, int)>,
    z: Seq<int>,
    j: int,
    pushed: bool,
)
    requires
        is_class(n),
        t.len() == n_codes(),
        reachable(z),
        total(z) == n,
        t[code(z)] is Stable,
        0 <= j < predecessors(z).len(),
        pushed == reachable(predecessors(z)[j]),
        sound_owing(t, n, lvl, pend, z, j),
    ensures
        sound_owing(
            t,
            n,
            lvl,
            if pushed {
                pend.push((predecessors(z)[j], t[code(z)].value()))
            } else {
                pend
            },
            z,
            j + 1,
        ),
{
    let preds = predecessors(z);
    let p = preds[j];
    let x = t[code(z)].value();
    let pend2 = if pushed {
        pend.push((p, x))
    } else {
        pend
    };
    lemma_class_within(n);
    assert forall|c: int| #[trigger] in_class(n, c) implies owing_at(t, n, lvl, pend2, z, j + 1,
        c) by {
        let u = decoded(c);
        lemma_code_onto(c);
        assert(owing_at(t, n, lvl, pend, z, j, c));
        match t[c] {
            Status::Stable(v) => {},
            Status::Unstable(b, _) => {
                assert forall|k: int| 0 <= k < successors(u).len() implies #[trigger] told_but(
                    t,
                    successors(u),
                    k,
                    u,
                    b as int,
                    pend2,
                    z,
                    j + 1,
                ) by {
                    assert(told_but(t, successors(u), k, u, b as int, pend, z, j));
                    let m = successors(u)[k];
                    if m.1 == 0 && t[code(m.0)] is Stable && !(worth(t, m) <= b) {
                        if pend.contains((u, t[code(m.0)].value())) {
                            let i = choose|i: int|
                                0 <= i < pend.len() && pend[i] == (u, t[code(m.0)].value());
                            assert(pend2[i] == (u, t[code(m.0)].value()));
                        } else {
                            assert(m.0 == z && times(preds, u, j) == 0);
                            if p == u {
                                assert(pushed);
                                assert(pend2[pend.len() as int] == (u, x));
                            }
                        }
                    }
                }
            },
        }
    }
    assert forall|i: int| 0 <= i < pend2.len() implies sent(t, #[trigger] pend2[i]) by {
        if i < pend.len() {
            assert(sent(t, pend[i]));
            assert(pend2[i] == pend[i]);
        } else {
            assert(pushed);
            assert(pend2[i] == (p, x));
            assert(preds.contains(p));
            lemma_predecessor_in_successors(z, p);
            let moves = successors(p);
            assert(moves.contains((z, 0int)));
            let k = choose|k: int| 0 <= k < moves.len() && moves[k] == (z, 0int);
            assert(moves[k].1 == 0);
            assert(moves[k].0 == z);
            assert(t[code(moves[k].0)] is Stable);
            assert(worth(t, moves[k]) == -x);
            assert(gives(t, moves, k, -x));
            let e = (p, x);
            assert(e.0 == p && e.1 == x);
            assert(gives(t, successors(e.0), k, -e.1));
            assert(sent(t, e));
        }
    }
}

/// When the score of a board that became stable is on its way to all its
/// predecessors, every board is scored as its moves tell.
pub proof fn lemma_sound_done(t: Seq<Status>, n: int, lvl: int, pend: Seq<(Seq<int>, int)>,
    z: Seq<int>)
    requires
        is_class(n),
        t.len() == n_codes(),
        reachable(z),
        sound_owing(t, n, lvl, pend, z, predecessors(z).len() as int),
    ensures
        sound(t, n, lvl, pend),
{
    let preds = predecessors(z);
    lemma_class_within(n);
    assert forall|c: int| #[trigger] in_class(n, c) implies sound_at(t, n, lvl, pend, c) by {
        let u = decoded(c);
        lemma_code_onto(c);
        assert(owing_at(t, n, lvl, pend, z, preds.len() as int, c));
        match t[c] {
            Status::Stable(v) => {},
            Status::Unstable(b, _) => {
                assert forall|k: int| 0 <= k < successors(u).len() implies #[trigger] told(
                    t,
                    successors(u),
                    k,
                    u,
                    b as int,
                    pend,
                ) by {
                    assert(told_but(
                        t,
                        successors(u),
                        k,
                        u,
                        b as int,
                        pend,
                        z,
                        preds.len() as int,
                    ));
                    let m = successors(u)[k];
                    if m.1 == 0 && m.0 == z {
                        assert(successors(u).contains((z, 0int)));
                        lemma_successor_in_predecessors(u, z);
                        lemma_times_contains(preds, u, preds.len() as int);
                        let i = choose|i: int| 0 <= i < preds.len() && preds[i] == u;
                    }
                }
            },
        }
    }
}

/// What is scored as the moves tell at a saturation level is so at every
/// lower level.
pub proof fn lemma_sound_lower(t: Seq<Status>, n: int, lvl: int, low: int, pend: Seq<(Seq<int>,
    int)>)
    requires
        sound(t, n, lvl, pend),
        low <= lvl,
    ensures
        sound(t, n, low, pend),
{
    assert forall|c: int| #[trigger] in_class(n, c) implies sound_at(t, n, low, pend, c) by {
        assert(sound_at(t, n, lvl, pend, c));
        let u = decoded(c);
        match t[c] {
            Status::Stable(v) => {
                assert forall|k: int| 0 <= k < successors(u).len() implies #[trigger] rated(
                    t,
                    successors(u),
                    k,
                    v as int,
                    low,
                ) by {
                    assert(rated(t, successors(u), k, v as int, lvl));
                }
            },
            Status::Unstable(b, _) => {},
        }
    }
}

/// The first states of a class are scored as the moves tell.
pub proof fn lemma_sound_first(t0: Seq<Status>, t: Seq<Status>, n: int)
    requires
        is_class(n),
        t0.len() == n_codes(),
        same_outside(t0, t, n),
        bounded_below(t0, n),
        forall|c: int| #[trigger] in_class(n, c) ==> t[c] == first_status(t0, decoded(c)),
    ensures
        sound(t, n, n, Seq::empty()),
{
    lemma_class_within(n);
    let pend = Seq::<(Seq<int>, int)>::empty();
    assert forall|c: int| #[trigger] in_class(n, c) implies sound_at(t, n, n, pend, c) by {
        let u = decoded(c);
        lemma_code_onto(c);
        crate::order::lemma_class_of_code(u, n);
        lemma_best_capture_frame(t0, t, u, successors(u).len() as int);
        lemma_best_capture(t, successors(u), successors(u).len() as int, n);
        crate::rules::lemma_sum_bounds(u, FPITS as int);
        assert forall|k: int| 0 <= k < successors(u).len() implies #[trigger] told(
            t,
            successors(u),
            k,
            u,
            t[c].value(),
            pend,
        ) by {
            lemma_move_code(u, k, u);
            let m = successors(u)[k];
            if m.1 == 0 {
                assert(in_class(n, code(m.0)));
                assert(t[code(m.0)] is Unstable);
            }
        }
        assert forall|k: int|
            0 <= k < successors(u).len() && successors(u)[k].1 > 0 implies -(total(u)
            - successors(u)[k].1) <= t0[#[trigger] code(successors(u)[k].0)].value() <= total(u)
            - successors(u)[k].1 by {
            let m = successors(u)[k];
            lemma_move(u, k);
            lemma_code_range(m.0);
            crate::rules::lemma_sum_bounds(m.0, FPITS as int);
            assert(in_class(total(m.0), code(m.0)));
            assert(t0[code(m.0)].fits(total(m.0)));
        }
        lemma_first_value(t0, u);
    }
}

/// The bound with which the analysis of a board starts is its best
/// capture.
pub proof fn lemma_first_value(t: Seq<Status>, u: Seq<int>)
    requires
        reachable(u),
        forall|k: int|
            0 <= k < successors(u).len() && successors(u)[k].1 > 0 ==> -(total(u)
                - successors(u)[k].1) <= t[#[trigger] code(successors(u)[k].0)].value() <= total(u)
                - successors(u)[k].1,
        total(u) <= 127,
    ensures
        first_status(t, u).value() == best_capture(
            t,
            successors(u),
            successors(u).len() as int,
            total(u),
        ),
{
    lemma_capture_range(t, u, successors(u).len() as int);
}

/// The best capture lies within the seeds of the board.
pub proof fn lemma_capture_range(t: Seq<Status>, u: Seq<int>, k: int)
    requires
        reachable(u),
        0 <= k <= successors(u).len(),
        forall|j: int|
            0 <= j < successors(u).len() && successors(u)[j].1 > 0 ==> -(total(u)
                - successors(u)[j].1) <= t[#[trigger] code(successors(u)[j].0)].value() <= total(u)
                - successors(u)[j].1,
    ensures
        -total(u) <= best_capture(t, successors(u), k, total(u)) <= total(u),
    decreases k,
{
    crate::rules::lemma_sum_bounds(u, FPITS as int);
    if k > 0 {
        lemma_capture_range(t, u, k - 1);
        lemma_move(u, k - 1);
        let m = successors(u)[k - 1];
        if m.1 > 0 {
            assert(-(total(u) - m.1) <= t[code(m.0)].value() <= total(u) - m.1);
        }
    }
}

/// The best capture and the best reply depend on the boards to which
/// the moves lead only.
pub proof fn lemma_best_frame(
    a: Seq<Status>,
    b: Seq<Status>,
    moves: Seq<(Seq<int>, int)>,
    k: int,
    n: int,
)
    requires
        0 <= k <= moves.len(),
        forall|j: int| 0 <= j < k ==> a[#[trigger] code(moves[j].0)] == b[code(moves[j].0)],
    ensures
        best_capture(a, moves, k, n) == best_capture(b, moves, k, n),
        best_reply(a, moves, k, n) == best_reply(b, moves, k, n),
    decreases k,
{
    if k > 0 {
        lemma_best_frame(a, b, moves, k - 1, n);
        assert(a[code(moves[k - 1].0)] == b[code(moves[k - 1].0)]);
    }
}

/// The moves of a board with `m` seeds lead to boards whose status does
/// not change when the boards of a class with more seeds change.
pub proof fn lemma_moves_below(a: Seq<Status>, b: Seq<Status>, n: int, u: Seq<int>)
    requires
        is_class(n),
        a.len() == n_codes(),
        same_outside(a, b, n),
        reachable(u),
        total(u) < n,
    ensures
        a[code(u)] == b[code(u)],
        forall|k: int|
            0 <= k < successors(u).len() ==> a[#[trigger] code(successors(u)[k].0)] == b[code(
                successors(u)[k].0,
            )],
{
    crate::rules::lemma_sum_bounds(u, FPITS as int);
    lemma_code_range(u);
    if in_class(n, code(u)) {
        lemma_one_class(n, total(u), code(u));
    }
    assert forall|k: int| 0 <= k < successors(u).len() implies a[#[trigger] code(
        successors(u)[k].0,
    )] == b[code(successors(u)[k].0)] by {
        let m = successors(u)[k];
        lemma_move(u, k);
        lemma_code_range(m.0);
        crate::rules::lemma_sum_bounds(m.0, FPITS as int);
        if in_class(n, code(m.0)) {
            lemma_one_class(n, total(m.0), code(m.0));
        }
    }
}

/// A class that is solved stays solved when the boards of a class with
/// more seeds change.
pub proof fn lemma_solved_frame(a: Seq<Status>, b: Seq<Status>, n: int, m: int)
    requires
        is_class(n),
        is_class(m),
        m < n,
        a.len() == n_codes(),
        same_outside(a, b, n),
        solved(a, m),
    ensures
        solved(b, m),
{
    lemma_class_within(m);
    assert forall|c: int| #[trigger] in_class(m, c) implies b[c] is Stable && b[c].value()
        == best_reply(b, successors(decoded(c)), successors(decoded(c)).len() as int, m) by {
        let u = decoded(c);
        lemma_code_onto(c);
        crate::order::lemma_class_of_code(u, m);
        lemma_moves_below(a, b, n, u);
        lemma_best_frame(a, b, successors(u), successors(u).len() as int, m);
    }
}

/// A class that is scored as the moves tell stays so when the boards of a
/// class with more seeds change.
pub proof fn lemma_sound_frame(a: Seq<Status>, b: Seq<Status>, n: int, m: int, lvl: int)
    requires
        is_class(n),
        is_class(m),
        m < n,
        a.len() == n_codes(),
        same_outside(a, b, n),
        sound(a, m, lvl, Seq::empty()),
    ensures
        sound(b, m, lvl, Seq::empty()),
{
    lemma_class_within(m);
    let pend = Seq::<(Seq<int>, int)>::empty();
    assert forall|c: int| #[trigger] in_class(m, c) implies sound_at(b, m, lvl, pend, c) by {
        let u = decoded(c);
        let moves = successors(u);
        lemma_code_onto(c);
        crate::order::lemma_class_of_code(u, m);
        lemma_moves_below(a, b, n, u);
        lemma_best_frame(a, b, moves, moves.len() as int, m);
        assert(sound_at(a, m, lvl, pend, c));
        match a[c] {
            Status::Stable(v) => {
                assert forall|k: int| 0 <= k < moves.len() implies #[trigger] rated(
                    b,
                    moves,
                    k,
                    v as int,
                    lvl,
                ) by {
                    assert(rated(a, moves, k, v as int, lvl));
                }
                if v != best_capture(a, moves, moves.len() as int, m) {
                    let k = choose|k: int| 0 <= k < moves.len() && #[trigger] gives(a, moves, k,
                        v as int);
                    assert(gives(b, moves, k, v as int));
                }
            },
            Status::Unstable(x, _) => {
                assert forall|k: int| 0 <= k < moves.len() implies #[trigger] told(
                    b,
                    moves,
                    k,
                    u,
                    x as int,
                    pend,
                ) by {
                    assert(told(a, moves, k, u, x as int, pend));
                }
                if x != best_capture(a, moves, moves.len() as int, m) {
                    let k = choose|k: int| 0 <= k < moves.len() && #[trigger] gives(a, moves, k,
                        x as int);
                    assert(gives(b, moves, k, x as int));
                }
            },
        }
    }
}

/// A board without seeds has no move.
pub proof fn lemma_no_moves(u: Seq<int>, i: int)
    requires
        is_board(u),
        total(u) == 0,
        0 <= i <= PITS,
    ensures
        moves_upto(u, i).len() == 0,
    decreases i,
{
    crate::rules::lemma_sum_bounds(u, FPITS as int);
    if i > 0 {
        lemma_no_moves(u, i - 1);
        assert(u[i - 1] == 0);
        assert(!valid_sow(u, i - 1));
    }
}

/// The class of the board without seeds is solved once that board is
/// stable with score `0`.
pub proof fn lemma_solved_empty(t: Seq<Status>)
    requires
        t.len() == n_codes(),
        t[0] == Status::Stable(0),
    ensures
        solved(t, 0),
{
    crate::coding::lemma_first_class();
    assert forall|c: int| #[trigger] in_class(0, c) implies t[c] is Stable && t[c].value()
        == best_reply(t, successors(decoded(c)), successors(decoded(c)).len() as int, 0) by {
        assert(c == 0);
        crate::utils::lemma_n_codes_bound();
        lemma_code_onto(0);
        let u = decoded(0);
        crate::order::lemma_class_of_code(u, 0);
        lemma_no_moves(u, PITS as int);
    }
}

/// The sweep at saturation level `0` solves a class: once every board
/// that was still unstable is stable with score `0`, the score of every
/// board of the class is the worth of its best move.
pub proof fn lemma_settled(t0: Seq<Status>, t1: Seq<Status>, n: int)
    requires
        is_class(n),
        n >= 1,
        t0.len() == n_codes(),
        same_outside(t0, t1, n),
        bounded(t0, n),
        ceiling(t0, n, 0),
        counted(t0, n, Seq::empty()),
        sound(t0, n, 0, Seq::empty()),
        forall|c: int| #[trigger] in_class(n, c) ==> t1[c] == t0[c].stabilized(0),
    ensures
        solved(t1, n),
{
    lemma_class_within(n);
    let pend = Seq::<(Seq<int>, int)>::empty();
    assert forall|c: int| #[trigger] in_class(n, c) implies t1[c] is Stable && t1[c].value()
        == best_reply(t1, successors(decoded(c)), successors(decoded(c)).len() as int, n) by {
        let u = decoded(c);
        let moves = successors(u);
        let len = moves.len() as int;
        lemma_code_onto(c);
        crate::order::lemma_class_of_code(u, n);
        assert(sound_at(t0, n, 0, pend, c));
        assert(t0[c].fits(n));
        assert(t0[c].capped(n, 0));
        let v = t1[c].value();
        // where the moves lead
        assert forall|k: int| 0 <= k < len implies (moves[k].1 > 0 ==> t1[#[trigger] code(
            moves[k].0,
        )] == t0[code(moves[k].0)]) && (moves[k].1 == 0 ==> in_class(n, code(moves[k].0))
            && t1[code(moves[k].0)] == t0[code(moves[k].0)].stabilized(0)) && (moves[k].1 == 0
            || moves[k].1 >= 2) by {
            lemma_move_code(u, k, u);
            lemma_move(u, k);
        }
        assert(best_capture(t1, moves, len, n) == best_capture(t0, moves, len, n)) by {
            lemma_best_capture_frame(t0, t1, u, len);
        }
        lemma_best_capture(t0, moves, len, n);
        match t0[c] {
            Status::Stable(x) => {
                assert forall|k: int| 0 <= k < len implies #[trigger] rated(t1, moves, k, v, 0) by {
                    assert(rated(t0, moves, k, v, 0));
                    assert(t1[code(moves[k].0)] is Stable || moves[k].1 > 0);
                }
                if v != best_capture(t0, moves, len, n) {
                    let k = choose|k: int| 0 <= k < len && #[trigger] gives(t0, moves, k, v);
                    assert(gives(t1, moves, k, v));
                }
            },
            Status::Unstable(b, r) => {
                assert(v == 0);
                assert forall|k: int| 0 <= k < len implies #[trigger] rated(t1, moves, k, v, 0) by {
                    if moves[k].1 > 0 {
                        assert(worth(t0, moves[k]) <= best_capture(t0, moves, len, n));
                    } else if t0[code(moves[k].0)] is Stable {
                        assert(told(t0, moves, k, u, b as int, pend));
                    }
                }
                lemma_times_frame(
                    Seq::<Seq<int>>::empty(),
                    Seq::<Seq<int>>::empty(),
                    u,
                    0,
                );
                assert(awaited(t0[c]) == waits(t0, moves, len) + times(
                    Seq::<Seq<int>>::empty(),
                    u,
                    0,
                ));
                let j = lemma_waits_some(t0, moves, len);
                assert(gives(t1, moves, j, 0));
            },
        }
        assert forall|k: int| 0 <= k < len && moves[k].1 == 0 implies t1[#[trigger] code(
            moves[k].0,
        )] is Stable by {}
        lemma_is_best_reply(t1, u, v, 0);
    }
}

/// The boards of the scores on their way.
pub open spec fn boards(pend: Seq<(Seq<int>, int)>) -> Seq<Seq<int>> {
    pend.map_values(|e: (Seq<int>, int)| e.0)
}

/// No score is on its way to a board that is not counted among the
/// boards of the scores.
pub proof fn lemma_none_pending(pend: Seq<(Seq<int>, int)>, z: Seq<int>)
    requires
        times(boards(pend), z, pend.len() as int) == 0,
    ensures
        forall|e: (Seq<int>, int)| #[trigger] pend.contains(e) ==> e.0 != z,
{
    lemma_times_contains(boards(pend), z, pend.len() as int);
    assert forall|e: (Seq<int>, int)| #[trigger] pend.contains(e) implies e.0 != z by {
        let i = choose|i: int| 0 <= i < pend.len() && pend[i] == e;
        if e.0 == z {
            assert(boards(pend)[i] == z);
        }
    }
}

/// A score that was on its way to a stable board is dropped: the boards
/// are scored as their moves tell as before.
pub proof fn lemma_sound_drop(
    t: Seq<Status>,
    n: int,
    lvl: int,
    full: Seq<(Seq<int>, int)>,
    pend: Seq<(Seq<int>, int)>,
    z: Seq<int>,
)
    requires
        is_class(n),
        t.len() == n_codes(),
        reachable(z),
        total(z) == n,
        t[code(z)] is Stable,
        sound(t, n, lvl, full),
        forall|e: (Seq<int>, int)| #[trigger] full.contains(e) ==> pend.contains(e) || e.0 == z,
        forall|i: int| 0 <= i < pend.len() ==> full.contains(#[trigger] pend[i]),
    ensures
        sound(t, n, lvl, pend),
{
    lemma_class_within(n);
    assert forall|c: int| #[trigger] in_class(n, c) implies sound_at(t, n, lvl, pend, c) by {
        let u = decoded(c);
        lemma_code_onto(c);
        assert(sound_at(t, n, lvl, full, c));
        match t[c] {
            Status::Stable(v) => {},
            Status::Unstable(b, _) => {
                assert(u != z);
                assert forall|k: int| 0 <= k < successors(u).len() implies #[trigger] told(
                    t,
                    successors(u),
                    k,
                    u,
                    b as int,
                    pend,
                ) by {
                    assert(told(t, successors(u), k, u, b as int, full));
                    let m = successors(u)[k];
                    if m.1 == 0 && t[code(m.0)] is Stable && !(worth(t, m) <= b) {
                        assert(full.contains((u, t[code(m.0)].value())));
                    }
                }
            },
        }
    }
    assert forall|i: int| 0 <= i < pend.len() implies sent(t, #[trigger] pend[i]) by {
        let e = pend[i];
        assert(full.contains(e));
        let j = choose|j: int| 0 <= j < full.len() && full[j] == e;
        assert(sent(t, full[j]));
    }
}

/// What handing the score `a` to board `z` does: if the board stays as
/// it was or is still unstable, every board is scored as its moves tell;
/// if it became stable, its score is owed to its predecessors.
pub proof fn lemma_sound_deliver(
    t: Seq<Status>,
    n: int,
    sat: i8,
    pend: Seq<(Seq<int>, int)>,
    z: Seq<int>,
    a: i8,
)
    requires
        is_class(n),
        t.len() == n_codes(),
        reachable(z),
        total(z) == n,
        0 <= sat <= n,
        (n - sat) % 2 == 0,
        -sat <= a <= sat,
        (a - n) % 2 == 0,
        t[code(z)].fits(n),
        t[code(z)].capped(n, sat as int),
        forall|i: int|
            0 <= i < pend.len() ==> reachable((#[trigger] pend[i]).0) && total(pend[i].0) == n
                && -sat <= pend[i].1 <= sat,
        sound(t, n, sat as int, pend.push((z, a as int))),
        t[code(z)] is Unstable ==> awaited(t[code(z)]) == waits(
            t,
            successors(z),
            successors(z).len() as int,
        ) + times(boards(pend), z, pend.len() as int) + 1,
    ensures
        t[code(z)] is Stable || t[code(z)].updated(a, sat) is Unstable ==> sound(
            t.update(code(z), t[code(z)].updated(a, sat)),
            n,
            sat as int,
            pend,
        ),
        t[code(z)] is Unstable && t[code(z)].updated(a, sat) is Stable ==> sound_owing(
            t.update(code(z), t[code(z)].updated(a, sat)),
            n,
            sat as int,
            pend,
            z,
            0,
        ),
{
    let c0 = code(z);
    let s = t[c0].updated(a, sat);
    let t2 = t.update(c0, s);
    let full = pend.push((z, a as int));
    let lvl = sat as int;
    lemma_class_within(n);
    lemma_code_range(z);
    lemma_decode_encode(z);
    assert(in_class(n, c0));
    assert(full[pend.len() as int] == (z, a as int));
    assert forall|e: (Seq<int>, int)| #[trigger] full.contains(e) implies pend.contains(e) || e
        == (z, a as int) by {
        let i = choose|i: int| 0 <= i < full.len() && full[i] == e;
        if i < pend.len() {
            assert(pend[i] == e);
        }
    }
    assert forall|i: int| 0 <= i < pend.len() implies full.contains(#[trigger] pend[i]) by {
        assert(full[i] == pend[i]);
    }
    assert forall|e: (Seq<int>, int)| #[trigger] full.contains(e) implies -lvl <= e.1 <= lvl by {
        let i = choose|i: int| 0 <= i < full.len() && full[i] == e;
        if i < pend.len() {
            assert(pend[i] == e);
        }
    }
    if t[c0] is Stable {
        assert(t2 =~= t);
        lemma_sound_drop(t, n, lvl, full, pend, z);
    } else {
        assert(sent(t, full[pend.len() as int]));
        assert(sound_at(t, n, lvl, full, c0));
        crate::waits::lemma_waits_nonneg(t, successors(z), successors(z).len() as int);
        lemma_times_frame(boards(pend), boards(pend), z, pend.len() as int);
        lemma_sent_kept(t, n, lvl, full, pend, z, s);
        assert forall|c: int| #[trigger] in_class(n, c) && c != c0 implies owing_at(
            t2,
            n,
            lvl,
            pend,
            z,
            0,
            c,
        ) && (s is Unstable ==> sound_at(t2, n, lvl, pend, c)) by {
            lemma_sound_others(t, n, lvl, full, pend, z, s, c);
        }
        if s is Unstable {
            lemma_sound_self_unstable(t, n, lvl, full, pend, z, a as int, s);
        } else {
            if awaited(t[c0]) <= 1 {
                lemma_none_pending(pend, z);
                lemma_sound_self_exhausted(t, n, lvl, full, z, Some(a as int), s);
            } else {
                lemma_sound_self_saturated(t, n, lvl, full, z, Some(a as int), s);
            }
        }
    }
}

/// What a visit of the sweep does to board `z`: if the board stays as it
/// was, every board is scored as its moves tell; if it became stable, its
/// score is owed to its predecessors.
pub proof fn lemma_sound_visit(t: Seq<Status>, n: int, sat: i8, z: Seq<int>)
    requires
        is_class(n),
        t.len() == n_codes(),
        reachable(z),
        total(z) == n,
        0 < sat <= n,
        t[code(z)].fits(n),
        t[code(z)].capped(n, sat as int),
        sound(t, n, sat as int, Seq::empty()),
        t[code(z)] is Unstable ==> awaited(t[code(z)]) == waits(
            t,
            successors(z),
            successors(z).len() as int,
        ),
    ensures
        t[code(z)].stabilized(sat) == t[code(z)] ==> sound(
            t.update(code(z), t[code(z)].stabilized(sat)),
            n,
            sat as int,
            Seq::empty(),
        ),
        t[code(z)] is Unstable && t[code(z)].stabilized(sat) is Stable ==> sound_owing(
            t.update(code(z), t[code(z)].stabilized(sat)),
            n,
            sat as int,
            Seq::empty(),
            z,
            0,
        ),
{
    let c0 = code(z);
    let s = t[c0].stabilized(sat);
    let t2 = t.update(c0, s);
    let pend = Seq::<(Seq<int>, int)>::empty();
    let lvl = sat as int;
    lemma_class_within(n);
    lemma_code_range(z);
    lemma_decode_encode(z);
    assert(in_class(n, c0));
    if s == t[c0] {
        assert(t2 =~= t);
    } else {
        assert(sound_at(t, n, lvl, pend, c0));
        lemma_sent_kept(t, n, lvl, pend, pend, z, s);
        assert forall|c: int| #[trigger] in_class(n, c) && c != c0 implies owing_at(
            t2,
            n,
            lvl,
            pend,
            z,
            0,
            c,
        ) by {
            lemma_sound_others(t, n, lvl, pend, pend, z, s, c);
        }
        if t[c0].value() == sat {
            lemma_sound_self_saturated(t, n, lvl, pend, z, None, s);
        } else {
            lemma_sound_self_exhausted(t, n, lvl, pend, z, None, s);
        }
    }
}

} // verus!
