//! Which boards of the table a game can reach from a given board.

use vstd::prelude::*;
use crate::awari::{moves_view, Awari};
use crate::coding::{code, decoded, lemma_code_range, lemma_decode_encode, n_codes, reachable};
use crate::rules::{is_position, successors, total};
use crate::utils::nboards;
use crate::waits::lemma_move;
use crate::SEEDS;

verus! {

/// A move leads from board `u` to board `v`.
pub open spec fn follows(u: Seq<int>, v: Seq<int>) -> bool {
    exists|k: int| 0 <= k < successors(u).len() && #[trigger] successors(u)[k].0 == v
}

/// `k` moves lead from board `s` to board `b`.
pub open spec fn reached_in(s: Seq<int>, b: Seq<int>, k: nat) -> bool
    decreases k,
{
    if k == 0 {
        false
    } else if k == 1 {
        follows(s, b)
    } else {
        exists|m: Seq<int>| reached_in(s, m, (k - 1) as nat) && #[trigger] follows(m, b)
    }
}

/// One move or more lead from board `s` to board `b`.
pub open spec fn reached(s: Seq<int>, b: Seq<int>) -> bool {
    exists|k: nat| #[trigger] reached_in(s, b, k)
}

/// Every board to which a move leads from board `u` is marked.
pub open spec fn closed_at(tbl: Seq<bool>, u: Seq<int>) -> bool {
    forall|k: int| 0 <= k < successors(u).len() ==> tbl[#[trigger] code(successors(u)[k].0)]
}

/// Board `b` is on the stack.
pub open spec fn on_stack(stack: Seq<Awari>, b: Seq<int>) -> bool {
    exists|i: int| 0 <= i < stack.len() && (#[trigger] stack[i])@ == b
}

/// The number of entries among the first `k` that are not marked.
pub open spec fn unmarked(tbl: Seq<bool>, k: int) -> nat
    decreases k,
{
    if k <= 0 {
        0
    } else {
        unmarked(tbl, k - 1) + if tbl[k - 1] {
            0nat
        } else {
            1nat
        }
    }
}

/// Marking an entry leaves one entry less unmarked.
pub proof fn lemma_marked(tbl: Seq<bool>, i: int, k: int)
    requires
        0 <= i < tbl.len(),
        0 <= k <= tbl.len(),
        !tbl[i],
    ensures
        unmarked(tbl.update(i, true), k) + if i < k {
            1nat
        } else {
            0nat
        } == unmarked(tbl, k),
    decreases k,
{
    if k > 0 {
        lemma_marked(tbl, i, k - 1);
    }
}

/// What is closed stays closed when more boards are marked.
pub proof fn lemma_closed_more(a: Seq<bool>, b: Seq<bool>, u: Seq<int>)
    requires
        a.len() == n_codes(),
        b.len() == n_codes(),
        forall|c: int| 0 <= c < n_codes() && a[c] ==> b[c],
        is_position(u),
        total(u) != SEEDS - 1,
        closed_at(a, u),
    ensures
        closed_at(b, u),
{
    assert forall|k: int| 0 <= k < successors(u).len() implies b[#[trigger] code(
        successors(u)[k].0,
    )] by {
        lemma_move(u, k);
        lemma_code_range(successors(u)[k].0);
    }
}

/// One more move after some moves is some moves.
pub proof fn lemma_reached_on(s: Seq<int>, u: Seq<int>, v: Seq<int>)
    requires
        follows(u, v),
        u == s || reached(s, u),
    ensures
        reached(s, v),
{
    if u == s {
        assert(reached_in(s, v, 1));
    } else {
        let k = choose|k: nat| #[trigger] reached_in(s, u, k);
        assert(reached_in(s, v, k + 1));
    }
}

/// Where every marked board and the first board have all their
/// successors marked, every board that the game can reach is marked.
pub proof fn lemma_closed(tbl: Seq<bool>, s: Seq<int>, b: Seq<int>, k: nat)
    requires
        tbl.len() == n_codes(),
        is_position(s),
        total(s) != SEEDS - 1,
        closed_at(tbl, s),
        forall|c: int| 0 <= c < n_codes() && tbl[c] ==> closed_at(tbl, #[trigger] decoded(c)),
        reached_in(s, b, k),
    ensures
        reachable(b),
        tbl[code(b)],
    decreases k,
{
    if k == 1 {
        let j = choose|j: int| 0 <= j < successors(s).len() && #[trigger] successors(s)[j].0 == b;
        lemma_move(s, j);
    } else {
        let m = choose|m: Seq<int>| reached_in(s, m, (k - 1) as nat) && #[trigger] follows(m, b);
        lemma_closed(tbl, s, m, (k - 1) as nat);
        lemma_code_range(m);
        lemma_decode_encode(m);
        assert(closed_at(tbl, decoded(code(m))));
        let j = choose|j: int| 0 <= j < successors(m).len() && #[trigger] successors(m)[j].0 == b;
        lemma_move(m, j);
    }
}

/// The boards that a game can reach from board `start`: entry `c` of the
/// result tells whether one move or more lead from `start` to the board
/// with code `c`.
pub fn explore(start: Awari) -> (res: Vec<bool>)
    requires
        is_position(start@),
        total(start@) != SEEDS - 1,
    ensures
        res@.len() == n_codes(),
        forall|c: int| 0 <= c < n_codes() ==> (res@[c] <==> reached(start@, #[trigger] decoded(c))),
{
    let len = nboards();
    let mut tbl: Vec<bool> = Vec::new();
    let mut i: usize = 0;
    while i < len
        invariant
            i <= len,
            len == n_codes(),
            tbl@.len() == i,
            forall|c: int| 0 <= c < i ==> !tbl@[c],
        decreases len - i,
    {
        tbl.push(false);
        i = i + 1;
    }
    let mut stack: Vec<Awari> = Vec::new();
    stack.push(start);
    assert(on_stack(stack@, start@)) by {
        assert(stack@[0]@ == start@);
    }
    while stack.len() > 0
        invariant
            tbl@.len() == n_codes(),
            is_position(start@),
            total(start@) != SEEDS - 1,
            forall|c: int| 0 <= c < n_codes() && tbl@[c] ==> reached(start@, #[trigger] decoded(c)),
            forall|i: int|
                0 <= i < stack@.len() ==> (#[trigger] stack@[i])@ == start@ || (reachable(
                    stack@[i]@,
                ) && tbl@[code(stack@[i]@)]),
            forall|c: int|
                0 <= c < n_codes() && tbl@[c] ==> on_stack(stack@, #[trigger] decoded(c))
                    || closed_at(tbl@, decoded(c)),
            on_stack(stack@, start@) || closed_at(tbl@, start@),
        decreases unmarked(tbl@, tbl@.len() as int), stack@.len(),
    {
        let ghost full = stack@;
        let ghost marks = tbl@;
        let u = stack.pop().unwrap();
        proof {
            assert(full[full.len() - 1] == u);
            if u@ != start@ {
                lemma_code_range(u@);
                lemma_decode_encode(u@);
            }
            assert forall|c: int| 0 <= c < n_codes() && tbl@[c] implies on_stack(
                stack@,
                #[trigger] decoded(c),
            ) || closed_at(tbl@, decoded(c)) || decoded(c) == u@ by {
                if on_stack(full, decoded(c)) {
                    let i = choose|i: int| 0 <= i < full.len() && (#[trigger] full[i])@ == decoded(c);
                    if i < stack@.len() {
                        assert(stack@[i]@ == decoded(c));
                    }
                }
            }
            if on_stack(full, start@) {
                let i = choose|i: int| 0 <= i < full.len() && (#[trigger] full[i])@ == start@;
                if i < stack@.len() {
                    assert(stack@[i]@ == start@);
                }
            }
        }
        let succ = u.successors();
        let mut j: usize = 0;
        while j < succ.len()
            invariant
                j <= succ@.len(),
                tbl@.len() == n_codes(),
                is_position(start@),
                total(start@) != SEEDS - 1,
                is_position(u@),
                total(u@) != SEEDS - 1,
                u@ == start@ || reached(start@, u@),
                moves_view(succ@) == successors(u@),
                full.len() == stack@.len() + 1 || unmarked(tbl@, tbl@.len() as int) < unmarked(
                    marks,
                    marks.len() as int,
                ),
                unmarked(tbl@, tbl@.len() as int) <= unmarked(marks, marks.len() as int),
                marks.len() == n_codes(),
                forall|c: int| 0 <= c < n_codes() && marks[c] ==> tbl@[c],
                forall|c: int|
                    0 <= c < n_codes() && tbl@[c] ==> reached(start@, #[trigger] decoded(c)),
                forall|i: int|
                    0 <= i < stack@.len() ==> (#[trigger] stack@[i])@ == start@ || (reachable(
                        stack@[i]@,
                    ) && tbl@[code(stack@[i]@)]),
                forall|c: int|
                    0 <= c < n_codes() && tbl@[c] ==> on_stack(stack@, #[trigger] decoded(c))
                        || closed_at(tbl@, decoded(c)) || decoded(c) == u@,
                on_stack(stack@, start@) || closed_at(tbl@, start@) || start@ == u@,
                forall|k: int| 0 <= k < j ==> tbl@[#[trigger] code(successors(u@)[k].0)],
            decreases succ@.len() - j,
        {
            let v = succ[j].0;
            let ghost before = tbl@;
            let ghost held = stack@;
            proof {
                assert(moves_view(succ@)[j as int].0 == v@);
                lemma_move(u@, j as int);
                lemma_code_range(v@);
                lemma_decode_encode(v@);
                assert(follows(u@, v@));
                lemma_reached_on(start@, u@, v@);
            }
            let id = v.encode();
            if !tbl[id] {
                tbl.set(id, true);
                stack.push(v);
                proof {
                    lemma_marked(before, id as int, before.len() as int);
                    assert(stack@[held.len() as int]@ == v@);
                    assert forall|i: int| 0 <= i < stack@.len() implies (#[trigger] stack@[i])@
                        == start@ || (reachable(stack@[i]@) && tbl@[code(stack@[i]@)]) by {
                        if i < held.len() {
                            assert(stack@[i] == held[i]);
                            if held[i]@ != start@ {
                                lemma_code_range(held[i]@);
                            }
                        }
                    }
                    assert forall|c: int| 0 <= c < n_codes() && tbl@[c] implies on_stack(
                        stack@,
                        #[trigger] decoded(c),
                    ) || closed_at(tbl@, decoded(c)) || decoded(c) == u@ by {
                        crate::coding::lemma_code_onto(c);
                        if c == id {
                            assert(on_stack(stack@, decoded(c)));
                        } else if on_stack(held, decoded(c)) {
                            let i = choose|i: int|
                                0 <= i < held.len() && (#[trigger] held[i])@ == decoded(c);
                            assert(stack@[i]@ == decoded(c));
                        } else if closed_at(before, decoded(c)) {
                            lemma_closed_more(before, tbl@, decoded(c));
                        }
                    }
                    if on_stack(held, start@) {
                        let i = choose|i: int| 0 <= i < held.len() && (#[trigger] held[i])@ == start@;
                        assert(stack@[i]@ == start@);
                    } else if closed_at(before, start@) {
                        lemma_closed_more(before, tbl@, start@);
                    }
                    assert forall|k: int| 0 <= k < j + 1 implies tbl@[#[trigger] code(
                        successors(u@)[k].0,
                    )] by {
                        lemma_move(u@, k);
                        lemma_code_range(successors(u@)[k].0);
                    }
                }
            }
            j = j + 1;
        }
        proof {
            assert(closed_at(tbl@, u@));
        }
    }
    proof {
        assert forall|c: int| 0 <= c < n_codes() implies (tbl@[c] <==> reached(
            start@,
            #[trigger] decoded(c),
        )) by {
            if reached(start@, decoded(c)) {
                let k = choose|k: nat| #[trigger] reached_in(start@, decoded(c), k);
                assert forall|d: int| 0 <= d < n_codes() && tbl@[d] implies closed_at(
                    tbl@,
                    #[trigger] decoded(d),
                ) by {
                    if on_stack(stack@, decoded(d)) {
                        let i = choose|i: int|
                            0 <= i < stack@.len() && (#[trigger] stack@[i])@ == decoded(d);
                    }
                }
                if on_stack(stack@, start@) {
                    let i = choose|i: int| 0 <= i < stack@.len() && (#[trigger] stack@[i])@ == start@;
                }
                lemma_closed(tbl@, start@, decoded(c), k);
                crate::coding::lemma_code_onto(c);
            }
        }
    }
    tbl
}

} // verus!
