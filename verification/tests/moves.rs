use awari::awari::Awari;
use awari::{FPITS, PITS, SEEDS};
use quickcheck::{Arbitrary, Gen, QuickCheck};

/// A board with between one seed and `SEEDS` seeds.
#[derive(Clone, Debug)]
struct Position(Awari);

impl Arbitrary for Position {
    fn arbitrary(g: &mut Gen) -> Position {
        let n = u8::arbitrary(g) % (SEEDS as u8) + 1;
        let mut cuts = [0u8; FPITS];
        for i in 1..FPITS {
            cuts[i] = u8::arbitrary(g) % (n + 1);
        }
        cuts.sort();
        let mut b = [0u8; FPITS];
        for i in 0..FPITS - 1 {
            b[i] = cuts[i + 1] - cuts[i];
        }
        b[FPITS - 1] = n - cuts[FPITS - 1];
        Position(Awari(b))
    }
}

fn prop_sow_unsow_bij(b: Position) -> bool {
    let u = b.0;
    for i in 0..PITS {
        if u.valid_sow(i) {
            let mut x = u;
            let seeds = x.0[i] as usize;
            let (j, n) = x.sow(i);
            let r = seeds - (FPITS - 1) * n as usize;
            if (i + r) % FPITS != j {
                return false;
            }
            x.unsow(i, r, n);
            if x != u {
                return false;
            }
        }
    }
    true
}

fn prop_succ_pred(b: Position) -> bool {
    let u = b.0;
    u.successors().into_iter().all(|(v, k)| k > 0 || v.predecessors().contains(&u))
}

fn prop_pred_succ(b: Position) -> bool {
    let u = b.0;
    u.predecessors().into_iter().all(|v| v.successors().into_iter().any(|(w, _)| u == w))
}

fn prop_pred_succ_without_capture(b: Position) -> bool {
    let u = b.0;
    u.predecessors().into_iter().all(|v| v.successors().contains(&(u, 0)))
}

fn prop_moves_keep_the_seeds(b: Position) -> bool {
    let u = b.0;
    u.successors().into_iter().all(|(v, k)| v.seeds() + k as usize == u.seeds())
        && u.predecessors().into_iter().all(|v| v.seeds() == u.seeds())
}

fn prop_successors_have_an_empty_pit(b: Position) -> bool {
    let u = b.0;
    u.successors().into_iter().all(|(v, _)| v.0[PITS..FPITS].iter().any(|&x| x == 0))
}

fn prop_predecessors_differ(b: Position) -> bool {
    let ps = b.0.predecessors();
    (0..ps.len()).all(|i| (0..i).all(|j| ps[i] != ps[j]))
}

#[test]
fn sow_unsow_bij() {
    QuickCheck::new().tests(3000).quickcheck(prop_sow_unsow_bij as fn(Position) -> bool);
}

#[test]
fn succ_pred() {
    QuickCheck::new().tests(3000).quickcheck(prop_succ_pred as fn(Position) -> bool);
}

#[test]
fn pred_succ() {
    QuickCheck::new().tests(3000).quickcheck(prop_pred_succ as fn(Position) -> bool);
}

#[test]
fn all_succ_in_pred() {
    // every board with up to five seeds
    for n in 0..=5usize {
        let mut it = Awari::iter_config(n);
        while let Some((_, u)) = it.next() {
            assert!(prop_succ_pred(Position(u)));
        }
    }
}

#[test]
fn all_pred_in_succ() {
    for n in 0..=5usize {
        let mut it = Awari::iter_config(n);
        while let Some((_, u)) = it.next() {
            assert!(prop_pred_succ_without_capture(Position(u)));
        }
    }
}

#[test]
fn pred_succ_without_capture() {
    QuickCheck::new()
        .tests(3000)
        .quickcheck(prop_pred_succ_without_capture as fn(Position) -> bool);
}

#[test]
fn moves_keep_the_seeds() {
    QuickCheck::new().tests(3000).quickcheck(prop_moves_keep_the_seeds as fn(Position) -> bool);
}

#[test]
fn successors_have_an_empty_pit() {
    QuickCheck::new()
        .tests(3000)
        .quickcheck(prop_successors_have_an_empty_pit as fn(Position) -> bool);
}

#[test]
fn predecessors_differ() {
    QuickCheck::new().tests(3000).quickcheck(prop_predecessors_differ as fn(Position) -> bool);
}

#[test]
fn rotate_swaps_the_sides() {
    let mut b = Awari([1, 2, 3, 4, 5, 6, 7, 8]);
    b.rotate();
    assert_eq!(b, Awari([5, 6, 7, 8, 1, 2, 3, 4]));
    b.rotate();
    assert_eq!(b, Awari([1, 2, 3, 4, 5, 6, 7, 8]));
}

#[test]
fn sow_less_than_a_lap() {
    let mut b = Awari([0, 0, 0, 9, 1, 2, 1, 0]);
    // nine seeds: one lap of seven, two more
    assert_eq!(b.sow(3), (5, 1));
    assert_eq!(b, Awari([1, 1, 1, 0, 3, 4, 2, 1]));
}

#[test]
fn sow_one_seed() {
    let mut b = Awari([0, 0, 0, 1, 0, 0, 0, 0]);
    assert_eq!(b.sow(3), (4, 0));
    assert_eq!(b, Awari([0, 0, 0, 0, 1, 0, 0, 0]));
}

#[test]
fn sow_exactly_one_lap() {
    let mut b = Awari([7, 0, 0, 0, 0, 0, 0, 0]);
    // the seventh seed falls into the pit before the one that was played
    assert_eq!(b.sow(0), (7, 0));
    assert_eq!(b, Awari([0, 1, 1, 1, 1, 1, 1, 1]));
}

#[test]
fn sow_more_than_two_laps() {
    let mut b = Awari([16, 0, 0, 0, 0, 0, 0, 0]);
    assert_eq!(b.sow(0), (2, 2));
    assert_eq!(b, Awari([0, 3, 3, 2, 2, 2, 2, 2]));
}

#[test]
fn sow_skips_the_pit_that_is_played() {
    let mut b = Awari([0, 0, 8, 0, 0, 0, 0, 0]);
    assert_eq!(b.sow(2), (3, 1));
    assert_eq!(b, Awari([1, 1, 0, 2, 1, 1, 1, 1]));
}

#[test]
fn unsow_examples() {
    let mut b = Awari([1, 1, 0, 3, 2, 2, 1, 1]);
    b.unsow(2, 3, 0);
    assert_eq!(b, Awari([1, 1, 3, 2, 1, 1, 1, 1]));
    let mut b = Awari([2, 2, 0, 3, 3, 3, 2, 2]);
    b.unsow(2, 3, 1);
    assert_eq!(b, Awari([1, 1, 10, 1, 1, 1, 1, 1]));
}

#[test]
fn collect_takes_twos_and_threes() {
    let mut b = Awari([0, 1, 0, 0, 3, 2, 3, 5]);
    assert_eq!(b.collect(6), 8);
    assert_eq!(b, Awari([0, 1, 0, 0, 0, 0, 0, 5]));
}

#[test]
fn collect_stops_at_another_count() {
    let mut b = Awari([0, 1, 0, 0, 3, 2, 1, 2]);
    assert_eq!(b.collect(7), 2);
    assert_eq!(b, Awari([0, 1, 0, 0, 3, 2, 1, 0]));
}

#[test]
fn collect_takes_nothing_on_the_own_side() {
    let mut b = Awari([2, 3, 2, 3, 3, 2, 1, 2]);
    assert_eq!(b.collect(3), 0);
    assert_eq!(b, Awari([2, 3, 2, 3, 3, 2, 1, 2]));
    assert_eq!(b.collect(0), 0);
}

#[test]
fn collect_stops_at_the_own_side() {
    let mut b = Awari([2, 1, 0, 3, 2, 3, 2, 3]);
    assert_eq!(b.collect(7), 10);
    assert_eq!(b, Awari([2, 1, 0, 3, 0, 0, 0, 0]));
}

#[test]
fn play_sows_captures_and_rotates() {
    let mut b = Awari([0, 3, 0, 0, 2, 0, 0, 1]);
    assert_eq!(b.play(1), 3);
    assert_eq!(b, Awari([0, 0, 0, 1, 0, 0, 1, 1]));
}

#[test]
fn valid_sow_needs_a_seed_in_an_own_pit() {
    let b = Awari([1, 0, 0, 2, 1, 1, 0, 0]);
    assert!(b.valid_sow(0));
    assert!(!b.valid_sow(1));
    assert!(!b.valid_sow(2));
    // pit 4 belongs to the opponent
    assert!(!b.valid_sow(4));
    assert!(!b.valid_sow(FPITS));
    assert!(!b.valid_sow(1000));
}

#[test]
fn valid_sow_must_feed_the_opponent() {
    // the seeds stay on the mover's side and the opponent has none
    let b = Awari([1, 0, 0, 2, 0, 0, 0, 0]);
    assert!(!b.valid_sow(0));
    assert!(b.valid_sow(3));
}

#[test]
fn valid_sow_must_not_capture_everything() {
    let b = Awari([0, 0, 0, 3, 1, 2, 2, 0]);
    assert!(!b.valid_sow(3));
    assert!(b.successors().is_empty());
    // with a seed in the last pit the same move is allowed
    let b = Awari([0, 0, 0, 3, 1, 2, 2, 1]);
    assert!(b.valid_sow(3));
    assert_eq!(b.successors(), vec![(Awari([0, 0, 0, 1, 0, 0, 0, 0]), 8)]);
}

#[test]
fn valid_sow_after_a_lap() {
    // the last seed falls before the pit played: every pit got one
    let b = Awari([0, 0, 0, 5, 0, 0, 0, 0]);
    assert!(b.valid_sow(3));
    let b = Awari([0, 0, 0, 4, 1, 1, 1, 1]);
    // four seeds make all four pits of the opponent two: all captured
    assert!(!b.valid_sow(3));
}

#[test]
fn successors_of_the_first_board() {
    let b = Awari::default();
    assert_eq!(
        b.successors(),
        vec![
            (Awari([5, 4, 4, 4, 0, 5, 5, 5]), 0),
            (Awari([5, 5, 4, 4, 4, 0, 5, 5]), 0),
            (Awari([5, 5, 5, 4, 4, 4, 0, 5]), 0),
            (Awari([5, 5, 5, 5, 4, 4, 4, 0]), 0),
        ]
    );
    assert!(b.predecessors().is_empty());
}

#[test]
fn successors_examples() {
    assert_eq!(
        Awari([0, 0, 0, 9, 1, 2, 1, 0]).successors(),
        vec![(Awari([3, 4, 2, 1, 1, 1, 1, 0]), 0)]
    );
    assert_eq!(
        Awari([16, 0, 0, 0, 0, 0, 0, 0]).successors(),
        vec![(Awari([2, 2, 2, 2, 0, 3, 3, 2]), 0)]
    );
    assert_eq!(
        Awari([0, 3, 0, 0, 2, 0, 0, 1]).successors(),
        vec![(Awari([0, 0, 0, 1, 0, 0, 1, 1]), 3)]
    );
    assert!(Awari([0; FPITS]).successors().is_empty());
}

#[test]
fn predecessors_examples() {
    assert_eq!(
        Awari([1, 0, 0, 2, 1, 1, 0, 0]).predecessors(),
        vec![Awari([1, 1, 0, 1, 0, 0, 0, 2])]
    );
    assert_eq!(
        Awari([0, 3, 0, 0, 2, 0, 0, 1]).predecessors(),
        vec![Awari([2, 0, 1, 0, 0, 3, 0, 0])]
    );
    assert_eq!(
        Awari([16, 0, 0, 0, 0, 0, 0, 0]).predecessors(),
        vec![Awari([0, 0, 0, 1, 15, 0, 0, 0])]
    );
    assert!(Awari([0, 0, 0, 1, 0, 0, 0, 0]).predecessors().is_empty());
    assert!(Awari([0; FPITS]).predecessors().is_empty());
}

#[test]
fn predecessors_leave_out_a_capturing_landing_pit() {
    // seen by the player who moved, pit 4 holds two seeds: a move that
    // ended there would have captured them
    let v = Awari([2, 0, 0, 0, 0, 0, 0, 0]);
    assert!(v.predecessors().is_empty());
    let v = Awari([4, 0, 0, 0, 0, 0, 0, 0]);
    assert_eq!(v.predecessors(), vec![Awari([0, 0, 0, 1, 3, 0, 0, 0])]);
}

#[test]
fn predecessors_may_lie_outside_the_table() {
    // the first board of a game is a predecessor, though no move leads to it
    let v = Awari([5, 4, 4, 4, 0, 5, 5, 5]);
    let ps = v.predecessors();
    assert!(ps.contains(&Awari::default()));
    assert!(!Awari::default().reachable());
}
