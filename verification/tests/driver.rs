use awari::awari::Awari;
use awari::ra::{Driver, State, Status, Table};
use awari::storage::NaiveRAM;
use awari::utils::{enc_min, n_boards, nboards};

/// A driver whose table holds the classes up to `n`.
fn analysed(n: usize) -> Driver<NaiveRAM> {
    let mut d = Driver { table: NaiveRAM::new() };
    d.begin();
    for m in 1..=n {
        d.iteration(m);
    }
    d
}

/// Of one class: the number of boards, of unstable boards, the sum of the
/// final scores, the sum of the bounds of unstable boards, the number of
/// successors they await, and a checksum over all states of the class.
fn summary(d: &Driver<NaiveRAM>, n: usize) -> (usize, usize, i64, i64, u64, u64) {
    let lo = enc_min(n);
    let hi = lo + n_boards(n);
    let (mut unstable, mut scores, mut bounds, mut awaited, mut sum) = (0, 0i64, 0i64, 0u64, 0u64);
    for c in lo..hi {
        match d.table.get(c).status() {
            Status::Stable(v) => {
                scores += v as i64;
                sum = (sum * 31 + (v as i64 + 64) as u64 * 7) % 1_000_000_007;
            }
            Status::Unstable(b, r) => {
                unstable += 1;
                bounds += b as i64;
                awaited += r as u64;
                sum = (sum * 31 + (b as i64 + 64) as u64 * 7 + r as u64 + 1) % 1_000_000_007;
            }
        }
    }
    (hi - lo, unstable, scores, bounds, awaited, sum)
}

#[test]
fn new_table_has_one_unstable_state_per_code() {
    let t = NaiveRAM::new();
    assert_eq!(t.len(), nboards());
    assert_eq!(t.get(0).status(), Status::Unstable(i8::MIN, 0));
    assert_eq!(t.get(nboards() - 1).status(), Status::Unstable(i8::MIN, 0));
}

#[test]
fn table_keeps_what_is_inserted() {
    let mut t = NaiveRAM::new();
    t.insert(17, State::new(3, 2));
    t.insert(18, State::stable(-3));
    t.pre_hook(1);
    t.post_hook(1);
    t.finish_hook();
    assert_eq!(t.get(17).status(), Status::Unstable(3, 2));
    assert_eq!(t.get(18).status(), Status::Stable(-3));
    assert_eq!(t.get(16).status(), Status::Unstable(i8::MIN, 0));
    assert_eq!(t.len(), nboards());
}

#[test]
fn begin_sets_the_empty_board_stable() {
    let mut d = Driver { table: NaiveRAM::new() };
    assert_eq!(d.table.get(0).status(), Status::Unstable(i8::MIN, 0));
    d.begin();
    assert_eq!(Awari([0; 8]).encode(), 0);
    assert_eq!(d.table.get(0).status(), Status::Stable(0));
    // nothing else was touched
    assert_eq!(d.table.get(1).status(), Status::Unstable(i8::MIN, 0));
}

#[test]
fn scores_are_even_or_odd_as_the_seeds() {
    let d = analysed(9);
    for n in 0..=9usize {
        for c in enc_min(n)..enc_min(n) + n_boards(n) {
            let v = d.table.get(c).value() as i64;
            assert_eq!((v - n as i64).rem_euclid(2), 0);
        }
    }
}

#[test]
fn unstable_boards_keep_a_negative_bound() {
    let d = analysed(11);
    for n in [1usize, 3, 5, 7, 9, 11] {
        for c in enc_min(n)..enc_min(n) + n_boards(n) {
            if let Status::Unstable(b, r) = d.table.get(c).status() {
                assert!(b <= -1);
                assert!(r >= 1);
            }
        }
    }
}

#[test]
fn a_sweep_leaves_bounds_below_its_level() {
    let mut d = analysed(8);
    d.seed(9);
    let lo = enc_min(9);
    let hi = lo + n_boards(9);
    for sat_lvl in [9i8, 7, 5, 3, 1] {
        d.sweep(9, sat_lvl);
        for c in lo..hi {
            if let Status::Unstable(b, r) = d.table.get(c).status() {
                assert!(b <= sat_lvl - 2);
                assert!(r >= 1);
            }
        }
    }
}

#[test]
fn seed_gives_the_first_bounds() {
    let mut d = analysed(2);
    d.seed(3);
    // no move: the mover loses the three seeds
    let c = Awari([0, 0, 0, 0, 0, 0, 0, 3]).encode();
    assert_eq!(d.table.get(c).status(), Status::Unstable(-3, 0));
    // one move, without a capture
    let c = Awari([0, 0, 0, 1, 0, 0, 2, 0]).encode();
    assert_eq!(d.table.get(c).status(), Status::Unstable(-3, 1));
    // one move, which captures two seeds and leaves a board of score 1
    let u = Awari([0, 0, 0, 1, 1, 0, 0, 1]);
    assert_eq!(u.successors(), vec![(Awari([0, 0, 0, 1, 0, 0, 0, 0]), 2)]);
    assert_eq!(d.table.get(5).status(), Status::Stable(1));
    assert_eq!(d.table.get(u.encode()).status(), Status::Unstable(1, 0));
}

#[test]
fn first_classes() {
    let d = analysed(8);
    assert_eq!(d.table.get(0).status(), Status::Stable(0));
    let expected: [(usize, usize, usize, i64, i64, u64, u64); 8] = [
        (1, 8, 0, -6, 0, 0, 498579683),
        (2, 36, 0, -22, 0, 0, 246073557),
        (3, 120, 57, -41, -167, 70, 869153155),
        (4, 329, 0, -52, 0, 0, 280127733),
        (5, 784, 0, 214, 0, 0, 650781266),
        (6, 1680, 0, 622, 0, 0, 897126768),
        (7, 3312, 494, 2082, -1924, 591, 742665088),
        (8, 6105, 0, 4476, 0, 0, 811424266),
    ];
    for &(n, boards, unstable, scores, bounds, awaited, sum) in expected.iter() {
        assert_eq!(summary(&d, n), (boards, unstable, scores, bounds, awaited, sum));
    }
}

#[test]
fn scores_of_single_boards() {
    let d = analysed(5);
    let score = |b: [u8; 8]| d.table.get(Awari(b).encode()).status();
    // one seed: the player who cannot move loses it
    assert_eq!(score([0, 0, 0, 0, 0, 0, 0, 1]), Status::Stable(-1));
    assert_eq!(score([0, 0, 0, 1, 0, 0, 0, 0]), Status::Stable(1));
    assert_eq!(score([1, 0, 0, 0, 0, 0, 0, 0]), Status::Stable(-1));
    assert_eq!(score([0, 0, 0, 0, 0, 0, 0, 2]), Status::Stable(-2));
    assert_eq!(score([0, 0, 1, 0, 0, 1, 0, 0]), Status::Stable(2));
    assert_eq!(score([1, 0, 1, 0, 0, 0, 1, 0]), Status::Unstable(-3, 2));
    assert_eq!(score([1, 0, 1, 0, 0, 1, 1, 0]), Status::Stable(0));
    assert_eq!(score([4, 0, 0, 0, 0, 0, 0, 0]), Status::Stable(0));
    assert_eq!(score([1, 0, 1, 1, 0, 0, 2, 0]), Status::Stable(5));
    assert_eq!(score([5, 0, 0, 0, 0, 0, 0, 0]), Status::Stable(1));
}

#[test]
fn even_classes_end_stable() {
    let d = analysed(10);
    for n in [0usize, 2, 4, 6, 8, 10] {
        for c in enc_min(n)..enc_min(n) + n_boards(n) {
            assert!(d.table.get(c).is_stable());
        }
    }
}

#[test]
fn scores_stay_within_the_seeds_of_the_class() {
    let d = analysed(9);
    for n in 0..=9usize {
        for c in enc_min(n)..enc_min(n) + n_boards(n) {
            let v = d.table.get(c).value() as i64;
            assert!(-(n as i64) <= v && v <= n as i64);
        }
    }
}

/// What a move is worth: the seeds that it captures, less the score of
/// the board that it leads to.
fn worth(d: &Driver<NaiveRAM>, v: &Awari, k: u8) -> i64 {
    k as i64 - d.table.get(v.encode()).value() as i64
}

#[test]
fn even_classes_are_solved() {
    // the score of every board is the worth of its best move, or -n
    // where the board has no move
    let d = analysed(10);
    for n in [0usize, 2, 4, 6, 8, 10] {
        let mut it = Awari::iter_config(n);
        while let Some((c, u)) = it.next() {
            let mut best = -(n as i64);
            for (v, k) in u.successors().iter() {
                best = best.max(worth(&d, v, *k));
            }
            assert_eq!(d.table.get(c).status(), Status::Stable(best as i8));
        }
    }
}

#[test]
fn odd_classes_score_as_the_moves_tell() {
    let d = analysed(9);
    for n in [1usize, 3, 5, 7, 9] {
        let mut it = Awari::iter_config(n);
        while let Some((c, u)) = it.next() {
            let succ = u.successors();
            // the best capture, or -n
            let mut capture = -(n as i64);
            for (v, k) in succ.iter() {
                if *k > 0 {
                    capture = capture.max(worth(&d, v, *k));
                }
            }
            let quiet_stable: Vec<i64> = succ
                .iter()
                .filter(|(v, k)| *k == 0 && d.table.get(v.encode()).is_stable())
                .map(|(v, k)| worth(&d, v, *k))
                .collect();
            let quiet_unstable =
                succ.iter().filter(|(v, k)| *k == 0 && !d.table.get(v.encode()).is_stable()).count(
                    );
            match d.table.get(c).status() {
                Status::Stable(s) => {
                    let s = s as i64;
                    // no move beats the score
                    assert!(capture <= s);
                    assert!(quiet_stable.iter().all(|&w| w <= s));
                    assert!(quiet_unstable == 0 || s >= 1);
                    // and a move gives it
                    assert!(s == capture || quiet_stable.contains(&s));
                }
                Status::Unstable(b, r) => {
                    let b = b as i64;
                    assert!(capture <= b);
                    assert!(quiet_stable.iter().all(|&w| w <= b));
                    assert!(b == capture || quiet_stable.contains(&b));
                    assert_eq!(r as usize, quiet_unstable);
                }
            }
        }
    }
}

#[test]
fn a_sweep_only_moves_forward() {
    let mut d = analysed(6);
    d.seed(7);
    let lo = enc_min(7);
    let hi = lo + n_boards(7);
    let mut before: Vec<Status> = (lo..hi).map(|c| d.table.get(c).status()).collect();
    for sat_lvl in [7i8, 5, 3, 1] {
        d.sweep(7, sat_lvl);
        let after: Vec<Status> = (lo..hi).map(|c| d.table.get(c).status()).collect();
        for (a, b) in before.iter().zip(after.iter()) {
            match (*a, *b) {
                (Status::Stable(_), _) => assert_eq!(a, b),
                (Status::Unstable(x, r), Status::Unstable(y, q)) => assert!(x <= y && q <= r),
                (Status::Unstable(_, _), Status::Stable(_)) => {}
            }
        }
        before = after;
    }
    // the classes below were not touched
    assert_eq!(summary(&d, 6), (1680, 0, 622, 0, 0, 897126768));
    assert_eq!(summary(&d, 7), (3312, 494, 2082, -1924, 591, 742665088));
}

#[test]
fn sweep_at_level_zero_settles_the_class() {
    let mut d = analysed(3);
    d.seed(4);
    d.sweep(4, 0);
    let mut it = Awari::iter_config(4);
    while let Some((c, u)) = it.next() {
        match d.table.get(c).status() {
            Status::Stable(0) => {}
            other => panic!("{:?} {:?}", u, other),
        }
    }
}

#[test]
fn propagate_hands_a_score_on() {
    let mut d = analysed(3);
    d.seed(4);
    // board v has one move, which captures three seeds and leaves a board
    // of score 1: it awaits nothing
    let v = Awari([0, 0, 0, 1, 2, 0, 0, 1]);
    assert_eq!(v.successors(), vec![(Awari([0, 0, 0, 1, 0, 0, 0, 0]), 3)]);
    assert_eq!(v.encode(), 250);
    assert_eq!(d.table.get(250).status(), Status::Unstable(2, 0));
    // board u is its one predecessor, and awaits two successors
    let u = Awari([2, 0, 1, 0, 0, 0, 0, 1]);
    assert_eq!(v.predecessors(), vec![u]);
    assert_eq!(u.encode(), 279);
    assert_eq!(d.table.get(279).status(), Status::Unstable(-4, 2));
    // v becomes stable with score 2, which is handed to u
    let mut s = d.table.get(250);
    assert_eq!(s.try_stabilize(4), Some(2));
    d.table.insert(250, s);
    d.propagate(u, 2, 4);
    assert_eq!(d.table.get(250).status(), Status::Stable(2));
    assert_eq!(d.table.get(279).status(), Status::Unstable(-2, 1));
}

#[test]
fn unstable_boards_await_their_unstable_successors() {
    let d = analysed(9);
    for n in 1..=9usize {
        let mut it = Awari::iter_config(n);
        while let Some((c, u)) = it.next() {
            if let Status::Unstable(_, r) = d.table.get(c).status() {
                let waits = u
                    .successors()
                    .iter()
                    .filter(|(v, k)| *k == 0 && !d.table.get(v.encode()).is_stable())
                    .count();
                assert_eq!(r as usize, waits);
            }
        }
    }
}

#[test]
fn analysis_of_the_first_classes_ends() {
    // the whole table takes minutes to fill: the classes up to sixteen
    // seeds are analysed here
    let d = analysed(16);
    let mut unstable = Vec::new();
    for n in 0..=16usize {
        let (boards, uns, _, _, _, _) = summary(&d, n);
        assert_eq!(boards, n_boards(n));
        if uns > 0 {
            unstable.push((n, uns));
        }
        if n % 2 == 0 {
            assert_eq!(uns, 0);
        }
    }
    // only classes with an odd number of seeds keep unstable boards
    assert!(unstable.iter().all(|&(n, _)| n % 2 == 1));
    assert_eq!(unstable[0], (3, 57));
    assert_eq!(unstable[1], (7, 494));
}
