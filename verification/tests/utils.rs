use awari::utils::{binom, binom_maxinv, dense_maxinv, divmod, enc_min, n_boards, nboards};
use awari::{FPITS, PITS, SEEDS, START_SEEDS};
use quickcheck::QuickCheck;

fn prop_binom_rel1(k: usize, n: usize) -> bool {
    let (k, n) = (k % 9, n % 41);
    k == 0 || k > n || binom(k, n) == binom(k - 1, n - 1) + binom(k, n - 1)
}

fn prop_binom_maxinv_rel1(k: usize, x: usize) -> bool {
    let (k, x) = (k % 9, x % 100_000_000);
    if k == 0 {
        return true;
    }
    let (n, b) = binom_maxinv(k, x);
    b == binom(k, n)
}

fn prop_binom_maxinv_rel2(k: usize, x: usize) -> bool {
    let (k, x) = (k % 9, x % 100_000_000);
    if k == 0 {
        return true;
    }
    let (_, b) = binom_maxinv(k, x);
    b <= x
}

fn prop_binom_maxinv_rel3(k: usize, x: usize) -> bool {
    let (k, x) = (k % 9, x % 100_000_000);
    if k == 0 {
        return true;
    }
    let (n, _) = binom_maxinv(k, x);
    n == FPITS + SEEDS || binom(k, n + 1) > x
}

#[test]
fn binom_rel1() {
    QuickCheck::new().tests(2000).quickcheck(prop_binom_rel1 as fn(usize, usize) -> bool);
}

#[test]
fn binom_maxinv_rel1() {
    QuickCheck::new().tests(2000).quickcheck(prop_binom_maxinv_rel1 as fn(usize, usize) -> bool);
}

#[test]
fn binom_maxinv_rel2() {
    QuickCheck::new().tests(2000).quickcheck(prop_binom_maxinv_rel2 as fn(usize, usize) -> bool);
}

#[test]
fn binom_maxinv_rel3() {
    QuickCheck::new().tests(2000).quickcheck(prop_binom_maxinv_rel3 as fn(usize, usize) -> bool);
}

#[test]
fn parameters() {
    assert_eq!(PITS, 4);
    assert_eq!(FPITS, 8);
    assert_eq!(START_SEEDS, 4);
    assert_eq!(SEEDS, 32);
}

#[test]
fn binom_known_values() {
    assert_eq!(binom(0, 0), 1);
    assert_eq!(binom(0, 17), 1);
    assert_eq!(binom(1, 0), 0);
    assert_eq!(binom(1, 40), 40);
    assert_eq!(binom(2, 5), 10);
    assert_eq!(binom(3, 3), 1);
    assert_eq!(binom(4, 8), 70);
    assert_eq!(binom(7, 39), 15380937);
    assert_eq!(binom(8, 40), 76904685);
    assert_eq!(binom(8, 36), 30260340);
}

#[test]
fn binom_is_zero_below_the_diagonal() {
    for k in 1..=FPITS {
        for n in 0..k {
            assert_eq!(binom(k, n), 0);
        }
    }
}

#[test]
fn binom_pascal_everywhere() {
    for k in 1..=FPITS {
        for n in k..=FPITS + SEEDS {
            assert_eq!(binom(k, n), binom(k - 1, n - 1) + binom(k, n - 1));
        }
    }
}

#[test]
fn binom_maxinv_examples() {
    assert_eq!(binom_maxinv(3, 20), (6, 20));
    assert_eq!(binom_maxinv(3, 19), (5, 10));
    assert_eq!(binom_maxinv(3, 0), (2, 0));
    assert_eq!(binom_maxinv(1, 0), (0, 0));
    assert_eq!(binom_maxinv(1, 7), (7, 7));
    assert_eq!(binom_maxinv(8, 76904684), (39, 61523748));
    assert_eq!(binom_maxinv(8, 76904685), (40, 76904685));
}

#[test]
fn binom_maxinv_stops_at_the_board_size() {
    assert_eq!(binom_maxinv(1, 1000), (40, 40));
    assert_eq!(binom_maxinv(8, usize::MAX), (40, 76904685));
}

#[test]
fn binom_maxinv_is_exact_for_every_small_input() {
    for k in 1..=FPITS {
        for x in 0..3000usize {
            let (n, b) = binom_maxinv(k, x);
            assert_eq!(b, binom(k, n));
            assert!(b <= x);
            assert!(n == FPITS + SEEDS || binom(k, n + 1) > x);
        }
    }
}

#[test]
fn dense_maxinv_examples() {
    // with four positions none is counted: they all lie on the mover's side
    assert_eq!(dense_maxinv(4, 0, 10), (9, 0));
    assert_eq!(dense_maxinv(4, 5, 4), (3, 0));
    // five positions below x, pit 4 empty: binom(5, x) - binom(5, x - 1)
    assert_eq!(dense_maxinv(5, 0, 30), (4, 0));
    assert_eq!(dense_maxinv(5, 1, 30), (5, 1));
    assert_eq!(dense_maxinv(5, 4, 30), (5, 1));
    assert_eq!(dense_maxinv(5, 5, 30), (6, 5));
    assert_eq!(dense_maxinv(5, 5, 6), (5, 1));
}

#[test]
fn divmod_examples() {
    assert_eq!(divmod(1, 7), (0, 1));
    assert_eq!(divmod(7, 7), (0, 7));
    assert_eq!(divmod(8, 7), (1, 1));
    assert_eq!(divmod(14, 7), (1, 7));
    assert_eq!(divmod(16, 7), (2, 2));
    assert_eq!(divmod(255, 1), (254, 1));
    assert_eq!(divmod(255, 255), (0, 255));
}

#[test]
fn divmod_gives_back_the_number() {
    for n in 1..=255u8 {
        for d in 1..=255u8 {
            let (q, r) = divmod(n, d);
            assert!(1 <= r && r <= d as usize);
            assert_eq!(q as usize * d as usize + r, n as usize);
        }
    }
}

#[test]
fn class_sizes() {
    let expected = [
        (0usize, 0usize, 1usize),
        (1, 1, 8),
        (2, 9, 36),
        (3, 45, 120),
        (4, 165, 329),
        (5, 494, 784),
        (6, 1278, 1680),
        (7, 2958, 3312),
        (8, 6270, 6105),
    ];
    for &(n, start, size) in expected.iter() {
        assert_eq!(enc_min(n), start);
        assert_eq!(n_boards(n), size);
    }
}

#[test]
fn classes_follow_each_other() {
    for n in 0..SEEDS - 2 {
        assert_eq!(enc_min(n) + n_boards(n), enc_min(n + 1));
    }
    // the class with one seed less than the game has is left out
    assert_eq!(n_boards(SEEDS - 1), 7240640);
    assert_eq!(enc_min(SEEDS - 2) + n_boards(SEEDS - 2), enc_min(SEEDS));
    assert_eq!(enc_min(SEEDS), 30747288);
    assert_eq!(n_boards(SEEDS), 8656417);
}

#[test]
fn table_size() {
    assert_eq!(nboards(), 39403705);
    assert_eq!(nboards(), enc_min(SEEDS) + n_boards(SEEDS));
    assert_eq!(
        nboards(),
        binom(FPITS, FPITS + SEEDS) - binom(FPITS, PITS + SEEDS) - binom(FPITS - 1,
            FPITS + SEEDS - 2)
            + binom(FPITS - 1, PITS + SEEDS - 2)
    );
}
