use awari::awari::Awari;
use awari::utils::{binom, enc_min, n_boards, nboards};
use awari::{FPITS, PITS, SEEDS};
use quickcheck::{Arbitrary, Gen, QuickCheck};

/// A board with between one seed and `SEEDS` seeds.
#[derive(Clone, Debug)]
struct Board(Awari);

impl Arbitrary for Board {
    fn arbitrary(g: &mut Gen) -> Board {
        let n = u8::arbitrary(g) % (SEEDS as u8) + 1;
        let mut cuts = [0u8; FPITS];
        for i in 1..FPITS {
            cuts[i] = u8::arbitrary(g) % (n + 1);
        }
        cuts.sort();
        let mut b = [0u8; FPITS];
        for i in 0..FPITS - 1 {
            b[i] = cuts[i + 1] - cuts[i];
        }
        b[FPITS - 1] = n - cuts[FPITS - 1];
        Board(Awari(b))
    }
}

fn prop_coding_bijective(b: Board) -> bool {
    let u = b.0;
    if !u.reachable() {
        return true;
    }
    let c = u.encode();
    c < nboards() && Awari::decode(c) == u
}

/// The code as the sum over the pits, less the boards that the table
/// leaves out before this one.
fn rank_by_formula(b: &Awari) -> usize {
    let mut g = 0usize;
    let mut c = 0usize;
    let mut xs = [0usize; FPITS];
    for i in 0..FPITS {
        c += b.0[i] as usize;
        xs[i] = c;
        g += binom(i + 1, c + i);
    }
    if xs[FPITS - 1] == SEEDS {
        g -= n_boards(SEEDS - 1);
    }
    let mut brk = 0;
    let mut last = xs[PITS - 1];
    for i in PITS..FPITS {
        if last >= xs[i] || xs[i] <= i - PITS {
            xs[i] += 1;
            brk = i;
        }
        last = xs[i];
    }
    assert!(brk > 0);
    for i in brk..FPITS {
        g -= binom(i + 1, xs[i] + PITS - 1);
    }
    g
}

fn prop_encode_matches_formula(b: Board) -> bool {
    let u = b.0;
    !u.reachable() || u.encode() == rank_by_formula(&u)
}

/// All boards with `n` seeds, later pits counting more.
fn boards_in_order(n: u8) -> Vec<Awari> {
    fn fill(pits: &mut [u8; FPITS], i: usize, left: u8, out: &mut Vec<Awari>) {
        if i == 0 {
            pits[0] = left;
            out.push(Awari(*pits));
            return;
        }
        // the fewer seeds the later pits hold, the earlier the board comes
        for here in 0..=left {
            pits[i] = here;
            fill(pits, i - 1, left - here, out);
        }
    }
    let mut out = Vec::new();
    let mut pits = [0u8; FPITS];
    fill(&mut pits, FPITS - 1, n, &mut out);
    // order by the positions from the last to the first
    out.sort_by_key(|b| {
        let mut c = 0usize;
        let mut ps = [0usize; FPITS];
        for i in 0..FPITS {
            c += b.0[i] as usize;
            ps[i] = c + i;
        }
        ps.reverse();
        ps
    });
    out
}

#[test]
fn coding_bijective() {
    QuickCheck::new().tests(5000).quickcheck(prop_coding_bijective as fn(Board) -> bool);
}

#[test]
fn encode_matches_formula() {
    QuickCheck::new().tests(5000).quickcheck(prop_encode_matches_formula as fn(Board) -> bool);
}

#[test]
fn empty_board_has_code_zero() {
    let b = Awari([0; FPITS]);
    assert!(b.reachable());
    assert_eq!(b.encode(), 0);
    assert_eq!(Awari::decode(0), b);
}

#[test]
fn encode_examples() {
    assert_eq!(Awari([0, 0, 0, 1, 0, 0, 0, 0]).encode(), 5);
    assert_eq!(Awari([0, 0, 0, 0, 1, 1, 1, 0]).encode(), 89);
    assert_eq!(Awari([1, 0, 0, 2, 1, 1, 0, 0]).encode(), 1100);
    assert_eq!(Awari([0, 3, 0, 0, 2, 0, 0, 1]).encode(), 1939);
    assert_eq!(Awari([0, 0, 0, 9, 1, 2, 1, 0]).encode(), 166921);
    assert_eq!(Awari([3, 1, 4, 1, 5, 0, 2, 6]).encode(), 3348490);
    assert_eq!(Awari([0, 0, 0, 0, 0, 0, 0, 30]).encode(), 24723864);
    assert_eq!(Awari([30, 0, 0, 0, 0, 0, 0, 0]).encode(), 30747287);
}

#[test]
fn encode_of_the_last_class() {
    assert_eq!(Awari([0, 0, 0, 0, 0, 0, 0, 32]).encode(), 30747288);
    assert_eq!(Awari([1, 2, 3, 4, 0, 7, 8, 7]).encode(), 32229454);
    assert_eq!(Awari([32, 0, 0, 0, 0, 0, 0, 0]).encode(), 39403704);
    assert_eq!(Awari([32, 0, 0, 0, 0, 0, 0, 0]).encode(), nboards() - 1);
}

#[test]
fn decode_examples() {
    assert_eq!(Awari::decode(5), Awari([0, 0, 0, 1, 0, 0, 0, 0]));
    assert_eq!(Awari::decode(1100), Awari([1, 0, 0, 2, 1, 1, 0, 0]));
    assert_eq!(Awari::decode(3348490), Awari([3, 1, 4, 1, 5, 0, 2, 6]));
    assert_eq!(Awari::decode(30747287), Awari([30, 0, 0, 0, 0, 0, 0, 0]));
    assert_eq!(Awari::decode(30747288), Awari([0, 0, 0, 0, 0, 0, 0, 32]));
    assert_eq!(Awari::decode(39403704), Awari([32, 0, 0, 0, 0, 0, 0, 0]));
}

#[test]
fn decode_then_encode_low_codes() {
    for c in 0..20000usize {
        let b = Awari::decode(c);
        assert!(b.reachable());
        assert_eq!(b.encode(), c);
    }
}

#[test]
fn decode_then_encode_across_the_table() {
    let mut c = 0usize;
    while c < nboards() {
        let b = Awari::decode(c);
        assert!(b.reachable());
        assert_eq!(b.encode(), c);
        c += 7919;
    }
}

#[test]
fn decode_then_encode_at_the_class_borders() {
    for n in 0..=SEEDS {
        if n == SEEDS - 1 {
            continue;
        }
        let lo = enc_min(n);
        let hi = lo + n_boards(n) - 1;
        let first = Awari::decode(lo);
        let last = Awari::decode(hi);
        assert_eq!(first.seeds(), n);
        assert_eq!(last.seeds(), n);
        assert_eq!(first.encode(), lo);
        assert_eq!(last.encode(), hi);
        // the first board holds all seeds in the last pit, the last board
        // in the first pit
        assert_eq!(first.0[FPITS - 1] as usize, n);
        assert_eq!(last.0[0] as usize, n);
    }
}

#[test]
fn reachable_examples() {
    assert!(Awari([0; FPITS]).reachable());
    assert!(Awari([4, 4, 4, 4, 0, 4, 4, 4]).reachable());
    // every pit of the opponent holds a seed
    assert!(!Awari([4, 4, 4, 4, 4, 4, 4, 4]).reachable());
    assert!(!Awari([0, 0, 0, 0, 1, 1, 1, 1]).reachable());
    // one seed less than the game has
    assert!(!Awari([31, 0, 0, 0, 0, 0, 0, 0]).reachable());
    // more seeds than the game has
    assert!(!Awari([33, 0, 0, 0, 0, 0, 0, 0]).reachable());
    assert!(!Awari([255, 255, 255, 255, 0, 255, 255, 255]).reachable());
    assert!(Awari([32, 0, 0, 0, 0, 0, 0, 0]).reachable());
}

#[test]
fn seeds_counts_all_pits() {
    assert_eq!(Awari([0; FPITS]).seeds(), 0);
    assert_eq!(Awari([1, 2, 3, 4, 5, 6, 7, 8]).seeds(), 36);
    assert_eq!(Awari([255; FPITS]).seeds(), 2040);
    assert_eq!(Awari::default().seeds(), SEEDS);
    assert_eq!(Awari::default(), Awari([4; FPITS]));
}

#[test]
fn iter_config_codes_are_dense() {
    for n in 0..=9usize {
        let mut it = Awari::iter_config(n);
        let mut k = 0usize;
        while let Some((c, b)) = it.next() {
            assert_eq!(c, enc_min(n) + k);
            assert_eq!(b.encode(), c);
            assert_eq!(b.seeds(), n);
            assert!(b.reachable());
            k += 1;
        }
        assert_eq!(k, n_boards(n));
        // a walk that has ended stays ended
        assert!(it.next().is_none());
    }
}

#[test]
fn iter_config_gives_every_board_in_order() {
    for n in 0..=7u8 {
        let expected: Vec<Awari> = boards_in_order(n)
            .into_iter()
            .filter(|b| b.0[PITS..FPITS].iter().any(|&x| x == 0))
            .collect();
        let mut it = Awari::iter_config(n as usize);
        let mut got = Vec::new();
        while let Some((_, b)) = it.next() {
            got.push(b);
        }
        assert_eq!(got, expected);
    }
}

#[test]
fn iter_config_skips_boards_without_an_empty_pit() {
    let mut it = Awari::iter_config(5);
    while let Some((_, b)) = it.next() {
        assert!(b.0[PITS..FPITS].iter().any(|&x| x == 0));
    }
}

#[test]
fn iter_config_of_the_last_class() {
    let mut it = Awari::iter_config(SEEDS);
    let (c, b) = it.next().unwrap();
    assert_eq!(c, enc_min(SEEDS));
    assert_eq!(b, Awari([0, 0, 0, 0, 0, 0, 0, 32]));
    let (c, b) = it.next().unwrap();
    assert_eq!(c, enc_min(SEEDS) + 1);
    assert_eq!(b, Awari([0, 0, 0, 0, 0, 0, 1, 31]));
    assert_eq!(b.encode(), c);
}
