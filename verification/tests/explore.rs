use awari::awari::Awari;
use awari::explore::explore;
use awari::utils::nboards;

/// The codes that are marked.
fn marked(tbl: &[bool]) -> Vec<usize> {
    (0..tbl.len()).filter(|&c| tbl[c]).collect()
}

#[test]
fn explore_from_a_board_without_moves() {
    let tbl = explore(Awari([0; 8]));
    assert_eq!(tbl.len(), nboards());
    assert!(marked(&tbl).is_empty());
    let tbl = explore(Awari([0, 0, 0, 3, 1, 2, 2, 0]));
    assert!(marked(&tbl).is_empty());
}

#[test]
fn explore_one_seed() {
    // the seed crosses to the other side, and there the game ends
    let tbl = explore(Awari([0, 0, 0, 1, 0, 0, 0, 0]));
    assert_eq!(marked(&tbl), vec![Awari([1, 0, 0, 0, 0, 0, 0, 0]).encode()]);
}

#[test]
fn explore_follows_every_move() {
    let start = Awari([1, 0, 1, 0, 0, 1, 1, 0]);
    let tbl = explore(start);
    // the same by hand
    let mut seen = vec![false; nboards()];
    let mut todo = vec![start];
    let mut count = 0;
    while let Some(u) = todo.pop() {
        for (v, _) in u.successors() {
            let c = v.encode();
            assert!(tbl[c]);
            if !seen[c] {
                seen[c] = true;
                count += 1;
                todo.push(v);
            }
        }
    }
    assert!(count > 10);
    assert_eq!(marked(&tbl).len(), count);
    // a board is marked only if a move leads to it from a marked board or
    // from the first board
    for c in marked(&tbl) {
        let b = Awari::decode(c);
        let from_start = start.successors().iter().any(|(v, _)| *v == b);
        let from_marked = b
            .predecessors()
            .iter()
            .any(|p| p.reachable() && tbl[p.encode()] || *p == start);
        let by_capture = marked(&tbl)
            .iter()
            .any(|&d| Awari::decode(d).successors().iter().any(|(v, _)| *v == b));
        assert!(from_start || from_marked || by_capture);
    }
}

#[test]
fn explore_does_not_mark_the_first_board_unless_the_game_comes_back() {
    // with one seed on each side the game goes round: the first board
    // comes again
    let start = Awari([0, 0, 0, 1, 0, 0, 0, 1]);
    let tbl = explore(start);
    let again = tbl[start.encode()];
    let mut seen = false;
    let mut todo = vec![start];
    let mut done = vec![false; nboards()];
    while let Some(u) = todo.pop() {
        for (v, _) in u.successors() {
            if v == start {
                seen = true;
            }
            let c = v.encode();
            if !done[c] {
                done[c] = true;
                todo.push(v);
            }
        }
    }
    assert_eq!(again, seen);
}
