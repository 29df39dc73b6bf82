use tictactoe::ai::{evaluate, maximize, search};
use tictactoe::game::{Player, Score, State};
use tictactoe::memo::{keep_exact, Bound, Memo};

fn play(moves: &[(u8, u8)]) -> State {
    let mut st = State::default();
    for &(x, y) in moves {
        st = st.do_move(x, y).unwrap();
    }
    st
}

/// Plain minimax with no pruning and no cache.
fn oracle(st: State, p: Player) -> i8 {
    match st.score() {
        Some(Score::Win(w)) => {
            if w == p {
                1
            } else {
                -1
            }
        }
        Some(Score::Tie) => 0,
        None => st
            .succs()
            .into_iter()
            .map(|(x, y)| -oracle(st.do_move(x, y).unwrap(), p.other()))
            .max()
            .unwrap(),
    }
}

#[test]
fn empty_board_is_a_tie() {
    let memo = Memo::new();
    let (score, mv) = evaluate(&memo, State::default(), Player::X);
    assert_eq!(score, 0);
    let corners_and_center = [(0, 0), (2, 0), (1, 1), (0, 2), (2, 2)];
    assert!(corners_and_center.contains(&mv.unwrap()));
    assert_eq!(mv, Some((0, 0)));
}

#[test]
fn immediate_win_is_taken() {
    let st = play(&[(0, 0), (0, 1), (1, 0), (1, 1)]);
    assert_eq!(maximize(st, Player::X), Some((2, 0)));
    assert_eq!(evaluate(&Memo::new(), st, Player::X), (1, Some((2, 0))));
}

#[test]
fn diagonal_scenario_is_won() {
    let st = play(&[(0, 0), (0, 1), (1, 1), (2, 1)]);
    let (score, mv) = evaluate(&Memo::new(), st, Player::X);
    assert_eq!(score, 1);
    let after = st.do_move(mv.unwrap().0, mv.unwrap().1).unwrap();
    assert_eq!(oracle(after, Player::O), -1);
}

#[test]
fn threat_is_blocked() {
    // X threatens (2,0); O must block there.
    let st = play(&[(0, 0), (1, 1), (1, 0)]);
    assert_eq!(maximize(st, Player::O), Some((2, 0)));
}

#[test]
fn finished_game_has_no_move() {
    let st = play(&[(0, 0), (0, 1), (1, 0), (1, 1), (2, 0)]);
    assert_eq!(maximize(st, Player::O), None);
    assert_eq!(evaluate(&Memo::new(), st, Player::O), (-1, None));
    assert_eq!(evaluate(&Memo::new(), st, Player::X), (1, None));
}

#[test]
fn pruned_search_matches_plain_minimax() {
    let memo = Memo::new();
    for a in 0..9u8 {
        for b in 0..9u8 {
            if a == b {
                continue;
            }
            let st = play(&[(a % 3, a / 3), (b % 3, b / 3)]);
            let (score, mv) = evaluate(&memo, st, Player::X);
            assert_eq!(score, oracle(st, Player::X));
            let (x, y) = mv.unwrap();
            assert_eq!(-oracle(st.do_move(x, y).unwrap(), Player::O), score);
        }
    }
}

#[test]
fn narrow_window_gives_bounds() {
    let st = play(&[(0, 0), (1, 1)]);
    let v = oracle(st, Player::X);
    for (alpha, beta) in [(-2i8, -1i8), (-1, 0), (0, 1), (1, 2), (-1, 1)] {
        let (s, _) = search(st, Player::X, 0, alpha, beta, &Memo::new());
        if s <= alpha {
            assert!(v <= s);
        } else if s >= beta {
            assert!(v >= s);
        } else {
            assert_eq!(s, v);
        }
    }
}

#[test]
fn warm_cache_changes_nothing() {
    let st = play(&[(1, 1)]);
    let cold = evaluate(&Memo::new(), st, Player::O);
    let memo = Memo::new();
    let first = evaluate(&memo, st, Player::O);
    let warm = evaluate(&memo, st, Player::O);
    assert_eq!(cold, first);
    assert_eq!(cold, warm);
    assert_eq!(cold.0, oracle(st, Player::O));
}

#[test]
fn repeated_queries_agree() {
    let st = play(&[(0, 0), (2, 2), (2, 0)]);
    let first = maximize(st, Player::O);
    let second = maximize(st, Player::O);
    assert_eq!(first, second);
    assert_eq!(first, Some((1, 0)));
}

#[test]
fn exact_entries_are_kept() {
    let exact = (1i8, Some((0u8, 0u8)), Bound::Exact);
    let lower = (0i8, Some((1u8, 1u8)), Bound::Lower);
    let upper = (-1i8, None, Bound::Upper);
    assert_eq!(keep_exact(exact, lower), exact);
    assert_eq!(keep_exact(lower, upper), upper);
    assert_eq!(keep_exact(upper, exact), exact);
}
