use rayon::iter::ParallelIterator;
use tictactoe::game::{Player, Score, State, InvalidMove};
use tictactoe::key::densely_pack;

fn play(moves: &[(u8, u8)]) -> State {
    let mut st = State::default();
    for &(x, y) in moves {
        st = st.do_move(x, y).unwrap();
    }
    st
}

#[test]
fn other_swaps_players() {
    assert_eq!(Player::X.other(), Player::O);
    assert_eq!(Player::O.other(), Player::X);
}

#[test]
fn empty_board_has_x_to_move() {
    let st = State::default();
    assert_eq!(st.score(), None);
    assert!(st.board().iter().all(|c| c.is_none()));
    assert_eq!(st.turn(), Player::X);
}

#[test]
fn move_places_mover_and_flips_turn() {
    let st = State::default().do_move(1, 2).unwrap();
    assert_eq!(st.board()[7], Some(Player::X));
    assert_eq!(st.turn(), Player::O);
    let st = st.do_move(0, 0).unwrap();
    assert_eq!(st.board()[0], Some(Player::O));
    assert_eq!(st.turn(), Player::X);
}

#[test]
fn move_off_the_board_is_rejected() {
    let st = State::default();
    assert_eq!(st.do_move(3, 0).unwrap_err(), InvalidMove);
    assert_eq!(st.do_move(0, 3).unwrap_err(), InvalidMove);
    assert_eq!(st.do_move(255, 255).unwrap_err(), InvalidMove);
}

#[test]
fn move_on_taken_cell_is_rejected() {
    let st = play(&[(1, 1)]);
    assert_eq!(st.do_move(1, 1).unwrap_err(), InvalidMove);
}

#[test]
fn move_after_the_end_is_rejected() {
    let st = play(&[(0, 0), (0, 1), (1, 0), (1, 1), (2, 0)]);
    assert_eq!(st.score(), Some(Score::Win(Player::X)));
    assert_eq!(st.do_move(2, 2).unwrap_err(), InvalidMove);
}

#[test]
fn row_win_is_reported() {
    let st = play(&[(0, 0), (0, 1), (1, 0), (1, 1), (2, 0)]);
    assert_eq!(st.score(), Some(Score::Win(Player::X)));
}

#[test]
fn column_win_is_reported() {
    let st = play(&[(0, 0), (1, 0), (0, 1), (1, 1), (2, 2), (1, 2)]);
    assert_eq!(st.score(), Some(Score::Win(Player::O)));
}

#[test]
fn diagonal_win_is_reported() {
    let st = play(&[(0, 0), (0, 1), (1, 1), (2, 1), (2, 2)]);
    assert_eq!(st.score(), Some(Score::Win(Player::X)));
}

#[test]
fn anti_diagonal_win_is_reported() {
    let st = play(&[(2, 0), (0, 0), (1, 1), (1, 0), (0, 2)]);
    assert_eq!(st.score(), Some(Score::Win(Player::X)));
}

#[test]
fn full_board_without_line_is_a_tie() {
    // X O X
    // X O O
    // O X X
    let st = play(&[(0, 0), (1, 0), (2, 0), (1, 1), (0, 1), (2, 1), (1, 2), (0, 2), (2, 2)]);
    assert_eq!(st.score(), Some(Score::Tie));
}

#[test]
fn game_in_play_has_no_score() {
    let st = play(&[(0, 0), (1, 1), (2, 2)]);
    assert_eq!(st.score(), None);
}

#[test]
fn winning_diagonal_scenario() {
    // X at (0,0) and (1,1), O at (0,1) and (2,1), X to move.
    let st = play(&[(0, 0), (0, 1), (1, 1), (2, 1)]);
    assert_eq!(st.turn(), Player::X);
    let won = st.do_move(2, 2).unwrap();
    assert_eq!(won.score(), Some(Score::Win(Player::X)));
}

#[test]
fn succs_lists_empty_cells_in_row_major_order() {
    let st = play(&[(1, 0), (0, 1), (2, 2)]);
    assert_eq!(st.succs(), vec![(0, 0), (2, 0), (1, 1), (2, 1), (0, 2), (1, 2)]);
}

#[test]
fn par_succs_yields_the_same_moves() {
    let st = play(&[(1, 0), (0, 1), (2, 2)]);
    let par: Vec<(u8, u8)> = st.par_succs().collect();
    assert_eq!(par, st.succs());
    assert_eq!(par.len(), 6);
}

#[test]
fn key_of_empty_board() {
    let st = State::default();
    assert_eq!(densely_pack(st.board(), Player::X), 0);
    assert_eq!(densely_pack(st.board(), Player::O), 1u64 << 63);
}

#[test]
fn key_of_small_board() {
    // Cell 0 holds X (01), cell 1 holds O (10 at bits 2 and 3), cell 8 holds X.
    let st = play(&[(0, 0), (1, 0), (2, 2)]);
    assert_eq!(densely_pack(st.board(), Player::O), (1u64 << 63) | 1 | (2 << 2) | (1 << 16));
}

#[test]
fn keys_tell_positions_apart() {
    let a = play(&[(0, 0), (1, 0)]);
    let b = play(&[(1, 0), (0, 0)]);
    assert_ne!(densely_pack(a.board(), Player::X), densely_pack(b.board(), Player::X));
    assert_ne!(densely_pack(a.board(), Player::X), densely_pack(a.board(), Player::O));
}
