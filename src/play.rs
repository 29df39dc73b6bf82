//! Turn-taking between a person, who plays O, and the engine, which plays X.
use vstd::prelude::*;
use crate::ai::{best_move, lemma_best_move_legal, maximize};
use crate::game::{outcome, turn_of, xy_cell, Player, State, N};

verus! {

/// The engine's reply: while the game is on and X is to move, X plays its
/// best move; otherwise there is nothing to play.
pub fn ai_reply(st: State) -> (r: Option<State>)
    ensures
        r is Some <==> (outcome(st@) is None && turn_of(st@) == Player::X),
        r matches Some(s) ==> (best_move(st@, Player::X) matches Some(xy) && s@ == st@.update(
            xy_cell(xy.0 as int, xy.1 as int),
            Some(Player::X),
        )),
{
    if st.score().is_some() {
        return None;
    }
    match st.turn() {
        Player::O => None,
        Player::X => {
            proof {
                st.lemma_view_len();
                lemma_best_move_legal(st@, Player::X);
            }
            let (x, y) = maximize(st, Player::X).unwrap();
            Some(st.do_move(x, y).unwrap())
        },
    }
}

/// The person's move at `(x, y)`: played when the game is on, O is to move
/// and the move is legal.
pub fn human_move(st: State, x: u8, y: u8) -> (r: Option<State>)
    ensures
        r is Some <==> (outcome(st@) is None && turn_of(st@) == Player::O && x < N && y < N
            && st@[xy_cell(x as int, y as int)] is None),
        r matches Some(s) ==> s@ == st@.update(xy_cell(x as int, y as int), Some(Player::O)),
{
    if st.score().is_some() {
        return None;
    }
    match st.turn() {
        Player::X => None,
        Player::O => match st.do_move(x, y) {
            Ok(s) => Some(s),
            Err(_) => None,
        },
    }
}

/// The largest square that fits a `w` by `h` window, centred in it, as its
/// left edge, top edge and side.
pub fn fit_square(w: u32, h: u32) -> (r: (u32, u32, u32))
    ensures
        r.2 == if w >= h {
            h
        } else {
            w
        },
        r.0 == (w - r.2) / 2,
        r.1 == (h - r.2) / 2,
{
    if w >= h {
        ((w - h) / 2, 0, h)
    } else {
        (0, (h - w) / 2, w)
    }
}

} // verus!
