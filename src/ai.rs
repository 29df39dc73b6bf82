//! Negamax search with alpha-beta pruning, a shared transposition cache and
//! parallel evaluation near the root.
use rayon::iter::{IndexedParallelIterator, ParallelIterator};
use vstd::prelude::*;
use crate::game::{
    cell_xy, count, empty_cells, lemma_cell_xy, lemma_count_pos, lemma_count_update,
    lemma_empty_cells, moves, outcome, par_items, turn_of, xy_cell, Player, Score, State, CELLS, N,
};
use crate::key::{densely_pack, key_of, lemma_key_injective};
use crate::memo::{entry_sound, fits, Bound, Memo};

verus! {

/// The value of a finished game for `p`: 1 for a win, -1 for a loss, 0 for a tie.
pub open spec fn leaf_value(s: Score, p: Player) -> int {
    match s {
        Score::Win(w) => if w == p {
            1
        } else {
            -1
        },
        Score::Tie => 0,
    }
}

/// The value of `b` for the mover `p` under optimal play, looking at most `d`
/// moves ahead.
pub open spec fn value_in(b: Seq<Option<Player>>, p: Player, d: nat) -> int
    decreases d, 1int, 0int,
{
    match outcome(b) {
        Some(s) => leaf_value(s, p),
        None => if d == 0 {
            0
        } else {
            best_upto(b, p, d, empty_cells(b, b.len() as int).len() as int).0
        },
    }
}

/// The best of the first `k` moves of `b` for `p`, as its value and its cell;
/// of equal values the earliest move wins. `(-2, -1)` before any move.
pub open spec fn best_upto(b: Seq<Option<Player>>, p: Player, d: nat, k: int) -> (int, int)
    decreases d, 0int, k,
{
    if d == 0 || k <= 0 {
        (-2, -1)
    } else {
        let prev = best_upto(b, p, d, k - 1);
        let c = empty_cells(b, b.len() as int)[k - 1];
        let t = -value_in(b.update(c, Some(p)), p.other(), (d - 1) as nat);
        if t > prev.0 {
            (t, c)
        } else {
            prev
        }
    }
}

/// The minimax value of `b` for the mover `p`.
pub open spec fn value(b: Seq<Option<Player>>, p: Player) -> int {
    value_in(b, p, count(b, None))
}

/// The first move of `b`, in row-major order, that reaches `value(b, p)`.
pub open spec fn best_move(b: Seq<Option<Player>>, p: Player) -> Option<(u8, u8)> {
    if outcome(b) is Some {
        None
    } else {
        Some(
            cell_xy(best_upto(b, p, count(b, None), empty_cells(b, b.len() as int).len() as int).1),
        )
    }
}

proof fn lemma_value_range(b: Seq<Option<Player>>, p: Player, d: nat)
    requires
        b.len() == CELLS,
    ensures
        -1 <= value_in(b, p, d) <= 1,
    decreases d, 1int, 0int,
{
    if outcome(b) is None && d > 0 {
        let n = empty_cells(b, CELLS as int).len() as int;
        lemma_empty_cells(b, CELLS as int);
        assert(!(forall|i: int| 0 <= i < b.len() ==> b[i] is Some));
        lemma_best_range(b, p, d, n);
    }
}

proof fn lemma_best_range(b: Seq<Option<Player>>, p: Player, d: nat, k: int)
    requires
        b.len() == CELLS,
        d > 0,
        1 <= k <= empty_cells(b, CELLS as int).len(),
    ensures
        -1 <= best_upto(b, p, d, k).0 <= 1,
    decreases d, 0int, k,
{
    lemma_empty_cells(b, CELLS as int);
    let c = empty_cells(b, CELLS as int)[k - 1];
    lemma_value_range(b.update(c, Some(p)), p.other(), (d - 1) as nat);
    if k > 1 {
        lemma_best_range(b, p, d, k - 1);
    }
}

/// The best of the first `kk` moves is at least the best of the first `k`, and
/// at least the value of each of them.
proof fn lemma_best_mono(b: Seq<Option<Player>>, p: Player, d: nat, k: int, kk: int)
    requires
        b.len() == CELLS,
        d > 0,
        0 <= k <= kk <= empty_cells(b, CELLS as int).len(),
    ensures
        best_upto(b, p, d, kk).0 >= best_upto(b, p, d, k).0,
        k < kk ==> best_upto(b, p, d, kk).0 >= -value_in(
            b.update(empty_cells(b, CELLS as int)[k], Some(p)),
            p.other(),
            (d - 1) as nat,
        ),
    decreases kk - k,
{
    if k < kk {
        lemma_best_mono(b, p, d, k + 1, kk);
    }
}

proof fn lemma_best_in_moves(b: Seq<Option<Player>>, p: Player, d: nat, k: int)
    requires
        b.len() == CELLS,
        d > 0,
        1 <= k <= empty_cells(b, b.len() as int).len(),
    ensures
        exists|j: int| 0 <= j < k && best_upto(b, p, d, k).1 == empty_cells(b, b.len() as int)[j],
    decreases k,
{
    let ec = empty_cells(b, b.len() as int);
    let c = ec[k - 1];
    lemma_empty_cells(b, CELLS as int);
    lemma_value_range(b.update(c, Some(p)), p.other(), (d - 1) as nat);
    assert(best_upto(b, p, d, 0).0 == -2);
    if best_upto(b, p, d, k).1 == c {
        assert(best_upto(b, p, d, k).1 == ec[k - 1]);
    } else {
        lemma_best_in_moves(b, p, d, k - 1);
        let j = choose|j: int| 0 <= j < k - 1 && best_upto(b, p, d, k - 1).1 == ec[j];
        assert(best_upto(b, p, d, k).1 == ec[j]);
    }
}

/// In a game still in play the best move is a legal one: on the board, on an
/// empty cell.
pub proof fn lemma_best_move_legal(b: Seq<Option<Player>>, p: Player)
    requires
        b.len() == CELLS,
        outcome(b) is None,
    ensures
        best_move(b, p) matches Some(xy) && xy.0 < N && xy.1 < N && b[xy_cell(
            xy.0 as int,
            xy.1 as int,
        )] is None,
{
    let ec = empty_cells(b, CELLS as int);
    lemma_empty_cells(b, CELLS as int);
    assert(!(forall|i: int| 0 <= i < b.len() ==> b[i] is Some));
    let i = choose|i: int| 0 <= i < b.len() && b[i] is None;
    lemma_count_pos(b, i, None);
    lemma_best_in_moves(b, p, count(b, None), ec.len() as int);
    let j = choose|j: int|
        0 <= j < ec.len() && best_upto(b, p, count(b, None), ec.len() as int).1 == ec[j];
    lemma_cell_xy(ec[j]);
}

/// Relies on rayon's `ParallelIterator::map` and
/// `IndexedParallelIterator::collect_into_vec`: `f` is applied to every item,
/// and the results are collected in the order of the items.
#[verifier::external_body]
fn par_map<R: Send, F: Fn((u8, u8)) -> R + Sync + Send>(
    it: rayon::vec::IntoIter<(u8, u8)>,
    f: F,
) -> (r: Vec<R>)
    requires
        forall|i: int| 0 <= i < par_items(it).len() ==> f.requires((par_items(it)[i],)),
    ensures
        r.len() == par_items(it).len(),
        forall|i: int| 0 <= i < par_items(it).len() ==> f.ensures((par_items(it)[i],), #[trigger] r[i]),
{
    let mut r = Vec::new();
    it.map(f).collect_into_vec(&mut r);
    r
}

/// Negamax with alpha-beta pruning over the window `(alpha, beta)`, scores
/// always from the point of view of the mover `p`. The first `par_depth`
/// levels evaluate every move in parallel over the full window; deeper levels
/// go move by move and stop at a beta cutoff. The result is exact inside the
/// window and a bound outside it.
pub fn search(st: State, p: Player, par_depth: u8, alpha: i8, beta: i8, memo: &Memo) -> (r: (
    i8,
    Option<(u8, u8)>,
))
    requires
        outcome(st@) is None ==> p == turn_of(st@),
        -2 <= alpha < beta <= 2,
        par_depth > 0 ==> alpha == -2 && beta == 2,
    ensures
        -1 <= r.0 <= 1,
        r.0 <= alpha ==> value(st@, p) <= r.0,
        r.0 >= beta ==> value(st@, p) >= r.0,
        alpha < r.0 < beta ==> r.0 == value(st@, p) && r.1 == best_move(st@, p),
    decreases count(st@, None),
{
    proof {
        st.lemma_view_len();
    }
    if let Some(score) = st.score() {
        return match score {
            Score::Win(w) => if w == p {
                (1, None)
            } else {
                (-1, None)
            },
            Score::Tie => (0, None),
        };
    }
    let ghost b = st@;
    let ghost e = count(b, None);
    let ghost ec = empty_cells(b, CELLS as int);
    let m = densely_pack(st.board(), p);
    if let Some((score, pos, bound)) = memo.probe(m) {
        if bound == Bound::Exact || (bound == Bound::Lower && score >= beta) || (bound == Bound::Upper
            && score <= alpha) {
            proof {
                assert(fits((score, pos, bound), b, p));
            }
            return (score, pos);
        }
    }
    proof {
        lemma_empty_cells(b, CELLS as int);
        assert(!(forall|i: int| 0 <= i < b.len() ==> b[i] is Some));
        let i = choose|i: int| 0 <= i < b.len() && b[i] is None;
        lemma_count_pos(b, i, None);
        lemma_value_range(b, p, e);
        assert(value(b, p) == best_upto(b, p, e, ec.len() as int).0);
        assert forall|j: int| 0 <= j < ec.len() implies value(
            #[trigger] b.update(ec[j], Some(p)),
            p.other(),
        ) == value_in(b.update(ec[j], Some(p)), p.other(), (e - 1) as nat) by {
            lemma_count_update(b, ec[j], p, None);
        }
    }
    if par_depth == 0 {
        let succs = st.succs();
        let old_alpha = alpha;
        let mut alpha = alpha;
        let mut max: Option<(i8, Option<(u8, u8)>)> = None;
        let mut k: usize = 0;
        while k < succs.len() && alpha < beta
            invariant
                b == st@,
                b.len() == CELLS,
                outcome(b) is None,
                p == turn_of(b),
                e == count(b, None),
                e >= 1,
                ec == empty_cells(b, CELLS as int),
                succs@ == moves(b),
                forall|j: int|
                    0 <= j < ec.len() ==> 0 <= #[trigger] ec[j] < CELLS && b[ec[j]] is None,
                forall|j: int|
                    0 <= j < ec.len() ==> value(#[trigger] b.update(ec[j], Some(p)), p.other())
                        == value_in(b.update(ec[j], Some(p)), p.other(), (e - 1) as nat),
                value(b, p) == best_upto(b, p, e, ec.len() as int).0,
                0 <= k <= succs.len(),
                -2 <= old_alpha <= alpha,
                old_alpha < beta <= 2,
                (k == 0) == (max is None),
                k == 0 ==> alpha == old_alpha,
                max matches Some(mx) ==> -1 <= mx.0 <= 1 && alpha == (if mx.0 > old_alpha {
                    mx.0
                } else {
                    old_alpha
                }),
                alpha < beta && k > 0 && best_upto(b, p, e, k as int).0 > old_alpha ==> (max matches Some(
                    mx,
                ) && mx.0 == best_upto(b, p, e, k as int).0 && mx.1 == Some(
                    cell_xy(best_upto(b, p, e, k as int).1),
                )),
                alpha < beta && k > 0 && best_upto(b, p, e, k as int).0 <= old_alpha ==> (max matches Some(
                    mx,
                ) && best_upto(b, p, e, k as int).0 <= mx.0 <= old_alpha),
                alpha >= beta ==> (max matches Some(mx) && mx.0 >= beta && value(b, p) >= mx.0),
            decreases succs.len() - k,
        {
            let (x, y) = succs[k];
            let ghost c = ec[k as int];
            proof {
                lemma_cell_xy(c);
                lemma_count_update(b, c, p, None);
            }
            let nst = st.do_move(x, y).unwrap();
            let (cs, _) = search(nst, p.other(), 0, -beta, -alpha, memo);
            let score = -cs;
            let ghost t = -value(nst@, p.other());
            let ghost prev = best_upto(b, p, e, k as int);
            proof {
                assert(nst@ == b.update(c, Some(p)));
                assert(best_upto(b, p, e, k + 1) == (if t > prev.0 {
                    (t, c)
                } else {
                    prev
                }));
                lemma_value_range(b.update(c, Some(p)), p.other(), (e - 1) as nat);
                if k > 0 {
                    lemma_best_range(b, p, e, k as int);
                }
            }
            let better = match max {
                None => true,
                Some(mx) => score > mx.0,
            };
            if better {
                max = Some((score, Some((x, y))));
            }
            if score > alpha {
                alpha = score;
            }
            k = k + 1;
            proof {
                if alpha >= beta {
                    lemma_best_mono(b, p, e, (k - 1) as int, ec.len() as int);
                }
            }
        }
        let (score, pos) = max.unwrap();
        let bound = if score <= old_alpha {
            Bound::Upper
        } else if score >= beta {
            Bound::Lower
        } else {
            Bound::Exact
        };
        proof {
            assert(fits((score, pos, bound), b, p));
            assert forall|bo: Seq<Option<Player>>, po: Player|
                bo.len() == CELLS && outcome(bo) is None && #[trigger] key_of(bo, po) == m implies fits(
                (score, pos, bound),
                bo,
                po,
            ) by {
                lemma_key_injective(bo, po, b, p);
            }
        }
        memo.store(m, (score, pos, bound));
        (score, pos)
    } else {
        let it = st.par_succs();
        let f = |xy: (u8, u8)| -> (r: (i8, Option<(u8, u8)>))
            requires
                xy.0 < N,
                xy.1 < N,
                st@[xy_cell(xy.0 as int, xy.1 as int)] is None,
            ensures
                r.0 == -value(st@.update(xy_cell(xy.0 as int, xy.1 as int), Some(p)), p.other()),
                r.1 == Some(xy),
            {
                let (x, y) = xy;
                proof {
                    lemma_count_update(st@, xy_cell(x as int, y as int), p, None);
                }
                let nst = st.do_move(x, y).unwrap();
                let (cs, _) = search(nst, p.other(), par_depth - 1, -2, 2, memo);
                (-cs, Some((x, y)))
            };
        proof {
            assert forall|i: int| 0 <= i < par_items(it).len() implies f.requires(
                (par_items(it)[i],),
            ) by {
                lemma_cell_xy(ec[i]);
            }
        }
        let res = par_map(it, f);
        let mut best = res[0];
        let mut k: usize = 1;
        proof {
            let c = ec[0];
            lemma_cell_xy(c);
            assert(par_items(it)[0] == cell_xy(c));
            assert(f.ensures((par_items(it)[0],), res[0]));
            lemma_value_range(b.update(c, Some(p)), p.other(), (e - 1) as nat);
            assert(best_upto(b, p, e, 0).0 == -2);
            assert forall|j: int| 0 <= j < res.len() implies (#[trigger] res[j]).0 == -value(
                b.update(ec[j], Some(p)),
                p.other(),
            ) && res[j].1 == Some(cell_xy(ec[j])) by {
                lemma_cell_xy(ec[j]);
                assert(par_items(it)[j] == cell_xy(ec[j]));
                assert(f.ensures((par_items(it)[j],), res[j]));
            }
        }
        while k < res.len()
            invariant
                b == st@,
                b.len() == CELLS,
                e == count(b, None),
                e >= 1,
                ec == empty_cells(b, CELLS as int),
                res.len() == ec.len(),
                par_items(it) == moves(b),
                forall|j: int|
                    0 <= j < ec.len() ==> 0 <= #[trigger] ec[j] < CELLS && b[ec[j]] is None,
                forall|j: int|
                    0 <= j < ec.len() ==> value(#[trigger] b.update(ec[j], Some(p)), p.other())
                        == value_in(b.update(ec[j], Some(p)), p.other(), (e - 1) as nat),
                forall|j: int|
                    0 <= j < res.len() ==> (#[trigger] res[j]).0 == -value(
                        b.update(ec[j], Some(p)),
                        p.other(),
                    ) && res[j].1 == Some(cell_xy(ec[j])),
                1 <= k <= res.len(),
                best.0 == best_upto(b, p, e, k as int).0,
                best.1 == Some(cell_xy(best_upto(b, p, e, k as int).1)),
            decreases res.len() - k,
        {
            proof {
                let c = ec[k as int];
                assert(res[k as int].0 == -value(b.update(c, Some(p)), p.other()));
            }
            if res[k].0 > best.0 {
                best = res[k];
            }
            k = k + 1;
        }
        let (score, pos) = best;
        proof {
            lemma_best_range(b, p, e, ec.len() as int);
            assert(fits((score, pos, Bound::Exact), b, p));
            assert forall|bo: Seq<Option<Player>>, po: Player|
                bo.len() == CELLS && outcome(bo) is None && #[trigger] key_of(bo, po) == m implies fits(
                (score, pos, Bound::Exact),
                bo,
                po,
            ) by {
                lemma_key_injective(bo, po, b, p);
            }
        }
        memo.store(m, (score, pos, Bound::Exact));
        (score, pos)
    }
}

/// The value of `st` for the mover `p` and the first move, in row-major
/// order, that reaches it; `memo` may be fresh or shared with earlier calls.
pub fn evaluate(memo: &Memo, st: State, p: Player) -> (r: (i8, Option<(u8, u8)>))
    requires
        outcome(st@) is None ==> p == turn_of(st@),
    ensures
        r.0 == value(st@, p),
        r.1 == best_move(st@, p),
{
    search(st, p, 2, -2, 2, memo)
}

/// The cache is invisible: two evaluations of one position, with a cold cache
/// and a warm one, or one after the other, return the same score and move.
pub proof fn lemma_evaluate_agrees(
    st: State,
    p: Player,
    first: (i8, Option<(u8, u8)>),
    second: (i8, Option<(u8, u8)>),
)
    requires
        first.0 == value(st@, p) && first.1 == best_move(st@, p),
        second.0 == value(st@, p) && second.1 == best_move(st@, p),
    ensures
        first == second,
{
}

/// The best move for the mover `p` in `st`, or `None` when the game is over.
pub fn maximize(st: State, p: Player) -> (r: Option<(u8, u8)>)
    requires
        outcome(st@) is None ==> p == turn_of(st@),
    ensures
        r == best_move(st@, p),
{
    let memo = Memo::new();
    evaluate(&memo, st, p).1
}

} // verus!
