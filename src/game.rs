//! Board, players, outcomes and the rules of play.
use rayon::iter::IntoParallelIterator;
use vstd::prelude::*;

verus! {

/// Side length of the board.
pub const N: u32 = 3;

/// Number of cells on the board, `N * N`.
pub const CELLS: usize = 9;

/// Number of winning lines: every row, every column and both diagonals.
pub const LINES: u32 = 2 * N + 2;

/// One of the two players; X moves first.
#[derive(Clone, Copy, Debug, PartialEq, Eq, Hash, Structural)]
pub enum Player {
    X,
    O,
}

impl Player {
    pub open spec fn opponent(self) -> Player {
        match self {
            Player::X => Player::O,
            Player::O => Player::X,
        }
    }

    /// The opponent.
    #[verifier::when_used_as_spec(opponent)]
    pub fn other(self) -> (r: Player)
        ensures
            r == self.opponent(),
    {
        match self {
            Player::X => Player::O,
            Player::O => Player::X,
        }
    }
}

/// The outcome of a finished game.
#[derive(Clone, Copy, Debug, PartialEq, Eq, Structural)]
pub enum Score {
    Win(Player),
    Tie,
}

/// First cell of line `l`: rows come first, then columns, then the main
/// diagonal and the anti-diagonal.
pub open spec fn line_start(l: int) -> int {
    let n = N as int;
    if l < n {
        n * l
    } else if l < 2 * n {
        l - n
    } else if l == 2 * n {
        0
    } else {
        n - 1
    }
}

/// Distance between consecutive cells of line `l`.
pub open spec fn line_step(l: int) -> int {
    let n = N as int;
    if l < n {
        1
    } else if l < 2 * n {
        n
    } else if l == 2 * n {
        n + 1
    } else {
        n - 1
    }
}

/// The `k`-th cell of line `l`, as an index into the row-major board.
pub open spec fn line_cell(l: int, k: int) -> int {
    line_start(l) + k * line_step(l)
}

/// Every cell of line `l` holds `q`.
pub open spec fn owns(b: Seq<Option<Player>>, l: int, q: Player) -> bool {
    forall|k: int| 0 <= k < N ==> b[#[trigger] line_cell(l, k)] == Some(q)
}

/// The player that fills line `l`, if any.
pub open spec fn line_owner(b: Seq<Option<Player>>, l: int) -> Option<Player> {
    if owns(b, l, Player::X) {
        Some(Player::X)
    } else if owns(b, l, Player::O) {
        Some(Player::O)
    } else {
        None
    }
}

/// The owner of the first filled line among lines `l..LINES`.
pub open spec fn first_owner(b: Seq<Option<Player>>, l: int) -> Option<Player>
    decreases LINES - l,
{
    if l >= LINES {
        None
    } else if line_owner(b, l) is Some {
        line_owner(b, l)
    } else {
        first_owner(b, l + 1)
    }
}

/// Some line is filled by `q`.
pub open spec fn has_line(b: Seq<Option<Player>>, q: Player) -> bool {
    exists|l: int| 0 <= l < LINES && owns(b, l, q)
}

/// Every cell is occupied.
pub open spec fn full(b: Seq<Option<Player>>) -> bool {
    forall|i: int| 0 <= i < b.len() ==> b[i] is Some
}

/// The outcome of a board: a win for the owner of the first filled line, a tie
/// on a full board without one, and nothing while the game goes on.
pub open spec fn outcome(b: Seq<Option<Player>>) -> Option<Score> {
    match first_owner(b, 0) {
        Some(q) => Some(Score::Win(q)),
        None => if full(b) {
            Some(Score::Tie)
        } else {
            None
        },
    }
}

/// How many cells of `b` hold `v`.
pub open spec fn count(b: Seq<Option<Player>>, v: Option<Player>) -> nat
    decreases b.len(),
{
    if b.len() == 0 {
        0
    } else {
        count(b.drop_last(), v) + if b.last() == v {
            1nat
        } else {
            0nat
        }
    }
}

/// The player to move: X moves first, so X moves whenever the counts are equal.
pub open spec fn turn_of(b: Seq<Option<Player>>) -> Player {
    if count(b, Some(Player::X)) == count(b, Some(Player::O)) {
        Player::X
    } else {
        Player::O
    }
}

/// The counts of the two players allow strict alternation from X.
pub open spec fn balanced(b: Seq<Option<Player>>) -> bool {
    let x = count(b, Some(Player::X));
    let o = count(b, Some(Player::O));
    x == o || x == o + 1
}

/// Every cell of every line lies on the board.
pub proof fn lemma_line_cell_bounds(l: int, k: int)
    requires
        0 <= l < LINES,
        0 <= k < N,
    ensures
        0 <= line_cell(l, k) < CELLS,
{
    let s = line_step(l);
    assert(0 <= k * s <= (N - 1) * s) by (nonlinear_arith)
        requires
            0 <= k <= N - 1,
            0 <= s,
    ;
}

/// Filling an empty cell with `q` adds one to the count of `q` and takes one
/// from the count of empty cells.
pub proof fn lemma_count_update(b: Seq<Option<Player>>, i: int, q: Player, v: Option<Player>)
    requires
        0 <= i < b.len(),
        b[i] is None,
    ensures
        count(b.update(i, Some(q)), v) + (if v is None { 1int } else { 0int }) == count(b, v) + (
        if v == Some(q) {
            1int
        } else {
            0int
        }),
    decreases b.len(),
{
    let b2 = b.update(i, Some(q));
    if i == b.len() - 1 {
        assert(b2.drop_last() =~= b.drop_last());
    } else {
        lemma_count_update(b.drop_last(), i, q, v);
        assert(b2.drop_last() =~= b.drop_last().update(i, Some(q)));
    }
}

/// Counting one more cell of a prefix.
pub proof fn lemma_count_take(b: Seq<Option<Player>>, i: int, v: Option<Player>)
    requires
        0 <= i < b.len(),
    ensures
        count(b.take(i + 1), v) == count(b.take(i), v) + if b[i] == v {
            1nat
        } else {
            0nat
        },
{
    assert(b.take(i + 1).drop_last() =~= b.take(i));
}

/// No line from `l` on is filled when the scan from `l` finds no owner.
pub proof fn lemma_first_owner_none(b: Seq<Option<Player>>, l: int)
    requires
        0 <= l,
    ensures
        first_owner(b, l) is None <==> (forall|m: int|
            l <= m < LINES ==> !owns(b, m, Player::X) && !owns(b, m, Player::O)),
    decreases LINES - l,
{
    if l < LINES {
        lemma_first_owner_none(b, l + 1);
    }
}

/// Indices of the empty cells among the first `n`, in increasing order.
pub open spec fn empty_cells(b: Seq<Option<Player>>, n: int) -> Seq<int>
    decreases n,
{
    if n <= 0 {
        Seq::empty()
    } else if b[n - 1] is None {
        empty_cells(b, n - 1).push(n - 1)
    } else {
        empty_cells(b, n - 1)
    }
}

/// The coordinates `(x, y)` of cell `c`.
pub open spec fn cell_xy(c: int) -> (u8, u8) {
    ((c % N as int) as u8, (c / N as int) as u8)
}

/// The cell at coordinates `(x, y)`.
pub open spec fn xy_cell(x: int, y: int) -> int {
    x + N * y
}

/// The legal moves of `b`, in row-major order.
pub open spec fn moves(b: Seq<Option<Player>>) -> Seq<(u8, u8)> {
    empty_cells(b, b.len() as int).map_values(|c: int| cell_xy(c))
}

/// The empty cells are on the board and empty, and there is one whenever
/// some cell is empty.
pub proof fn lemma_empty_cells(b: Seq<Option<Player>>, n: int)
    requires
        0 <= n <= b.len(),
    ensures
        empty_cells(b, n).len() <= n,
        forall|j: int|
            0 <= j < empty_cells(b, n).len() ==> 0 <= #[trigger] empty_cells(b, n)[j] < n
                && b[empty_cells(b, n)[j]] is None,
        (exists|i: int| 0 <= i < n && b[i] is None) ==> empty_cells(b, n).len() > 0,
    decreases n,
{
    if n > 0 {
        lemma_empty_cells(b, n - 1);
        if b[n - 1] is None {
            let prev = empty_cells(b, n - 1);
            assert forall|j: int| 0 <= j < empty_cells(b, n).len() implies 0
                <= #[trigger] empty_cells(b, n)[j] < n && b[empty_cells(b, n)[j]] is None by {
                if j < prev.len() {
                    assert(empty_cells(b, n)[j] == prev[j]);
                }
            }
        }
    }
}

/// Coordinates and cell indices convert back and forth.
pub proof fn lemma_cell_xy(c: int)
    requires
        0 <= c < CELLS,
    ensures
        cell_xy(c).0 < N,
        cell_xy(c).1 < N,
        xy_cell(cell_xy(c).0 as int, cell_xy(c).1 as int) == c,
{
}

/// A value that occurs is counted.
pub proof fn lemma_count_pos(b: Seq<Option<Player>>, i: int, v: Option<Player>)
    requires
        0 <= i < b.len(),
        b[i] == v,
    ensures
        count(b, v) >= 1,
    decreases b.len(),
{
    if i < b.len() - 1 {
        lemma_count_pos(b.drop_last(), i, v);
    }
}

proof fn lemma_first_owner_some(b: Seq<Option<Player>>, l0: int, l: int, q: Player)
    requires
        0 <= l0 <= l < LINES,
        owns(b, l, q),
        !has_line(b, q.other()),
        b.len() == CELLS,
    ensures
        first_owner(b, l0) == Some(q),
    decreases l - l0,
{
    lemma_line_cell_bounds(l0, 0);
    if owns(b, l0, q.other()) {
        assert(has_line(b, q.other()));
    }
    if line_owner(b, l0) is None {
        lemma_first_owner_some(b, l0 + 1, l, q);
    }
}

/// A filled line is reported as a win for the player that fills it, on every
/// board where the other player fills no line.
pub proof fn lemma_win_reported(b: Seq<Option<Player>>, l: int, q: Player)
    requires
        b.len() == CELLS,
        0 <= l < LINES,
        owns(b, l, q),
        !has_line(b, q.other()),
    ensures
        outcome(b) == Some(Score::Win(q)),
{
    lemma_first_owner_some(b, 0, l, q);
}

/// Without a filled line, a full board is a tie and any other board is still
/// in play.
pub proof fn lemma_no_line_outcome(b: Seq<Option<Player>>)
    requires
        !has_line(b, Player::X),
        !has_line(b, Player::O),
    ensures
        full(b) ==> outcome(b) == Some(Score::Tie),
        !full(b) ==> outcome(b) is None,
{
    lemma_first_owner_none(b, 0);
}

/// A board where no cell is taken.
pub open spec fn empty_board() -> Seq<Option<Player>> {
    Seq::new(CELLS as nat, |i: int| None)
}

/// An empty board holds no mark of either player.
pub proof fn lemma_count_empty(n: nat, q: Player)
    ensures
        count(Seq::new(n, |i: int| None::<Player>), Some(q)) == 0,
    decreases n,
{
    if n > 0 {
        let b = Seq::new(n, |i: int| None::<Player>);
        assert(b.drop_last() =~= Seq::new((n - 1) as nat, |i: int| None::<Player>));
        lemma_count_empty((n - 1) as nat, q);
    }
}

/// Filling an empty cell of a board where no line is filled leaves no line
/// filled by the other player.
pub proof fn lemma_move_single_winner(b: Seq<Option<Player>>, c: int, p: Player)
    requires
        b.len() == CELLS,
        0 <= c < CELLS,
        first_owner(b, 0) is None,
    ensures
        !has_line(b.update(c, Some(p)), p.other()),
{
    let b2 = b.update(c, Some(p));
    lemma_first_owner_none(b, 0);
    assert forall|l: int| 0 <= l < LINES implies !owns(b2, l, p.other()) by {
        if owns(b2, l, p.other()) {
            assert forall|k: int| 0 <= k < N implies b[#[trigger] line_cell(l, k)] == Some(
                p.other(),
            ) by {
                lemma_line_cell_bounds(l, k);
                assert(b2[line_cell(l, k)] == Some(p.other()));
            }
            assert(owns(b, l, p.other()));
        }
    }
}

/// rayon's parallel iterator over the items of a `Vec`, opaque here.
#[verifier::external_type_specification]
#[verifier::external_body]
#[verifier::reject_recursive_types(T)]
pub struct ExParIntoIter<T>(rayon::vec::IntoIter<T>);

/// The items that a parallel iterator over moves yields, in order.
pub uninterp spec fn par_items(it: rayon::vec::IntoIter<(u8, u8)>) -> Seq<(u8, u8)>;

/// Relies on rayon's `IntoParallelIterator` for `Vec`: the iterator yields the
/// items of `v`, in order.
#[verifier::external_body]
fn into_par(v: Vec<(u8, u8)>) -> (r: rayon::vec::IntoIter<(u8, u8)>)
    ensures
        par_items(r) == v@,
{
    v.into_par_iter()
}

/// A board state: the cells in row-major order, and the outcome, which is
/// computed once when the state is made.
#[derive(Clone, Copy, Debug)]
pub struct State {
    board: [Option<Player>; CELLS],
    score: Option<Score>,
}

/// A move that cannot be played: the game is over, the cell lies off the
/// board, or it is taken.
#[derive(Clone, Copy, Debug, PartialEq, Eq, Structural)]
pub struct InvalidMove;

impl View for State {
    type V = Seq<Option<Player>>;

    closed spec fn view(&self) -> Seq<Option<Player>> {
        self.board@
    }
}

impl State {
    #[verifier::type_invariant]
    closed spec fn inv(self) -> bool {
        &&& self.score == outcome(self.board@)
        &&& balanced(self.board@)
        &&& !(has_line(self.board@, Player::X) && has_line(self.board@, Player::O))
    }

    /// A state always has every cell of the board.
    pub proof fn lemma_view_len(&self)
        ensures
            self@.len() == CELLS,
    {
    }

    /// The outcome, computed when the state was made. No state has filled
    /// lines of both players.
    pub fn score(self) -> (r: Option<Score>)
        ensures
            r == outcome(self@),
            !(has_line(self@, Player::X) && has_line(self@, Player::O)),
    {
        proof {
            use_type_invariant(&self);
        }
        self.score
    }

    /// The cells in row-major order: cell `x + N * y` is at `(x, y)`.
    pub fn board(self) -> (r: [Option<Player>; CELLS])
        ensures
            r@ == self@,
    {
        self.board
    }
}

impl State {
    /// The outcome of `board`, line by line in the order of `line_start`.
    fn check_win(board: &[Option<Player>; CELLS]) -> (r: Option<Score>)
        ensures
            r == outcome(board@),
    {
        let mut l: u32 = 0;
        while l < LINES
            invariant
                l <= LINES,
                first_owner(board@, 0) == first_owner(board@, l as int),
            decreases LINES - l,
        {
            let w = line_winner(board, l);
            if let Some(q) = w {
                return Some(Score::Win(q));
            }
            l = l + 1;
        }
        let mut i: usize = 0;
        while i < CELLS
            invariant
                i <= CELLS,
                first_owner(board@, 0) is None,
                forall|j: int| 0 <= j < i ==> board@[j] is Some,
            decreases CELLS - i,
        {
            if board[i].is_none() {
                return None;
            }
            i = i + 1;
        }
        Some(Score::Tie)
    }

    /// The player to move, from the counts of marks.
    pub fn turn(self) -> (r: Player)
        ensures
            r == turn_of(self@),
    {
        let mut x: u8 = 0;
        let mut o: u8 = 0;
        let mut i: usize = 0;
        while i < CELLS
            invariant
                i <= CELLS,
                x == count(self.board@.take(i as int), Some(Player::X)),
                o == count(self.board@.take(i as int), Some(Player::O)),
                x + o <= i,
            decreases CELLS - i,
        {
            proof {
                lemma_count_take(self.board@, i as int, Some(Player::X));
                lemma_count_take(self.board@, i as int, Some(Player::O));
            }
            match self.board[i] {
                Some(Player::X) => {
                    x = x + 1;
                },
                Some(Player::O) => {
                    o = o + 1;
                },
                None => {},
            }
            i = i + 1;
        }
        assert(self.board@.take(CELLS as int) =~= self.board@);
        if x == o {
            Player::X
        } else {
            Player::O
        }
    }

    /// Plays the player to move at `(x, y)`.
    pub fn do_move(self, x: u8, y: u8) -> (r: Result<State, InvalidMove>)
        ensures
            r is Ok <==> (outcome(self@) is None && x < N && y < N && self@[xy_cell(
                x as int,
                y as int,
            )] is None),
            r matches Ok(s) ==> s@ == self@.update(xy_cell(x as int, y as int), Some(turn_of(self@))),
            r matches Ok(s) ==> turn_of(s@) == turn_of(self@).other(),
    {
        proof {
            use_type_invariant(&self);
        }
        if self.score.is_some() {
            return Err(InvalidMove);
        }
        let x = x as u32;
        let y = y as u32;
        if x >= N || y >= N {
            return Err(InvalidMove);
        }
        let idx = (N * y + x) as usize;
        if self.board[idx].is_some() {
            return Err(InvalidMove);
        }
        let p = self.turn();
        let mut board = self.board;
        board[idx] = Some(p);
        let score = State::check_win(&board);
        proof {
            let b = self.board@;
            assert(board@ == b.update(idx as int, Some(p)));
            lemma_count_update(b, idx as int, p, Some(Player::X));
            lemma_count_update(b, idx as int, p, Some(Player::O));
            lemma_move_single_winner(b, idx as int, p);
        }
        Ok(State { board, score })
    }

    /// The empty cells as moves `(x, y)`, in row-major order.
    pub fn succs(self) -> (r: Vec<(u8, u8)>)
        requires
            outcome(self@) is None,
        ensures
            r@ == moves(self@),
    {
        let mut r: Vec<(u8, u8)> = Vec::new();
        let mut i: usize = 0;
        while i < CELLS
            invariant
                i <= CELLS,
                r@ == empty_cells(self.board@, i as int).map_values(|c: int| cell_xy(c)),
            decreases CELLS - i,
        {
            if self.board[i].is_none() {
                let xy = ((i as u32 % N) as u8, (i as u32 / N) as u8);
                r.push(xy);
                assert(r@ =~= empty_cells(self.board@, i + 1).map_values(|c: int| cell_xy(c)));
            }
            i = i + 1;
        }
        r
    }

    /// The empty cells as moves, for parallel consumption.
    pub fn par_succs(self) -> (r: rayon::vec::IntoIter<(u8, u8)>)
        requires
            outcome(self@) is None,
        ensures
            par_items(r) == moves(self@),
    {
        into_par(self.succs())
    }
}

impl Default for State {
    /// The empty board, with X to move.
    fn default() -> (r: State)
        ensures
            r@ == empty_board(),
    {
        let board: [Option<Player>; CELLS] = [None; CELLS];
        proof {
            let b = board@;
            assert(b =~= empty_board());
            lemma_count_empty(CELLS as nat, Player::X);
            lemma_count_empty(CELLS as nat, Player::O);
            assert forall|l: int| 0 <= l < LINES implies !owns(b, l, Player::X) && !owns(
                b,
                l,
                Player::O,
            ) by {
                lemma_line_cell_bounds(l, 0);
            }
            lemma_first_owner_none(b, 0);
            assert(!full(b));
        }
        State { board, score: None }
    }
}

/// The owner of line `l`, read off the board.
fn line_winner(board: &[Option<Player>; CELLS], l: u32) -> (r: Option<Player>)
    requires
        l < LINES,
    ensures
        r == line_owner(board@, l as int),
{
    let (start, step): (usize, usize) = if l < N {
        ((N * l) as usize, 1)
    } else if l < 2 * N {
        ((l - N) as usize, N as usize)
    } else if l == 2 * N {
        (0, (N + 1) as usize)
    } else {
        ((N - 1) as usize, (N - 1) as usize)
    };
    proof {
        lemma_line_cell_bounds(l as int, 0);
    }
    let first = board[start];
    if first.is_none() {
        assert(board@[line_cell(l as int, 0)] is None);
        return None;
    }
    let q = first.unwrap();
    let mut k: u32 = 1;
    let mut idx: usize = start + step;
    while k < N
        invariant
            1 <= k <= N,
            l < LINES,
            start == line_start(l as int),
            step == line_step(l as int),
            k < N ==> idx == line_cell(l as int, k as int),
            board@[line_cell(l as int, 0)] == Some(q),
            forall|j: int| 0 <= j < k ==> board@[#[trigger] line_cell(l as int, j)] == Some(q),
        decreases N - k,
    {
        proof {
            lemma_line_cell_bounds(l as int, k as int);
        }
        let same = match board[idx] {
            Some(c) => c == q,
            None => false,
        };
        if !same {
            assert(!owns(board@, l as int, q));
            assert(!owns(board@, l as int, q.other()));
            return None;
        }
        k = k + 1;
        if k < N {
            proof {
                lemma_line_cell_bounds(l as int, k as int);
                assert(line_cell(l as int, k as int) == line_cell(l as int, k - 1) + step) by (nonlinear_arith)
                    requires
                        line_cell(l as int, k as int) == line_start(l as int) + k * line_step(l as int),
                        line_cell(l as int, k - 1) == line_start(l as int) + (k - 1) * line_step(l as int),
                        step == line_step(l as int),
                ;
            }
            idx = idx + step;
        }
    }
    assert(owns(board@, l as int, q));
    assert(!owns(board@, l as int, q.other()));
    Some(q)
}

} // verus!
