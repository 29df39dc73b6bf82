//! The canonical 64-bit key of a board and the player to move.
use vstd::prelude::*;
use crate::game::{Player, CELLS};

verus! {

/// Two bits per cell: `00` empty, `01` X, `10` O.
pub open spec fn cell_code(v: Option<Player>) -> u64 {
    match v {
        None => 0,
        Some(Player::X) => 1,
        Some(Player::O) => 2,
    }
}

/// The top bit: `0` when X is to move, `1` when O is.
pub open spec fn player_bit(p: Player) -> u64 {
    match p {
        Player::X => 0,
        Player::O => 1,
    }
}

/// The codes of the first `n` cells, cell `i` at bits `2i` and `2i + 1`.
pub open spec fn pack_cells(b: Seq<Option<Player>>, n: int) -> u64
    decreases n,
{
    if n <= 0 {
        0
    } else {
        pack_cells(b, n - 1) | (cell_code(b[n - 1]) << ((2 * (n - 1)) as u64))
    }
}

/// The key of board `b` with `p` to move.
pub open spec fn key_of(b: Seq<Option<Player>>, p: Player) -> u64 {
    (player_bit(p) << 63u64) | pack_cells(b, b.len() as int)
}

proof fn lemma_or_shift_bound(lo: u64, c: u64, s: u64)
    requires
        s <= 30,
        lo < (1u64 << s),
        c <= 3,
    ensures
        (lo | (c << s)) < (1u64 << ((s + 2) as u64)),
        ((lo | (c << s)) >> s) & 3 == c,
{
    assert((lo | (c << s)) < (1u64 << ((s + 2) as u64))) by (bit_vector)
        requires
            s <= 30,
            lo < (1u64 << s),
            c <= 3,
    ;
    assert(((lo | (c << s)) >> s) & 3 == c) by (bit_vector)
        requires
            s <= 30,
            lo < (1u64 << s),
            c <= 3,
    ;
}

proof fn lemma_or_shift_low(lo: u64, c: u64, s: u64, t: u64)
    requires
        s <= 30,
        t + 2 <= s,
        c <= 3,
    ensures
        ((lo | (c << s)) >> t) & 3 == (lo >> t) & 3,
{
    assert(((lo | (c << s)) >> t) & 3 == (lo >> t) & 3) by (bit_vector)
        requires
            s <= 30,
            t + 2 <= s,
            c <= 3,
    ;
}

proof fn lemma_top_bit(lo: u64, bit: u64, t: u64)
    requires
        lo < (1u64 << 32u64),
        bit <= 1,
        t <= 30,
    ensures
        ((bit << 63u64) | lo) >> 63u64 == bit,
        (((bit << 63u64) | lo) >> t) & 3 == (lo >> t) & 3,
{
    assert(((bit << 63u64) | lo) >> 63u64 == bit) by (bit_vector)
        requires
            lo < (1u64 << 32u64),
            bit <= 1,
    ;
    assert((((bit << 63u64) | lo) >> t) & 3 == (lo >> t) & 3) by (bit_vector)
        requires
            lo < (1u64 << 32u64),
            bit <= 1,
            t <= 30,
    ;
}

/// The packed cells fit below bit `2n`, and cell `j` reads back from bits `2j`
/// and `2j + 1`.
proof fn lemma_pack_cells(b: Seq<Option<Player>>, n: int)
    requires
        0 <= n <= b.len(),
        n <= 16,
    ensures
        pack_cells(b, n) < (1u64 << ((2 * n) as u64)),
        forall|j: int|
            0 <= j < n ==> (pack_cells(b, n) >> ((2 * j) as u64)) & 3 == cell_code(
                #[trigger] b[j],
            ),
    decreases n,
{
    if n == 0 {
        assert(0u64 < (1u64 << 0u64)) by (bit_vector);
    } else {
        lemma_pack_cells(b, n - 1);
        let lo = pack_cells(b, n - 1);
        let c = cell_code(b[n - 1]);
        let s = (2 * (n - 1)) as u64;
        lemma_or_shift_bound(lo, c, s);
        assert forall|j: int| 0 <= j < n implies (pack_cells(b, n) >> ((2 * j) as u64)) & 3
            == cell_code(#[trigger] b[j]) by {
            if j < n - 1 {
                lemma_or_shift_low(lo, c, s, (2 * j) as u64);
            }
        }
    }
}

/// Cell `j` of `b` is found at bits `2j` and `2j + 1` of its key, and the
/// player to move at bit 63.
pub proof fn lemma_key_layout(b: Seq<Option<Player>>, p: Player)
    requires
        b.len() == CELLS,
    ensures
        key_of(b, p) >> 63u64 == player_bit(p),
        forall|j: int|
            0 <= j < CELLS ==> (key_of(b, p) >> ((2 * j) as u64)) & 3 == cell_code(
                #[trigger] b[j],
            ),
{
    lemma_pack_cells(b, CELLS as int);
    let lo = pack_cells(b, CELLS as int);
    assert((1u64 << ((2 * CELLS) as u64)) <= (1u64 << 32u64)) by (bit_vector);
    lemma_top_bit(lo, player_bit(p), 0);
    assert forall|j: int| 0 <= j < CELLS implies (key_of(b, p) >> ((2 * j) as u64)) & 3
        == cell_code(#[trigger] b[j]) by {
        lemma_top_bit(lo, player_bit(p), (2 * j) as u64);
    }
}

/// Distinct pairs of a board and a player to move never share a key.
pub proof fn lemma_key_injective(ba: Seq<Option<Player>>, pa: Player, bb: Seq<Option<Player>>, pb: Player)
    requires
        ba.len() == CELLS,
        bb.len() == CELLS,
        key_of(ba, pa) == key_of(bb, pb),
    ensures
        ba == bb,
        pa == pb,
{
    lemma_key_layout(ba, pa);
    lemma_key_layout(bb, pb);
    assert forall|j: int| 0 <= j < CELLS implies ba[j] == bb[j] by {
        assert(cell_code(ba[j]) == cell_code(bb[j]));
    }
    assert(ba =~= bb);
}

/// Packs `board` with `p` to move into its canonical key.
pub fn densely_pack(board: [Option<Player>; CELLS], p: Player) -> (r: u64)
    ensures
        r == key_of(board@, p),
{
    let bit: u64 = match p {
        Player::X => 0,
        Player::O => 1,
    };
    let mut m: u64 = bit << 63u64;
    let mut i: usize = 0;
    proof {
        let hi = bit << 63u64;
        assert(pack_cells(board@, 0) == 0);
        assert(hi | 0 == hi) by (bit_vector);
    }
    while i < CELLS
        invariant
            i <= CELLS,
            bit == player_bit(p),
            m == (bit << 63u64) | pack_cells(board@, i as int),
        decreases CELLS - i,
    {
        let code: u64 = match board[i] {
            None => 0,
            Some(Player::X) => 1,
            Some(Player::O) => 2,
        };
        let s: u64 = 2 * i as u64;
        proof {
            let hi = bit << 63u64;
            let lo = pack_cells(board@, i as int);
            assert(((hi | lo) | (code << s)) == (hi | (lo | (code << s)))) by (bit_vector);
        }
        m = m | (code << s);
        i = i + 1;
    }
    assert(board@.len() == CELLS);
    m
}

} // verus!
