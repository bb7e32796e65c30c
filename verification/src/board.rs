//! The single 3x3 board engine: a 2-bit-per-cell board (bit 1 = occupied,
//! bit 0 = by player 2) with win detection and an exhaustive negamax move
//! evaluator.  Cells are column-major: `idx = row + 3 * col`.
use vstd::prelude::*;

pub mod move_finder;
pub mod move_iter;
pub mod nested;
pub mod one_bit;

use crate::types::{BoardState, CellState, Player, cell_bits};

verus! {

/// The 2-bit value of cell `idx`.
pub open spec fn cell_at(v: BoardState, idx: int) -> u32 {
    (v >> ((2 * idx) as u32)) & 0b11
}

/// Every cell holds a valid encoding and no bit beyond the nine cells is set.
pub open spec fn board_inv(v: BoardState) -> bool {
    &&& v < 0x40000
    &&& forall|i: int| 0 <= i < 9 ==> #[trigger] cell_at(v, i) != 0b01
}

/// Who wins the board, checking columns, rows and the two diagonals in
/// order: a line fully claimed by player 2 reads as its full mask, one
/// claimed by player 1 as the mask's high bits.
pub open spec fn winner_spec(v: BoardState) -> Option<Player> {
    if v & 0b11_1111 == 0b11_1111 {
        Some(Player::Player2)
    } else if v & 0b11_1111 == 0b10_1010 {
        Some(Player::Player1)
    } else if v & 0xFC0 == 0xFC0 {
        Some(Player::Player2)
    } else if v & 0xFC0 == 0xA80 {
        Some(Player::Player1)
    } else if v & 0x3F000 == 0x3F000 {
        Some(Player::Player2)
    } else if v & 0x3F000 == 0x2A000 {
        Some(Player::Player1)
    } else if v & 0b11_0000_1100_0011 == 0b11_0000_1100_0011 {
        Some(Player::Player2)
    } else if v & 0b11_0000_1100_0011 == 0b10_0000_1000_0010 {
        Some(Player::Player1)
    } else if v & 0xC30C == 0xC30C {
        Some(Player::Player2)
    } else if v & 0xC30C == 0x8208 {
        Some(Player::Player1)
    } else if v & 0x30C30 == 0x30C30 {
        Some(Player::Player2)
    } else if v & 0x30C30 == 0x20820 {
        Some(Player::Player1)
    } else if v & 0b0011_0011_0011_0000 == 0b0011_0011_0011_0000 {
        Some(Player::Player2)
    } else if v & 0b0011_0011_0011_0000 == 0b0010_0010_0010_0000 {
        Some(Player::Player1)
    } else if v & 0b11_0000_0011_0000_0011 == 0b11_0000_0011_0000_0011 {
        Some(Player::Player2)
    } else if v & 0b11_0000_0011_0000_0011 == 0b10_0000_0010_0000_0010 {
        Some(Player::Player1)
    } else {
        None
    }
}

/// The free cells among those below `i`, as `(row, col)` pairs in
/// ascending column-major cell order.
pub open spec fn moves_below(v: BoardState, i: int) -> Seq<(usize, usize)>
    decreases i,
{
    if i <= 0 {
        Seq::empty()
    } else {
        moves_below(v, i - 1) + (if cell_at(v, i - 1) & 0b10 == 0 {
            seq![((((i - 1) % 3) as usize, ((i - 1) / 3) as usize))]
        } else {
            Seq::empty()
        })
    }
}

/// The negamax score of the `t`-th listed free cell.
pub open spec fn listed_score(v: BoardState, player: Player, t: int) -> int {
    let m = moves_below(v, 9)[t];
    eval_spec(v, m.0 + m.1 * 3, player, 9)
}

/// Cell `i` of `v` carries `p`'s marker.
pub open spec fn claimed_by(v: BoardState, i: int, p: Player) -> bool {
    cell_at(v, i) == cell_bits(p.spec_cell_state_of())
}

/// `p` holds a full line: a column, a row or a diagonal, in the
/// column-major cell numbering.
pub open spec fn player_won(v: BoardState, p: Player) -> bool {
    ||| claimed_by(v, 0, p) && claimed_by(v, 1, p) && claimed_by(v, 2, p)
    ||| claimed_by(v, 3, p) && claimed_by(v, 4, p) && claimed_by(v, 5, p)
    ||| claimed_by(v, 6, p) && claimed_by(v, 7, p) && claimed_by(v, 8, p)
    ||| claimed_by(v, 0, p) && claimed_by(v, 3, p) && claimed_by(v, 6, p)
    ||| claimed_by(v, 1, p) && claimed_by(v, 4, p) && claimed_by(v, 7, p)
    ||| claimed_by(v, 2, p) && claimed_by(v, 5, p) && claimed_by(v, 8, p)
    ||| claimed_by(v, 2, p) && claimed_by(v, 4, p) && claimed_by(v, 6, p)
    ||| claimed_by(v, 0, p) && claimed_by(v, 4, p) && claimed_by(v, 8, p)
}

/// Law: the mask chain of `winner_spec` is the direct line statement: it
/// answers exactly when a player holds a full line, and whoever it names
/// holds one.
#[verifier::rlimit(100)]
#[verifier::spinoff_prover]
pub proof fn lemma_winner_is_line(v: BoardState)
    ensures
        (winner_spec(v) is Some) <==> (player_won(v, Player::Player1) || player_won(
            v,
            Player::Player2,
        )),
        forall|p: Player| winner_spec(v) == Some(p) ==> player_won(v, p),
{
    assert(((v & 0b11_1111 == 0b11_1111) <==> ((v >> 0u32) & 3 == 3 && (v >> 2u32) & 3 == 3 && (v
        >> 4u32) & 3 == 3)) && ((v & 0b11_1111 == 0b10_1010) <==> ((v >> 0u32) & 3 == 2 && (v
        >> 2u32) & 3 == 2 && (v >> 4u32) & 3 == 2)) && ((v & 0xFC0 == 0xFC0) <==> ((v >> 6u32) & 3
        == 3 && (v >> 8u32) & 3 == 3 && (v >> 10u32) & 3 == 3)) && ((v & 0xFC0 == 0xA80) <==> ((v
        >> 6u32) & 3 == 2 && (v >> 8u32) & 3 == 2 && (v >> 10u32) & 3 == 2)) && ((v & 0x3F000
        == 0x3F000) <==> ((v >> 12u32) & 3 == 3 && (v >> 14u32) & 3 == 3 && (v >> 16u32) & 3 == 3))
        && ((v & 0x3F000 == 0x2A000) <==> ((v >> 12u32) & 3 == 2 && (v >> 14u32) & 3 == 2 && (v
        >> 16u32) & 3 == 2)) && ((v & 0x30C3 == 0x30C3) <==> ((v >> 0u32) & 3 == 3 && (v >> 6u32)
        & 3 == 3 && (v >> 12u32) & 3 == 3)) && ((v & 0x30C3 == 0x2082) <==> ((v >> 0u32) & 3 == 2
        && (v >> 6u32) & 3 == 2 && (v >> 12u32) & 3 == 2)) && ((v & 0xC30C == 0xC30C) <==> ((v
        >> 2u32) & 3 == 3 && (v >> 8u32) & 3 == 3 && (v >> 14u32) & 3 == 3)) && ((v & 0xC30C
        == 0x8208) <==> ((v >> 2u32) & 3 == 2 && (v >> 8u32) & 3 == 2 && (v >> 14u32) & 3 == 2))
        && ((v & 0x30C30 == 0x30C30) <==> ((v >> 4u32) & 3 == 3 && (v >> 10u32) & 3 == 3 && (v
        >> 16u32) & 3 == 3)) && ((v & 0x30C30 == 0x20820) <==> ((v >> 4u32) & 3 == 2 && (v
        >> 10u32) & 3 == 2 && (v >> 16u32) & 3 == 2)) && ((v & 0x3330 == 0x3330) <==> ((v >> 4u32)
        & 3 == 3 && (v >> 8u32) & 3 == 3 && (v >> 12u32) & 3 == 3)) && ((v & 0x3330 == 0x2220)
        <==> ((v >> 4u32) & 3 == 2 && (v >> 8u32) & 3 == 2 && (v >> 12u32) & 3 == 2)) && ((v
        & 0x30303 == 0x30303) <==> ((v >> 0u32) & 3 == 3 && (v >> 8u32) & 3 == 3 && (v >> 16u32)
        & 3 == 3)) && ((v & 0x30303 == 0x20202) <==> ((v >> 0u32) & 3 == 2 && (v >> 8u32) & 3 == 2
        && (v >> 16u32) & 3 == 2))) by (bit_vector);
}

/// All nine occupied bits.
pub const ALL_CELLS_OCCUPIED_MASK: BoardState = 0b10_1010_1010_1010_1010;

/// A 3x3 board, two bits per cell, column-major.
#[derive(Debug, Clone, Copy, PartialEq, Eq, Structural)]
pub struct Board(pub BoardState);

/// The negamax value of placing `player` on free cell `idx` of `v`: a win
/// scores +1 and a loss -1 for `player`; a draw-filled board scores 0;
/// otherwise the negated sum of the opponent's replies, explored down to
/// `depth` further plies (0 beyond that).
pub open spec fn eval_spec(v: BoardState, idx: int, player: Player, depth: nat) -> int
    decreases depth, 0int, 0int,
{
    let v2 = v | (cell_bits(player.spec_cell_state_of()) << ((2 * idx) as u32));
    match winner_spec(v2) {
        Some(w) => if w == player {
            1
        } else {
            -1
        },
        None => if v2 & ALL_CELLS_OCCUPIED_MASK == ALL_CELLS_OCCUPIED_MASK {
            0
        } else if depth == 0 {
            0
        } else {
            -eval_sum_spec(v2, 0, player.spec_other(), (depth - 1) as nat)
        },
    }
}

/// Sum of `eval_spec` over the free cells at positions `i` and beyond.
pub open spec fn eval_sum_spec(v: BoardState, i: int, player: Player, depth: nat) -> int
    decreases depth, 1int, 9 - i,
{
    if i < 0 || i >= 9 {
        0
    } else {
        (if cell_at(v, i) & 0b10 == 0 {
            eval_spec(v, i, player, depth)
        } else {
            0
        }) + eval_sum_spec(v, i + 1, player, depth)
    }
}

/// `9^d`, a bound on the magnitude of a depth-`d` evaluation.
pub open spec fn bound9(d: nat) -> int
    decreases d,
{
    if d == 0 {
        1
    } else {
        9 * bound9((d - 1) as nat)
    }
}

/// Evaluations are bounded by the branching factor to the depth.
pub proof fn lemma_eval_bound(v: BoardState, idx: int, player: Player, depth: nat)
    ensures
        -bound9(depth) <= eval_spec(v, idx, player, depth) <= bound9(depth),
    decreases depth, 0int, 0int,
{
    lemma_bound9_pos(depth);
    let v2 = v | (cell_bits(player.spec_cell_state_of()) << ((2 * idx) as u32));
    if winner_spec(v2) is None && !(v2 & ALL_CELLS_OCCUPIED_MASK == ALL_CELLS_OCCUPIED_MASK)
        && depth > 0 {
        lemma_eval_sum_bound(v2, 0, player.spec_other(), (depth - 1) as nat);
        let b1 = bound9((depth - 1) as nat);
        let sm = eval_sum_spec(v2, 0, player.spec_other(), (depth - 1) as nat);
        assert(bound9(depth) == 9 * b1);
        assert(-(9 * b1) <= -sm <= 9 * b1) by (nonlinear_arith)
            requires
                -(9 - 0) * b1 <= sm <= (9 - 0) * b1,
        ;
        assert(eval_spec(v, idx, player, depth) == -sm);
    }
}

/// Partial sums are bounded by the remaining cells times the inner bound.
pub proof fn lemma_eval_sum_bound(v: BoardState, i: int, player: Player, depth: nat)
    requires
        0 <= i <= 9,
    ensures
        -(9 - i) * bound9(depth) <= eval_sum_spec(v, i, player, depth) <= (9 - i) * bound9(depth),
    decreases depth, 1int, 9 - i,
{
    lemma_bound9_pos(depth);
    if 0 <= i < 9 {
        lemma_eval_bound(v, i, player, depth);
        lemma_eval_sum_bound(v, i + 1, player, depth);
        let b = bound9(depth);
        let h: int = if cell_at(v, i) & 0b10 == 0 {
            eval_spec(v, i, player, depth)
        } else {
            0
        };
        let tl = eval_sum_spec(v, i + 1, player, depth);
        assert(eval_sum_spec(v, i, player, depth) == h + tl);
        assert(-(9 - i) * b <= h + tl <= (9 - i) * b) by (nonlinear_arith)
            requires
                0 <= i < 9,
                1 <= b,
                -b <= h <= b,
                -(9 - (i + 1)) * b <= tl <= (9 - (i + 1)) * b,
        ;
    } else {
        lemma_eval_sum_bound_out(v, i, player, depth);
    }
}

proof fn lemma_eval_sum_bound_out(v: BoardState, i: int, player: Player, depth: nat)
    requires
        i < 0 || i >= 9,
    ensures
        eval_sum_spec(v, i, player, depth) == 0,
{
}

/// The branching bound is positive.
pub proof fn lemma_bound9_pos(d: nat)
    ensures
        1 <= bound9(d),
    decreases d,
{
    if d > 0 {
        lemma_bound9_pos((d - 1) as nat);
    }
}

/// The branching bound grows with the depth.
pub proof fn lemma_bound9_mono(d1: nat, d2: nat)
    requires
        d1 <= d2,
    ensures
        bound9(d1) <= bound9(d2),
    decreases d2,
{
    if d1 < d2 {
        lemma_bound9_mono(d1, (d2 - 1) as nat);
        lemma_bound9_pos((d2 - 1) as nat);
    }
}

/// Up to nine plies the branching bound stays within `9^9`.
pub proof fn lemma_bound9_cap(d: nat)
    requires
        d <= 9,
    ensures
        1 <= bound9(d),
        bound9(d) <= 387420489,
{
    lemma_bound9_pos(d);
    assert(bound9(0) == 1);
    assert(bound9(1) == 9);
    assert(bound9(2) == 81);
    assert(bound9(3) == 729);
    assert(bound9(4) == 6561);
    assert(bound9(5) == 59049);
    assert(bound9(6) == 531441);
    assert(bound9(7) == 4782969);
    assert(bound9(8) == 43046721);
    assert(bound9(9) == 387420489);
    lemma_bound9_mono(d, 9);
}

impl Player {
    /// The cell marker of this player, as a spec value.
    pub open spec fn spec_cell_state_of(self) -> CellState {
        match self {
            Player::Player1 => CellState::Player1,
            Player::Player2 => CellState::Player2,
        }
    }
}

impl Board {
    /// The empty board.
    pub fn new() -> (r: Board)
        ensures
            r.0 == 0,
            board_inv(r.0),
    {
        proof {
            lemma_cells_of_zero();
        }
        Board(0)
    }

    /// Column-major flattening of a cell coordinate.
    pub fn to_1d_idx(row: usize, col: usize) -> (r: usize)
        requires
            row < 3,
            col < 3,
        ensures
            r == row + col * 3,
            r < 9,
    {
        row + col * 3
    }

    /// The cell coordinate of a flattened index.
    pub fn to_2d_idx(one_d_idx: usize) -> (r: (usize, usize))
        requires
            one_d_idx < 9,
        ensures
            r.0 == one_d_idx % 3,
            r.1 == one_d_idx / 3,
            r.0 < 3 && r.1 < 3,
    {
        (one_d_idx % 3, one_d_idx / 3)
    }

    /// Build a board from a row-major matrix of cell states.
    #[verifier::loop_isolation(false)]
    pub fn from_matrix(matrix: &[[CellState; 3]; 3]) -> (r: Board)
        ensures
            board_inv(r.0),
            forall|row: int, col: int|
                #![trigger cell_at(r.0, row + col * 3)]
                0 <= row < 3 && 0 <= col < 3 ==> cell_at(r.0, row + col * 3) == cell_bits(
                    matrix@[row][col],
                ),
    {
        let mut this = Board::new();
        proof {
            lemma_cells_of_zero();
        }
        let mut row: usize = 0;
        while row < 3
            invariant
                row <= 3,
                board_inv(this.0),
                forall|r2: int, c2: int|
                    #![trigger cell_at(this.0, r2 + c2 * 3)]
                    0 <= r2 < 3 && 0 <= c2 < 3 && (r2 < row) ==> cell_at(this.0, r2 + c2 * 3)
                        == cell_bits(matrix@[r2][c2]),
                forall|r2: int, c2: int|
                    #![trigger cell_at(this.0, r2 + c2 * 3)]
                    0 <= r2 < 3 && 0 <= c2 < 3 && r2 >= row ==> cell_at(this.0, r2 + c2 * 3) == 0,
            decreases 3 - row,
        {
            let mut col: usize = 0;
            while col < 3
                invariant
                    row < 3,
                    col <= 3,
                    board_inv(this.0),
                    forall|r2: int, c2: int|
                        #![trigger cell_at(this.0, r2 + c2 * 3)]
                        0 <= r2 < 3 && 0 <= c2 < 3 && (r2 < row || (r2 == row && c2 < col))
                            ==> cell_at(this.0, r2 + c2 * 3) == cell_bits(matrix@[r2][c2]),
                    forall|r2: int, c2: int|
                        #![trigger cell_at(this.0, r2 + c2 * 3)]
                        0 <= r2 < 3 && 0 <= c2 < 3 && (r2 > row || (r2 == row && c2 >= col))
                            ==> cell_at(this.0, r2 + c2 * 3) == 0,
                decreases 3 - col,
            {
                match matrix[row][col] {
                    CellState::Free => {},
                    CellState::Player1 => this.set(row, col, Player::Player1),
                    CellState::Player2 => this.set(row, col, Player::Player2),
                }
                col = col + 1;
            }
            row = row + 1;
        }
        this
    }

    /// The contents of the cell at `(row, col)`.
    pub fn get(&self, row: usize, col: usize) -> (r: CellState)
        requires
            row < 3,
            col < 3,
            board_inv(self.0),
        ensures
            cell_bits(r) == cell_at(self.0, (row + col * 3) as int),
    {
        let bits = (self.0 >> (2 * (row + col * 3)) as u32) & 0b11;
        proof {
            let v = self.0;
            let sh = (2 * (row + col * 3)) as u32;
            assert((v >> sh) & 0b11 <= 3) by (bit_vector);
        }
        match CellState::from_bits(bits) {
            Some(c) => c,
            None => {
                proof {
                    assert(cell_at(self.0, (row + col * 3) as int) != 0b01);
                }
                CellState::Free
            },
        }
    }

    /// Whether no cell is claimed.
    pub fn is_empty(&self) -> (r: bool)
        ensures
            r == (self.0 == 0),
    {
        self.0 == 0
    }

    /// Whether all nine cells are claimed.
    pub fn is_full(&self) -> (r: bool)
        ensures
            r == (self.0 & ALL_CELLS_OCCUPIED_MASK == ALL_CELLS_OCCUPIED_MASK),
    {
        self.0 & ALL_CELLS_OCCUPIED_MASK == ALL_CELLS_OCCUPIED_MASK
    }

    /// Whether the cell at `(row, col)` is free.
    pub fn is_available(&self, row: usize, col: usize) -> (r: bool)
        requires
            row < 3,
            col < 3,
        ensures
            r == (cell_at(self.0, (row + col * 3) as int) & 0b10 == 0),
    {
        self.is_available_1d(row + col * 3)
    }

    /// Whether the cell at flattened index `idx` is free.
    pub fn is_available_1d(&self, idx: usize) -> (r: bool)
        requires
            idx < 9,
        ensures
            r == (cell_at(self.0, idx as int) & 0b10 == 0),
    {
        let mask = 0b10u32 << (2 * idx) as u32;
        proof {
            let v = self.0;
            let i = idx as u32;
            assert((v & (0b10u32 << (2 * i)) == 0) == (((v >> (2 * i)) & 0b11) & 0b10 == 0))
                by (bit_vector)
                requires
                    i < 9,
            ;
        }
        self.0 & mask == 0
    }

    /// Claim the cell at `(row, col)` for `player`.
    pub fn set(&mut self, row: usize, col: usize, player: Player)
        requires
            row < 3,
            col < 3,
            board_inv(old(self).0),
            cell_at(old(self).0, (row + col * 3) as int) == 0,
        ensures
            board_inv(final(self).0),
            final(self).0 == old(self).0 | (cell_bits(player.spec_cell_state_of()) << ((2 * (row
                + col * 3)) as u32)),
            cell_at(final(self).0, (row + col * 3) as int) == cell_bits(
                player.spec_cell_state_of(),
            ),
            forall|i: int|
                0 <= i < 9 && i != row + col * 3 ==> #[trigger] cell_at(final(self).0, i)
                    == cell_at(old(self).0, i),
    {
        self.set_1d(row + col * 3, player);
    }

    /// Claim the cell at flattened index `idx` for `player`.
    pub fn set_1d(&mut self, idx: usize, player: Player)
        requires
            idx < 9,
            board_inv(old(self).0),
            cell_at(old(self).0, idx as int) == 0,
        ensures
            board_inv(final(self).0),
            final(self).0 == old(self).0 | (cell_bits(player.spec_cell_state_of()) << ((2
                * idx) as u32)),
            cell_at(final(self).0, idx as int) == cell_bits(player.spec_cell_state_of()),
            forall|i: int|
                0 <= i < 9 && i != idx ==> #[trigger] cell_at(final(self).0, i) == cell_at(
                    old(self).0,
                    i,
                ),
    {
        let new_cell_state = player.cell_state();
        let bits: u32 = match new_cell_state {
            CellState::Free => 0b00,
            CellState::Player1 => 0b10,
            CellState::Player2 => 0b11,
        };
        proof {
            lemma_cell_or(self.0, bits, idx as u32);
        }
        self.0 = self.0 | (bits << (2 * idx) as u32);
    }

    /// Who has three in a row, if anyone.
    pub fn calc_winner(&self) -> (r: Option<Player>)
        ensures
            r == winner_spec(self.0),
    {
        let v = self.0;
        if v & 0b11_1111 == 0b11_1111 {
            Some(Player::Player2)
        } else if v & 0b11_1111 == 0b10_1010 {
            Some(Player::Player1)
        } else if v & 0xFC0 == 0xFC0 {
            Some(Player::Player2)
        } else if v & 0xFC0 == 0xA80 {
            Some(Player::Player1)
        } else if v & 0x3F000 == 0x3F000 {
            Some(Player::Player2)
        } else if v & 0x3F000 == 0x2A000 {
            Some(Player::Player1)
        } else if v & 0b11_0000_1100_0011 == 0b11_0000_1100_0011 {
            Some(Player::Player2)
        } else if v & 0b11_0000_1100_0011 == 0b10_0000_1000_0010 {
            Some(Player::Player1)
        } else if v & 0xC30C == 0xC30C {
            Some(Player::Player2)
        } else if v & 0xC30C == 0x8208 {
            Some(Player::Player1)
        } else if v & 0x30C30 == 0x30C30 {
            Some(Player::Player2)
        } else if v & 0x30C30 == 0x20820 {
            Some(Player::Player1)
        } else if v & 0b0011_0011_0011_0000 == 0b0011_0011_0011_0000 {
            Some(Player::Player2)
        } else if v & 0b0011_0011_0011_0000 == 0b0010_0010_0010_0000 {
            Some(Player::Player1)
        } else if v & 0b11_0000_0011_0000_0011 == 0b11_0000_0011_0000_0011 {
            Some(Player::Player2)
        } else if v & 0b11_0000_0011_0000_0011 == 0b10_0000_0010_0000_0010 {
            Some(Player::Player1)
        } else {
            None
        }
    }

    /// Whether anyone has three in a row.
    pub fn has_winner(&self) -> (r: bool)
        ensures
            r == (winner_spec(self.0) is Some),
    {
        self.calc_winner().is_some()
    }

    /// The free cells, as flattened indices in ascending order.
    #[verifier::loop_isolation(false)]
    pub fn iter_moves(&self) -> (r: Vec<usize>)
        ensures
            forall|t: int| 0 <= t < r@.len() ==> 0 <= #[trigger] r@[t] < 9,
            forall|t: int|
                0 <= t < r@.len() ==> cell_at(self.0, #[trigger] r@[t] as int) & 0b10 == 0,
            forall|i: int|
                0 <= i < 9 && cell_at(self.0, i) & 0b10 == 0 ==> exists|t: int|
                    0 <= t < r@.len() && #[trigger] r@[t] == i,
    {
        let mut r: Vec<usize> = Vec::new();
        let mut i: usize = 0;
        while i < 9
            invariant
                i <= 9,
                forall|t: int| 0 <= t < r@.len() ==> 0 <= #[trigger] r@[t] < i,
                forall|t: int|
                    0 <= t < r@.len() ==> cell_at(self.0, #[trigger] r@[t] as int) & 0b10 == 0,
                forall|i2: int|
                    0 <= i2 < i && cell_at(self.0, i2) & 0b10 == 0 ==> exists|t: int|
                        0 <= t < r@.len() && #[trigger] r@[t] == i2,
            decreases 9 - i,
        {
            let ghost r_old = r@;
            if self.is_available_1d(i) {
                r.push(i);
            }
            proof {
                assert forall|i2: int|
                    0 <= i2 < i + 1 && cell_at(self.0, i2) & 0b10 == 0 implies exists|t: int|
                    0 <= t < r@.len() && #[trigger] r@[t] == i2 by {
                    if i2 == i {
                        assert(r@[r@.len() - 1] == i);
                    } else {
                        let tw = choose|tw: int| 0 <= tw < r_old.len() && #[trigger] r_old[tw] == i2;
                        assert(r@[tw] == i2);
                    }
                }
            }
            i = i + 1;
        }
        r
    }

    /// The negamax value of placing `player` at flattened index `idx`,
    /// exploring `depth` further plies.
    #[verifier::loop_isolation(false)]
    pub fn evaluate_move_1d(&self, idx: usize, player: Player, depth: u32) -> (r: i64)
        requires
            idx < 9,
            depth <= 9,
        ensures
            r == eval_spec(self.0, idx as int, player, depth as nat),
        decreases depth,
    {
        proof {
            lemma_eval_bound(self.0, idx as int, player, depth as nat);
            lemma_bound9_cap(depth as nat);
        }
        let bits: u32 = match player.cell_state() {
            CellState::Free => 0b00,
            CellState::Player1 => 0b10,
            CellState::Player2 => 0b11,
        };
        let board2 = Board(self.0 | (bits << (2 * idx) as u32));
        match board2.calc_winner() {
            Some(w) => if w == player {
                1
            } else {
                -1
            },
            None => {
                if board2.is_full() {
                    0
                } else if depth == 0 {
                    0
                } else {
                    let other = player.other();
                    let mut sum: i64 = 0;
                    let mut i: usize = 0;
                    proof {
                        lemma_eval_sum_bound(board2.0, 0, other, (depth - 1) as nat);
                    }
                    while i < 9
                        invariant
                            i <= 9,
                            depth >= 1,
                            sum == eval_sum_spec(board2.0, 0, other, (depth - 1) as nat)
                                - eval_sum_spec(board2.0, i as int, other, (depth - 1) as nat),
                            -9 * bound9((depth - 1) as nat) <= sum <= 9 * bound9(
                                (depth - 1) as nat,
                            ),
                        decreases 9 - i,
                    {
                        proof {
                            lemma_eval_bound(board2.0, i as int, other, (depth - 1) as nat);
                            lemma_eval_sum_bound(
                                board2.0,
                                i as int,
                                other,
                                (depth - 1) as nat,
                            );
                            lemma_eval_sum_bound(
                                board2.0,
                                i as int + 1,
                                other,
                                (depth - 1) as nat,
                            );
                            lemma_bound9_cap((depth - 1) as nat);
                            lemma_sum_step_bound(board2.0, i as int, other, (depth - 1) as nat);
                        }
                        if board2.is_available_1d(i) {
                            let e = board2.evaluate_move_1d(i, other, depth - 1);
                            sum = sum + e;
                        }
                        i = i + 1;
                    }
                    -sum
                }
            },
        }
    }

    /// The negamax value of placing `player` at `(row, col)`, searched to
    /// the end of the board.
    pub fn evaluate_move(&self, row: usize, col: usize, player: Player) -> (r: i64)
        requires
            row < 3,
            col < 3,
        ensures
            r == eval_spec(self.0, (row + col * 3) as int, player, 9),
    {
        self.evaluate_move_1d(row + col * 3, player, 9)
    }

    /// The value of each free cell for `player`, as `((row, col), score)`
    /// pairs in the move finder's order.
    #[verifier::loop_isolation(false)]
    pub fn find_move_scores(
        self,
        move_calc: &mut crate::board::move_finder::BoardMoveFinder,
        player: Player,
    ) -> (r: Vec<((usize, usize), i64)>)
        requires
            board_inv(self.0),
        ensures
            r@.len() == moves_below(self.0, 9).len(),
            forall|t: int|
                0 <= t < r@.len() ==> (#[trigger] r@[t]).0 == moves_below(self.0, 9)[t],
            forall|t: int|
                0 <= t < r@.len() ==> (#[trigger] r@[t]).1 == listed_score(self.0, player, t),
            forall|t: int|
                0 <= t < r@.len() ==> {
                    let ((row, col), sc) = #[trigger] r@[t];
                    row < 3 && col < 3 && sc == eval_spec(self.0, row + col * 3, player, 9)
                },
    {
        let moves = move_calc.available_moves(self.0);
        let mut r: Vec<((usize, usize), i64)> = Vec::new();
        let mut t: usize = 0;
        while t < moves.len()
            invariant
                t <= moves@.len(),
                moves@ == moves_below(self.0, 9),
                r@.len() == t,
                forall|t2: int|
                    0 <= t2 < moves@.len() ==> (#[trigger] moves@[t2]).0 < 3 && moves@[t2].1 < 3,
                forall|t2: int|
                    0 <= t2 < r@.len() ==> (#[trigger] r@[t2]).0 == moves@[t2],
                forall|t2: int|
                    0 <= t2 < r@.len() ==> (#[trigger] r@[t2]).1 == listed_score(
                        self.0,
                        player,
                        t2,
                    ),
                forall|t2: int|
                    0 <= t2 < r@.len() ==> {
                        let ((row, col), sc) = #[trigger] r@[t2];
                        row < 3 && col < 3 && sc == eval_spec(self.0, row + col * 3, player, 9)
                    },
            decreases moves@.len() - t,
        {
            let (row, col) = moves[t];
            let sc = self.evaluate_move(row, col, player);
            r.push(((row, col), sc));
            t = t + 1;
        }
        r
    }

    /// The best-scored move under the fold rule: a strictly greater score
    /// replaces the running best, so the first of equals wins; with no
    /// moves the sentinel `(i32::MAX, i32::MAX)` and the minimum score
    /// remain.
    #[verifier::loop_isolation(false)]
    pub fn find_best_move_score(
        self,
        move_calc: &mut crate::board::move_finder::BoardMoveFinder,
        player: Player,
    ) -> (r: ((usize, usize), i64))
        requires
            board_inv(self.0),
        ensures
            r.0.0 < 3 && r.0.1 < 3 ==> r.1 == eval_spec(self.0, (r.0.0 + r.0.1 * 3) as int, player, 9),
            moves_below(self.0, 9).len() == 0 ==> r == (
                (0x7fff_ffff as usize, 0x7fff_ffff as usize),
                i64::MIN,
            ),
            // the best-scored listed move, the first of equals winning
            moves_below(self.0, 9).len() > 0 ==> exists|t: int|
                #![trigger moves_below(self.0, 9)[t]]
                {
                    &&& 0 <= t < moves_below(self.0, 9).len()
                    &&& r.0 == moves_below(self.0, 9)[t]
                    &&& r.1 == listed_score(self.0, player, t)
                    &&& (forall|t2: int|
                        0 <= t2 < moves_below(self.0, 9).len() ==> listed_score(
                            self.0,
                            player,
                            t2,
                        ) <= r.1)
                    &&& (forall|t2: int| 0 <= t2 < t ==> listed_score(self.0, player, t2) < r.1)
                },
    {
        let scores = self.find_move_scores(move_calc, player);
        let mut best_move: (usize, usize) = (0x7fff_ffff, 0x7fff_ffff);
        let mut best_score: i64 = i64::MIN;
        let ghost mut best_t: int = -1;
        let mut t: usize = 0;
        while t < scores.len()
            invariant
                t <= scores@.len(),
                scores@.len() == moves_below(self.0, 9).len(),
                forall|t2: int|
                    0 <= t2 < scores@.len() ==> (#[trigger] scores@[t2]).0 == moves_below(
                        self.0,
                        9,
                    )[t2],
                forall|t2: int|
                    0 <= t2 < scores@.len() ==> (#[trigger] scores@[t2]).1 == listed_score(
                        self.0,
                        player,
                        t2,
                    ),
                t == 0 ==> best_t == -1 && best_move == (
                    0x7fff_ffff as usize,
                    0x7fff_ffff as usize,
                ) && best_score == i64::MIN,
                t > 0 ==> {
                    &&& 0 <= best_t < t
                    &&& best_move == moves_below(self.0, 9)[best_t]
                    &&& best_score == listed_score(self.0, player, best_t)
                    &&& (forall|t2: int|
                        0 <= t2 < t ==> listed_score(self.0, player, t2) <= best_score)
                    &&& (forall|t2: int|
                        0 <= t2 < best_t ==> listed_score(self.0, player, t2) < best_score)
                },
            decreases scores@.len() - t,
        {
            proof {
                let m = moves_below(self.0, 9)[t as int];
                lemma_eval_bound(self.0, m.0 + m.1 * 3, player, 9);
                lemma_bound9_cap(9);
            }
            let ((row, col), sc) = scores[t];
            if sc > best_score {
                best_move = (row, col);
                best_score = sc;
                proof {
                    best_t = t as int;
                }
            }
            t = t + 1;
        }
        (best_move, best_score)
    }

    /// The move to play: the centre on an empty board, else the
    /// best-scored free cell, the first of equals; with none free, the
    /// out-of-range sentinel pair.
    pub fn find_best_move(self, player: Player) -> (r: (usize, usize))
        requires
            board_inv(self.0),
        ensures
            self.0 == 0 ==> r == ((1usize, 1usize)),
            self.0 != 0 && moves_below(self.0, 9).len() == 0 ==> r == ((
            0x7fff_ffff as usize,
            0x7fff_ffff as usize,
            )),
            self.0 != 0 && moves_below(self.0, 9).len() > 0 ==> exists|t: int|
                #![trigger moves_below(self.0, 9)[t]]
                {
                    &&& 0 <= t < moves_below(self.0, 9).len()
                    &&& r == moves_below(self.0, 9)[t]
                    &&& (forall|t2: int|
                        0 <= t2 < moves_below(self.0, 9).len() ==> listed_score(
                            self.0,
                            player,
                            t2,
                        ) <= listed_score(self.0, player, t))
                    &&& (forall|t2: int|
                        0 <= t2 < t ==> listed_score(self.0, player, t2) < listed_score(
                            self.0,
                            player,
                            t,
                        ))
                },
    {
        if self.is_empty() {
            return (1, 1);
        }
        let mut board_move_calc = crate::board::move_finder::BoardMoveFinder::new();
        let (best_move, _best_move_score) = self.find_best_move_score(&mut board_move_calc, player);
        best_move
    }
}

/// The running negamax sum stays within nine times the inner bound.
pub proof fn lemma_sum_step_bound(v: BoardState, i: int, player: Player, depth: nat)
    requires
        0 <= i < 9,
    ensures
        -9 * bound9(depth) <= eval_sum_spec(v, 0, player, depth) - eval_sum_spec(
            v,
            i + 1,
            player,
            depth,
        ) <= 9 * bound9(depth),
        -9 * bound9(depth) <= eval_sum_spec(v, 0, player, depth) - eval_sum_spec(
            v,
            i,
            player,
            depth,
        ) <= 9 * bound9(depth),
{
    lemma_bound9_pos(depth);
    lemma_prefix_sum_bound(v, i, player, depth);
    lemma_prefix_sum_bound(v, i + 1, player, depth);
    let b = bound9(depth);
    let s0 = eval_sum_spec(v, 0, player, depth);
    let si = eval_sum_spec(v, i, player, depth);
    let s1 = eval_sum_spec(v, i + 1, player, depth);
    assert(-9 * b <= s0 - s1 <= 9 * b && -9 * b <= s0 - si <= 9 * b) by (nonlinear_arith)
        requires
            0 <= i < 9,
            1 <= b,
            -i * b <= s0 - si <= i * b,
            -(i + 1) * b <= s0 - s1 <= (i + 1) * b,
    ;
}

/// The first `j` summands of the negamax sum stay within `j` bounds.
pub proof fn lemma_prefix_sum_bound(v: BoardState, j: int, player: Player, depth: nat)
    requires
        0 <= j <= 9,
    ensures
        -j * bound9(depth) <= eval_sum_spec(v, 0, player, depth) - eval_sum_spec(
            v,
            j,
            player,
            depth,
        ) <= j * bound9(depth),
    decreases j,
{
    lemma_bound9_pos(depth);
    let b = bound9(depth);
    if j > 0 {
        lemma_prefix_sum_bound(v, j - 1, player, depth);
        lemma_eval_bound(v, j - 1, player, depth);
        let h: int = if cell_at(v, j - 1) & 0b10 == 0 {
            eval_spec(v, j - 1, player, depth)
        } else {
            0
        };
        let s0 = eval_sum_spec(v, 0, player, depth);
        let sp = eval_sum_spec(v, j - 1, player, depth);
        let sj = eval_sum_spec(v, j, player, depth);
        assert(sp == h + sj);
        assert(-j * b <= s0 - sj <= j * b) by (nonlinear_arith)
            requires
                1 <= j <= 9,
                1 <= b,
                -b <= h <= b,
                sp == h + sj,
                -(j - 1) * b <= s0 - sp <= (j - 1) * b,
        ;
    }
}

/// The zero board has only free cells.
pub proof fn lemma_cells_of_zero()
    ensures
        board_inv(0),
        forall|i: int| 0 <= i < 9 ==> #[trigger] cell_at(0, i) == 0,
{
    assert forall|i: int| 0 <= i < 9 implies #[trigger] cell_at(0, i) == 0 by {
        let j = (2 * i) as u32;
        assert((0u32 >> j) & 0b11 == 0) by (bit_vector);
    }
}

/// Writing one cell's bits changes that cell alone and keeps the board
/// within its eighteen bits.
pub proof fn lemma_cell_or(x: u32, v: u32, i: u32)
    requires
        x < 0x40000,
        v == 0b10 || v == 0b11,
        i < 9,
    ensures
        (x | (v << (2 * i))) < 0x40000,
        cell_at(x, i as int) == 0 ==> cell_at((x | (v << (2 * i))) as u32, i as int) == v,
        forall|j: int|
            0 <= j < 9 && j != i ==> #[trigger] cell_at((x | (v << (2 * i))) as u32, j) == cell_at(
                x,
                j,
            ),
{
    assert((x | (v << (2 * i))) < 0x40000 && ((x >> (2 * i)) & 0b11 == 0 ==> ((x | (v << (2 * i)))
        >> (2 * i)) & 0b11 == v)) by (bit_vector)
        requires
            x < 0x40000,
            v < 4,
            i < 9,
    ;
    assert forall|j: int| 0 <= j < 9 && j != i implies #[trigger] cell_at(
        (x | (v << (2 * i))) as u32,
        j,
    ) == cell_at(x, j) by {
        let k = j as u32;
        assert(((x | (v << (2 * i))) >> (2 * k)) & 0b11 == (x >> (2 * k)) & 0b11) by (bit_vector)
            requires
                v < 4,
                i < 9,
                k < 9,
                k != i,
        ;
    }
}

} // verus!
