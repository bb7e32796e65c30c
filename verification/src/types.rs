//! Shared scalar types: the 2-bit-per-cell single-board word, cell contents,
//! and the two players.
use vstd::prelude::*;

verus! {

/// A single 3x3 board packed two bits per cell, column-major.
pub type BoardState = u32;

/// Contents of one cell of a single board.
#[derive(Debug, Clone, Copy, PartialEq, Eq, Structural)]
pub enum CellState {
    Free,
    Player1,
    Player2,
}

/// One of the two players.
#[derive(Debug, Clone, Copy, PartialEq, Eq, Hash, Structural)]
pub enum Player {
    Player1,
    Player2,
}

/// The 2-bit cell encoding: bit 1 = occupied, bit 0 = by player 2.
pub open spec fn cell_bits(c: CellState) -> u32 {
    match c {
        CellState::Free => 0b00,
        CellState::Player1 => 0b10,
        CellState::Player2 => 0b11,
    }
}

impl CellState {
    /// Decode a 2-bit cell value; `0b01` is not a valid encoding.
    pub fn from_bits(value: u32) -> (r: Option<CellState>)
        ensures
            r == (if value == 0b00 {
                Some(CellState::Free)
            } else if value == 0b10 {
                Some(CellState::Player1)
            } else if value == 0b11 {
                Some(CellState::Player2)
            } else {
                None::<CellState>
            }),
    {
        match value {
            0b00 => Some(CellState::Free),
            0b10 => Some(CellState::Player1),
            0b11 => Some(CellState::Player2),
            _ => None,
        }
    }
}

impl Player {
    /// The opponent of `self`, as a spec value.
    pub open spec fn spec_other(self) -> Player {
        match self {
            Player::Player1 => Player::Player2,
            Player::Player2 => Player::Player1,
        }
    }

    /// The cell marker this player leaves behind.
    pub fn cell_state(&self) -> (r: CellState)
        ensures
            r == (match self {
                Player::Player1 => CellState::Player1,
                Player::Player2 => CellState::Player2,
            }),
    {
        match self {
            Player::Player1 => CellState::Player1,
            Player::Player2 => CellState::Player2,
        }
    }

    /// The opponent of `self`.
    pub fn other(&self) -> (r: Player)
        ensures
            r == self.spec_other(),
    {
        match self {
            Player::Player1 => Player::Player2,
            Player::Player2 => Player::Player1,
        }
    }
}

} // verus!
