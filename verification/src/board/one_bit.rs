//! A 9-bit mask over one 3x3 board, column-major: bit `i` says that cell
//! `i` is claimed.  Three in a row is detected against the eight line masks.
use vstd::prelude::*;
use crate::types::BoardState;

verus! {

/// Three in a row on a 9-bit board: one of the three columns, three rows or
/// two diagonals is fully claimed.  Cells are column-major, `i = row + 3*col`.
pub open spec fn wins9(s: u32) -> bool {
    ||| s & 0b000_000_111 == 0b000_000_111
    ||| s & 0b000_111_000 == 0b000_111_000
    ||| s & 0b111_000_000 == 0b111_000_000
    ||| s & 0b001_001_001 == 0b001_001_001
    ||| s & 0b010_010_010 == 0b010_010_010
    ||| s & 0b100_100_100 == 0b100_100_100
    ||| s & 0b100_010_001 == 0b100_010_001
    ||| s & 0b001_010_100 == 0b001_010_100
}

/// One bit per cell of a single 3x3 board.
#[derive(Debug, Clone, Copy, PartialEq, Eq, Structural)]
pub struct OneBitBoard(pub BoardState);

impl OneBitBoard {
    /// The raw 9-bit mask, as a spec value.
    pub open spec fn spec_get(self) -> BoardState {
        self.0
    }

    /// Only the nine cell bits may be set.
    pub open spec fn inv(self) -> bool {
        self.0 < 512
    }

    /// Keep the nine cell bits of `state` and discard the rest.
    pub fn new(state: BoardState) -> (r: OneBitBoard)
        ensures
            r.0 == state & 0x1FF,
            r.inv(),
    {
        proof {
            assert(state & 0x1FF < 512) by (bit_vector);
        }
        OneBitBoard(state & 0x1FF)
    }

    /// The fully claimed board.
    pub fn new_full() -> (r: OneBitBoard)
        ensures
            r.0 == 0x1FF,
            r.inv(),
    {
        OneBitBoard(0x1FF)
    }

    /// Whether any winning line is fully claimed.
    pub fn has_won(&self) -> (r: bool)
        ensures
            r == wins9(self.0),
    {
        let s = self.0;
        s & 0b000_000_111 == 0b000_000_111 || s & 0b000_111_000 == 0b000_111_000 || s
            & 0b111_000_000 == 0b111_000_000 || s & 0b001_001_001 == 0b001_001_001 || s
            & 0b010_010_010 == 0b010_010_010 || s & 0b100_100_100 == 0b100_100_100 || s
            & 0b100_010_001 == 0b100_010_001 || s & 0b001_010_100 == 0b001_010_100
    }

    /// Claim cell `cell`.
    pub fn set_cell(&mut self, cell: u8)
        requires
            cell < 9,
        ensures
            final(self).0 == old(self).0 | (1u32 << (cell as u32)),
            old(self).inv() ==> final(self).inv(),
    {
        proof {
            let s = self.0;
            let c = cell as u32;
            assert(s < 512 && c < 9 ==> (s | (1u32 << c)) < 512) by (bit_vector);
        }
        self.0 = self.0 | (1u32 << (cell as u32));
    }

    /// The raw 9-bit mask.
    pub fn get(&self) -> (r: BoardState)
        ensures
            r == self.0,
    {
        self.0
    }
}

} // verus!
