//! The 81-cell occupancy mask of the nested board: one bit per cell in
//! board-major order (nine consecutive bits per sub-board, sub-boards and
//! cells both column-major), packed low in a 128-bit word.
use vstd::prelude::*;
use crate::bitops::{
    bit128, popcnt128, popcnt_low, lemma_bit_and128, lemma_bit_or128, lemma_bit_block,
    lemma_bit_single, lemma_bit_complement_grid, lemma_popcnt_low_le, GRID_MASK,
};

verus! {

/// Bits of `GRID_MASK`, read bit by bit.
pub proof fn lemma_bit_grid()
    ensures
        forall|i: int| 0 <= i < 128 ==> #[trigger] bit128(GRID_MASK, i) == (i < 81),
{
    assert forall|i: int| 0 <= i < 128 implies #[trigger] bit128(GRID_MASK, i) == (i < 81) by {
        let j = i as u128;
        assert(j < 128 ==> (((0x1_FFFF_FFFF_FFFF_FFFF_FFFFu128 >> j) & 1 == 1) <==> j < 81))
            by (bit_vector);
    }
}

/// The grid mask holds exactly its 81 cell bits.
pub proof fn lemma_popcnt_grid()
    ensures
        crate::bitops::popcnt128(GRID_MASK) == 81,
{
    lemma_bit_grid();
    crate::bitops::lemma_popcnt128_is_low(GRID_MASK);
    crate::bitops::lemma_popcnt_high_zero(GRID_MASK, 81);
    crate::bitops::lemma_popcnt_low_all(GRID_MASK, 81);
}

/// Concatenate two mask tables.
pub fn const_concat(a: &[u32], b: &[u32]) -> (r: Vec<u32>)
    ensures
        r@ == a@ + b@,
{
    let mut both: Vec<u32> = Vec::new();
    let mut i: usize = 0;
    while i < a.len()
        invariant
            i <= a.len(),
            both@ == a@.subrange(0, i as int),
        decreases a.len() - i,
    {
        both.push(a[i]);
        i = i + 1;
    }
    assert(both@ == a@);
    i = 0;
    while i < b.len()
        invariant
            i <= b.len(),
            both@ == a@ + b@.subrange(0, i as int),
        decreases b.len() - i,
    {
        both.push(b[i]);
        i = i + 1;
    }
    assert(b@.subrange(0, b@.len() as int) == b@);
    both
}

/// One bit per cell of the 81-cell nested board, board-major.
#[derive(Debug, Clone, Copy, PartialEq, Eq, Hash, Structural)]
pub struct BoardMajorBitset(pub u128);

impl BoardMajorBitset {
    /// The raw 81-bit word, as a spec value.
    pub open spec fn spec_get(self) -> u128 {
        self.0
    }

    /// Only the 81 cell bits may be set.
    pub open spec fn inv(self) -> bool {
        forall|i: int| #[trigger] bit128(self.0, i) ==> i < 81
    }

    /// Keep the 81 cell bits of the given word and discard the rest.
    pub fn new_truncated(board_col_major_indices: u128) -> (r: BoardMajorBitset)
        ensures
            r.0 == board_col_major_indices & GRID_MASK,
            r.inv(),
    {
        proof {
            lemma_bit_and128(board_col_major_indices, GRID_MASK);
            lemma_bit_grid();
        }
        BoardMajorBitset(board_col_major_indices & GRID_MASK)
    }

    /// The mask holding all nine cells of sub-board `board_idx`.
    pub fn new_full_board(board_idx: usize) -> (r: BoardMajorBitset)
        requires
            board_idx < 9,
        ensures
            r.0 == (0x1FFu128 << (9 * board_idx)),
            r.inv(),
    {
        proof {
            lemma_bit_block(board_idx as u128);
        }
        BoardMajorBitset(0x1FFu128 << (9 * board_idx))
    }

    /// The raw 81-bit word.
    pub fn get(&self) -> (r: u128)
        ensures
            r == self.0,
    {
        self.0
    }

    /// Whether no cell is set.
    pub fn is_empty(&self) -> (r: bool)
        ensures
            r == (self.0 == 0),
    {
        self.0 == 0
    }

    /// Set all nine cells of sub-board `board_idx`.
    pub fn fill_board(&mut self, board_idx: usize)
        requires
            board_idx < 9,
        ensures
            final(self).0 == old(self).0 | (0x1FFu128 << (9 * board_idx)),
            old(self).inv() ==> final(self).inv(),
    {
        proof {
            lemma_bit_or128(self.0, 0x1FFu128 << (9 * board_idx));
            lemma_bit_block(board_idx as u128);
        }
        self.0 = self.0 | (0x1FFu128 << (9 * board_idx));
    }

    /// Whether all nine cells of sub-board `board_idx` are set.
    pub fn is_board_full(&self, board_idx: usize) -> (r: bool)
        requires
            board_idx < 9,
        ensures
            r == (self.0 & (0x1FFu128 << (9 * board_idx)) == (0x1FFu128 << (9 * board_idx))),
    {
        let board_full_mask = 0x1FFu128 << (9 * board_idx);
        self.0 & board_full_mask == board_full_mask
    }

    /// Set the cell bit of move `move_`.
    pub fn apply_move(&mut self, move_: u8)
        requires
            move_ < 81,
        ensures
            final(self).0 == old(self).0 | (1u128 << (move_ as u128)),
            old(self).inv() ==> final(self).inv(),
    {
        proof {
            lemma_bit_or128(self.0, 1u128 << (move_ as u128));
            lemma_bit_single(move_ as u128);
        }
        self.0 = self.0 | (1u128 << (move_ as u128));
    }

    /// Clear the lowest set cell bit.
    pub fn unset_least_signifiact_one(&mut self)
        requires
            old(self).0 != 0,
        ensures
            final(self).0 == old(self).0 & ((old(self).0 - 1) as u128),
    {
        self.0 = self.0 & (self.0 - 1);
    }

    /// The set cells, in ascending order: element `j` is the cell whose rank
    /// among the set bits is exactly `j`.
    pub fn iter_moves(&self) -> (r: Vec<u8>)
        ensures
            r@.len() == popcnt128(self.0),
            forall|j: int| 0 <= j < r@.len() ==> bit128(self.0, #[trigger] r@[j] as int)
                && popcnt_low(self.0, r@[j] as nat) == j,
    {
        proof {
            reveal(crate::bitops::popcnt_low);
            reveal(crate::bitops::popcnt128);
        }
        let x = self.0;
        let mut r: Vec<u8> = Vec::new();
        let mut i: u32 = 0;
        while i < 128
            invariant
                i <= 128,
                x == self.0,
                r@.len() == popcnt_low(x, i as nat),
                forall|j: int| 0 <= j < r@.len() ==> bit128(x, #[trigger] r@[j] as int)
                    && popcnt_low(x, r@[j] as nat) == j && r@[j] < i,
            decreases 128 - i,
        {
            proof {
                reveal(crate::bitops::popcnt_low);
                lemma_popcnt_low_le(x, i as nat);
            }
            if (x >> (i as u128)) & 1 == 1 {
                r.push(i as u8);
            }
            i = i + 1;
        }
        r
    }

    /// The nine cells of sub-board `board_idx`, as a single-board mask.
    pub fn get_sub_board(&self, board_idx: u8) -> (r: crate::board::one_bit::OneBitBoard)
        requires
            board_idx < 9,
        ensures
            r.0 == crate::bitops::block9(self.0, board_idx as int),
    {
        crate::board::one_bit::OneBitBoard::new((self.0 >> ((9 * board_idx) as u128)) as u32)
    }

    /// All 81 cells not set in `self`.
    pub fn complement(&self) -> (r: BoardMajorBitset)
        ensures
            r.0 == !self.0 & GRID_MASK,
            r.inv(),
            forall|i: int| 0 <= i < 128 ==> #[trigger] bit128(r.0, i) == (i < 81 && !bit128(
                self.0,
                i,
            )),
    {
        proof {
            lemma_bit_complement_grid(self.0);
        }
        BoardMajorBitset(!self.0 & GRID_MASK)
    }

    /// Cells set in both masks.
    pub fn intersect(&self, other: &BoardMajorBitset) -> (r: BoardMajorBitset)
        ensures
            r.0 == self.0 & other.0,
            forall|i: int| 0 <= i < 128 ==> #[trigger] bit128(r.0, i) == (bit128(self.0, i)
                && bit128(other.0, i)),
            self.inv() ==> r.inv(),
    {
        proof {
            lemma_bit_and128(self.0, other.0);
        }
        BoardMajorBitset(self.0 & other.0)
    }

    /// Cells set in either mask.
    pub fn union(&self, other: &BoardMajorBitset) -> (r: BoardMajorBitset)
        ensures
            r.0 == self.0 | other.0,
            forall|i: int| 0 <= i < 128 ==> #[trigger] bit128(r.0, i) == (bit128(self.0, i)
                || bit128(other.0, i)),
            self.inv() && other.inv() ==> r.inv(),
    {
        proof {
            lemma_bit_or128(self.0, other.0);
        }
        BoardMajorBitset(self.0 | other.0)
    }
}

} // verus!
