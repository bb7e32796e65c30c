//! Step-by-step iteration over the free cells of a single 3x3 board: the
//! occupancy bits are compressed to the low nine positions and the lowest
//! set bit is peeled off at each step.
use vstd::prelude::*;
use crate::bitops::{bit32, popcnt_low, get_availble_bits_contiguous_fallback};
use crate::types::BoardState;

verus! {

/// Yields the free cells of a single board, lowest first.
#[derive(Debug, Clone, Copy)]
pub struct BoardMoveIter {
    /// The remaining free-cell bits, one bit per cell.
    pub is_available_bitset: BoardState,
}

impl BoardMoveIter {
    /// An iterator over the free cells of `board_state`.
    pub fn new(board_state: BoardState) -> (r: BoardMoveIter)
        ensures
            r.is_available_bitset == crate::bitops::free_cells_contiguous(board_state),
            r.is_available_bitset < 512,
    {
        let available_bits_contiguous = get_availble_bits_contiguous_fallback(board_state);
        BoardMoveIter { is_available_bitset: available_bits_contiguous }
    }

    /// The lowest remaining free cell, which is also removed; `None` once
    /// every free cell has been yielded.
    pub fn next(&mut self) -> (r: Option<usize>)
        requires
            old(self).is_available_bitset < 512,
        ensures
            final(self).is_available_bitset < 512,
            r is None <==> old(self).is_available_bitset == 0,
            r is Some ==> {
                let i = r.unwrap() as int;
                &&& 0 <= i < 9
                &&& bit32(old(self).is_available_bitset, i)
                &&& forall|j: int| 0 <= j < i ==> !bit32(old(self).is_available_bitset, j)
                &&& forall|j: int|
                    0 <= j < 32 ==> #[trigger] bit32(final(self).is_available_bitset, j) == (j != i
                        && bit32(old(self).is_available_bitset, j))
            },
    {
        if self.is_available_bitset == 0 {
            None
        } else {
            let available_cell_index = crate::bitops::trailing_zeros_fallback(
                self.is_available_bitset,
            );
            proof {
                lemma_clear_lowest(self.is_available_bitset, available_cell_index);
            }
            self.is_available_bitset = self.is_available_bitset & (self.is_available_bitset - 1);
            Some(available_cell_index as usize)
        }
    }
}

/// Clearing the lowest set bit clears exactly that bit, and a 9-bit word
/// keeps a set bit below position nine.
proof fn lemma_clear_lowest(v: u32, t: u32)
    requires
        v != 0,
        v < 512,
        t < 32,
        bit32(v, t as int),
        v == (v >> t) << t,
    ensures
        t < 9,
        (v & ((v - 1) as u32)) < 512,
        forall|j: int|
            0 <= j < 32 ==> #[trigger] bit32((v & ((v - 1) as u32)) as u32, j) == (j != t && bit32(
                v,
                j,
            )),
{
    assert(t < 9) by (bit_vector)
        requires
            v < 512,
            t < 32,
            (v >> t) & 1 == 1,
    ;
    assert((v & ((v - 1) as u32)) < 512) by (bit_vector)
        requires
            v < 512,
            v != 0,
    ;
    assert forall|j: int| 0 <= j < 32 implies #[trigger] bit32((v & ((v - 1) as u32)) as u32, j)
        == (j != t && bit32(v, j)) by {
        let k = j as u32;
        assert(((v & ((v - 1) as u32)) >> k) & 1 == (if k == t {
            0u32
        } else {
            (v >> k) & 1
        })) by (bit_vector)
            requires
                v != 0,
                k < 32,
                t < 32,
                (v >> t) & 1 == 1,
                v == (v >> t) << t,
        ;
    }
}

} // verus!
