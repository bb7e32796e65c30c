//! Lists the free cells of a single 3x3 board as `(row, col)` pairs, by
//! compressing the occupancy bits to the low nine positions first.
use vstd::prelude::*;
use crate::bitops::{bit32, get_availble_bits_contiguous_fallback};
use crate::board::{Board, cell_at};
use crate::types::BoardState;

verus! {

/// Finds the free cells of a single board.
#[derive(Debug, Clone, Copy)]
pub struct BoardMoveFinder {
    /// Scratch marker; the finder itself is stateless.
    pub scratch: u8,
}

impl BoardMoveFinder {
    /// A fresh move finder.
    pub fn new() -> (r: BoardMoveFinder) {
        BoardMoveFinder { scratch: 0 }
    }

    /// The free cells of `board_state`, column-major ascending, as
    /// `(row, col)` pairs.
    #[verifier::loop_isolation(false)]
    #[verifier::rlimit(60)]
    pub fn available_moves(&mut self, board_state: BoardState) -> (r: Vec<(usize, usize)>)
        ensures
            r@ == crate::board::moves_below(board_state, 9),
            forall|t: int|
                0 <= t < r@.len() ==> (#[trigger] r@[t]).0 < 3 && r@[t].1 < 3,
            forall|t: int|
                0 <= t < r@.len() ==> cell_at(
                    board_state,
                    (#[trigger] r@[t]).0 + r@[t].1 * 3,
                ) & 0b10 == 0,
            forall|i: int|
                0 <= i < 9 && cell_at(board_state, i) & 0b10 == 0 ==> exists|t: int|
                    0 <= t < r@.len() && #[trigger] r@[t] == (((i % 3) as usize, (i / 3) as usize)),
    {
        let available = get_availble_bits_contiguous_fallback(board_state);
        let mut r: Vec<(usize, usize)> = Vec::new();
        let mut i: usize = 0;
        while i < 9
            invariant
                i <= 9,
                r@ == crate::board::moves_below(board_state, i as int),
                available == crate::bitops::free_cells_contiguous(board_state),
                available < 512,
                forall|j: int|
                    0 <= j < 9 ==> #[trigger] bit32(available, j) == !bit32(
                        board_state,
                        2 * j + 1,
                    ),
                forall|t: int|
                    0 <= t < r@.len() ==> (#[trigger] r@[t]).0 < 3 && r@[t].1 < 3,
                forall|t: int|
                    0 <= t < r@.len() ==> cell_at(
                        board_state,
                        (#[trigger] r@[t]).0 + r@[t].1 * 3,
                    ) & 0b10 == 0,
                forall|i2: int|
                    0 <= i2 < i && cell_at(board_state, i2) & 0b10 == 0 ==> exists|t: int|
                        0 <= t < r@.len() && #[trigger] r@[t] == (((i2 % 3) as usize, (
                        i2 / 3) as usize)),
            decreases 9 - i,
        {
            proof {
                lemma_free_bit_is_free_cell(board_state, i as u32);
                assert(bit32(available, i as int) == ((available >> (i as u32)) & 1 == 1));
            }
            let ghost r_old = r@;
            if (available >> (i as u32)) & 1 == 1 {
                r.push((i % 3, i / 3));
                proof {
                    assert((i % 3) + (i / 3) * 3 == i);
                    assert(r@ =~= crate::board::moves_below(board_state, i + 1));
                }
            } else {
                proof {
                    assert(bit32(board_state, 2 * (i as int) + 1));
                    assert(r@ =~= crate::board::moves_below(board_state, i + 1));
                }
            }
            proof {
                assert forall|i2: int|
                    0 <= i2 < i + 1 && cell_at(board_state, i2) & 0b10 == 0 implies exists|t: int|
                    0 <= t < r@.len() && #[trigger] r@[t] == (((i2 % 3) as usize, (
                    i2 / 3) as usize)) by {
                    if i2 == i {
                        assert(r@[r@.len() - 1] == (((i % 3) as usize, (i / 3) as usize)));
                        assert((i2 % 3) as usize == (i % 3) as usize && (i2 / 3) as usize == (
                        i / 3) as usize);
                    } else {
                        let tw = choose|tw: int|
                            0 <= tw < r_old.len() && #[trigger] r_old[tw] == (((i2 % 3) as usize, (
                            i2 / 3) as usize));
                        assert(r@[tw] == (((i2 % 3) as usize, (i2 / 3) as usize)));
                    }
                }
            }
            i = i + 1;
        }
        r
    }
}

/// The occupied bit of cell `i` is bit `2 * i + 1` of the board word.
proof fn lemma_free_bit_is_free_cell(v: BoardState, i: u32)
    requires
        i < 9,
    ensures
        bit32(v, 2 * i + 1) == (cell_at(v, i as int) & 0b10 != 0),
{
    assert(((v >> (2 * i + 1)) & 1 == 1) == (((v >> (2 * i)) & 0b11) & 0b10 != 0)) by (bit_vector)
        requires
            i < 9,
    ;
}

} // verus!
