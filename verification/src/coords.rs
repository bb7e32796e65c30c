//! The mapping between move indices and 9x9 board coordinates.  A move
//! `k` in `[0, 81)` belongs to sub-board `k / 9` (column-major in the
//! super-grid) and to intra-board cell `k % 9` (column-major in the
//! sub-board).
use vstd::prelude::*;

verus! {

/// The row of move `k` on the 9x9 board.
pub open spec fn spec_row_of(k: int) -> int {
    (k / 9) % 3 * 3 + (k % 9) % 3
}

/// The column of move `k` on the 9x9 board.
pub open spec fn spec_col_of(k: int) -> int {
    (k / 9) / 3 * 3 + (k % 9) / 3
}

/// The move index of the cell at `(row, col)`.
pub open spec fn spec_move_of(row: int, col: int) -> int {
    ((row / 3) + (col / 3) * 3) * 9 + ((row % 3) + (col % 3) * 3)
}

/// The `(row, col)` coordinate of move `k`.
pub fn move_to_rc(k: u8) -> (r: (u8, u8))
    requires
        k < 81,
    ensures
        r.0 == spec_row_of(k as int),
        r.1 == spec_col_of(k as int),
        r.0 < 9 && r.1 < 9,
        spec_move_of(r.0 as int, r.1 as int) == k,
{
    let sub = k / 9;
    let intra = k % 9;
    ((sub % 3) * 3 + intra % 3, (sub / 3) * 3 + intra / 3)
}

/// The move index of the cell at `(row, col)`.
pub fn rc_to_move(row: u8, col: u8) -> (r: u8)
    requires
        row < 9,
        col < 9,
    ensures
        r == spec_move_of(row as int, col as int),
        r < 81,
        spec_row_of(r as int) == row,
        spec_col_of(r as int) == col,
{
    ((row / 3) + (col / 3) * 3) * 9 + ((row % 3) + (col % 3) * 3)
}

/// Law: the two mappings are mutual inverses between moves in `[0, 81)`
/// and coordinates in `[0, 9) x [0, 9)`.
pub proof fn lemma_move_rc_bijection(k: int, row: int, col: int)
    requires
        0 <= k < 81,
        0 <= row < 9,
        0 <= col < 9,
    ensures
        spec_move_of(spec_row_of(k), spec_col_of(k)) == k,
        spec_row_of(spec_move_of(row, col)) == row,
        spec_col_of(spec_move_of(row, col)) == col,
        0 <= spec_move_of(row, col) < 81,
        0 <= spec_row_of(k) < 9 && 0 <= spec_col_of(k) < 9,
{
}

} // verus!
