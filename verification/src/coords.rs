//! The coordinate mapper: conversions between the linear cell index (0..81),
//! 1-based (row, column) pairs, and the 3x3 block a cell belongs to.

use vstd::prelude::*;
use vstd::arithmetic::div_mod::{lemma_fundamental_div_mod, lemma_fundamental_div_mod_converse};

verus! {

/// A 1-based (row, column) pair.
#[derive(Copy, Clone, PartialEq, Eq, Structural, Debug)]
pub struct Coord {
    pub row: u8,
    pub col: u8,
}

/// Rows and columns are 1-based, each in 1..=9.
pub open spec fn valid_coord(row: int, col: int) -> bool {
    1 <= row <= 9 && 1 <= col <= 9
}

/// The linear index of the cell at (row, col): row-major over the 81 cells.
pub open spec fn spec_index_of(row: int, col: int) -> int {
    (row - 1) * 9 + (col - 1)
}

/// The row of the cell with the given linear index.
pub open spec fn spec_row_of(index: int) -> int {
    index / 9 + 1
}

/// The column of the cell with the given linear index.
pub open spec fn spec_col_of(index: int) -> int {
    index % 9 + 1
}

/// The row of the top-left corner of the block containing the given row.
pub open spec fn block_start_row(row: int) -> int {
    ((row - 1) / 3) * 3 + 1
}

/// The column of the top-left corner of the block containing the given column.
pub open spec fn block_start_col(col: int) -> int {
    ((col - 1) / 3) * 3 + 1
}

/// The linear index of the cell at position `k` (0..9, row-major) of the
/// block containing (row, col).
pub open spec fn block_cell(row: int, col: int, k: int) -> int {
    spec_index_of(block_start_row(row) + k / 3, block_start_col(col) + k % 3)
}

/// The position of the cell (row, col) inside its own block group.
pub open spec fn block_pos(row: int, col: int) -> int {
    (row - block_start_row(row)) * 3 + (col - block_start_col(col))
}

/// Two cells lie in the same 3x3 block.
pub open spec fn same_block(r1: int, c1: int, r2: int, c2: int) -> bool {
    (r1 - 1) / 3 == (r2 - 1) / 3 && (c1 - 1) / 3 == (c2 - 1) / 3
}

/// The linear index of the cell at (row, col).
pub fn index_of(row: u8, col: u8) -> (r: usize)
    requires
        valid_coord(row as int, col as int),
    ensures
        r == spec_index_of(row as int, col as int),
        r < 81,
{
    ((row - 1) * 9 + col - 1) as usize
}

/// The (row, column) pair of the cell with the given linear index.
pub fn coord(index: usize) -> (r: Coord)
    requires
        index < 81,
    ensures
        r.row == spec_row_of(index as int),
        r.col == spec_col_of(index as int),
        valid_coord(r.row as int, r.col as int),
{
    proof {
        lemma_fundamental_div_mod(index as int, 9);
    }
    let row = (index / 9) as u8 + 1;
    let col = (index % 9) as u8 + 1;
    Coord { row, col }
}

/// Round-trip: mapping an index to its (row, column) pair and back yields the
/// same index, and the pair is a valid coordinate.
pub proof fn lemma_index_of_coord(index: int)
    requires
        0 <= index < 81,
    ensures
        spec_index_of(spec_row_of(index), spec_col_of(index)) == index,
        valid_coord(spec_row_of(index), spec_col_of(index)),
{
    lemma_fundamental_div_mod(index, 9);
}

/// Round-trip: the cell at (row, col) has linear index `spec_index_of(row, col)`,
/// and that index maps back to exactly (row, col).
pub proof fn lemma_coord_of_index(row: int, col: int)
    requires
        valid_coord(row, col),
    ensures
        0 <= spec_index_of(row, col) < 81,
        spec_row_of(spec_index_of(row, col)) == row,
        spec_col_of(spec_index_of(row, col)) == col,
{
    lemma_fundamental_div_mod_converse(spec_index_of(row, col), 9, row - 1, col - 1);
}

/// Distinct coordinates have distinct linear indices.
pub proof fn lemma_index_of_injective(r1: int, c1: int, r2: int, c2: int)
    requires
        valid_coord(r1, c1),
        valid_coord(r2, c2),
        spec_index_of(r1, c1) == spec_index_of(r2, c2),
    ensures
        r1 == r2 && c1 == c2,
{
    lemma_coord_of_index(r1, c1);
    lemma_coord_of_index(r2, c2);
}

/// Position `k` of the block of (row, col) is a valid cell of the grid and
/// lies in the same block as (row, col).
pub proof fn lemma_block_cell_valid(row: int, col: int, k: int)
    requires
        valid_coord(row, col),
        0 <= k < 9,
    ensures
        valid_coord(block_start_row(row) + k / 3, block_start_col(col) + k % 3),
        0 <= block_cell(row, col, k) < 81,
        same_block(row, col, block_start_row(row) + k / 3, block_start_col(col) + k % 3),
{
    lemma_fundamental_div_mod(k, 3);
    let br = (row - 1) / 3;
    let bc = (col - 1) / 3;
    lemma_fundamental_div_mod(row - 1, 3);
    lemma_fundamental_div_mod(col - 1, 3);
    // The row of the block cell, minus 1, is br * 3 + k / 3, so its block row is br.
    lemma_fundamental_div_mod_converse(br * 3 + k / 3, 3, br, k / 3);
    lemma_fundamental_div_mod_converse(bc * 3 + k % 3, 3, bc, k % 3);
    lemma_coord_of_index(block_start_row(row) + k / 3, block_start_col(col) + k % 3);
}

/// The block group of (row, col) contains the cell at (row, col) itself, at
/// position `block_pos(row, col)`.
pub proof fn lemma_block_pos(row: int, col: int)
    requires
        valid_coord(row, col),
    ensures
        0 <= block_pos(row, col) < 9,
        block_cell(row, col, block_pos(row, col)) == spec_index_of(row, col),
{
    let dr = row - block_start_row(row);
    let dc = col - block_start_col(col);
    lemma_fundamental_div_mod(row - 1, 3);
    lemma_fundamental_div_mod(col - 1, 3);
    lemma_fundamental_div_mod_converse(dr * 3 + dc, 3, dr, dc);
}

/// Distinct positions of one block group are distinct cells of the grid.
pub proof fn lemma_block_cell_injective(row: int, col: int, k1: int, k2: int)
    requires
        valid_coord(row, col),
        0 <= k1 < 9,
        0 <= k2 < 9,
        k1 != k2,
    ensures
        block_cell(row, col, k1) != block_cell(row, col, k2),
{
    lemma_fundamental_div_mod(k1, 3);
    lemma_fundamental_div_mod(k2, 3);
    lemma_block_cell_valid(row, col, k1);
    lemma_block_cell_valid(row, col, k2);
    if block_cell(row, col, k1) == block_cell(row, col, k2) {
        lemma_index_of_injective(
            block_start_row(row) + k1 / 3,
            block_start_col(col) + k1 % 3,
            block_start_row(row) + k2 / 3,
            block_start_col(col) + k2 % 3,
        );
    }
}

/// The nine blocks partition the 81 cells: the block group of (r1, c1)
/// contains the cell at (r2, c2) exactly when the two coordinates lie in the
/// same 3x3 block.
pub proof fn lemma_blocks_partition(r1: int, c1: int, r2: int, c2: int)
    requires
        valid_coord(r1, c1),
        valid_coord(r2, c2),
    ensures
        (exists|k: int| 0 <= k < 9 && block_cell(r1, c1, k) == spec_index_of(r2, c2))
            <==> same_block(r1, c1, r2, c2),
{
    if same_block(r1, c1, r2, c2) {
        let k = block_pos(r2, c2);
        lemma_block_pos(r2, c2);
        assert(block_cell(r1, c1, k) == spec_index_of(r2, c2));
    }
    if exists|k: int| 0 <= k < 9 && block_cell(r1, c1, k) == spec_index_of(r2, c2) {
        let k = choose|k: int| 0 <= k < 9 && block_cell(r1, c1, k) == spec_index_of(r2, c2);
        lemma_block_cell_valid(r1, c1, k);
        lemma_index_of_injective(
            block_start_row(r1) + k / 3,
            block_start_col(c1) + k % 3,
            r2,
            c2,
        );
    }
}

} // verus!
