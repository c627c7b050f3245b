//! The board: an exclusively-owned, fixed-size collection of 81 cells
//! addressed by linear index, with row/column/block extraction, the
//! remaining-cells counter, and the mutation protocol that applies or
//! rejects a player move.

use vstd::prelude::*;
use crate::cell::{Cell, cell_wf, cell_value, is_remaining};
use crate::check::{
    InvalidValueError, check_for_duplicate, first_duplicate, lemma_first_duplicate_correct,
    lemma_duplicate_detected, masked,
};
use crate::coords::{
    valid_coord, spec_index_of, block_start_row, block_start_col, block_cell, block_pos,
    same_block, index_of, lemma_coord_of_index, lemma_index_of_injective, lemma_block_cell_valid,
    lemma_block_pos, lemma_block_cell_injective, lemma_blocks_partition,
};
use crate::load::{
    BoardValue, InvalidBoardError, LoadErrorKind, all_ascii, spec_filtered, spec_board_of,
    spec_entries, load, lemma_filtered_valid, lemma_entries_wf, lemma_entries_complete,
};

verus! {

/// Some entry of the list names the cell with linear index `i`.
pub open spec fn has_entry(values: Seq<BoardValue>, i: int) -> bool {
    exists|j: int| 0 <= j < values.len() && (#[trigger] values[j]).index == i
}

/// A 9-cell row snapshot.
pub type Row = [Cell; 9];

/// A 9-cell column snapshot.
pub type Column = [Cell; 9];

/// A 9-cell block snapshot.
pub type Block = [Cell; 9];

/// The 9x9 grid, stored as a flat array of 81 cells in row-major order:
/// the cell at (row, col) lives at index `(row - 1) * 9 + (col - 1)`.
#[derive(Debug)]
pub struct Board {
    pub cells: [Cell; 81],
}

impl View for Board {
    type V = Seq<Cell>;

    open spec fn view(&self) -> Seq<Cell> {
        self.cells@
    }
}

/// The cells of the row group of `row`, in column order.
pub open spec fn spec_row(cells: Seq<Cell>, row: int) -> Seq<Cell> {
    Seq::new(9, |k: int| cells[spec_index_of(row, k + 1)])
}

/// The cells of the column group of `col`, in row order.
pub open spec fn spec_column(cells: Seq<Cell>, col: int) -> Seq<Cell> {
    Seq::new(9, |k: int| cells[spec_index_of(k + 1, col)])
}

/// The cells of the block group containing (row, col), in row-major order.
pub open spec fn spec_block(cells: Seq<Cell>, row: int, col: int) -> Seq<Cell> {
    Seq::new(9, |k: int| cells[block_cell(row, col, k)])
}

/// The number of cells not yet successfully resolved: empty cells and
/// conflicted entries count; given and filled cells do not.
pub open spec fn spec_remaining(cells: Seq<Cell>) -> int
    decreases cells.len(),
{
    if cells.len() == 0 {
        0
    } else {
        spec_remaining(cells.drop_last()) + if is_remaining(cells.last()) {
            1int
        } else {
            0int
        }
    }
}

/// Overwriting one cell changes the remaining count by the difference between
/// whether the new and the old contents count as remaining.
pub proof fn lemma_remaining_update(cells: Seq<Cell>, i: int, c: Cell)
    requires
        0 <= i < cells.len(),
    ensures
        spec_remaining(cells.update(i, c)) == spec_remaining(cells) - (if is_remaining(cells[i]) {
            1int
        } else {
            0int
        }) + (if is_remaining(c) {
            1int
        } else {
            0int
        }),
    decreases cells.len(),
{
    let updated = cells.update(i, c);
    if i == cells.len() - 1 {
        assert(updated.drop_last() =~= cells.drop_last());
    } else {
        assert(updated.drop_last() =~= cells.drop_last().update(i, c));
        lemma_remaining_update(cells.drop_last(), i, c);
    }
}

/// A move that fills a cell that still counted as remaining (empty or
/// conflicted) lowers the remaining count by exactly one.
pub proof fn lemma_remaining_after_success(cells: Seq<Cell>, i: int, val: u8)
    requires
        0 <= i < cells.len(),
        is_remaining(cells[i]),
    ensures
        spec_remaining(cells.update(i, Cell::User(val))) == spec_remaining(cells) - 1,
{
    lemma_remaining_update(cells, i, Cell::User(val));
}

/// A rejected move that marks a still-remaining cell as conflicted leaves the
/// remaining count unchanged: the cell counted before and still counts.
pub proof fn lemma_remaining_after_conflict(cells: Seq<Cell>, i: int, val: u8)
    requires
        0 <= i < cells.len(),
        is_remaining(cells[i]),
    ensures
        spec_remaining(cells.update(i, Cell::Error(val))) == spec_remaining(cells),
{
    lemma_remaining_update(cells, i, Cell::Error(val));
}

/// A value already present in another cell of the target's row is detected:
/// the masked row scan reports a conflict, and the cell it names is a
/// different cell of the row that holds the candidate value.
pub proof fn lemma_duplicate_in_row_rejected(
    cells: Seq<Cell>,
    row: int,
    col: int,
    val: u8,
    other_col: int,
)
    requires
        cells.len() == 81,
        valid_coord(row, col),
        valid_coord(row, other_col),
        other_col != col,
        cell_value(cells[spec_index_of(row, other_col)]) == Some(val),
    ensures
        ({
            let d = first_duplicate(masked(spec_row(cells, row), col - 1), val);
            &&& d is Some
            &&& d->0 + 1 != col
            &&& cell_value(cells[spec_index_of(row, d->0 + 1)]) == Some(val)
        }),
{
    let group = spec_row(cells, row);
    assert(group[other_col - 1] == cells[spec_index_of(row, other_col)]);
    lemma_duplicate_detected(group, col - 1, val);
}

/// A value already present in another cell of the target's column is
/// detected: the masked column scan reports a conflict, and the cell it
/// names is a different cell of the column that holds the candidate value.
pub proof fn lemma_duplicate_in_column_rejected(
    cells: Seq<Cell>,
    row: int,
    col: int,
    val: u8,
    other_row: int,
)
    requires
        cells.len() == 81,
        valid_coord(row, col),
        valid_coord(other_row, col),
        other_row != row,
        cell_value(cells[spec_index_of(other_row, col)]) == Some(val),
    ensures
        ({
            let d = first_duplicate(masked(spec_column(cells, col), row - 1), val);
            &&& d is Some
            &&& d->0 + 1 != row
            &&& cell_value(cells[spec_index_of(d->0 + 1, col)]) == Some(val)
        }),
{
    let group = spec_column(cells, col);
    assert(group[other_row - 1] == cells[spec_index_of(other_row, col)]);
    lemma_duplicate_detected(group, row - 1, val);
}

/// A value already present in another cell of the target's block is
/// detected: the masked block scan reports a conflict, and the cell it names
/// is a different cell of the same block that holds the candidate value.
pub proof fn lemma_duplicate_in_block_rejected(
    cells: Seq<Cell>,
    row: int,
    col: int,
    val: u8,
    other_row: int,
    other_col: int,
)
    requires
        cells.len() == 81,
        valid_coord(row, col),
        valid_coord(other_row, other_col),
        same_block(row, col, other_row, other_col),
        !(other_row == row && other_col == col),
        cell_value(cells[spec_index_of(other_row, other_col)]) == Some(val),
    ensures
        ({
            let d = first_duplicate(
                masked(spec_block(cells, row, col), block_pos(row, col)),
                val,
            );
            &&& d is Some
            &&& d->0 != block_pos(row, col)
            &&& block_cell(row, col, d->0) != spec_index_of(row, col)
            &&& cell_value(cells[block_cell(row, col, d->0)]) == Some(val)
        }),
{
    let group = spec_block(cells, row, col);
    let pos = block_pos(row, col);
    lemma_block_pos(row, col);
    lemma_blocks_partition(row, col, other_row, other_col);
    let k = choose|k: int|
        0 <= k < 9 && block_cell(row, col, k) == spec_index_of(other_row, other_col);
    assert(k != pos) by {
        if k == pos {
            lemma_index_of_injective(row, col, other_row, other_col);
        }
    }
    assert(cell_value(group[k]) == Some(val));
    lemma_duplicate_detected(group, pos, val);
    let d = first_duplicate(masked(group, pos), val);
    lemma_block_cell_injective(row, col, d->0, pos);
}

/// Idempotence of a successful move: when setting (row, col) to `val` passes
/// all three duplicate checks, the board that results from filling the cell
/// still passes them for the same move, so re-setting the same cell to the
/// same value succeeds again.
pub proof fn lemma_set_idempotent(cells: Seq<Cell>, row: int, col: int, val: u8)
    requires
        cells.len() == 81,
        valid_coord(row, col),
        1 <= val <= 9,
        !(cells[spec_index_of(row, col)] is Static),
        first_duplicate(masked(spec_row(cells, row), col - 1), val) is None,
        first_duplicate(masked(spec_column(cells, col), row - 1), val) is None,
        first_duplicate(masked(spec_block(cells, row, col), block_pos(row, col)), val) is None,
    ensures
        ({
            let updated = cells.update(spec_index_of(row, col), Cell::User(val));
            &&& !(updated[spec_index_of(row, col)] is Static)
            &&& first_duplicate(masked(spec_row(updated, row), col - 1), val) is None
            &&& first_duplicate(masked(spec_column(updated, col), row - 1), val) is None
            &&& first_duplicate(masked(spec_block(updated, row, col), block_pos(row, col)), val)
                is None
        }),
{
    let target = spec_index_of(row, col);
    let updated = cells.update(target, Cell::User(val));
    lemma_coord_of_index(row, col);
    lemma_block_pos(row, col);
    assert forall|k: int| 0 <= k < 9 && k != col - 1 implies spec_row(updated, row)[k] == spec_row(
        cells,
        row,
    )[k] by {
        if spec_index_of(row, k + 1) == target {
            lemma_index_of_injective(row, k + 1, row, col);
        } else {
            lemma_coord_of_index(row, k + 1);
        }
    }
    assert(masked(spec_row(updated, row), col - 1) =~= masked(spec_row(cells, row), col - 1));
    assert forall|k: int| 0 <= k < 9 && k != row - 1 implies spec_column(updated, col)[k]
        == spec_column(cells, col)[k] by {
        if spec_index_of(k + 1, col) == target {
            lemma_index_of_injective(k + 1, col, row, col);
        } else {
            lemma_coord_of_index(k + 1, col);
        }
    }
    assert(masked(spec_column(updated, col), row - 1) =~= masked(spec_column(cells, col), row - 1));
    assert forall|k: int| 0 <= k < 9 && k != block_pos(row, col) implies spec_block(
        updated,
        row,
        col,
    )[k] == spec_block(cells, row, col)[k] by {
        lemma_block_cell_valid(row, col, k);
        if block_cell(row, col, k) == target {
            lemma_block_cell_injective(row, col, k, block_pos(row, col));
        }
    }
    assert(masked(spec_block(updated, row, col), block_pos(row, col)) =~= masked(
        spec_block(cells, row, col),
        block_pos(row, col),
    ));
}

impl Board {
    /// Every cell of the grid is well formed: empty, or holding a value in 1..=9.
    pub open spec fn wf(&self) -> bool {
        &&& self@.len() == 81
        &&& forall|i: int| 0 <= i < 81 ==> cell_wf(#[trigger] self@[i])
    }

    /// An all-empty board.
    pub fn new() -> (r: Board)
        ensures
            r.wf(),
            forall|i: int| 0 <= i < 81 ==> r@[i] == Cell::Empty,
    {
        Board { cells: [Cell::Empty; 81] }
    }

    /// A board holding the given cells named by `values` — each a distinct
    /// cell index and a value in 1..=9 — with every other cell empty.
    pub fn from_values(values: &Vec<BoardValue>) -> (r: Board)
        requires
            forall|j: int| 0 <= j < values@.len() ==> (#[trigger] values@[j]).index < 81,
            forall|j: int| 0 <= j < values@.len() ==> 1 <= (#[trigger] values@[j]).value <= 9,
            forall|j1: int, j2: int|
                0 <= j1 < j2 < values@.len() ==> (#[trigger] values@[j1]).index != (
                #[trigger] values@[j2]).index,
        ensures
            r.wf(),
            forall|j: int| 0 <= j < values@.len() ==> r@[(#[trigger] values@[j]).index as int]
                == Cell::Static(values@[j].value),
            forall|i: int| 0 <= i < 81 && !has_entry(values@, i) ==> #[trigger] r@[i]
                == Cell::Empty,
    {
        let mut result = Board::new();
        let n = values.len();
        let mut j: usize = 0;
        while j < n
            invariant
                result.wf(),
                n == values@.len(),
                j <= n,
                forall|j2: int| 0 <= j2 < n ==> (#[trigger] values@[j2]).index < 81,
                forall|j2: int| 0 <= j2 < n ==> 1 <= (#[trigger] values@[j2]).value <= 9,
                forall|j1: int, j2: int|
                    0 <= j1 < j2 < n ==> (#[trigger] values@[j1]).index != (
                    #[trigger] values@[j2]).index,
                forall|j2: int| 0 <= j2 < j ==> result@[(#[trigger] values@[j2]).index as int]
                    == Cell::Static(values@[j2].value),
                forall|i: int|
                    0 <= i < 81 && !has_entry(values@.take(j as int), i) ==> #[trigger] result@[i]
                        == Cell::Empty,
            decreases n - j,
        {
            let bv = values[j];
            result.set_index(bv.index, Cell::Static(bv.value));
            proof {
                assert forall|i: int|
                    0 <= i < 81 && !has_entry(values@.take(j as int + 1), i) implies result@[i]
                    == Cell::Empty by {
                    assert(values@.take(j as int + 1)[j as int] == bv);
                    assert(!has_entry(values@.take(j as int), i)) by {
                        if has_entry(values@.take(j as int), i) {
                            let j2 = choose|j2: int|
                                0 <= j2 < j && (#[trigger] values@.take(j as int)[j2]).index == i;
                            assert(values@.take(j as int + 1)[j2].index == i);
                        }
                    }
                }
            }
            j += 1;
        }
        proof {
            assert(values@.take(n as int) =~= values@);
        }
        result
    }

    /// Parses a puzzle description and builds the board it describes: every
    /// digit of the filtered 81-byte stream becomes a given cell, every `'-'`
    /// an empty cell. On a malformed description the loader's error is
    /// returned and no board is produced.
    pub fn from_description(filename: &str, contents: &[u8]) -> (r: Result<Board, InvalidBoardError>)
        ensures
            match r {
                Ok(board) => {
                    &&& board.wf()
                    &&& all_ascii(contents@)
                    &&& spec_filtered(contents@).len() == 81
                    &&& board@ == spec_board_of(spec_filtered(contents@))
                },
                Err(e) => {
                    &&& e.filename@ == filename@
                    &&& match e.kind {
                        LoadErrorKind::NotAscii => !all_ascii(contents@),
                        LoadErrorKind::InvalidSize(n) => all_ascii(contents@) && spec_filtered(
                            contents@,
                        ).len() == n && n != 81,
                        LoadErrorKind::Io(_) => false,
                    }
                },
            },
    {
        let values = match load(filename, contents) {
            Ok(v) => v,
            Err(e) => {
                return Err(e);
            },
        };
        proof {
            lemma_filtered_valid(contents@);
            lemma_entries_wf(spec_filtered(contents@));
        }
        let board = Board::from_values(&values);
        proof {
            let f = spec_filtered(contents@);
            assert forall|i: int| 0 <= i < 81 implies board@[i] == spec_board_of(f)[i] by {
                lemma_entries_complete(f, i);
                if f[i] == 45 {
                    assert(!has_entry(values@, i));
                } else {
                    let j = choose|j: int|
                        0 <= j < spec_entries(f).len() && #[trigger] spec_entries(f)[j]
                            == (BoardValue { index: i as usize, value: (f[i] - 48) as u8 });
                    assert(board@[values@[j].index as int] == Cell::Static(values@[j].value));
                }
            }
            assert(board@ =~= spec_board_of(f));
        }
        Ok(board)
    }

    /// Unconditional overwrite of one cell; no validation. Used by the loader
    /// and by the mutator after its validation decisions are made.
    pub fn set_index(&mut self, index: usize, val: Cell)
        requires
            old(self).wf(),
            index < 81,
            cell_wf(val),
        ensures
            final(self).wf(),
            final(self)@ == old(self)@.update(index as int, val),
    {
        self.cells[index] = val;
    }

    /// A snapshot of row `row` (1-based), in column order.
    pub fn row(&self, row: u8) -> (r: Row)
        requires
            self.wf(),
            1 <= row <= 9,
        ensures
            r@ == spec_row(self@, row as int),
    {
        let mut result = [Cell::Empty; 9];
        let mut k: usize = 0;
        while k < 9
            invariant
                self.wf(),
                1 <= row <= 9,
                k <= 9,
                result@.len() == 9,
                forall|j: int| 0 <= j < k ==> result@[j] == spec_row(self@, row as int)[j],
            decreases 9 - k,
        {
            result[k] = self.cells[index_of(row, (k as u8) + 1)];
            k += 1;
        }
        proof {
            assert(result@ =~= spec_row(self@, row as int));
        }
        result
    }

    /// Snapshots of all nine rows, in row order.
    pub fn rows(&self) -> (r: [Row; 9])
        requires
            self.wf(),
        ensures
            forall|n: int| 0 <= n < 9 ==> #[trigger] r@[n]@ == spec_row(self@, n + 1),
    {
        [
            self.row(1),
            self.row(2),
            self.row(3),
            self.row(4),
            self.row(5),
            self.row(6),
            self.row(7),
            self.row(8),
            self.row(9),
        ]
    }

    /// A snapshot of column `col` (1-based), in row order.
    pub fn column(&self, col: u8) -> (r: Column)
        requires
            self.wf(),
            1 <= col <= 9,
        ensures
            r@ == spec_column(self@, col as int),
    {
        let mut result = [Cell::Empty; 9];
        let mut k: usize = 0;
        while k < 9
            invariant
                self.wf(),
                1 <= col <= 9,
                k <= 9,
                result@.len() == 9,
                forall|j: int| 0 <= j < k ==> result@[j] == spec_column(self@, col as int)[j],
            decreases 9 - k,
        {
            result[k] = self.cells[index_of((k as u8) + 1, col)];
            k += 1;
        }
        proof {
            assert(result@ =~= spec_column(self@, col as int));
        }
        result
    }

    /// A snapshot of the 3x3 block containing (row, col), in row-major order.
    pub fn block_for(&self, row: u8, col: u8) -> (r: Block)
        requires
            self.wf(),
            valid_coord(row as int, col as int),
        ensures
            r@ == spec_block(self@, row as int, col as int),
    {
        let start_row = ((row - 1) / 3) * 3 + 1;
        let start_col = ((col - 1) / 3) * 3 + 1;
        let mut result = [Cell::Empty; 9];
        let mut k: usize = 0;
        while k < 9
            invariant
                self.wf(),
                valid_coord(row as int, col as int),
                start_row as int == block_start_row(row as int),
                start_col as int == block_start_col(col as int),
                k <= 9,
                result@.len() == 9,
                forall|j: int| 0 <= j < k ==> result@[j] == spec_block(self@, row as int, col as int)[j],
            decreases 9 - k,
        {
            proof {
                lemma_block_cell_valid(row as int, col as int, k as int);
            }
            result[k] = self.cells[index_of(start_row + (k as u8) / 3, start_col + (k as u8) % 3)];
            k += 1;
        }
        proof {
            assert(result@ =~= spec_block(self@, row as int, col as int));
        }
        result
    }

    /// The player-visible progress counter: how many cells are still empty or
    /// conflicted.
    pub fn remaining(&self) -> (r: u8)
        requires
            self.wf(),
        ensures
            r as int == spec_remaining(self@),
    {
        let mut count: u8 = 0;
        let mut i: usize = 0;
        while i < 81
            invariant
                self.wf(),
                i <= 81,
                count <= i,
                count as int == spec_remaining(self@.take(i as int)),
            decreases 81 - i,
        {
            proof {
                assert(self@.take(i as int + 1).drop_last() =~= self@.take(i as int));
                assert(self@.take(i as int + 1).last() == self@[i as int]);
            }
            match self.cells[i] {
                Cell::Empty | Cell::Error(_) => {
                    count += 1;
                }
                _ => {}
            }
            i += 1;
        }
        proof {
            assert(self@.take(81) =~= self@);
        }
        count
    }

    /// The sole path by which a player changes the board. The target cell is
    /// rejected untouched when it is a given; otherwise the candidate value is
    /// validated against the target's row, then column, then block, each with
    /// the target's own position ignored. The first conflict found marks the
    /// target as conflicted and reports the conflicting cell; when all three
    /// checks pass the target is filled.
    pub fn set(&mut self, row: u8, col: u8, val: u8) -> (r: Result<(), InvalidValueError>)
        requires
            old(self).wf(),
            valid_coord(row as int, col as int),
            1 <= val <= 9,
        ensures
            final(self).wf(),
            ({
                let cells = old(self)@;
                let target = spec_index_of(row as int, col as int);
                let row_dup = first_duplicate(masked(spec_row(cells, row as int), col as int - 1), val);
                let col_dup = first_duplicate(masked(spec_column(cells, col as int), row as int - 1), val);
                let block_dup = first_duplicate(
                    masked(spec_block(cells, row as int, col as int), block_pos(row as int, col as int)),
                    val,
                );
                if cells[target] is Static {
                    &&& r == Err::<(), InvalidValueError>(InvalidValueError::StaticValue(target as usize))
                    &&& final(self)@ == cells
                } else if row_dup is Some {
                    &&& r == Err::<(), InvalidValueError>(
                        (InvalidValueError::DuplicateValue {
                            new: target as usize,
                            conflicting: spec_index_of(row as int, row_dup->0 + 1) as usize,
                        }),
                    )
                    &&& final(self)@ == cells.update(target, Cell::Error(val))
                } else if col_dup is Some {
                    &&& r == Err::<(), InvalidValueError>(
                        (InvalidValueError::DuplicateValue {
                            new: target as usize,
                            conflicting: spec_index_of(col_dup->0 + 1, col as int) as usize,
                        }),
                    )
                    &&& final(self)@ == cells.update(target, Cell::Error(val))
                } else if block_dup is Some {
                    &&& r == Err::<(), InvalidValueError>(
                        (InvalidValueError::DuplicateValue {
                            new: target as usize,
                            conflicting: block_cell(row as int, col as int, block_dup->0) as usize,
                        }),
                    )
                    &&& final(self)@ == cells.update(target, Cell::Error(val))
                } else {
                    &&& r == Ok::<(), InvalidValueError>(())
                    &&& final(self)@ == cells.update(target, Cell::User(val))
                }
            }),
    {
        let index = index_of(row, col);
        proof {
            lemma_coord_of_index(row as int, col as int);
        }

        match self.cells[index] {
            Cell::Static(_) => {
                return Err(InvalidValueError::StaticValue(index));
            }
            _ => {}
        }

        let mut row_group = self.row(row);
        row_group[(col - 1) as usize] = Cell::Empty;
        if let Some((col_idx, _)) = check_for_duplicate(row_group, val) {
            proof {
                lemma_first_duplicate_correct(row_group@, val);
            }
            self.set_index(index, Cell::Error(val));
            return Err(InvalidValueError::DuplicateValue {
                new: index,
                conflicting: index_of(row, col_idx + 1),
            });
        }

        let mut col_group = self.column(col);
        col_group[(row - 1) as usize] = Cell::Empty;
        if let Some((row_idx, _)) = check_for_duplicate(col_group, val) {
            proof {
                lemma_first_duplicate_correct(col_group@, val);
            }
            self.set_index(index, Cell::Error(val));
            return Err(InvalidValueError::DuplicateValue {
                new: index,
                conflicting: index_of(row_idx + 1, col),
            });
        }

        let start_row = ((row - 1) / 3) * 3 + 1;
        let start_col = ((col - 1) / 3) * 3 + 1;
        let mut block_group = self.block_for(row, col);
        proof {
            lemma_block_pos(row as int, col as int);
        }
        block_group[((row - start_row) * 3 + (col - start_col)) as usize] = Cell::Empty;
        if let Some((block_idx, _)) = check_for_duplicate(block_group, val) {
            proof {
                lemma_first_duplicate_correct(block_group@, val);
                lemma_block_cell_valid(row as int, col as int, block_idx as int);
            }
            self.set_index(index, Cell::Error(val));
            return Err(InvalidValueError::DuplicateValue {
                new: index,
                conflicting: index_of(start_row + block_idx / 3, start_col + block_idx % 3),
            });
        }

        self.set_index(index, Cell::User(val));
        Ok(())
    }
}

} // verus!
