use sudoku::board::Board;
use sudoku::cell::Cell;
use sudoku::check::InvalidValueError;
use sudoku::coords::{coord, index_of, Coord};

#[test]
fn index_to_coord() {
    let tests = [
        (0, Coord { row: 1, col: 1 }),
        (80, Coord { row: 9, col: 9 }),
        (42, Coord { row: 5, col: 7 }),
    ];

    for (input, exp) in tests {
        assert_eq!(coord(input), exp);
    }
}

fn test_board() -> Board {
    let mut result = Board::new();
    result.set(1, 1, 4).unwrap();
    result
}

#[test]
fn ok_when_no_clash() {
    let mut board = test_board();
    let result = board.set(1, 4, 2);
    assert!(result.is_ok());
}

#[test]
fn error_when_row_has_value() {
    let mut board = test_board();
    let result = board.set(1, 4, 4);
    assert!(result.is_err());
}

#[test]
fn error_when_col_has_value() {
    let mut board = test_board();
    let result = board.set(8, 1, 4);
    assert!(result.is_err());
}

#[test]
fn error_when_block_has_value() {
    let mut board = test_board();
    let result = board.set(3, 3, 4);
    assert!(result.is_err());
}

#[test]
fn error_when_overriding_game_value() {
    let mut board = Board::new();
    board.set_index(4, Cell::Static(4));
    let result = board.set(1, 5, 7);
    assert!(result.is_err());
}

fn cell_at(board: &Board, row: u8, col: u8) -> Cell {
    board.row(row)[(col - 1) as usize]
}

#[test]
fn set_scenario_reports_conflicts_and_marks_cells() {
    let mut board = Board::new();

    assert!(board.set(1, 1, 4).is_ok());
    assert_eq!(cell_at(&board, 1, 1), Cell::User(4));

    let row_clash = board.set(1, 4, 4);
    assert_eq!(
        row_clash,
        Err(InvalidValueError::DuplicateValue {
            new: index_of(1, 4),
            conflicting: index_of(1, 1),
        })
    );
    assert_eq!(cell_at(&board, 1, 4), Cell::Error(4));

    let block_clash = board.set(3, 3, 4);
    assert_eq!(
        block_clash,
        Err(InvalidValueError::DuplicateValue {
            new: index_of(3, 3),
            conflicting: index_of(1, 1),
        })
    );
    assert_eq!(cell_at(&board, 3, 3), Cell::Error(4));

    // Overwriting the conflicted cell with a non-duplicate value succeeds.
    assert!(board.set(1, 4, 2).is_ok());
    assert_eq!(cell_at(&board, 1, 4), Cell::User(2));
}

#[test]
fn column_conflict_names_the_existing_cell() {
    let mut board = test_board();
    let result = board.set(8, 1, 4);
    assert_eq!(
        result,
        Err(InvalidValueError::DuplicateValue {
            new: index_of(8, 1),
            conflicting: index_of(1, 1),
        })
    );
    assert_eq!(cell_at(&board, 8, 1), Cell::Error(4));
}

#[test]
fn static_cell_rejected_and_board_unchanged() {
    let mut board = Board::new();
    board.set_index(4, Cell::Static(4));
    let before = board.rows();
    let result = board.set(1, 5, 7);
    assert_eq!(result, Err(InvalidValueError::StaticValue(index_of(1, 5))));
    assert_eq!(board.rows(), before);
}

#[test]
fn resetting_same_value_succeeds_both_times() {
    let mut board = Board::new();
    assert!(board.set(1, 1, 4).is_ok());
    assert!(board.set(1, 1, 4).is_ok());
    assert_eq!(cell_at(&board, 1, 1), Cell::User(4));
}

#[test]
fn remaining_tracks_successes_not_failures() {
    let mut board = Board::new();
    assert_eq!(board.remaining(), 81);

    // A successful move resolves one cell.
    assert!(board.set(1, 1, 4).is_ok());
    assert_eq!(board.remaining(), 80);

    // A duplicate failure marks the target conflicted: still remaining.
    assert!(board.set(1, 4, 4).is_err());
    assert_eq!(board.remaining(), 80);

    // Fixing the conflicted cell resolves it.
    assert!(board.set(1, 4, 2).is_ok());
    assert_eq!(board.remaining(), 79);

    // A static-cell rejection changes nothing.
    board.set_index(80, Cell::Static(9));
    assert_eq!(board.remaining(), 78);
    assert!(board.set(9, 9, 1).is_err());
    assert_eq!(board.remaining(), 78);
}

#[test]
fn row_column_and_block_snapshots() {
    let mut board = Board::new();
    board.set_index(index_of(5, 4), Cell::Static(1));
    board.set_index(index_of(5, 9), Cell::User(2));
    board.set_index(index_of(2, 7), Cell::Error(3));

    let row5 = board.row(5);
    assert_eq!(row5[3], Cell::Static(1));
    assert_eq!(row5[8], Cell::User(2));
    assert_eq!(row5[0], Cell::Empty);

    let col7 = board.column(7);
    assert_eq!(col7[1], Cell::Error(3));
    assert_eq!(col7[0], Cell::Empty);

    // The block of (5, 4) spans rows 4..=6 and columns 4..=6; its first
    // row-major position is (4, 4) and (5, 4) sits at position 3.
    let block = board.block_for(5, 4);
    assert_eq!(block[3], Cell::Static(1));
    for (k, cell) in block.iter().enumerate() {
        if k != 3 {
            assert_eq!(*cell, Cell::Empty);
        }
    }

    // Every cell of the same block yields the same snapshot.
    assert_eq!(board.block_for(4, 5), block);
    assert_eq!(board.block_for(6, 6), block);
}

#[test]
fn rows_returns_all_nine_rows_in_order() {
    let mut board = Board::new();
    for n in 1..=9u8 {
        board.set_index(index_of(n, 1), Cell::Static(n));
    }
    let rows = board.rows();
    for n in 0..9usize {
        assert_eq!(rows[n][0], Cell::Static(n as u8 + 1));
        assert_eq!(rows[n], board.row(n as u8 + 1));
    }
}
