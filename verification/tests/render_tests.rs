use sudoku::board::Board;
use sudoku::cell::Cell;
use sudoku::coords::index_of;
use sudoku::render::{draw_cell, new_buffer, ConsoleRenderer};

fn line_string(renderer: &ConsoleRenderer, n: usize) -> String {
    renderer.buffers[n].iter().collect()
}

#[test]
fn blank_buffer_is_the_grid_template() {
    let buffer: String = new_buffer().iter().collect();
    assert_eq!(buffer, "|       |       |       |");
}

#[test]
fn new_renderer_has_nine_blank_lines() {
    let renderer = ConsoleRenderer::new();
    assert_eq!(renderer.buffers.len(), 9);
    for n in 0..9 {
        assert_eq!(line_string(&renderer, n), "|       |       |       |");
    }
}

#[test]
fn draw_cell_distinguishes_empty_from_values() {
    assert_eq!(draw_cell(&Cell::Empty), '-');
    assert_eq!(draw_cell(&Cell::Static(1)), '1');
    assert_eq!(draw_cell(&Cell::User(5)), '5');
    assert_eq!(draw_cell(&Cell::Error(9)), '9');
}

#[test]
fn update_buffers_draws_cells_at_their_columns() {
    let mut board = Board::new();
    board.set_index(index_of(1, 1), Cell::Static(4));
    board.set_index(index_of(1, 5), Cell::User(7));
    board.set_index(index_of(9, 9), Cell::Error(2));

    let mut renderer = ConsoleRenderer::new();
    renderer.update_buffers(&board);

    assert_eq!(line_string(&renderer, 0), "| 4 - - | - 7 - | - - - |");
    for n in 1..8 {
        assert_eq!(line_string(&renderer, n), "| - - - | - - - | - - - |");
    }
    assert_eq!(line_string(&renderer, 8), "| - - - | - - - | - - 2 |");
}
