//! Text rendering of the grid: each row becomes a fixed 25-character line
//! with the nine cell characters at fixed columns and `|` separators between
//! the three cell triples. Printing the lines is the display collaborator's
//! job; everything here is pure buffer computation.

use vstd::prelude::*;
use vstd::arithmetic::div_mod::{lemma_fundamental_div_mod, lemma_fundamental_div_mod_converse};
use crate::board::{Board, Row, spec_row};
use crate::cell::{Cell, cell_wf, cell_value};

verus! {

/// Draws a board for the player.
pub trait Renderer {
    fn render(&mut self, board: &Board)
        requires
            board.wf(),
    ;
}

/// The digit character for a value in 1..=9.
pub open spec fn spec_digit_char(v: u8) -> char {
    if v == 1 {
        '1'
    } else if v == 2 {
        '2'
    } else if v == 3 {
        '3'
    } else if v == 4 {
        '4'
    } else if v == 5 {
        '5'
    } else if v == 6 {
        '6'
    } else if v == 7 {
        '7'
    } else if v == 8 {
        '8'
    } else {
        '9'
    }
}

/// The character a cell is drawn as: `-` for an empty cell, its digit
/// otherwise.
pub open spec fn spec_draw_cell(c: Cell) -> char {
    match cell_value(c) {
        None => '-',
        Some(v) => spec_digit_char(v),
    }
}

/// The line column at which cell `index` (0..9) of a row is drawn.
pub open spec fn spec_mapping(index: int) -> int {
    8 * (index / 3) + 2 * (index % 3) + 2
}

/// The character at column `i` of the line drawn for `row`: a `|` separator
/// every eighth column, cell characters at the even columns between them,
/// and spaces elsewhere.
pub open spec fn line_char(row: Seq<Cell>, i: int) -> char {
    if i % 8 == 0 {
        '|'
    } else if i % 2 == 0 {
        spec_draw_cell(row[3 * (i / 8) + (i % 8 - 2) / 2])
    } else {
        ' '
    }
}

/// The full 25-character line drawn for a row.
pub open spec fn spec_line_of(row: Seq<Cell>) -> Seq<char> {
    Seq::new(25, |i: int| line_char(row, i))
}

/// Cell `k` of a row is drawn at column `spec_mapping(k)` of its line.
pub proof fn lemma_line_shows_cells(row: Seq<Cell>, k: int)
    requires
        row.len() == 9,
        0 <= k < 9,
    ensures
        0 <= spec_mapping(k) < 25,
        spec_line_of(row)[spec_mapping(k)] == spec_draw_cell(row[k]),
{
    lemma_fundamental_div_mod(k, 3);
    lemma_fundamental_div_mod_converse(spec_mapping(k), 8, k / 3, 2 * (k % 3) + 2);
    lemma_fundamental_div_mod_converse(2 * (k % 3) + 2, 2, k % 3 + 1, 0);
}

/// The character a cell is drawn as.
pub fn draw_cell(cell: &Cell) -> (r: char)
    requires
        cell_wf(*cell),
    ensures
        r == spec_draw_cell(*cell),
{
    match cell.value() {
        None => '-',
        Some(v) => match v {
            1 => '1',
            2 => '2',
            3 => '3',
            4 => '4',
            5 => '5',
            6 => '6',
            7 => '7',
            8 => '8',
            _ => '9',
        },
    }
}

/// A blank line buffer: `|` separators with spaces everywhere else.
pub fn new_buffer() -> (r: Vec<char>)
    ensures
        r@.len() == 25,
        forall|i: int| 0 <= i < 25 ==> r@[i] == (if i % 8 == 0 {
            '|'
        } else {
            ' '
        }),
{
    let mut v: Vec<char> = Vec::new();
    let mut i: usize = 0;
    while i < 25
        invariant
            i <= 25,
            v@.len() == i,
            forall|j: int| 0 <= j < i ==> v@[j] == (if j % 8 == 0 {
                '|'
            } else {
                ' '
            }),
        decreases 25 - i,
    {
        if i % 8 == 0 {
            v.push('|');
        } else {
            v.push(' ');
        }
        i += 1;
    }
    v
}

/// A text renderer holding one 25-character line buffer per row.
pub struct ConsoleRenderer {
    pub buffers: Vec<Vec<char>>,
}

impl View for ConsoleRenderer {
    type V = Seq<Seq<char>>;

    open spec fn view(&self) -> Seq<Seq<char>> {
        self.buffers@.map_values(|line: Vec<char>| line@)
    }
}

impl ConsoleRenderer {
    /// Nine line buffers, each 25 characters long.
    pub open spec fn wf(&self) -> bool {
        &&& self@.len() == 9
        &&& forall|n: int| 0 <= n < 9 ==> (#[trigger] self@[n]).len() == 25
    }

    /// A renderer whose nine line buffers are all blank.
    pub fn new() -> (r: ConsoleRenderer)
        ensures
            r.wf(),
            forall|n: int, i: int| 0 <= n < 9 && 0 <= i < 25 ==> #[trigger] r@[n][i] == (if i % 8
                == 0 {
                '|'
            } else {
                ' '
            }),
    {
        let mut buffers: Vec<Vec<char>> = Vec::new();
        let mut n: usize = 0;
        while n < 9
            invariant
                n <= 9,
                buffers@.len() == n,
                forall|n2: int, i: int|
                    0 <= n2 < n && 0 <= i < 25 ==> #[trigger] buffers@[n2]@[i] == (if i % 8 == 0 {
                        '|'
                    } else {
                        ' '
                    }),
                forall|n2: int| 0 <= n2 < n ==> (#[trigger] buffers@[n2])@.len() == 25,
            decreases 9 - n,
        {
            buffers.push(new_buffer());
            n += 1;
        }
        ConsoleRenderer { buffers }
    }

    /// Redraws the line for one row: the buffer at `n_buffer` becomes the
    /// line drawn for `row`; the other buffers are untouched.
    pub fn update_buffer(&mut self, n_buffer: usize, row: &Row)
        requires
            old(self).wf(),
            n_buffer < 9,
            forall|k: int| 0 <= k < 9 ==> cell_wf(#[trigger] row@[k]),
        ensures
            final(self).wf(),
            final(self)@[n_buffer as int] == spec_line_of(row@),
            forall|n: int| 0 <= n < 9 && n != n_buffer ==> final(self)@[n] == old(self)@[n],
    {
        let mut line: Vec<char> = Vec::new();
        let mut i: usize = 0;
        while i < 25
            invariant
                i <= 25,
                line@.len() == i,
                forall|k: int| 0 <= k < 9 ==> cell_wf(#[trigger] row@[k]),
                forall|j: int| 0 <= j < i ==> line@[j] == line_char(row@, j),
            decreases 25 - i,
        {
            if i % 8 == 0 {
                line.push('|');
            } else if i % 2 == 0 {
                let k = 3 * (i / 8) + (i % 8 - 2) / 2;
                line.push(draw_cell(&row[k]));
            } else {
                line.push(' ');
            }
            i += 1;
        }
        proof {
            assert(line@ =~= spec_line_of(row@));
        }
        self.buffers[n_buffer] = line;
        proof {
            assert(self@ =~= old(self)@.update(n_buffer as int, spec_line_of(row@)));
        }
    }

    /// Redraws all nine lines from the board's current rows.
    pub fn update_buffers(&mut self, board: &Board)
        requires
            old(self).wf(),
            board.wf(),
        ensures
            final(self).wf(),
            forall|n: int| 0 <= n < 9 ==> final(self)@[n] == spec_line_of(
                spec_row(board@, n + 1),
            ),
    {
        let mut n: usize = 0;
        while n < 9
            invariant
                self.wf(),
                board.wf(),
                n <= 9,
                forall|n2: int| 0 <= n2 < n ==> #[trigger] self@[n2] == spec_line_of(
                    spec_row(board@, n2 + 1),
                ),
            decreases 9 - n,
        {
            let row_cells = board.row((n as u8) + 1);
            self.update_buffer(n, &row_cells);
            n += 1;
        }
    }
}

} // verus!
