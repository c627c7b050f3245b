//! One grid position: its value and its provenance.

use vstd::prelude::*;

verus! {

/// A single cell of the grid. `Static` cells belong to the original puzzle and
/// are never overwritten; `User` cells are player entries that passed
/// validation; `Error` cells are player entries that violated the placement
/// rule and are retained so the player can see what they entered.
#[derive(Copy, Clone, PartialEq, Eq, Structural, Debug)]
pub enum Cell {
    Empty,
    Static(u8),
    User(u8),
    Error(u8),
}

/// The value a cell holds, regardless of provenance; `None` for an empty cell.
pub open spec fn cell_value(c: Cell) -> Option<u8> {
    match c {
        Cell::Empty => None,
        Cell::Static(v) => Some(v),
        Cell::User(v) => Some(v),
        Cell::Error(v) => Some(v),
    }
}

/// A cell counts toward the remaining-cells progress counter when it is not
/// successfully resolved: empty cells and conflicted entries both count.
pub open spec fn is_remaining(c: Cell) -> bool {
    match c {
        Cell::Empty => true,
        Cell::Static(_) => false,
        Cell::User(_) => false,
        Cell::Error(_) => true,
    }
}

/// A well-formed cell is empty or holds a value in 1..=9.
pub open spec fn cell_wf(c: Cell) -> bool {
    match cell_value(c) {
        None => true,
        Some(v) => 1 <= v <= 9,
    }
}

impl Cell {
    /// The value this cell holds, if any.
    pub fn value(&self) -> (r: Option<u8>)
        ensures
            r == cell_value(*self),
    {
        match *self {
            Cell::Empty => None,
            Cell::Static(v) => Some(v),
            Cell::User(v) => Some(v),
            Cell::Error(v) => Some(v),
        }
    }
}

} // verus!
