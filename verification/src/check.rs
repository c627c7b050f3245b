//! The duplicate-conflict detector: given a 9-cell group and a candidate
//! value, find the first cell already holding that value.

use vstd::prelude::*;
use crate::cell::{Cell, cell_value};

verus! {

/// Why a move was rejected. `DuplicateValue` names the target cell and the
/// conflicting cell by linear index; `StaticValue` names the target cell,
/// which belongs to the original puzzle and cannot be overwritten.
#[derive(Copy, Clone, PartialEq, Eq, Structural, Debug)]
pub enum InvalidValueError {
    DuplicateValue { new: usize, conflicting: usize },
    StaticValue(usize),
}

/// The position of the first cell at or after position `k` whose value equals
/// `value`, scanning the group in position order.
pub open spec fn first_duplicate_from(group: Seq<Cell>, value: u8, k: int) -> Option<int>
    decreases group.len() - k,
{
    if k < 0 || k >= group.len() {
        None
    } else if cell_value(group[k]) == Some(value) {
        Some(k)
    } else {
        first_duplicate_from(group, value, k + 1)
    }
}

/// The position of the first cell of the group whose value equals `value`.
pub open spec fn first_duplicate(group: Seq<Cell>, value: u8) -> Option<int> {
    first_duplicate_from(group, value, 0)
}

proof fn lemma_first_duplicate_from_correct(group: Seq<Cell>, value: u8, k: int)
    requires
        0 <= k <= group.len(),
    ensures
        match first_duplicate_from(group, value, k) {
            Some(i) => k <= i < group.len() && cell_value(group[i]) == Some(value)
                && forall|j: int| k <= j < i ==> cell_value(group[j]) != Some(value),
            None => forall|j: int| k <= j < group.len() ==> cell_value(group[j]) != Some(value),
        },
    decreases group.len() - k,
{
    if k < group.len() && cell_value(group[k]) != Some(value) {
        lemma_first_duplicate_from_correct(group, value, k + 1);
    }
}

/// What `first_duplicate` means: a `Some(i)` names a cell holding the
/// candidate value with no earlier such cell, and `None` means no cell of the
/// group holds the candidate value.
pub proof fn lemma_first_duplicate_correct(group: Seq<Cell>, value: u8)
    ensures
        match first_duplicate(group, value) {
            Some(i) => 0 <= i < group.len() && cell_value(group[i]) == Some(value)
                && forall|j: int| 0 <= j < i ==> cell_value(group[j]) != Some(value),
            None => forall|j: int| 0 <= j < group.len() ==> cell_value(group[j]) != Some(value),
        },
{
    lemma_first_duplicate_from_correct(group, value, 0);
}

/// The group as the mutator sees it while validating a move against position
/// `pos`: the cell being overwritten is treated as empty, since its old value
/// is irrelevant to the new candidate.
pub open spec fn masked(group: Seq<Cell>, pos: int) -> Seq<Cell> {
    group.update(pos, Cell::Empty)
}

/// If any cell of the group other than the masked position holds the
/// candidate value, the masked scan reports a conflict, the reported cell is
/// a different cell than the masked one, and it holds the candidate value.
pub proof fn lemma_duplicate_detected(group: Seq<Cell>, pos: int, value: u8)
    requires
        0 <= pos < group.len(),
        exists|j: int| 0 <= j < group.len() && j != pos && cell_value(group[j]) == Some(value),
    ensures
        ({
            let d = first_duplicate(masked(group, pos), value);
            &&& d is Some
            &&& d->0 != pos
            &&& 0 <= d->0 < group.len()
            &&& cell_value(group[d->0]) == Some(value)
        }),
{
    let m = masked(group, pos);
    lemma_first_duplicate_correct(m, value);
    let j = choose|j: int| 0 <= j < group.len() && j != pos && cell_value(group[j]) == Some(value);
    assert(cell_value(m[j]) == Some(value));
}

/// Scans the group in position order and returns the position and contents of
/// the first cell whose value (for any non-empty tag) equals `value`, or
/// `None` when no cell of the group holds that value.
pub fn check_for_duplicate(cell_group: [Cell; 9], value: u8) -> (r: Option<(u8, Cell)>)
    ensures
        match r {
            Some((i, c)) => first_duplicate(cell_group@, value) == Some(i as int)
                && c == cell_group@[i as int],
            None => first_duplicate(cell_group@, value) is None,
        },
{
    let mut k: usize = 0;
    while k < 9
        invariant
            0 <= k <= 9,
            first_duplicate(cell_group@, value) == first_duplicate_from(cell_group@, value, k as int),
        decreases 9 - k,
    {
        let c = cell_group[k];
        match c.value() {
            Some(v) => {
                if v == value {
                    return Some((k as u8, c));
                }
            }
            None => {}
        }
        k += 1;
    }
    None
}

} // verus!
