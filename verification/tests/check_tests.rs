use sudoku::cell::Cell;
use sudoku::check::check_for_duplicate;

const E: Cell = Cell::Empty;

#[test]
fn no_duplicate_in_group_without_value() {
    let group = [E, Cell::Static(1), Cell::User(2), E, E, E, E, E, Cell::Error(3)];
    assert_eq!(check_for_duplicate(group, 7), None);
}

#[test]
fn finds_value_under_any_tag() {
    let group = [E, Cell::Static(5), E, E, E, E, E, E, E];
    assert_eq!(check_for_duplicate(group, 5), Some((1, Cell::Static(5))));

    let group = [E, E, Cell::User(5), E, E, E, E, E, E];
    assert_eq!(check_for_duplicate(group, 5), Some((2, Cell::User(5))));

    let group = [E, E, E, Cell::Error(5), E, E, E, E, E];
    assert_eq!(check_for_duplicate(group, 5), Some((3, Cell::Error(5))));
}

#[test]
fn empty_cells_never_match() {
    let group = [E; 9];
    for value in 1..=9u8 {
        assert_eq!(check_for_duplicate(group, value), None);
    }
}

#[test]
fn reports_the_lowest_index_when_several_cells_hold_the_value() {
    let group = [E, E, Cell::User(6), E, Cell::Static(6), E, Cell::Error(6), E, E];
    assert_eq!(check_for_duplicate(group, 6), Some((2, Cell::User(6))));
}
