use sudoku::coords::{coord, index_of};

#[test]
fn every_index_round_trips_through_coord() {
    for index in 0..81usize {
        let c = coord(index);
        assert_eq!(index_of(c.row, c.col), index);
    }
}

#[test]
fn every_coordinate_round_trips_through_index_of() {
    for row in 1..=9u8 {
        for col in 1..=9u8 {
            let c = coord(index_of(row, col));
            assert_eq!((c.row, c.col), (row, col));
        }
    }
}

#[test]
fn index_of_is_row_major() {
    assert_eq!(index_of(1, 1), 0);
    assert_eq!(index_of(1, 9), 8);
    assert_eq!(index_of(2, 1), 9);
    assert_eq!(index_of(9, 9), 80);
}
