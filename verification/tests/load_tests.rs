use sudoku::board::Board;
use sudoku::cell::Cell;
use sudoku::coords::index_of;
use sudoku::load::{load, BoardValue, InvalidBoardError, LoadErrorKind};

fn to_board_value(inp: (u8, u8, u8)) -> BoardValue {
    let (row, col, value) = inp;
    BoardValue {
        index: index_of(row, col),
        value,
    }
}

#[test]
fn test_load_file() {
    let expected: Vec<BoardValue> = vec![
        (1, 2, 3),
        (1, 6, 8),
        (1, 7, 1),
        (1, 8, 6),
        (2, 3, 5),
        (2, 4, 1),
        (2, 6, 2),
        (2, 9, 9),
        (3, 4, 7),
        (3, 6, 4),
        (4, 5, 2),
        (4, 8, 1),
        (4, 9, 3),
        (5, 3, 2),
        (5, 4, 9),
        (5, 6, 5),
        (5, 7, 6),
        (5, 8, 8),
        (5, 9, 7),
        (6, 3, 7),
        (6, 6, 3),
        (7, 2, 2),
        (7, 3, 6),
        (7, 4, 8),
        (7, 5, 7),
        (7, 8, 4),
        (8, 2, 5),
        (8, 6, 9),
        (9, 1, 4),
        (9, 6, 6),
    ]
    .into_iter()
    .map(to_board_value)
    .collect();

    let mut description = String::new();
    for line in [
        "-3---816-",
        "--51-2--9",
        "---7-4---",
        "----2--13",
        "--29-5687",
        "--7--3---",
        "-2687--4-",
        "-5---9---",
        "4----6---",
    ] {
        description.push_str(line);
        description.push('\n');
    }

    load("data/med.board", description.as_bytes())
        .unwrap()
        .into_iter()
        .enumerate()
        .for_each(|(i, inp)| assert_eq!(inp, expected[i]));
}

fn empty_description(significant: usize) -> String {
    let mut s = String::new();
    s.push('4');
    for _ in 1..significant {
        s.push('-');
    }
    s
}

#[test]
fn loads_exactly_81_significant_characters() {
    let description = empty_description(81);
    let values = load("puzzle.board", description.as_bytes()).unwrap();
    assert_eq!(
        values,
        vec![BoardValue { index: 0, value: 4 }]
    );
}

#[test]
fn size_error_reports_count_of_80() {
    let description = empty_description(80);
    let err = load("puzzle.board", description.as_bytes()).unwrap_err();
    assert_eq!(err.kind, LoadErrorKind::InvalidSize(80));
    assert_eq!(err.filename, "puzzle.board");
}

#[test]
fn size_error_reports_count_of_82() {
    let description = empty_description(82);
    let err = load("puzzle.board", description.as_bytes()).unwrap_err();
    assert_eq!(err.kind, LoadErrorKind::InvalidSize(82));
}

#[test]
fn layout_characters_are_discarded_before_counting() {
    // Whitespace, zeros and other strays do not count as significant, so a
    // description padded with them still has 81 meaningful characters.
    let plain = empty_description(81);
    let mut decorated = String::new();
    for (i, c) in plain.chars().enumerate() {
        decorated.push(c);
        if i % 9 == 8 {
            decorated.push_str(" |0\n");
        }
    }
    let plain_values = load("a.board", plain.as_bytes()).unwrap();
    let decorated_values = load("a.board", decorated.as_bytes()).unwrap();
    assert_eq!(plain_values, decorated_values);
}

#[test]
fn non_ascii_content_is_an_encoding_error() {
    let mut description = empty_description(81);
    description.push('é');
    let err = load("puzzle.board", description.as_bytes()).unwrap_err();
    assert_eq!(err.kind, LoadErrorKind::NotAscii);
    assert_eq!(err.filename, "puzzle.board");
}

#[test]
fn io_error_builder_records_file_and_message() {
    let err = InvalidBoardError::for_file("missing.board")
        .io_error(String::from("no such file"));
    assert_eq!(err.filename, "missing.board");
    assert_eq!(err.kind, LoadErrorKind::Io(String::from("no such file")));
}

#[test]
fn from_description_builds_given_cells() {
    let description = empty_description(81);
    let board = Board::from_description("puzzle.board", description.as_bytes()).unwrap();
    assert_eq!(board.row(1)[0], Cell::Static(4));
    for k in 1..9usize {
        assert_eq!(board.row(1)[k], Cell::Empty);
    }
    assert_eq!(board.remaining(), 80);
}

#[test]
fn from_description_rejects_bad_size() {
    let description = empty_description(80);
    let err = Board::from_description("puzzle.board", description.as_bytes()).unwrap_err();
    assert_eq!(err.kind, LoadErrorKind::InvalidSize(80));
    assert_eq!(err.filename, "puzzle.board");
}

#[test]
fn given_cells_from_description_are_protected() {
    let description = empty_description(81);
    let mut board = Board::from_description("puzzle.board", description.as_bytes()).unwrap();
    assert!(board.set(1, 1, 9).is_err());
    assert_eq!(board.row(1)[0], Cell::Static(4));
}
