use sudoku::{JsonCell, JsonRow, Slot, SudokuParseError, SudokuPuzzle};

fn json_with_row(idx: usize, row: &str) -> String {
    let empty = "[null,null,null,null,null,null,null,null,null]";
    let mut rows: Vec<&str> = std::iter::repeat(empty).take(9).collect();
    rows[idx] = row;
    format!("[{}]", rows.join(","))
}

#[test]
fn parses_a_well_formed_document() {
    let s = json_with_row(0, "[5,3,null,null,7,null,null,null,null]");
    let p = SudokuPuzzle::from_json(&s).unwrap();
    let mut it = p.rows();
    let first = it.next().unwrap();
    assert_eq!(first[0], Slot::Filled(5));
    assert_eq!(first[1], Slot::Filled(3));
    assert_eq!(first[2], Slot::Empty);
}

#[test]
fn invalid_json_is_a_json_error() {
    let e = SudokuPuzzle::from_json("[[1,2,").unwrap_err();
    assert!(matches!(e, SudokuParseError::Json(_)));
}

#[test]
fn a_non_array_document_is_a_format_error() {
    let e = SudokuPuzzle::from_json("{\"a\":1}").unwrap_err();
    assert!(matches!(e, SudokuParseError::Format(_)));
    assert_eq!(e.message().as_str(), "unable to interpret JSON as array");
}

#[test]
fn a_non_array_row_is_a_format_error() {
    let e = SudokuPuzzle::from_json(&json_with_row(2, "\"1,2,3\"")).unwrap_err();
    assert!(matches!(e, SudokuParseError::Format(_)));
    assert_eq!(e.message().as_str(), "unable to interpret row as array");
}

#[test]
fn eight_json_rows_are_a_structure_error() {
    let row = "[null,null,null,null,null,null,null,null,null]";
    let rows: Vec<&str> = std::iter::repeat(row).take(8).collect();
    let e = SudokuPuzzle::from_json(&format!("[{}]", rows.join(","))).unwrap_err();
    assert!(matches!(e, SudokuParseError::Structure(_)));
    assert_eq!(e.message().as_str(), "array must contain exactly 9 rows");
}

#[test]
fn a_short_json_row_is_a_structure_error() {
    let e = SudokuPuzzle::from_json(&json_with_row(4, "[null,null,null]")).unwrap_err();
    assert!(matches!(e, SudokuParseError::Structure(_)));
    assert_eq!(e.message().as_str(), "row must contain exactly 9 slots");
}

#[test]
fn json_zero_is_a_range_error() {
    let e = SudokuPuzzle::from_json(&json_with_row(1, "[0,null,null,null,null,null,null,null,null]"))
        .unwrap_err();
    assert!(matches!(e, SudokuParseError::Range(_)));
}

#[test]
fn json_ten_is_a_range_error() {
    let e = SudokuPuzzle::from_json(&json_with_row(1, "[10,null,null,null,null,null,null,null,null]"))
        .unwrap_err();
    assert!(matches!(e, SudokuParseError::Range(_)));
}

#[test]
fn a_negative_number_is_a_range_error() {
    let e = SudokuPuzzle::from_json(&json_with_row(7, "[-3,null,null,null,null,null,null,null,null]"))
        .unwrap_err();
    assert!(matches!(e, SudokuParseError::Range(_)));
}

#[test]
fn a_fraction_is_a_range_error() {
    let e = SudokuPuzzle::from_json(&json_with_row(7, "[1.5,null,null,null,null,null,null,null,null]"))
        .unwrap_err();
    assert!(matches!(e, SudokuParseError::Range(_)));
}

#[test]
fn a_string_cell_is_a_format_error() {
    let e = SudokuPuzzle::from_json(&json_with_row(3, "[\"5\",null,null,null,null,null,null,null,null]"))
        .unwrap_err();
    assert!(matches!(e, SudokuParseError::Format(_)));
    assert_eq!(e.message().as_str(), "cell value must be empty or a number");
}

#[test]
fn serializes_nulls_and_bare_integers() {
    let s = json_with_row(0, "[5,3,null,null,7,null,null,null,null]");
    let p = SudokuPuzzle::from_json(&s).unwrap();
    assert_eq!(p.to_json(), s);
}

#[test]
fn json_round_trip_is_identity() {
    let s = json_with_row(5, "[null,9,null,8,null,7,null,6,null]");
    let p = SudokuPuzzle::from_json(&s).unwrap();
    let q = SudokuPuzzle::from_json(&p.to_json()).unwrap();
    assert_eq!(p.to_json(), q.to_json());
    assert_eq!(p.to_lines(), q.to_lines());
}

#[test]
fn grid_from_rows_checks_every_cell() {
    let mut rows: Vec<JsonRow> = Vec::new();
    for _ in 0..9 {
        let cells: Vec<JsonCell> = std::iter::repeat(JsonCell::Null).take(9).collect();
        rows.push(JsonRow::Cells(cells));
    }
    assert!(SudokuPuzzle::grid_from_rows(&rows).is_ok());

    let mut cells: Vec<JsonCell> = std::iter::repeat(JsonCell::Null).take(9).collect();
    cells[4] = JsonCell::Num(12);
    rows[6] = JsonRow::Cells(cells);
    let e = SudokuPuzzle::grid_from_rows(&rows).unwrap_err();
    assert!(matches!(e, SudokuParseError::Range(_)));

    rows[6] = JsonRow::NotArray;
    let e = SudokuPuzzle::grid_from_rows(&rows).unwrap_err();
    assert!(matches!(e, SudokuParseError::Format(_)));
}

#[test]
fn parser_accepts_an_inconsistent_grid() {
    let s = json_with_row(0, "[5,5,null,null,null,null,null,null,null]");
    let p = SudokuPuzzle::from_json(&s).unwrap();
    assert!(!p.is_valid());
}
