use sudoku::{Slot, SudokuParseError, SudokuPuzzle};

fn lines(rows: &[&str]) -> Vec<String> {
    rows.iter().map(|r| r.to_string()).collect()
}

fn empty_rows() -> Vec<String> {
    lines(&["_,_,_,_,_,_,_,_,_"; 9])
}

#[test]
fn parses_a_well_formed_grid() {
    let mut rows = empty_rows();
    rows[0] = "5,3,_,_,7,_,_,_,_".to_string();
    let p = SudokuPuzzle::new(&rows).unwrap();
    let mut it = p.rows();
    let first = it.next().unwrap();
    assert_eq!(first[0], Slot::Filled(5));
    assert_eq!(first[1], Slot::Filled(3));
    assert_eq!(first[2], Slot::Empty);
    assert_eq!(first[4], Slot::Filled(7));
}

#[test]
fn tokens_may_carry_whitespace() {
    let mut rows = empty_rows();
    rows[3] = " 1 ,\t2,3 ,4,5,6,7,8, 9".to_string();
    let p = SudokuPuzzle::new(&rows).unwrap();
    let out = p.to_lines();
    assert_eq!(out[3], "1,2,3,4,5,6,7,8,9");
}

#[test]
fn zero_is_a_range_error() {
    let mut rows = empty_rows();
    rows[2] = "_,_,0,_,_,_,_,_,_".to_string();
    let e = SudokuPuzzle::new(&rows).unwrap_err();
    assert!(matches!(e, SudokuParseError::Range(_)));
    assert_eq!(e.message().as_str(), "number must be between 1 and 9 inclusive");
}

#[test]
fn ten_is_a_range_error() {
    let mut rows = empty_rows();
    rows[8] = "10,_,_,_,_,_,_,_,_".to_string();
    let e = SudokuPuzzle::new(&rows).unwrap_err();
    assert!(matches!(e, SudokuParseError::Range(_)));
}

#[test]
fn a_huge_numeral_is_a_range_error() {
    let mut rows = empty_rows();
    rows[0] = "99999999999999999999999,_,_,_,_,_,_,_,_".to_string();
    let e = SudokuPuzzle::new(&rows).unwrap_err();
    assert!(matches!(e, SudokuParseError::Range(_)));
}

#[test]
fn a_word_is_a_token_error() {
    let mut rows = empty_rows();
    rows[5] = "_,x,_,_,_,_,_,_,_".to_string();
    let e = SudokuPuzzle::new(&rows).unwrap_err();
    assert!(matches!(e, SudokuParseError::Token(_)));
}

#[test]
fn an_empty_token_is_a_token_error() {
    let mut rows = empty_rows();
    rows[1] = "_,,_,_,_,_,_,_,_".to_string();
    let e = SudokuPuzzle::new(&rows).unwrap_err();
    assert!(matches!(e, SudokuParseError::Token(_)));
}

#[test]
fn eight_rows_are_a_structure_error() {
    let rows = lines(&["_,_,_,_,_,_,_,_,_"; 8]);
    let e = SudokuPuzzle::new(&rows).unwrap_err();
    assert!(matches!(e, SudokuParseError::Structure(_)));
    assert_eq!(e.message().as_str(), "input must contain exactly 9 rows");
}

#[test]
fn ten_rows_are_a_structure_error() {
    let rows = lines(&["_,_,_,_,_,_,_,_,_"; 10]);
    let e = SudokuPuzzle::new(&rows).unwrap_err();
    assert!(matches!(e, SudokuParseError::Structure(_)));
}

#[test]
fn a_short_row_is_a_structure_error() {
    let mut rows = empty_rows();
    rows[4] = "_,_,_,_,_".to_string();
    let e = SudokuPuzzle::new(&rows).unwrap_err();
    assert!(matches!(e, SudokuParseError::Structure(_)));
    assert_eq!(e.message().as_str(), "not enough numbers in row");
}

#[test]
fn a_long_row_is_a_structure_error() {
    let mut rows = empty_rows();
    rows[4] = "_,_,_,_,_,_,_,_,_,_".to_string();
    let e = SudokuPuzzle::new(&rows).unwrap_err();
    assert!(matches!(e, SudokuParseError::Structure(_)));
    assert_eq!(e.message().as_str(), "too many numbers in row");
}

#[test]
fn a_bad_token_beats_a_short_row() {
    let mut rows = empty_rows();
    rows[0] = "_,q,_".to_string();
    let e = SudokuPuzzle::new(&rows).unwrap_err();
    assert!(matches!(e, SudokuParseError::Token(_)));
}

#[test]
fn from_file_accepts_a_trailing_newline() {
    let text = "1,2,3,4,5,6,7,8,9\n".repeat(9);
    let p = SudokuPuzzle::from_file(&text).unwrap();
    let out = p.to_lines();
    assert_eq!(out.len(), 9);
    assert_eq!(out[0], "1,2,3,4,5,6,7,8,9");
}

#[test]
fn from_file_rejects_fewer_rows() {
    let text = "1,2,3,4,5,6,7,8,9\n".repeat(7);
    let e = SudokuPuzzle::from_file(&text).unwrap_err();
    assert!(matches!(e, SudokuParseError::Structure(_)));
}

#[test]
fn text_round_trip_reproduces_trimmed_tokens() {
    let rows = lines(&[
        "5,3,_, _,7,_ ,_,_,_",
        "6,_,_,1,9,5,_,_,_",
        "_,9,8,_,_,_,_,6,_",
        "8,_,_,_,6,_,_,_,3",
        "4,_,_,8,_,3,_,_,1",
        "7,_,_,_,2,_,_,_,6",
        "_,6,_,_,_,_,2,8,_",
        "_,_,_,4,1,9,_,_,5",
        "_,_,_,_,8,_,_,7,9",
    ]);
    let p = SudokuPuzzle::new(&rows).unwrap();
    let out = p.to_lines();
    for (line, orig) in out.iter().zip(rows.iter()) {
        let trimmed: Vec<String> =
            orig.split(',').map(|t| t.trim().to_string()).collect();
        assert_eq!(line, &trimmed.join(","));
    }
}

#[test]
fn serialize_then_parse_is_identity() {
    let mut rows = empty_rows();
    rows[6] = "_,1,_,2,_,3,_,4,_".to_string();
    let p = SudokuPuzzle::new(&rows).unwrap();
    let text = p.to_lines().join("\n");
    let q = SudokuPuzzle::from_file(&text).unwrap();
    assert_eq!(p.to_lines(), q.to_lines());
}

#[test]
fn render_frames_the_grid() {
    let mut rows = empty_rows();
    rows[0] = "5,3,_,_,7,_,_,_,_".to_string();
    let p = SudokuPuzzle::new(&rows).unwrap();
    let rule = "-----------------";
    let between = "|-+-+-+-+-+-+-+-+-";
    let empty_row = "| | | | | | | | | |";
    let mut expected = String::new();
    expected.push_str(rule);
    expected.push('\n');
    for i in 0..9 {
        if i > 0 {
            expected.push_str(between);
            expected.push('\n');
        }
        if i == 0 {
            expected.push_str("|5|3| | |7| | | | |");
        } else {
            expected.push_str(empty_row);
        }
        expected.push('\n');
    }
    expected.push_str(rule);
    expected.push('\n');
    assert_eq!(p.render(), expected);
}
