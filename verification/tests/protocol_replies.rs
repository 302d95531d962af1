use sudoku::{SudokuPuzzle, json_message, json_puzzle, respond};

fn empty_row() -> &'static str {
    "[null,null,null,null,null,null,null,null,null]"
}

#[test]
fn json_message_wraps_and_escapes() {
    assert_eq!(json_message("hello"), "{\"message\":\"hello\"}");
    assert_eq!(json_message("a \"b\" \\ c"), "{\"message\":\"a \\\"b\\\" \\\\ c\"}");
    assert_eq!(json_message("x\ny"), "{\"message\":\"x\\u000ay\"}");
}

#[test]
fn json_puzzle_wraps_the_serialized_grid() {
    let rows: Vec<&str> = std::iter::repeat(empty_row()).take(9).collect();
    let text = format!("[{}]", rows.join(","));
    let p = SudokuPuzzle::from_json(&text).unwrap();
    assert_eq!(json_puzzle(&p), format!("{{\"solution\":{}}}", text));
}

#[test]
fn respond_reports_a_parse_failure() {
    let reply = respond("{\"a\":1}");
    assert_eq!(reply, "{\"message\":\"unable to interpret JSON as array\"}");
}

#[test]
fn respond_reports_invalid_json() {
    let reply = respond("[[1,2,");
    assert!(reply.starts_with("{\"message\":\""));
    assert!(reply.ends_with("\"}"));
}

#[test]
fn respond_reports_an_unsolvable_grid() {
    let mut rows: Vec<String> = std::iter::repeat(empty_row().to_string()).take(9).collect();
    rows[0] = "[5,5,null,null,null,null,null,null,null]".to_string();
    let reply = respond(&format!("[{}]", rows.join(",")));
    assert_eq!(reply, "{\"message\":\"No solution found\"}");
}

#[test]
fn respond_sends_a_solution() {
    let rows = [
        "[5,3,null,null,7,null,null,null,null]",
        "[6,null,null,1,9,5,null,null,null]",
        "[null,9,8,null,null,null,null,6,null]",
        "[8,null,null,null,6,null,null,null,3]",
        "[4,null,null,8,null,3,null,null,1]",
        "[7,null,null,null,2,null,null,null,6]",
        "[null,6,null,null,null,null,2,8,null]",
        "[null,null,null,4,1,9,null,null,5]",
        "[null,null,null,null,8,null,null,7,9]",
    ];
    let reply = respond(&format!("[{}]", rows.join(",")));
    assert!(reply.starts_with("{\"solution\":[["));
    assert!(reply.ends_with("]}"));
    let inner = &reply["{\"solution\":".len()..reply.len() - 1];
    let sol = SudokuPuzzle::from_json(inner).unwrap();
    assert!(sol.is_valid());
    assert_eq!(sol.to_lines()[0], "5,3,4,6,7,8,9,1,2");
}
