use sudoku::{Slot, SudokuPuzzle};

fn lines(rows: &[&str]) -> Vec<String> {
    rows.iter().map(|r| r.to_string()).collect()
}

fn wikipedia_puzzle() -> SudokuPuzzle {
    let rows = lines(&[
        "5,3,_,_,7,_,_,_,_",
        "6,_,_,1,9,5,_,_,_",
        "_,9,8,_,_,_,_,6,_",
        "8,_,_,_,6,_,_,_,3",
        "4,_,_,8,_,3,_,_,1",
        "7,_,_,_,2,_,_,_,6",
        "_,6,_,_,_,_,2,8,_",
        "_,_,_,4,1,9,_,_,5",
        "_,_,_,_,8,_,_,7,9",
    ]);
    SudokuPuzzle::new(&rows).unwrap()
}

#[test]
fn validity_sees_a_row_conflict() {
    let mut rows = vec!["_,_,_,_,_,_,_,_,_".to_string(); 9];
    rows[0] = "5,_,_,_,5,_,_,_,_".to_string();
    let p = SudokuPuzzle::new(&rows).unwrap();
    assert!(!p.is_valid());
}

#[test]
fn validity_sees_a_column_conflict() {
    let mut rows = vec!["_,_,_,_,_,_,_,_,_".to_string(); 9];
    rows[1] = "_,_,_,7,_,_,_,_,_".to_string();
    rows[8] = "_,_,_,7,_,_,_,_,_".to_string();
    let p = SudokuPuzzle::new(&rows).unwrap();
    assert!(!p.is_valid());
}

#[test]
fn validity_sees_a_block_conflict() {
    let mut rows = vec!["_,_,_,_,_,_,_,_,_".to_string(); 9];
    rows[0] = "9,_,_,_,_,_,_,_,_".to_string();
    rows[2] = "_,_,9,_,_,_,_,_,_".to_string();
    let p = SudokuPuzzle::new(&rows).unwrap();
    assert!(!p.is_valid());
}

#[test]
fn equal_digits_in_distinct_units_are_valid() {
    let mut rows = vec!["_,_,_,_,_,_,_,_,_".to_string(); 9];
    rows[0] = "5,_,_,_,_,_,_,_,_".to_string();
    rows[4] = "_,_,_,_,5,_,_,_,_".to_string();
    let p = SudokuPuzzle::new(&rows).unwrap();
    assert!(p.is_valid());
}

#[test]
fn solves_the_wikipedia_puzzle_to_its_unique_solution() {
    let p = wikipedia_puzzle();
    let sol = p.solved().expect("the puzzle is solvable");
    let expected = lines(&[
        "5,3,4,6,7,8,9,1,2",
        "6,7,2,1,9,5,3,4,8",
        "1,9,8,3,4,2,5,6,7",
        "8,5,9,7,6,1,4,2,3",
        "4,2,6,8,5,3,7,9,1",
        "7,1,3,9,2,4,8,5,6",
        "9,6,1,5,3,7,2,8,4",
        "2,8,7,4,1,9,6,3,5",
        "3,4,5,2,8,6,1,7,9",
    ]);
    assert_eq!(sol.to_lines(), expected);
    assert!(sol.is_valid());
}

#[test]
fn solving_leaves_the_original_untouched() {
    let p = wikipedia_puzzle();
    let before = p.to_lines();
    let _ = p.solved();
    assert_eq!(p.to_lines(), before);
}

#[test]
fn solutions_keep_every_given() {
    let p = wikipedia_puzzle();
    let sol = p.solved().unwrap();
    let mut orig = p.rows();
    let mut solved = sol.rows();
    loop {
        match (orig.next(), solved.next()) {
            (Some(a), Some(b)) => {
                for (x, y) in a.iter().zip(b.iter()) {
                    if let Slot::Filled(n) = x {
                        assert_eq!(*y, Slot::Filled(*n));
                    }
                }
            },
            (None, None) => break,
            _ => panic!("row walks disagree"),
        }
    }
}

#[test]
fn an_inconsistent_grid_has_no_solution() {
    let mut rows = vec!["_,_,_,_,_,_,_,_,_".to_string(); 9];
    rows[3] = "5,_,_,_,_,_,_,5,_".to_string();
    let p = SudokuPuzzle::new(&rows).unwrap();
    assert!(p.solved().is_none());
}

#[test]
fn the_empty_grid_is_solvable() {
    let rows = vec!["_,_,_,_,_,_,_,_,_".to_string(); 9];
    let p = SudokuPuzzle::new(&rows).unwrap();
    let sol = p.solved().expect("an empty grid has solutions");
    assert!(sol.is_valid());
    for line in sol.to_lines() {
        assert!(!line.contains('_'));
    }
}

#[test]
fn a_complete_valid_grid_solves_to_itself() {
    let rows = lines(&[
        "5,3,4,6,7,8,9,1,2",
        "6,7,2,1,9,5,3,4,8",
        "1,9,8,3,4,2,5,6,7",
        "8,5,9,7,6,1,4,2,3",
        "4,2,6,8,5,3,7,9,1",
        "7,1,3,9,2,4,8,5,6",
        "9,6,1,5,3,7,2,8,4",
        "2,8,7,4,1,9,6,3,5",
        "3,4,5,2,8,6,1,7,9",
    ]);
    let p = SudokuPuzzle::new(&rows).unwrap();
    let sol = p.solved().unwrap();
    assert_eq!(sol.to_lines(), p.to_lines());
}

#[test]
fn unit_walks_cover_rows_columns_and_blocks() {
    let p = wikipedia_puzzle();
    let mut count = 0;
    let mut units = p.units();
    while let Some(u) = units.next() {
        assert_eq!(u.len(), 9);
        count += 1;
    }
    assert_eq!(count, 27);

    let mut rows = p.rows();
    let mut columns = p.columns();
    let mut blocks = p.blocks();
    let first_row = rows.next().unwrap();
    assert_eq!(first_row[0], Slot::Filled(5));
    let first_col = columns.next().unwrap();
    assert_eq!(first_col[1], Slot::Filled(6));
    let first_block = blocks.next().unwrap();
    assert_eq!(first_block[2], Slot::Empty);
    assert_eq!(first_block[3], Slot::Filled(6));

    let mut n = 1;
    while rows.next().is_some() {
        n += 1;
    }
    assert_eq!(n, 9);
}
