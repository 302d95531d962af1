use vstd::prelude::*;

use crate::puzzle::SudokuPuzzle;
use vstd::string::StringExecFns;

verus! {

/// Why parsing failed. Each variant carries the human-readable description
/// that callers report. Parsing stops at the first error; no partial grid
/// is ever returned.
#[derive(Debug)]
pub enum SudokuParseError {
    /// The input was not readable as JSON at all; holds the reader's message.
    Json(String),
    /// Wrong number of rows, or wrong number of cells in a row.
    Structure(&'static str),
    /// A cell token is neither the empty marker nor an integer numeral.
    Token(&'static str),
    /// A numeral parsed, but its value lies outside 1..=9.
    Range(&'static str),
    /// A JSON value of the wrong kind stands where an array, a number or
    /// null is expected.
    Format(&'static str),
}

impl SudokuParseError {
    /// The description this error carries.
    pub open spec fn message_view(&self) -> Seq<char> {
        match self {
            SudokuParseError::Json(m) => m@,
            SudokuParseError::Structure(m) => m@,
            SudokuParseError::Token(m) => m@,
            SudokuParseError::Range(m) => m@,
            SudokuParseError::Format(m) => m@,
        }
    }

    /// The description this error carries, as an owned string.
    pub fn message(&self) -> (r: String)
        ensures
            r@ == self.message_view(),
    {
        match self {
            SudokuParseError::Json(m) => m.clone(),
            SudokuParseError::Structure(m) => String::from_str(m),
            SudokuParseError::Token(m) => String::from_str(m),
            SudokuParseError::Range(m) => String::from_str(m),
            SudokuParseError::Format(m) => String::from_str(m),
        }
    }
}

/// Two parse errors agree: same class, same description.
pub open spec fn same_error(a: SudokuParseError, b: SudokuParseError) -> bool {
    match (a, b) {
        (SudokuParseError::Json(x), SudokuParseError::Json(y)) => x@ == y@,
        (SudokuParseError::Structure(x), SudokuParseError::Structure(y)) => x@ == y@,
        (SudokuParseError::Token(x), SudokuParseError::Token(y)) => x@ == y@,
        (SudokuParseError::Range(x), SudokuParseError::Range(y)) => x@ == y@,
        (SudokuParseError::Format(x), SudokuParseError::Format(y)) => x@ == y@,
        _ => false,
    }
}

/// An executable parse outcome agrees with a specified one: the same grid
/// on success, the same error otherwise.
pub open spec fn outcome_matches(
    r: Result<SudokuPuzzle, SudokuParseError>,
    m: Result<Seq<crate::puzzle::Slot>, SudokuParseError>,
) -> bool {
    match (r, m) {
        (Ok(p), Ok(g)) => p@ == g && p.wf(),
        (Err(e), Err(f)) => same_error(e, f),
        _ => false,
    }
}

} // verus!
