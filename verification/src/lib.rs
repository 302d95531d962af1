//! A 9x9 Sudoku engine: a grid of slots, its decomposition into the 27
//! constraint units (rows, columns, blocks), a validity check over those
//! units, strict text and JSON codecs, and an exhaustive backtracking solver.

pub mod errors;
pub mod iterators;
pub mod json;
pub mod protocol;
pub mod puzzle;
pub mod solver;
pub mod text;

pub use errors::SudokuParseError;
pub use iterators::BlockIterator;
pub use iterators::ColumnIterator;
pub use iterators::RowIterator;
pub use iterators::UnitIterator;
pub use json::JsonCell;
pub use json::JsonRow;
pub use protocol::json_message;
pub use protocol::json_puzzle;
pub use protocol::respond;
pub use puzzle::Grid;
pub use puzzle::Slot;
pub use puzzle::SudokuPuzzle;
