//! A Sudoku solver on bit masks: the candidates of a 9x9 grid as one
//! 81-bit mask for each digit, propagation by bit-parallel scans, and a
//! search that guesses and takes guesses back.

pub mod bits;
pub mod deduce;
pub mod grid;
pub mod puzzle;
pub mod scan;
pub mod search;
pub mod solve;
pub mod tables;

pub use grid::{BOX, BOX_LOCS, COLUMN, ROW};
pub use puzzle::{Puzzle, NEW_BOARD};
pub use scan::{quick_boxes, quick_columns, quick_horiz_triads, quick_rows, quick_vert_triads};
pub use solve::{LocIter, Solver};
pub use tables::{gen_group_table, gen_square_table};
