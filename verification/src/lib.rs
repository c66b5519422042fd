//! A 9×9 Sudoku engine with machine-checked contracts.
//!
//! A board is filled in two ways. Propagation writes every digit that
//! elimination, naked singles and hidden singles force, and stops when a
//! whole pass changes nothing; it never guesses. Search tries digits cell by
//! cell and backs out of dead ends; it finds the first solution in cell and
//! digit order, or reports that there is none. Propagation before the search
//! spares work and leaves the outcome as it is.
//!
//! - [`possibility`]: the candidate set of a cell, packed into sixteen bits.
//! - [`units`]: rows, columns and boxes, and the cells they hold.
//! - [`rules`]: what a valid board and a solution are.
//! - [`board`]: the board and its validity check.
//! - [`text`]: boards read from and written as text.
//! - [`propagation`]: what a pass does and where repeated passes end.
//! - [`engine`]: the propagation that runs, proved against [`propagation`].
//! - [`soundness`]: every solution survives propagation.
//! - [`search`]: the backtracking search.
//! - [`theorems`]: how the parts relate.

pub mod board;
pub mod engine;
pub mod possibility;
pub mod propagation;
pub mod rules;
pub mod search;
pub mod soundness;
pub mod text;
pub mod theorems;
pub mod units;

pub use crate::board::Sudoku;
pub use crate::possibility::SudokuPossibility;
