//! A Sudoku solver built on constraint propagation and backtracking search.
//!
//! Each cell of a [`Board`] keeps the digits still possible for it.
//! [`Board::assign`] and [`Board::eliminate`] strike digits and follow up on
//! what that implies for the rows, columns and boxes that [`make_units`]
//! lays out; [`Board::search`] branches where that leaves a choice.

pub mod board;
pub mod candidates;
pub mod model;
pub mod puzzle;
pub mod render;
pub mod steps;
pub mod topology;

pub use board::{Board, Outcome};
pub use candidates::delete;
pub use puzzle::{digit_of, solve_puzzle, takes_cell};
pub use render::render_board;
pub use topology::{make_units, Problem};
