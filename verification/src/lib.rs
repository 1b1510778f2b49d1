//! A verified nonogram (picross) solving library.
//!
//! Given run-length hints for every row and column of a rectangular grid,
//! the solver determines which cells are filled and which are blank, by
//! per-line constraint propagation with backtracking search on top.

use vstd::prelude::*;

pub mod board;
pub mod dedup;
pub mod grids;
pub mod hint;
pub mod lines;
pub mod solver;

verus! {

/// A cell of a finished board: `true` is filled, `false` is blank.
pub type Cell = bool;

} // verus!
