//! A constraint-satisfaction engine specialised to Sudoku generation.
//!
//! A 9x9 grid of variables, each holding a candidate set drawn from 1..=9,
//! is solved under a pluggable binary compatibility predicate by AC-3 style
//! arc-consistency propagation and backtracking search with the
//! minimum-remaining-values heuristic.  A solved grid can then be masked
//! cell by cell at a caller-chosen probability to yield a playable puzzle.

pub mod laws;
pub mod mask;
pub mod model;
pub mod pairs;
pub mod solver;
pub mod topology;
