//! A solver for 9x9 grids of digits 1..9 under row and column uniqueness
//! constraints.
//!
//! The solver keeps a flat 81-cell value buffer together with one candidate
//! bitset per row and per column, assigns forced cells by constraint
//! propagation to a fixed point, and completes the grid by depth-first
//! search with trial and revert over an explicit stack of propagated cells.
//! Only row and column uniqueness are enforced; the classic 3x3 box
//! constraint is deliberately out of scope.

pub mod bits;
pub mod grid;
pub mod laws;
