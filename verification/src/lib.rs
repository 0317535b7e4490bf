//! A 3x3x3 twisty-puzzle solver.
//!
//! The puzzle is modelled as a fixed-length sequence of 54 colored facelets,
//! nine per face. `cube` holds the state representation and the legal face
//! turns, `heuristic` estimates the remaining distance to the solved
//! configuration (including a breadth-first pattern database), and `ida_star`
//! searches for a move sequence with iterative-deepening A*.

pub mod cube;
pub mod heuristic;
pub mod ida_star;
