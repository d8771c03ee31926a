//! Shortest paths through a grid maze, found by breadth-first search and
//! reported as a sequence of compass moves.
pub mod grid;
pub mod search;
pub mod parse;
