//! Maze generation and step-by-step path finding on a grid of cells.
//!
//! A maze is carved by a randomized backtracker and handed to one of three
//! searches (depth-first, Dijkstra's, A*), each of which advances by one
//! popped cell per call so that a caller can show its progress.
use vstd::prelude::*;

pub mod maze;
pub mod walks;
pub mod counting;
pub mod random;
pub mod generate;
pub mod frontier;
pub mod dfs;
pub mod djikstras;
pub mod a_star;
pub mod accuracy;
pub mod solver;

pub use maze::{Cell, CellSize, CellState, Coord, Maze, trace_path};
pub use generate::{create_maze, pick_farther_half, sort_by_distance};
pub use dfs::DFS;
pub use djikstras::Djikstras;
pub use a_star::AStar;
pub use accuracy::accuracy_fraction;
pub use solver::Solver;

verus! {

} // verus!
