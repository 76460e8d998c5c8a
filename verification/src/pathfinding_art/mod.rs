//! Pathfinding as an artistic medium: maze generation and solving.
//!
//! Three maze-generation algorithms (recursive backtracker, Prim's, Sidewinder),
//! two solvers (A* and BFS), and pixel and ASCII renderers.
pub mod maze;
pub mod reach;
pub mod grid;
pub mod generator;
pub mod solver;
pub mod astar;
pub mod render;

pub use maze::{Cell, Maze, Pos, E, N, S, W};
pub use generator::MazeGenerator;
pub use solver::PathFinder;
pub use render::MazeRenderer;
