//! Rectangular grid mazes: carving, topology reduction, leaf pruning and A* solving.
//!
//! Every function carries a contract over the mathematical model of the grid
//! (`Maze::view`), and every contract is proved.

pub mod common;
pub mod direction;
pub mod maze;
pub mod open_set;
pub mod solver;
pub mod topology;
pub mod text;
pub mod random;
pub mod generator;
pub mod simplifier;
pub mod control;
pub mod connectivity;
pub mod carving;
pub mod exploration;
pub mod census;
pub mod chain;
pub mod joining;
pub mod capacity;
pub mod runs;
