//! Rectangular maze grids: a cell arena with fixed topology and mutable
//! symmetric passage links, six randomized spanning-tree carving
//! strategies, breadth-first distances over the passage graph, and
//! shortest-path reconstruction from a distance table.

pub mod algorithms;
pub mod aldous_broder;
pub mod binary_tree;
pub mod cell;
pub mod distance_grid;
pub mod distances;
pub mod grid;
pub mod hunt_and_kill;
pub mod random;
pub mod recursive_backtracker;
pub mod sidewinder;
pub mod utils;
pub mod wilsons;
