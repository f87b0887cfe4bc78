//! A hexagonal-grid maze: the coordinate systems, the wall-state grid, a
//! randomized depth-first-search carver that is proved to leave a spanning
//! tree of open walls, and a steppable A* solver whose reconstructed path
//! is proved adjacent and wall-free from goal to start.

pub mod count;
pub mod generator;
pub mod grid;
pub mod hex;
pub mod maze;
pub mod solver;
