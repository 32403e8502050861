//! Incremental grid pathfinding.
//!
//! Three resumable maze solvers — breadth-first, depth-first and A* — explore
//! a 4-connected obstacle grid in small, externally paced increments. Each
//! records parent edges while it searches and reconstructs a concrete path
//! from them once the goal is discovered. A driver advances the active solver
//! once per tick and reads its observable state in between.

pub mod astar;
pub mod bfs;
pub mod dfs;
pub mod maze;
pub mod solver;
