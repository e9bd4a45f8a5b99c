//! Verified core of a grid rover simulation: three pathfinding strategies
//! (best-first search, incremental replanning search, continuous-cost search)
//! behind one trait, the obstacle layers that feed them, and the tick-level
//! simulation cycle that sequences detection, replanning and movement.

pub mod astar;
pub mod costs;
pub mod cycle;
pub mod dob;
pub mod dstar_lite;
pub mod field_dstar;
pub mod grid;
pub mod mime;
pub mod openlist;
pub mod pathfinder;
pub mod rover;
pub mod som;
pub mod trajectory;
