//! Crowd navigation over a uniform grid: walkability and connectivity of a level,
//! flow fields that lead every reachable cell to its nearest target, a spatial
//! index for neighbour queries, the decisions of the movement step, and figures
//! on how long the phases of a tick took.

pub mod distance;
pub mod flow;
pub mod grid;
pub mod nav_grid;
pub mod counting;
pub mod wave;
pub mod flow_field;
pub mod route;
pub mod sight;
pub mod guarantees;
pub mod open_level;
pub mod spatial;
pub mod movement;
pub mod scheduler;
pub mod spatial_hash;
pub mod spatial_index;
pub mod statistics;
pub mod open_sight;
