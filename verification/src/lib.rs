//! Spatial reasoning over tile grids: field of view by symmetric
//! shadowcasting, least-cost paths by uniform-cost search, and the queues
//! that both rest on.
//!
//! The map itself belongs to the caller, who hands it in through the
//! [`data_structures::Graph`] trait.
//!
//! * [`algorithms::fov`] computes what can be seen from a cell. Slopes are
//!   exact fractions, so that a row's columns are the same on every machine.
//! * [`algorithms::pathfinding`] finds a cheapest path. Steps cost whole
//!   units; sums are exact up to `2^53` and counted as `2^53` beyond.
//! * [`data_structures::queue`] holds a bounded first-in, first-out queue
//!   and a priority queue that orders doubles by their bit patterns.
//! * [`algorithms::simple_rng`] is a small linear congruential generator.
pub mod algorithms;
pub mod data_structures;
pub mod error;
