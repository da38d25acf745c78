pub mod cell;
pub mod graph;
pub mod queue;

pub use cell::Cell;
pub use graph::Graph;
pub use queue::{MinPriorityQueue, Queue};
