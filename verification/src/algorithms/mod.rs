pub mod fov;
pub mod pathfinding;
pub mod simple_rng;
