//! Evolving triangle paintings toward image objectives with a
//! multi-objective differential-evolution optimizer.

pub mod geometry;
pub mod random;
pub mod sorting;
pub mod canvas;
pub mod draw;
pub mod vector;
pub mod fitness;
pub mod pareto;
pub mod crowding;

pub use fitness::Objective;
pub use geometry::{Color, Triangle, Vertex};
pub use vector::{Environment, Vector};
