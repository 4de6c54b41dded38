//! Conway's Game of Life on a fixed rectangular grid, with a sequential and a
//! partitioned step engine that are proved to compute the same generations.

pub mod life;
pub mod life_implementation;
pub mod life_interface;
pub mod partition;
pub mod rules;
pub mod text;

pub use life::Cell;
pub use life_implementation::{BaseLifeBoard, ParallelLifeBoard};
pub use life_interface::{LifeBoard, LifeBoardError, LifeCell};
