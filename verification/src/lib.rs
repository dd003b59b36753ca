//! Movement resolution for a grid puzzle in which players push and pull
//! chains of blocks.

pub mod chain;
pub mod coords;
pub mod direction;
pub mod facing;
pub mod goal;
pub mod grab;
pub mod level_walls;
pub mod moves;
pub mod neighbors;
pub mod tick;
pub mod world;
