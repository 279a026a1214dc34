//! A stochastic forest-fire simulation on a two-dimensional grid.
//!
//! Every tree of the grid is `Uncaught`, `Catching`, `Burning` or `Burnt`.
//! One tick lets each burning tree threaten its eight neighbours, decides by
//! one random draw per threatened tree whether it catches fire, and moves
//! every tree that is on fire one step further.

pub mod forest;
pub mod geometry;
pub mod model;
mod ordered;
pub mod placement;
pub mod probability;
pub mod seed;
