//! Conway's Game of Life: a sparse, unbounded-grid evolution engine.
//!
//! The live cells are held as a set of integer coordinates; one `update`
//! replaces the set with the next generation under the B3/S23 rule.

pub mod board;
pub mod life;
