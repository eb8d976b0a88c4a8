//! Conway's Game of Life on an unbounded sparse grid.
//!
//! The library covers the simulation core: the B3/S23 rule, the RLE
//! pattern decoder, the sparse cell store with its pool of recycled
//! slots, Moore-neighborhood counting, and the generation scheduler.
//! Rendering, windowing and input dispatch live outside the library
//! and only exchange plain coordinate values with it.

pub mod cellule;
pub mod fxmap;
pub mod generation;
pub mod pattern;
pub mod random;
pub mod rules;
