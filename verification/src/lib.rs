//! A sparse, unbounded Game of Life engine: live cells live in a sparse
//! store over signed coordinates, a configurable birth/survival rule drives
//! each synchronous generation step, and a run-length-encoded pattern
//! decoder seeds the grid.

pub mod driver;
pub mod grid;
pub mod laws;
pub mod rle;
pub mod rule;

pub use grid::Grid;
pub use rle::ParseRleError;
pub use rle::Tag;
pub use rle::RLE;
pub use rule::Rule;
