//! An unbounded Game of Life on a sparse set of cells, with a reader for
//! run-length encoded patterns.

pub mod sorted;
pub mod world;
pub mod rle;
pub mod utils;
pub mod display;
