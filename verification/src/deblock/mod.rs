//! The VVC in-loop deblocking filter for intra pictures (boundary strength
//! 2 on every coding-unit edge): luma edges on the 4-sample grid with short,
//! strong and long (5/7-tap) filters, chroma edges on the 8-sample grid.
pub mod line;
pub mod grid;

pub mod edges;

pub use edges::{deblock_chroma, deblock_luma};
pub use grid::{Blk, Grid};
