//! Block bookkeeping for counting the points of the generalised Mandelbrot
//! set `z -> z^e + c` on a fixed pixel grid: the grid and its 8x8 blocks, the
//! run-length code in which per-block flags are stored, and the statistics
//! and text forms derived from them.

pub mod device;
pub mod grid;
pub mod header;
pub mod parse;
pub mod rle;
pub mod shade;
pub mod stats;
pub mod text;

