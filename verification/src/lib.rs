//! A binary image codec for embedded displays: packs monochrome pixel
//! grids into width/height-prefixed, row-padded 1-bit-per-pixel
//! frames, optionally run-length encodes each frame's payload, and
//! renders the result as a C byte-array header for read-only storage.

pub mod frame;
pub mod grid;
pub mod header;
pub mod rle;
