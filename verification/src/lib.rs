//! Mondrian-style bitmap layout of a Bitcoin block: every transaction becomes a
//! square whose side grows with the value it moves, and the squares are packed
//! without overlap by a first-fit "Mondrian" bin packer.

pub mod block;
pub mod coverage;
pub mod geometry;
pub mod layout;
pub mod raster;
pub mod request;
pub mod reshape;
pub mod row;
pub mod sizing;
