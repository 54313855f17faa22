//! Mosaics of fixed-size tiles: a palette of tiles keyed by average colour,
//! nearest-colour matching, and composition of the matched tiles.

pub mod args;
pub mod block_map;
pub mod error;
pub mod grid;
pub mod mosaic;
pub mod raster;
pub mod sums;
