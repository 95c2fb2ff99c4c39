//! Map tiles: what they are, where they are asked for, and the cache that keeps
//! them.
pub mod cache;
pub mod source;

pub use cache::{TileBytes, TileCache};
pub use source::{Dataset, HttpTileSource, RasterLayer, TileDesc};
