//! Building an archive from map data: which ways are kept, where they go, what
//! is written about the region, and whether what was written reads back.
pub mod collect;
pub mod fragment;
pub mod readback;

pub use collect::{Assembly, Candidate, Collector, Place, TileWays};
pub use fragment::{json_escape, manifest_fragment};
pub use readback::{verify_index, verify_tiles, Defect};
