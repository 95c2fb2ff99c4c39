//! Reading trail tiles from static files: a manifest that names regions, an index
//! for each, and one file per tile.
pub mod manifest;
pub mod store;

pub use manifest::{parse_manifest, Manifest, Region};
pub use store::{file_reply, manifest_reply, tiles_covering};
pub use store::{Fetch, Message, Request, TrailArchive, MANIFEST_FILE};
