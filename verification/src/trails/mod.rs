//! The trail network: ways, the zones they are asked for by, and the store that
//! keeps what has arrived.
pub mod network;
pub mod overpass;
pub mod source;
pub mod store;
pub mod way;
pub mod zone;

pub use network::TrailNetwork;
pub use overpass::parse_overpass;
pub use source::OverpassSource;
pub use store::TrailStore;
pub use zone::ZoneKey;
pub use way::{Snap, Way, WayKind};
