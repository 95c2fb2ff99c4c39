//! What the planner decides from frame to frame: which trails to load, what a
//! click becomes, when graph and isochrone are made anew, what is drawn and what is
//! said.
pub mod click;
pub mod isochrone;
pub mod loading;
pub mod panel;
pub mod sketch;

pub use click::{await_zone, click_on_map, place_click, PendingClick};
pub use isochrone::{compute_isochrone, route_to, Isochrone, Planner};
pub use loading::{auto_load, auto_trails_hint, grow_basin, AutoLoad, Basin, ViewScan};
pub use sketch::{host_of, strips_in_view, thinned, ways_in_view, Bivouac};
