//! Trail planning for mountain walking: the trail archive format, the stores that
//! keep map tiles and trail data at hand, and the graph that routes over them.
pub mod archive;
pub mod dem;
pub mod figures;
pub mod geo;
pub mod graph;
pub mod heap;
pub mod json;
pub mod map;
pub mod number;
pub mod planner;
pub mod promises;
pub mod prep;
pub mod supply;
pub mod terrain;
pub mod text;
pub mod tiles;
pub mod track;
pub mod trailfmt;
pub mod trails;
