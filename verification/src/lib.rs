//! Scheduling, tile algebra and pixel logic of a raster-to-tile-pyramid
//! generator: which tiles exist, in which order they are produced, when a
//! parent may be composed from its children, and what bytes each tile holds.

pub mod args;
pub mod batch;
pub mod cache;
pub mod codec;
pub mod coverage;
pub mod limits;
pub mod processor;
pub mod raster;
pub mod schema;
pub mod state;
pub mod text;
pub mod tile;
pub mod time_track;
pub mod warp;
pub mod tile_set;
pub mod zorder;
