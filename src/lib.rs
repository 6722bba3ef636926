//! Palette analysis: integer colour records, palette validation and hex
//! parsing, threshold matrices for ordered dithering (Bayer, white noise,
//! void-and-cluster ranking), raster primitives on an RGB buffer, text
//! layout with a bitmap font, a write-once store of computed plots, the
//! acyclicity test of a palette's nearest-neighbour graph, and the layout
//! records of the diagnostic widgets.

pub mod util;
pub mod text;
pub mod colour;
pub mod loader;
pub mod cache;
pub mod dither;
pub mod graph;
pub mod palette;
pub mod widget;
pub mod daemon;
