//! Palette extraction for raster images: a greedy distance-threshold grouper
//! and a seeded k-means clusterer over flat RGB pixel buffers, with the
//! renderers that quantize an image against the palettes they produce.

pub mod color;
pub mod error;
pub mod group;
pub mod histogram;
pub mod kmeans;
pub mod lloyd;
pub mod palette;
pub mod pixels;
pub mod random;
pub mod render;
pub mod seeding;
