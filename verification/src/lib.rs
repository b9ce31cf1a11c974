//! Analysis of a foreground and a background raster for pattern placement:
//! tone quantization, segmentation into regions of uniform tone, adjacency and
//! overlap of regions, alpha-weighted centroids, and the spatial graph that
//! links foreground regions to their nearest background regions.

pub mod graphs;
pub mod helpers;
pub mod quantization;
pub mod raster;
pub mod segmentation;
