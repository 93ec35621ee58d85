//! Tile-resolution and retrieval pipeline for assembling a geospatial
//! raster over a bounding box from a cluster of catalog nodes.
//!
//! The library covers the decision and data logic of the pipeline:
//! spatial partitioning of a query region into geohash cells, the
//! per-cell source-selection policy, the batch temporal join between two
//! sorted imagery streams, the binary transfer wire protocol, the
//! accounting of a bounded worker pool's results, and the assembly plan
//! for the final mosaic. Network transports, threads and raster codecs
//! live outside the library and hand it plain values.

pub mod catalog;
pub mod error;
pub mod geo;
pub mod join;
pub mod mosaic;
pub mod order;
pub mod pool;
pub mod select;
pub mod tile;
pub mod wire;

pub use error::StitchError;
