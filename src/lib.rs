//! Spatial indexing and rasterization of geo-referenced samples and shapes.
//!
//! Coordinates are fixed-point integers, so every geometric predicate is
//! exact. A region quadtree indexes height samples and shapes; the
//! rasterizer queries it to fill a tile grid with heights and classes.
pub mod bbox;
pub mod geojson;
pub mod map;
pub mod point;
pub mod ui;
