//! Extraction and rendering of layered, keyframed vector symbols.
//!
//! The library holds the edge-encoding parser, the bounding-box aggregation,
//! the timeline compositor and the path and style resolution that turns a
//! symbol into an ordered list of draw calls per output frame.

pub mod natural;
pub mod coord;
pub mod edge;
pub mod bbox;
pub mod shape;
pub mod timeline;
pub mod render;
pub mod document;
pub mod library;

pub use crate::library::Fla;
