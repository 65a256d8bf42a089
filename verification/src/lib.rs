//! A small scene-preparation and rendering pipeline for 2-D point sets.
//!
//! Raw coordinate text of the form `x1,y1;x2,y2;...` is parsed into a
//! validated point set, a canvas size bounding all points is derived, and a
//! render plan (markers for the points, markers and an open polyline for an
//! optimized tour) is composed for a raster backend to execute.

pub mod coord;
pub mod errors;
pub mod parse;
pub mod render;
pub mod scene;
