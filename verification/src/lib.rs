//! Adaptive image approximation.
//!
//! The library reproduces a picture with progressively finer flat-color
//! regions: it repeatedly decomposes the image into axis-aligned rectangles,
//! fills each rectangle with its average color, and subdivides next whichever
//! rectangle contributes the largest weighted error.

pub mod engine;
pub mod image_buf;
pub mod math;
pub mod ranking;
pub mod rect;
pub mod score;
