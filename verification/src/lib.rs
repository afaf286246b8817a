//! Terminal ASCII-art video toolkit.
//!
//! `raster` turns a decoded grayscale image into one text frame by
//! block-averaging pixel luminance over a coarse character grid; `playback`
//! orders precomputed frames by the numeric index in their file names and
//! schedules their display at a fixed cadence against absolute deadlines.

pub mod playback;
pub mod raster;
