//! Core of a tiny text screensaver: a fixed 8x16 bitmap-font rasterizer
//! and a timed entity lifecycle manager, specified down to the pixel.
//!
//! The host (window creation, event pumping, clock, exit handling) lives
//! outside this crate; it hands each frame a plain pixel buffer and a
//! monotonic timestamp and presents the buffer afterwards.

pub mod args;
pub mod glyphs;
pub mod grid;
pub mod lifecycle;
pub mod raster;
