//! A real-time audio spectrum visualizer core, in Q16.16 fixed-point
//! arithmetic.
//!
//! Given a periodically updated vector of per-bin magnitudes (decibels,
//! stored as fixed-point offsets above a -180 dB floor) and a sample rate,
//! the library smooths the values over time, maps each bin index to a
//! horizontal screen position under a configurable frequency scale, applies
//! a dB-per-octave tilt, and produces either a polyline (spectrum style) or
//! a list of gradient stops (gradient style) for an external drawing
//! surface to paint.

pub mod fixed;
pub mod mapper;
pub mod smoothing;
pub mod shaper;
pub mod render;
