//! Status-line applets for a terminal multiplexer: each applet turns a
//! point-in-time system metric (CPU frequency, memory usage, host
//! reachability) into a colourized markup fragment.
//!
//! The whole pipeline is exact: decimal colour parameters, normalized
//! metric fractions and the HSL to RGB conversion are carried as scaled
//! integers, never as floating point.

pub mod fixed;
pub mod colour;
pub mod common;
pub mod cpu;
pub mod mem;
pub mod ping;
pub mod laws;
