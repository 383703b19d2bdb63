//! Gestures, animation timing and tile fades.
//!
//! Times are microseconds since an arbitrary epoch. Screen positions are in units of 1/1024
//! pixel.

pub mod animation;
pub mod crossfade;
pub mod gestures;
