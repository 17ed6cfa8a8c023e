//! Skeletal animation playback: piecewise-linear interpolation segments,
//! per-bone playback cursors, and an animation bank that arbitrates which
//! named animation is requested, active, or just completed.
//!
//! Times are unsigned integer ticks (the host decides the unit, e.g.
//! microseconds); interpolated values are four-lane fixed-point vectors,
//! wide enough for translations, scales and component-wise quaternion lerp.

pub mod bank;
pub mod interpolation;
pub mod player;
pub mod plugin;
pub mod skeleton;
