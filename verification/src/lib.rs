//! Sprite hierarchy and scene management with tick-driven tween animation.
//!
//! All scalar sprite properties (position, rotation, scale, color, opacity,
//! anchor) and all times are fixed-point integers: one unit of the underlying
//! quantity is `UNIT` (one million), and times are counted in ticks.  Working
//! on integers makes every interpolation step exact, so an animation that has
//! run for its whole duration leaves the property at precisely its target
//! value, with no drift however many ticks it took.

use vstd::prelude::*;

pub mod animation;
pub mod ease;
pub mod scene;
pub mod sprite;

verus! {

/// The fixed-point unit: scalar properties, eased progress factors, anchors,
/// scales, colors and opacity all count in millionths.
pub const UNIT: i64 = 1_000_000;

/// Largest magnitude a stored sprite property may have; setters clamp to it.
pub const PROP_LIMIT: i64 = 1_000_000_000_000_000_000;

/// Largest magnitude an interpolation delta may have (a delta is a difference
/// of two clamped properties).
pub const DELTA_LIMIT: i64 = 2_000_000_000_000_000_000;

/// Largest duration, elapsed time or time step, in ticks.
pub const TIME_LIMIT: i64 = 1_000_000_000_000_000;

/// Largest number of blink occurrences a descriptor is read as asking for.
pub const BLINK_LIMIT: usize = 1_000_000;

/// Clamp a scalar into the range stored sprite properties live in.
pub open spec fn clamp_prop(v: int) -> int {
    if v > PROP_LIMIT as int {
        PROP_LIMIT as int
    } else if v < -(PROP_LIMIT as int) {
        -(PROP_LIMIT as int)
    } else {
        v
    }
}

/// Clamp a duration or time step into the range times live in.
pub open spec fn clamp_time(v: int) -> int {
    if v > TIME_LIMIT as int {
        TIME_LIMIT as int
    } else if v < 0 {
        0
    } else {
        v
    }
}

/// Clamp a scalar property, executably.
pub fn clamp_prop_value(v: i64) -> (r: i64)
    ensures
        r as int == clamp_prop(v as int),
{
    if v > PROP_LIMIT {
        PROP_LIMIT
    } else if v < -PROP_LIMIT {
        -PROP_LIMIT
    } else {
        v
    }
}

/// Clamp a time, executably.
pub fn clamp_time_value(v: i64) -> (r: i64)
    ensures
        r as int == clamp_time(v as int),
{
    if v > TIME_LIMIT {
        TIME_LIMIT
    } else if v < 0 {
        0
    } else {
        v
    }
}

} // verus!
