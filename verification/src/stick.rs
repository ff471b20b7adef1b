//! Positions of sticks, triggers and pads.
use vstd::prelude::*;

verus! {

/// A position on two axes.
#[derive(Debug, Clone, Copy, Default, PartialEq)]
pub struct Stick2<T> {
    /// To the right.
    pub x: T,
    /// Downwards.
    pub y: T,
}

/// Everything that moves on a controller, apart from its buttons.
#[derive(Debug, Clone, Copy, PartialEq)]
pub struct ControllerSample {
    /// The left stick.
    pub left: Stick2<i32>,
    /// The right stick.
    pub right: Stick2<i32>,
    /// The left trigger.
    pub l2: i32,
    /// The right trigger.
    pub r2: i32,
    /// The directional pad from left to right.
    pub hat_x: i32,
    /// The directional pad from top to bottom.
    pub hat_y: i32,
}

impl ControllerSample {
    /// Everything at zero.
    pub open spec fn zero() -> ControllerSample {
        ControllerSample {
            left: Stick2 { x: 0, y: 0 },
            right: Stick2 { x: 0, y: 0 },
            l2: 0,
            r2: 0,
            hat_x: 0,
            hat_y: 0,
        }
    }
}

impl Default for ControllerSample {
    fn default() -> (r: ControllerSample)
        ensures
            r == ControllerSample::zero(),
    {
        ControllerSample {
            left: Stick2 { x: 0, y: 0 },
            right: Stick2 { x: 0, y: 0 },
            l2: 0,
            r2: 0,
            hat_x: 0,
            hat_y: 0,
        }
    }
}

/// `value`, as at least `low` and at most `high`.
pub open spec fn bounded(value: int, low: int, high: int) -> int {
    if value < low {
        low
    } else if value > high {
        high
    } else {
        value
    }
}

/// `value`, as at least `low` and at most `high`.
pub fn clamp(value: i32, low: i32, high: i32) -> (r: i32)
    requires
        low <= high,
    ensures
        r == bounded(value as int, low as int, high as int),
{
    if value < low {
        low
    } else if value > high {
        high
    } else {
        value
    }
}

/// A stick axis as the virtual controller takes it.
pub fn stick_axis_for_xbox(value: i32) -> (r: i32)
    ensures
        r == bounded(value as int, -32768, 32767),
{
    clamp(value, -32768, 32767)
}

} // verus!
