//! The decisions of a sweeping light effect: when a frame is due, and how
//! each frame dims the colors it leaves behind.
use vstd::prelude::*;

verus! {

/// Microseconds that must pass between two frames of the sweep.
pub const FRAME_INTERVAL_MICROS: u64 = 2500;

/// A sweep effect: a green light that circles the center point while every
/// other LED slowly fades.
pub struct Sweep {
    stop: bool,
}

impl Sweep {
    pub closed spec fn stopped(self) -> bool {
        self.stop
    }

    pub fn new() -> (r: Sweep)
        ensures
            !r.stopped(),
    {
        Sweep { stop: false }
    }

    /// Asks the sweep to stop before its next frame.
    pub fn stop(&mut self)
        ensures
            final(self).stopped(),
    {
        self.stop = true;
    }

    pub fn is_stopped(&self) -> (r: bool)
        ensures
            r == self.stopped(),
    {
        self.stop
    }

    /// Whether a frame is due `elapsed` microseconds after the start, the
    /// previous one having run at `last`.
    pub fn frame_due(&self, elapsed: u64, last: u64) -> (r: bool)
        ensures
            r == (!self.stopped() && elapsed >= last + FRAME_INTERVAL_MICROS),
    {
        !self.stop && elapsed >= last && elapsed - last >= FRAME_INTERVAL_MICROS
    }

    /// One channel after a frame's fading: a thousandth darker, rounded down,
    /// which takes every lit channel one step down.
    pub fn fade_channel(c: u8) -> (r: u8)
        ensures
            r == if c == 0 {
                0
            } else {
                c - 1
            },
    {
        if c == 0 {
            0
        } else {
            c - 1
        }
    }

    /// A color after a frame's fading, channel by channel.
    pub fn fade(color: (u8, u8, u8)) -> (r: (u8, u8, u8))
        ensures
            r.0 == if color.0 == 0 { 0 } else { color.0 - 1 },
            r.1 == if color.1 == 0 { 0 } else { color.1 - 1 },
            r.2 == if color.2 == 0 { 0 } else { color.2 - 1 },
    {
        (Sweep::fade_channel(color.0), Sweep::fade_channel(color.1), Sweep::fade_channel(color.2))
    }
}

} // verus!
