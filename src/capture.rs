use crate::pulse::{noise_threshold, threshold};
use vstd::prelude::*;

verus! {

/// How long a capture may stay quiet before it stops, in nanoseconds.
pub const QUIET_LIMIT_NS: u64 = 3_000_000_000;

/// Where a live capture stands: whether a loud sample has come yet, and when
/// the last one came.
#[derive(Debug, Clone, Copy, PartialEq, Eq, Structural)]
pub struct Capture {
    pub started: bool,
    pub last_loud_ns: u64,
}

/// A sample at full 32-bit scale that is loud enough to start or prolong a
/// capture.
pub open spec fn capture_loud(sample: i32) -> bool {
    sample > threshold(32) || sample < -threshold(32)
}

/// The capture has been quiet for longer than the limit at time `now`.
pub open spec fn quiet_too_long(c: Capture, now_ns: u64) -> bool {
    c.started && now_ns > c.last_loud_ns && now_ns - c.last_loud_ns > QUIET_LIMIT_NS
}

impl Capture {
    /// A capture that has heard nothing yet.
    pub fn new() -> (r: Capture)
        ensures
            !r.started,
    {
        Capture { started: false, last_loud_ns: 0 }
    }

    /// Takes one sample heard at `now_ns`. Returns true when the capture
    /// must stop: it had started and nothing loud came for three seconds.
    /// Otherwise a loud sample starts the capture or moves its last loud
    /// time to now.
    pub fn step(&mut self, sample: i32, now_ns: u64) -> (stop: bool)
        ensures
            stop == quiet_too_long(*old(self), now_ns),
            stop ==> *final(self) == *old(self),
            !stop && capture_loud(sample) ==> *final(self) == (Capture { started: true, last_loud_ns: now_ns }),
            !stop && !capture_loud(sample) ==> *final(self) == *old(self),
    {
        if self.started && now_ns > self.last_loud_ns && now_ns - self.last_loud_ns > QUIET_LIMIT_NS {
            return true;
        }
        let thr = noise_threshold(32);
        if sample > thr || sample < -thr {
            self.started = true;
            self.last_loud_ns = now_ns;
        }
        false
    }

    /// How many of the oldest samples to drop so that, before the capture
    /// starts, at most one second of samples is kept.
    pub fn excess(&self, kept: usize, sample_rate: u32) -> (r: usize)
        ensures
            !self.started && kept > sample_rate ==> r == kept - sample_rate,
            self.started || kept <= sample_rate ==> r == 0,
    {
        if !self.started && kept > sample_rate as usize {
            kept - sample_rate as usize
        } else {
            0
        }
    }
}

} // verus!
