//! Hybrid Logical Clock: orders events across agents without synchronized
//! wall clocks. A timestamp is a pair `(physical_ms, logical)`, ordered
//! lexicographically.
use vstd::prelude::*;

verus! {

#[derive(Debug, Clone, Copy, PartialEq, Eq, Structural, PartialOrd, Ord, Hash)]
pub struct Hlc {
    pub physical_ms: u64,
    pub logical: u32,
}

/// Strict lexicographic order on timestamps: `a` happened before `b`.
pub open spec fn hlc_lt(a: Hlc, b: Hlc) -> bool {
    a.physical_ms < b.physical_ms || (a.physical_ms == b.physical_ms && a.logical < b.logical)
}

/// Non-strict lexicographic order on timestamps.
pub open spec fn hlc_le(a: Hlc, b: Hlc) -> bool {
    hlc_lt(a, b) || a == b
}

pub open spec fn max3(a: u64, b: u64, c: u64) -> u64 {
    if a >= b && a >= c {
        a
    } else if b >= c {
        b
    } else {
        c
    }
}

/// The clock after a local event at wall-clock reading `wall_ms`.
pub open spec fn tick_spec(c: Hlc, wall_ms: u64) -> Hlc {
    if wall_ms > c.physical_ms {
        Hlc { physical_ms: wall_ms, logical: 0 }
    } else {
        Hlc { physical_ms: c.physical_ms, logical: (c.logical + 1) as u32 }
    }
}

/// A tick is defined (no counter overflow) on this clock and reading.
pub open spec fn tick_defined(c: Hlc, wall_ms: u64) -> bool {
    wall_ms > c.physical_ms || c.logical < u32::MAX
}

/// The clock after receiving `remote` at wall-clock reading `wall_ms`.
pub open spec fn observe_spec(c: Hlc, remote: Hlc, wall_ms: u64) -> Hlc {
    let m = max3(wall_ms, c.physical_ms, remote.physical_ms);
    let logical: int = if m == c.physical_ms && m == remote.physical_ms {
        (if c.logical >= remote.logical { c.logical } else { remote.logical }) + 1
    } else if m == c.physical_ms {
        c.logical + 1
    } else if m == remote.physical_ms {
        remote.logical + 1
    } else {
        0
    };
    Hlc { physical_ms: m, logical: logical as u32 }
}

/// An observation is defined (no counter overflow) on these inputs.
pub open spec fn observe_defined(c: Hlc, remote: Hlc, wall_ms: u64) -> bool {
    let m = max3(wall_ms, c.physical_ms, remote.physical_ms);
    &&& m == c.physical_ms ==> c.logical < u32::MAX
    &&& m == remote.physical_ms ==> remote.logical < u32::MAX
}

impl Hlc {
    /// The clock before any event.
    pub fn zero() -> (z: Hlc)
        ensures
            z.physical_ms == 0,
            z.logical == 0,
    {
        Hlc { physical_ms: 0, logical: 0 }
    }

    /// Strictly-after comparison, in the lexicographic order of the pair.
    pub fn is_after(&self, other: &Hlc) -> (r: bool)
        ensures
            r == hlc_lt(*other, *self),
    {
        self.physical_ms > other.physical_ms || (self.physical_ms == other.physical_ms
            && self.logical > other.logical)
    }

    /// Whether `tick(wall_ms)` is defined on this clock: the logical counter
    /// would not overflow.
    pub fn can_tick(&self, wall_ms: u64) -> (r: bool)
        ensures
            r == tick_defined(*self, wall_ms),
    {
        wall_ms > self.physical_ms || self.logical < u32::MAX
    }

    /// Advance the clock for a local event, given the current wall-clock
    /// reading; returns the new clock value. The new value is strictly later
    /// than the old one and never behind the wall clock.
    pub fn tick(&mut self, wall_ms: u64) -> (r: Hlc)
        requires
            tick_defined(*old(self), wall_ms),
        ensures
            *final(self) == tick_spec(*old(self), wall_ms),
            r == *final(self),
            hlc_lt(*old(self), r),
            r.physical_ms >= wall_ms,
    {
        if wall_ms > self.physical_ms {
            self.physical_ms = wall_ms;
            self.logical = 0;
        } else {
            self.logical = self.logical + 1;
        }
        *self
    }

    /// Merge in a remote timestamp on message receipt, given the current
    /// wall-clock reading; returns the new clock value. The new value is
    /// strictly later than both the old local clock and the remote stamp.
    pub fn observe(&mut self, remote: Hlc, wall_ms: u64) -> (r: Hlc)
        requires
            observe_defined(*old(self), remote, wall_ms),
        ensures
            *final(self) == observe_spec(*old(self), remote, wall_ms),
            r == *final(self),
            hlc_lt(*old(self), r),
            hlc_lt(remote, r),
            r.physical_ms >= wall_ms,
    {
        let mut max_physical = wall_ms;
        if self.physical_ms > max_physical {
            max_physical = self.physical_ms;
        }
        if remote.physical_ms > max_physical {
            max_physical = remote.physical_ms;
        }
        if max_physical == self.physical_ms && max_physical == remote.physical_ms {
            let bigger = if self.logical >= remote.logical {
                self.logical
            } else {
                remote.logical
            };
            self.logical = bigger + 1;
        } else if max_physical == self.physical_ms {
            self.logical = self.logical + 1;
        } else if max_physical == remote.physical_ms {
            self.logical = remote.logical + 1;
        } else {
            self.logical = 0;
        }
        self.physical_ms = max_physical;
        *self
    }
}

} // verus!
