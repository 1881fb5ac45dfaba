//! Spans of time, as whole seconds and nanoseconds.

use vstd::prelude::*;

verus! {

/// A span of time. `nanos` is below one second.
#[derive(Debug, Clone, Copy, PartialEq, Eq, Structural)]
pub struct TimeSpan {
    pub secs: u64,
    pub nanos: u32,
}

impl TimeSpan {
    pub open spec fn wf(self) -> bool {
        self.nanos < 1_000_000_000
    }

    /// The span in nanoseconds.
    pub open spec fn in_nanos(self) -> nat {
        self.secs as nat * 1_000_000_000 + self.nanos as nat
    }

    /// A span of `secs` seconds.
    pub fn from_secs(secs: u64) -> (t: TimeSpan)
        ensures
            t.wf(),
            t.in_nanos() == secs * 1_000_000_000,
            t == (TimeSpan { secs, nanos: 0 }),
    {
        TimeSpan { secs, nanos: 0 }
    }

    /// A span of `millis` milliseconds.
    pub fn from_millis(millis: u64) -> (t: TimeSpan)
        ensures
            t.wf(),
            t.in_nanos() == millis * 1_000_000,
            t.secs == millis / 1000,
            t.nanos == (millis % 1000) * 1_000_000,
    {
        TimeSpan { secs: millis / 1000, nanos: (millis % 1000) as u32 * 1_000_000 }
    }

    /// The span in nanoseconds.
    pub fn as_nanos(&self) -> (n: u128)
        ensures
            n == self.in_nanos(),
    {
        self.secs as u128 * 1_000_000_000 + self.nanos as u128
    }

    /// A span of `nanos` nanoseconds.
    pub fn from_nanos(nanos: u128) -> (t: TimeSpan)
        requires
            nanos < (u64::MAX + 1) * 1_000_000_000,
        ensures
            t.wf(),
            t.in_nanos() == nanos,
    {
        TimeSpan {
            secs: (nanos / 1_000_000_000) as u64,
            nanos: (nanos % 1_000_000_000) as u32,
        }
    }
}

/// A second has a thousand million nanoseconds, and no two spans are the same length.
pub proof fn law_spans_in_nanos(a: TimeSpan, b: TimeSpan)
    requires
        a.nanos < 1_000_000_000,
        b.nanos < 1_000_000_000,
    ensures
        a.in_nanos() == 1_000_000_000 * a.secs + a.nanos,
        a.in_nanos() == b.in_nanos() <==> a == b,
        a.wf(),
{
}

} // verus!
