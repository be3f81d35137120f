//! Spans of time as plain numbers.
use vstd::prelude::*;

verus! {

/// Nanoseconds in a second.
pub const NANOS_PER_SEC: u64 = 1_000_000_000;

/// A span of time: whole seconds and the nanoseconds below one second.
#[derive(Clone, Copy, Debug, PartialEq, Eq, Hash, Structural)]
pub struct Duration {
    secs: u64,
    nanos: u32,
}

impl Duration {
    /// Whole seconds.
    pub closed spec fn secs(&self) -> u64 {
        self.secs
    }

    /// Nanoseconds that the whole seconds leave over.
    pub closed spec fn subsec(&self) -> u32 {
        self.nanos
    }

    /// The part below one second is below one second.
    pub open spec fn wf(&self) -> bool {
        self.subsec() < NANOS_PER_SEC
    }

    /// The whole span in nanoseconds.
    pub open spec fn total(&self) -> nat {
        self.secs() as nat * NANOS_PER_SEC as nat + self.subsec() as nat
    }

    /// Two spans of the same length are the same value.
    pub proof fn lemma_total_determines(a: Duration, b: Duration)
        requires
            a.wf(),
            b.wf(),
            a.total() == b.total(),
        ensures
            a == b,
    {
    }

    /// A span of `secs` seconds and `nanos` nanoseconds.
    pub fn new(secs: u64, nanos: u32) -> (d: Duration)
        requires
            nanos < NANOS_PER_SEC,
        ensures
            d.wf(),
            d.secs() == secs,
            d.subsec() == nanos,
    {
        Duration { secs, nanos }
    }

    /// A span of whole seconds.
    pub fn from_secs(secs: u64) -> (d: Duration)
        ensures
            d.wf(),
            d.secs() == secs,
            d.subsec() == 0,
    {
        Duration { secs, nanos: 0 }
    }

    /// A span of `nanos` nanoseconds.
    pub fn from_nanos(nanos: u64) -> (d: Duration)
        ensures
            d.wf(),
            d.total() == nanos,
    {
        Duration { secs: nanos / NANOS_PER_SEC, nanos: (nanos % NANOS_PER_SEC) as u32 }
    }

    /// Whole seconds, the rest cut off.
    pub fn as_secs(&self) -> (secs: u64)
        ensures
            secs == self.secs(),
    {
        self.secs
    }

    /// The nanoseconds beyond the whole seconds.
    pub fn subsec_nanos(&self) -> (nanos: u32)
        ensures
            nanos == self.subsec(),
    {
        self.nanos
    }

    /// The whole span in milliseconds, the rest cut off.
    pub fn as_millis(&self) -> (millis: u128)
        ensures
            millis == self.secs() as nat * 1000 + self.subsec() as nat / 1_000_000,
    {
        self.secs as u128 * 1000 + (self.nanos / 1_000_000) as u128
    }

    /// The whole span in nanoseconds.
    pub fn as_nanos(&self) -> (nanos: u128)
        ensures
            nanos == self.total(),
    {
        self.secs as u128 * 1_000_000_000 + self.nanos as u128
    }
}

}
