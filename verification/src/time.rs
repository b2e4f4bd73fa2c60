//! Spans of time, in seconds and nanoseconds.
use vstd::prelude::*;

verus! {

/// A span of time: whole seconds and the nanoseconds beyond them.
#[derive(Debug, Clone, Copy, PartialEq, Eq, Structural)]
pub struct Duration {
    secs: u64,
    nanos: u32,
}

impl Duration {
    #[verifier::type_invariant]
    spec fn nanos_below_a_second(self) -> bool {
        self.nanos < 1_000_000_000
    }

    /// The whole seconds of the span.
    pub closed spec fn spec_secs(self) -> u64 {
        self.secs
    }

    /// The nanoseconds beyond the whole seconds.
    pub closed spec fn spec_subsec_nanos(self) -> u32 {
        self.nanos
    }

    /// The length of the span in nanoseconds.
    pub open spec fn total_nanos(self) -> int {
        self.spec_secs() * 1_000_000_000 + self.spec_subsec_nanos()
    }

    /// A span of `secs` seconds.
    pub fn from_secs(secs: u64) -> (r: Self)
        ensures
            r.spec_secs() == secs,
            r.spec_subsec_nanos() == 0,
    {
        Duration { secs, nanos: 0 }
    }

    /// A span of `millis` milliseconds.
    pub fn from_millis(millis: u64) -> (r: Self)
        ensures
            r.spec_secs() == millis / 1000,
            r.spec_subsec_nanos() == (millis % 1000) * 1_000_000,
            r.total_nanos() == millis * 1_000_000,
    {
        let d = Duration { secs: millis / 1000, nanos: ((millis % 1000) * 1_000_000) as u32 };
        d
    }

    /// The whole seconds of the span.
    pub fn as_secs(&self) -> (r: u64)
        ensures
            r == self.spec_secs(),
    {
        self.secs
    }

    /// The nanoseconds beyond the whole seconds.
    pub fn subsec_nanos(&self) -> (r: u32)
        ensures
            r == self.spec_subsec_nanos(),
            r < 1_000_000_000,
    {
        proof {
            use_type_invariant(self);
        }
        self.nanos
    }

    /// The length of the span in whole milliseconds.
    pub fn as_millis(&self) -> (r: u128)
        ensures
            r == self.total_nanos() / 1_000_000,
    {
        proof {
            use_type_invariant(self);
        }
        self.secs as u128 * 1000 + (self.nanos / 1_000_000) as u128
    }

    /// Whether this span is strictly longer than `other`.
    pub fn is_longer_than(&self, other: &Duration) -> (r: bool)
        ensures
            r == (self.total_nanos() > other.total_nanos()),
    {
        proof {
            use_type_invariant(self);
            use_type_invariant(other);
        }
        let r = self.secs > other.secs || (self.secs == other.secs && self.nanos > other.nanos);
        proof {
            let a = self.secs as int;
            let b = other.secs as int;
            let x = self.nanos as int;
            let y = other.nanos as int;
            assert(a > b ==> a * 1_000_000_000 + x > b * 1_000_000_000 + y) by (nonlinear_arith)
                requires
                    0 <= x < 1_000_000_000,
                    0 <= y < 1_000_000_000,
            ;
            assert(a < b ==> a * 1_000_000_000 + x < b * 1_000_000_000 + y) by (nonlinear_arith)
                requires
                    0 <= x < 1_000_000_000,
                    0 <= y < 1_000_000_000,
            ;
        }
        r
    }
}

} // verus!
