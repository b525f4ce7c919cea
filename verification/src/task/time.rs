//! Points in time.
use vstd::prelude::*;

verus! {

pub const NANOS_PER_SEC: u64 = 1_000_000_000;

/// A time since the start, or a span of time.
#[derive(Clone, Copy, Debug, PartialEq, Eq, Structural)]
pub struct TimeValue {
    pub secs: u64,
    /// Less than a second.
    pub subsec: u32,
}

impl TimeValue {
    pub open spec fn wf(self) -> bool {
        self.subsec < NANOS_PER_SEC
    }

    pub open spec fn nanos(self) -> int {
        self.secs * NANOS_PER_SEC + self.subsec
    }

    /// Whether so many nanoseconds can be told.
    pub open spec fn fits(n: int) -> bool {
        n < (u64::MAX + 1) * NANOS_PER_SEC
    }

    pub fn from_nanos(n: u64) -> (r: Self)
        ensures
            r.wf(),
            r.nanos() == n,
    {
        TimeValue { secs: n / NANOS_PER_SEC, subsec: (n % NANOS_PER_SEC) as u32 }
    }

    pub fn earlier(&self, other: &TimeValue) -> (r: bool)
        requires
            self.wf(),
            other.wf(),
        ensures
            r == (self.nanos() < other.nanos()),
    {
        self.secs < other.secs || (self.secs == other.secs && self.subsec < other.subsec)
    }

    /// The sum, where it can be told.
    pub fn checked_add(&self, other: &TimeValue) -> (r: Option<TimeValue>)
        requires
            self.wf(),
            other.wf(),
        ensures
            match r {
                Some(t) => t.wf() && t.nanos() == self.nanos() + other.nanos(),
                None => !TimeValue::fits(self.nanos() + other.nanos()),
            },
    {
        let secs: u64 = match self.secs.checked_add(other.secs) {
            Some(s) => s,
            None => {
                return None;
            },
        };
        let subsec: u32 = self.subsec + other.subsec;
        if subsec as u64 >= NANOS_PER_SEC {
            match secs.checked_add(1) {
                Some(s) => Some(TimeValue { secs: s, subsec: subsec - 1_000_000_000 }),
                None => None,
            }
        } else {
            Some(TimeValue { secs, subsec })
        }
    }

    /// The nanoseconds, as far as 64 bits tell them.
    pub fn as_nanos_u64(&self) -> (r: u64)
        requires
            self.wf(),
        ensures
            r == self.nanos() % 0x1_0000_0000_0000_0000,
    {
        assert(self.secs * NANOS_PER_SEC <= u64::MAX * NANOS_PER_SEC) by (nonlinear_arith)
            requires
                self.secs <= u64::MAX,
        ;
        let n: u128 = self.secs as u128 * NANOS_PER_SEC as u128 + self.subsec as u128;
        assert(n as u64 == n % 0x1_0000_0000_0000_0000) by (bit_vector);
        n as u64
    }
}

} // verus!
