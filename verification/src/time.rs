//! Spans of virtual time.
use vstd::prelude::*;

verus! {

/// Nanoseconds in one second.
pub const NANOS_PER_SEC: u128 = 1_000_000_000;

/// The longest span: the largest `u64` of seconds and one nanosecond less than
/// another second.
pub const MAX_NANOS: u128 = 18_446_744_073_709_551_615_999_999_999;

/// A span of time, counted in nanoseconds.
#[derive(Clone, Copy, Debug, PartialEq, Eq, PartialOrd, Ord, Structural)]
pub struct Duration {
    nanos: u128,
}

impl Duration {
    /// The span in nanoseconds.
    pub closed spec fn view(self) -> nat {
        self.nanos as nat
    }

    /// Two spans are the same when they are equally long.
    pub proof fn lemma_same(a: Duration, b: Duration)
        requires
            a@ == b@,
        ensures
            a == b,
    {
    }

    /// No time at all.
    pub closed spec fn none() -> Duration {
        Duration { nanos: 0 }
    }

    /// No time at all is zero.
    pub broadcast proof fn lemma_none()
        ensures
            #[trigger] Duration::none()@ == 0,
    {
    }

    /// The empty span.
    pub fn zero() -> (span: Duration)
        ensures
            span@ == 0,
            span == Duration::none(),
    {
        Duration { nanos: 0 }
    }

    /// A span of whole seconds.
    pub fn from_secs(secs: u64) -> (span: Duration)
        ensures
            span@ == secs * NANOS_PER_SEC,
    {
        Duration { nanos: secs as u128 * NANOS_PER_SEC }
    }

    /// A span of milliseconds.
    pub fn from_millis(millis: u64) -> (span: Duration)
        ensures
            span@ == millis * 1_000_000,
    {
        Duration { nanos: millis as u128 * 1_000_000 }
    }

    /// A span of microseconds.
    pub fn from_micros(micros: u64) -> (span: Duration)
        ensures
            span@ == micros * 1_000,
    {
        Duration { nanos: micros as u128 * 1_000 }
    }

    /// A span of nanoseconds.
    pub fn from_nanos(nanos: u64) -> (span: Duration)
        ensures
            span@ == nanos,
    {
        Duration { nanos: nanos as u128 }
    }

    /// The length in nanoseconds.
    pub fn as_nanos(self) -> (nanos: u128)
        ensures
            nanos == self@,
    {
        self.nanos
    }

    /// The sum, or `None` when it exceeds the longest span.
    pub fn checked_add(self, other: Duration) -> (sum: Option<Duration>)
        ensures
            sum is Some <==> self@ + other@ <= MAX_NANOS,
            sum matches Some(total) ==> total@ == self@ + other@,
    {
        match self.nanos.checked_add(other.nanos) {
            Some(nanos) if nanos <= MAX_NANOS => Some(Duration { nanos }),
            _ => None,
        }
    }

    /// The sum, capped at the longest span.
    pub fn saturating_add(self, other: Duration) -> (sum: Duration)
        ensures
            sum@ == capped_sum(self@, other@),
    {
        match self.nanos.checked_add(other.nanos) {
            Some(nanos) if nanos <= MAX_NANOS => Duration { nanos },
            _ => Duration { nanos: MAX_NANOS },
        }
    }
}

/// The sum of two spans in nanoseconds, capped at the longest span.
pub open spec fn capped_sum(a: nat, b: nat) -> nat {
    if a + b <= MAX_NANOS {
        a + b
    } else {
        MAX_NANOS as nat
    }
}

impl Default for Duration {
    fn default() -> (span: Duration)
        ensures
            span@ == 0,
    {
        Duration::zero()
    }
}

/// A second has a thousand milliseconds, a million microseconds, a billion nanoseconds.
pub proof fn law_seconds()
    ensures
        NANOS_PER_SEC == 1_000 * 1_000_000,
        NANOS_PER_SEC == 1_000_000 * 1_000,
        MAX_NANOS == u64::MAX * 1_000_000_000 + 999_999_999,
{
}

} // verus!
