//! Wall-clock time as it travels in messages: whole seconds and a binary
//! fraction of a second.

use std::time::{SystemTime, UNIX_EPOCH};
use vstd::prelude::*;

verus! {

/// Seconds since the Unix epoch, and the part of a second in units of 2^-32 s.
#[derive(Debug, Clone, Copy, PartialEq, Eq, Hash, Structural)]
pub struct Timestamp {
    pub seconds: u32,
    pub fraction: u32,
}

/// `SystemTime::now`, as whole seconds since the Unix epoch and the
/// nanoseconds of the second begun; both zero where the clock stands before
/// the epoch. The nanoseconds are below one billion, as `Duration` documents.
#[verifier::external_body]
fn unix_time_now() -> (t: (u64, u32))
    ensures
        t.1 < 1_000_000_000,
{
    let d = SystemTime::now().duration_since(UNIX_EPOCH).unwrap_or_default();
    (d.as_secs(), d.subsec_nanos())
}

impl Timestamp {
    /// The timestamp of a sample whose time is not known.
    pub open spec fn spec_time_invalid() -> Timestamp {
        Timestamp { seconds: 0xffff_ffff, fraction: 0xffff_ffff }
    }

    /// The timestamp that stands for `secs` seconds and `nanos` nanoseconds
    /// since the epoch: the seconds modulo 2^32, the nanoseconds scaled to
    /// units of 2^-32 s and rounded down.
    pub open spec fn spec_from_unix_time(secs: u64, nanos: u32) -> Timestamp {
        Timestamp {
            seconds: (secs as int % 0x1_0000_0000) as u32,
            fraction: (nanos as int * 0x1_0000_0000 / 1_000_000_000) as u32,
        }
    }

    /// The timestamp of a sample whose time is not known.
    #[verifier::when_used_as_spec(spec_time_invalid)]
    pub fn time_invalid() -> (t: Timestamp)
        ensures
            t == Self::spec_time_invalid(),
    {
        Timestamp { seconds: 0xffff_ffff, fraction: 0xffff_ffff }
    }

    /// Time zero: the epoch itself.
    pub fn time_zero() -> (t: Timestamp)
        ensures
            t == (Timestamp { seconds: 0, fraction: 0 }),
    {
        Timestamp { seconds: 0, fraction: 0 }
    }

    /// The timestamp that stands for `secs` seconds and `nanos` nanoseconds
    /// since the epoch.
    #[verifier::when_used_as_spec(spec_from_unix_time)]
    pub fn from_unix_time(secs: u64, nanos: u32) -> (t: Timestamp)
        requires
            nanos < 1_000_000_000,
        ensures
            t == Self::spec_from_unix_time(secs, nanos),
    {
        let seconds: u64 = secs % 0x1_0000_0000;
        let scaled: u64 = (nanos as u64) * 0x1_0000_0000 / 1_000_000_000;
        assert(scaled < 0x1_0000_0000);
        Timestamp { seconds: seconds as u32, fraction: scaled as u32 }
    }

    /// The present time by the system clock.
    pub fn now() -> (t: Timestamp)
        ensures
            exists|secs: u64, nanos: u32|
                nanos < 1_000_000_000 && t == Self::spec_from_unix_time(secs, nanos),
    {
        let (secs, nanos) = unix_time_now();
        Timestamp::from_unix_time(secs, nanos)
    }
}

/// A span of time as it travels in messages: whole seconds and the part of a
/// second in units of 2^-32 s.
#[derive(Debug, Clone, Copy, PartialEq, Eq, Hash, Structural)]
pub struct Duration {
    pub seconds: i32,
    pub fraction: u32,
}

impl Duration {
    /// The span in units of 2^-32 s.
    pub open spec fn ticks(self) -> int {
        self.seconds as int * 0x1_0000_0000 + self.fraction as int
    }

    /// The span in nanoseconds, rounded down; a negative span counts as none.
    pub open spec fn nanos(self) -> nat {
        if self.seconds < 0 {
            0
        } else {
            (self.seconds as int * 1_000_000_000 + (self.fraction as int * 1_000_000_000)
                / 0x1_0000_0000) as nat
        }
    }

    /// The span that stands for no end: the longest there is.
    pub open spec fn spec_infinite() -> Duration {
        Duration { seconds: 0x7fff_ffff, fraction: 0xffff_ffff }
    }

    /// The span that stands for no end.
    #[verifier::when_used_as_spec(spec_infinite)]
    pub fn infinite() -> (d: Duration)
        ensures
            d == Self::spec_infinite(),
    {
        Duration { seconds: 0x7fff_ffff, fraction: 0xffff_ffff }
    }

    /// A span of whole seconds.
    pub fn from_secs(seconds: i32) -> (d: Duration)
        ensures
            d == (Duration { seconds, fraction: 0 }),
    {
        Duration { seconds, fraction: 0 }
    }

    /// The shortest span that is no shorter than `nanos` nanoseconds, and the
    /// span that stands for no end where the seconds do not fit. Such a span
    /// is, in nanoseconds, the number that it was made from.
    pub fn from_nanos(nanos: u64) -> (d: Duration)
        ensures
            nanos / 1_000_000_000 <= 0x7fff_ffff ==> d.nanos() == nanos && d.seconds == nanos
                / 1_000_000_000 && d.fraction == (nanos % 1_000_000_000 * 0x1_0000_0000
                + 999_999_999) / 1_000_000_000,
            nanos / 1_000_000_000 > 0x7fff_ffff ==> d == Self::spec_infinite(),
    {
        let whole: u64 = nanos / 1_000_000_000;
        if whole > 0x7fff_ffff {
            return Duration::infinite();
        }
        let part: u64 = nanos % 1_000_000_000;
        let fraction: u64 = (part * 0x1_0000_0000 + 999_999_999) / 1_000_000_000;
        assert(fraction < 0x1_0000_0000);
        assert(fraction * 1_000_000_000 / 0x1_0000_0000 == part);
        Duration { seconds: whole as i32, fraction: fraction as u32 }
    }

    /// The span in nanoseconds, rounded down.
    pub fn to_nanos(&self) -> (n: u64)
        ensures
            n == self.nanos(),
    {
        if self.seconds < 0 {
            0
        } else {
            let whole: u64 = (self.seconds as u64) * 1_000_000_000;
            let part: u64 = (self.fraction as u64) * 1_000_000_000 / 0x1_0000_0000;
            whole + part
        }
    }

    /// Whether the span is no longer than the other.
    pub fn no_longer_than(&self, other: &Duration) -> (b: bool)
        ensures
            b == (self.ticks() <= other.ticks()),
    {
        self.seconds < other.seconds || (self.seconds == other.seconds && self.fraction
            <= other.fraction)
    }
}

} // verus!
