use vstd::prelude::*;

verus! {

/// Nanoseconds in one second.
pub const NANOS_PER_SEC: u128 = 1_000_000_000;

/// The largest span a `Duration` can hold, in nanoseconds: `u64::MAX` seconds
/// and 999_999_999 nanoseconds, as for `std::time::Duration::MAX`.
pub const MAX_NANOS: u128 = 18_446_744_073_709_551_615_999_999_999;

/// A span of time with nanosecond precision, bounded as `std::time::Duration`.
///
/// The value is the total number of nanoseconds; every constructor keeps it at
/// most `MAX_NANOS`, and every operation that would leave that range reports it.
#[derive(Clone, Copy, Debug, PartialEq, Eq, Structural, Hash)]
pub struct Duration {
    pub nanos: u128,
}

impl View for Duration {
    type V = int;

    open spec fn view(&self) -> int {
        self.nanos as int
    }
}

/// The view of an optional duration.
pub open spec fn opt_view(d: Option<Duration>) -> Option<int> {
    match d {
        Some(d) => Some(d@),
        None => None,
    }
}

impl Duration {
    pub open spec fn fits(self) -> bool {
        self.nanos <= MAX_NANOS
    }

    /// The empty span.
    pub fn zero() -> (d: Duration)
        ensures
            d@ == 0,
    {
        Duration { nanos: 0 }
    }

    /// The longest span, `u64::MAX` seconds and 999_999_999 nanoseconds.
    pub fn max_value() -> (d: Duration)
        ensures
            d@ == MAX_NANOS,
    {
        Duration { nanos: MAX_NANOS }
    }

    /// A span of whole seconds.
    pub fn from_secs(secs: u64) -> (d: Duration)
        ensures
            d@ == secs * NANOS_PER_SEC,
            d.fits(),
    {
        assert(secs * NANOS_PER_SEC <= MAX_NANOS) by (nonlinear_arith)
            requires
                secs <= u64::MAX,
        ;
        Duration { nanos: secs as u128 * NANOS_PER_SEC }
    }

    /// A span of whole milliseconds.
    pub fn from_millis(millis: u64) -> (d: Duration)
        ensures
            d@ == millis * 1_000_000,
            d.fits(),
    {
        assert(millis * 1_000_000 <= MAX_NANOS) by (nonlinear_arith)
            requires
                millis <= u64::MAX,
        ;
        Duration { nanos: millis as u128 * 1_000_000 }
    }

    /// A span of whole nanoseconds.
    pub fn from_nanos(nanos: u64) -> (d: Duration)
        ensures
            d@ == nanos,
            d.fits(),
    {
        Duration { nanos: nanos as u128 }
    }

    /// Seconds and extra nanoseconds; nanoseconds beyond a second carry over.
    /// `None` where the carry leaves the range, where `std` panics.
    pub fn new(secs: u64, nanos: u32) -> (d: Option<Duration>)
        ensures
            d matches Some(v) ==> v@ == secs * NANOS_PER_SEC + nanos,
            d is Some <==> secs * NANOS_PER_SEC + nanos <= MAX_NANOS,
    {
        assert(secs * NANOS_PER_SEC <= u64::MAX * NANOS_PER_SEC) by (nonlinear_arith)
            requires
                secs <= u64::MAX,
        ;
        let total = secs as u128 * NANOS_PER_SEC + nanos as u128;
        if total <= MAX_NANOS {
            Some(Duration { nanos: total })
        } else {
            None
        }
    }

    /// Whole seconds in the span.
    pub fn as_secs(&self) -> (s: u64)
        requires
            self.fits(),
        ensures
            s == self@ / (NANOS_PER_SEC as int),
    {
        assert(self.nanos / NANOS_PER_SEC <= u64::MAX) by (nonlinear_arith)
            requires
                self.nanos <= MAX_NANOS,
        ;
        (self.nanos / NANOS_PER_SEC) as u64
    }

    /// Nanoseconds beyond the whole seconds.
    pub fn subsec_nanos(&self) -> (n: u32)
        ensures
            n == self@ % (NANOS_PER_SEC as int),
    {
        (self.nanos % NANOS_PER_SEC) as u32
    }

    /// The sum, or `None` where it would leave the range.
    pub fn checked_add(self, other: Duration) -> (r: Option<Duration>)
        ensures
            opt_view(r) == add_span(self@, other@),
    {
        if self.nanos <= MAX_NANOS && other.nanos <= MAX_NANOS - self.nanos {
            Some(Duration { nanos: self.nanos + other.nanos })
        } else {
            None
        }
    }

    /// The difference, or `None` where `other` is longer.
    pub fn checked_sub(self, other: Duration) -> (r: Option<Duration>)
        ensures
            opt_view(r) == sub_span(self@, other@),
    {
        if other.nanos <= self.nanos {
            Some(Duration { nanos: self.nanos - other.nanos })
        } else {
            None
        }
    }

    /// The longer of two spans.
    pub fn max(self, other: Duration) -> (r: Duration)
        ensures
            r@ == if self@ >= other@ { self@ } else { other@ },
    {
        if self.nanos >= other.nanos {
            self
        } else {
            other
        }
    }

    /// The shorter of two spans.
    pub fn min(self, other: Duration) -> (r: Duration)
        ensures
            r@ == if self@ <= other@ { self@ } else { other@ },
    {
        if self.nanos <= other.nanos {
            self
        } else {
            other
        }
    }

    /// Whether `self` is strictly longer than `other`.
    pub fn longer_than(&self, other: &Duration) -> (b: bool)
        ensures
            b == (self@ > other@),
    {
        self.nanos > other.nanos
    }

    /// Whether `self` is at most as long as `other`.
    pub fn at_most(&self, other: &Duration) -> (b: bool)
        ensures
            b == (self@ <= other@),
    {
        self.nanos <= other.nanos
    }
}

/// The sum of two spans, `None` where it leaves the range of a `Duration`.
pub open spec fn add_span(a: int, b: int) -> Option<int> {
    if a + b <= MAX_NANOS {
        Some(a + b)
    } else {
        None
    }
}

/// The difference of two spans, `None` where it would be negative.
pub open spec fn sub_span(a: int, b: int) -> Option<int> {
    if b <= a {
        Some(a - b)
    } else {
        None
    }
}

} // verus!
