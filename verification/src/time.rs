//! Points in time and signed lengths of time, as plain integers.

use vstd::prelude::*;

verus! {

/// Nanoseconds in one second.
pub const NANOS_PER_SEC: i128 = 1_000_000_000;

/// A point in time: whole seconds since the Unix epoch (negative before it)
/// plus the nanoseconds into that second.
#[derive(Clone, Copy, Debug, PartialEq, Eq, Hash, Structural)]
pub struct Timestamp {
    pub secs: i64,
    pub subsec_nanos: u32,
}

/// A signed length of time in nanoseconds.
#[derive(Clone, Copy, Debug, PartialEq, Eq, Hash, Structural)]
pub struct Span {
    pub nanos: i128,
}

/// A multiple of a day larger than any `i64`, which lifts every second count
/// to a non-negative one without moving it within its day.
const DAY_ALIGNED_LIFT: i128 = 86400 * 200_000_000_000_000;

impl Timestamp {
    /// The second of its day (0 to 86399) at which the instant lies.
    pub open spec fn second_of_day(self) -> int {
        (self.secs as int) % 86400
    }

    /// Whether `self` lies after `other`: a later second, or the same second
    /// and more nanoseconds into it. A nanosecond count of one second or more
    /// marks a leap second, which still belongs to its own second.
    pub open spec fn is_later_than(self, other: Timestamp) -> bool {
        self.secs > other.secs || (self.secs == other.secs && self.subsec_nanos > other.subsec_nanos)
    }

    /// The nanoseconds from `earlier` to `self`. The seconds between them
    /// count one more when `earlier` is a leap second and `self` lies at a
    /// later second of its day, and one fewer when `self` is a leap second
    /// and lies at an earlier second of its day; no other leap second is
    /// assumed to lie between them.
    pub open spec fn nanos_since(self, earlier: Timestamp) -> int {
        let leap: int = if self.second_of_day() > earlier.second_of_day() && earlier.subsec_nanos
            >= 1_000_000_000 {
            1
        } else if self.second_of_day() < earlier.second_of_day() && self.subsec_nanos
            >= 1_000_000_000 {
            -1
        } else {
            0
        };
        (self.secs - earlier.secs + leap) * 1_000_000_000 + self.subsec_nanos - earlier.subsec_nanos
    }

    /// The nanoseconds between any two instants fit in an `i128`.
    pub proof fn lemma_nanos_since_fits(self, earlier: Timestamp)
        ensures
            i128::MIN <= self.nanos_since(earlier) <= i128::MAX,
    {
        let leap: int = if self.second_of_day() > earlier.second_of_day() && earlier.subsec_nanos
            >= 1_000_000_000 {
            1
        } else if self.second_of_day() < earlier.second_of_day() && self.subsec_nanos
            >= 1_000_000_000 {
            -1
        } else {
            0
        };
        let secs: int = self.secs - earlier.secs + leap;
        assert(-0x1_0000_0000_0000_0001 <= secs <= 0x1_0000_0000_0000_0001);
        assert(-0x1_0000_0000_0000_0001 * 1_000_000_000 <= secs * 1_000_000_000
            <= 0x1_0000_0000_0000_0001 * 1_000_000_000) by (nonlinear_arith)
            requires
                -0x1_0000_0000_0000_0001 <= secs <= 0x1_0000_0000_0000_0001,
        ;
    }

    /// The nanoseconds since an instant: none since itself, the negation of
    /// the nanoseconds the other way round, and, between instants that are
    /// not leap seconds, exactly the difference of their nanosecond counts
    /// since the epoch, positive exactly when `self` lies after `earlier`.
    pub proof fn lemma_nanos_since_is_the_difference(self, earlier: Timestamp)
        ensures
            self.nanos_since(self) == 0,
            self.nanos_since(earlier) == -earlier.nanos_since(self),
            self.subsec_nanos < 1_000_000_000 && earlier.subsec_nanos < 1_000_000_000 ==> {
                &&& self.nanos_since(earlier) == (self.secs * 1_000_000_000 + self.subsec_nanos) - (
                earlier.secs * 1_000_000_000 + earlier.subsec_nanos)
                &&& (self.nanos_since(earlier) > 0 <==> self.is_later_than(earlier))
            },
    {
        let (a, b): (int, int) = (self.secs as int, earlier.secs as int);
        let d: int = a - b;
        assert(d * 1_000_000_000 == a * 1_000_000_000 - b * 1_000_000_000) by (nonlinear_arith)
            requires
                d == a - b,
        ;
        if self.secs > earlier.secs {
            assert(d * 1_000_000_000 >= 1_000_000_000) by (nonlinear_arith)
                requires
                    d >= 1,
            ;
        } else if self.secs < earlier.secs {
            assert(d * 1_000_000_000 <= -1_000_000_000) by (nonlinear_arith)
                requires
                    d <= -1,
            ;
        }
    }

    /// The instant `secs` whole seconds after the epoch.
    pub fn from_secs(secs: i64) -> (t: Timestamp)
        ensures
            t.secs == secs,
            t.subsec_nanos == 0,
    {
        Timestamp { secs, subsec_nanos: 0 }
    }

    /// Whether `subsec_nanos` nanoseconds into the second `secs` seconds after
    /// the epoch is an instant of UTC: under one second, or under two at the
    /// last second of a minute, where a leap second may lie.
    pub open spec fn is_instant(secs: i64, subsec_nanos: u32) -> bool {
        subsec_nanos < 1_000_000_000 || (subsec_nanos < 2_000_000_000 && (secs as int) % 60 == 59)
    }

    /// The instant `subsec_nanos` nanoseconds into the second `secs` seconds
    /// after the epoch (a leap second when `subsec_nanos` is a second or more).
    pub fn new(secs: i64, subsec_nanos: u32) -> (t: Timestamp)
        requires
            Self::is_instant(secs, subsec_nanos),
        ensures
            t.secs == secs,
            t.subsec_nanos == subsec_nanos,
    {
        Timestamp { secs, subsec_nanos }
    }

    fn second_of_day_exec(&self) -> (r: i128)
        ensures
            r == self.second_of_day(),
    {
        let lifted = self.secs as i128 + DAY_ALIGNED_LIFT;
        proof {
            vstd::arithmetic::div_mod::lemma_mod_multiples_vanish(
                200_000_000_000_000,
                self.secs as int,
                86400,
            );
        }
        (lifted as u128 % 86400) as i128
    }

    /// Whether `self` lies strictly after `other`.
    pub fn is_after(&self, other: &Timestamp) -> (r: bool)
        ensures
            r == self.is_later_than(*other),
    {
        self.secs > other.secs || (self.secs == other.secs && self.subsec_nanos > other.subsec_nanos)
    }

    /// The length of time from `earlier` to `self` (negative when `earlier`
    /// lies after `self`), counting a leap second as described at
    /// `nanos_since`.
    pub fn since(&self, earlier: &Timestamp) -> (d: Span)
        ensures
            d.nanos == self.nanos_since(*earlier),
    {
        let a = self.second_of_day_exec();
        let b = earlier.second_of_day_exec();
        let leap: i128 = if a > b && earlier.subsec_nanos >= 1_000_000_000 {
            1
        } else if a < b && self.subsec_nanos >= 1_000_000_000 {
            -1
        } else {
            0
        };
        let secs = self.secs as i128 - earlier.secs as i128 + leap;
        assert(-0x1_0000_0000_0000_0001 <= secs <= 0x1_0000_0000_0000_0001);
        assert(-0x1_0000_0000_0000_0001 * 1_000_000_000 <= secs * 1_000_000_000
            <= 0x1_0000_0000_0000_0001 * 1_000_000_000) by (nonlinear_arith)
            requires
                -0x1_0000_0000_0000_0001 <= secs <= 0x1_0000_0000_0000_0001,
        ;
        Span {
            nanos: secs * NANOS_PER_SEC + self.subsec_nanos as i128 - earlier.subsec_nanos as i128,
        }
    }
}

impl Span {
    /// The empty span.
    pub fn zero() -> (d: Span)
        ensures
            d.nanos == 0,
    {
        Span { nanos: 0 }
    }

    /// `n` nanoseconds.
    pub fn nanoseconds(n: i128) -> (d: Span)
        ensures
            d.nanos == n,
    {
        Span { nanos: n }
    }

    /// `n` seconds.
    pub fn seconds(n: i64) -> (d: Span)
        ensures
            d.nanos == n * 1_000_000_000,
    {
        let s = n as i128;
        assert(-0x8000_0000_0000_0000 * 1_000_000_000 <= s * 1_000_000_000
            <= 0x7fff_ffff_ffff_ffff * 1_000_000_000) by (nonlinear_arith)
            requires
                -0x8000_0000_0000_0000 <= s <= 0x7fff_ffff_ffff_ffff,
        ;
        Span { nanos: s * NANOS_PER_SEC }
    }

    /// `n` minutes.
    pub fn minutes(n: i64) -> (d: Span)
        ensures
            d.nanos == n * 60_000_000_000,
    {
        let s = n as i128;
        assert(-0x8000_0000_0000_0000 * 60_000_000_000 <= s * 60_000_000_000
            <= 0x7fff_ffff_ffff_ffff * 60_000_000_000) by (nonlinear_arith)
            requires
                -0x8000_0000_0000_0000 <= s <= 0x7fff_ffff_ffff_ffff,
        ;
        Span { nanos: s * 60_000_000_000 }
    }

    /// `n` hours.
    pub fn hours(n: i64) -> (d: Span)
        ensures
            d.nanos == n * 3_600_000_000_000,
    {
        let s = n as i128;
        assert(-0x8000_0000_0000_0000 * 3_600_000_000_000 <= s * 3_600_000_000_000
            <= 0x7fff_ffff_ffff_ffff * 3_600_000_000_000) by (nonlinear_arith)
            requires
                -0x8000_0000_0000_0000 <= s <= 0x7fff_ffff_ffff_ffff,
        ;
        Span { nanos: s * 3_600_000_000_000 }
    }

    /// Whether `self` is at least as long as `other`.
    pub fn at_least(&self, other: &Span) -> (r: bool)
        ensures
            r == (self.nanos >= other.nanos),
    {
        self.nanos >= other.nanos
    }
}

/// The staleness threshold used when the caller names none: ten minutes.
pub fn default_stale_threshold() -> (d: Span)
    ensures
        d.nanos == 600_000_000_000,
{
    Span::minutes(10)
}

} // verus!
