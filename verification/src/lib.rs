//! A library supporting C10 "decimalized" date and time.
//!
//! A day is split into 100 intervals, an interval into 100 centivals, and a
//! centival into 100 ticks, so one day is exactly 1,000,000 ticks. Calendar
//! dates group the days of a year into decadays of ten days each.

use vstd::prelude::*;

pub mod epochs;
pub mod sched;

verus! {

/// Ticks in one centival.
pub const TICKS_PER_CENTIVAL: u64 = 100;

/// Ticks in one interval (100 centivals).
pub const TICKS_PER_INTERVAL: u64 = 10_000;

/// Ticks in one day (100 intervals).
pub const TICKS_PER_DAY: u64 = 1_000_000;

/// Representation for a unit of duration in C10 time.
#[derive(Debug, Copy, Clone, PartialEq, Eq, Structural, Hash)]
pub struct Duration {
    ticks: u64,
}

impl View for Duration {
    type V = u64;

    /// A duration is modelled by its total tick count.
    closed spec fn view(&self) -> u64 {
        self.ticks
    }
}

/// The tick total packed from an (intervals, centivals, ticks) component triple.
pub open spec fn packed_ticks(intervals: int, centivals: int, ticks: int) -> int {
    intervals * 10_000 + centivals * 100 + ticks
}

impl Duration {
    /// Creates a [`Duration`] from constituent components: intervals, centivals, ticks.
    ///
    /// The total must be representable as a `u64` of ticks; anything larger
    /// (around 50 billion years) is outside the supported range.
    pub fn new(intervals: u64, centivals: u64, ticks: u64) -> (d: Duration)
        requires
            packed_ticks(intervals as int, centivals as int, ticks as int) <= u64::MAX,
        ensures
            d@ == packed_ticks(intervals as int, centivals as int, ticks as int),
    {
        let iticks = intervals * 10_000;
        let ticks = ticks + iticks;
        let cticks = centivals * 100;
        let ticks = ticks + cticks;
        Duration { ticks }
    }

    /// Extracts the interval, centival, and tick components.
    ///
    /// Centivals and ticks are normalized to [0, 100); the interval count is
    /// unbounded, so the triple always packs back to the exact tick total.
    pub fn time_components(&self) -> (r: (u64, u64, u64))
        ensures
            r.0 == self@ / 10_000,
            r.1 == (self@ / 100) % 100,
            r.2 == self@ % 100,
            r.1 < 100,
            r.2 < 100,
            packed_ticks(r.0 as int, r.1 as int, r.2 as int) == self@,
    {
        let ticks = self.ticks % 100;
        let cents = (self.ticks / 100) % 100;
        let ints = self.ticks / 10_000;
        proof {
            lemma_day_units_recompose(self.ticks as int);
        }
        (ints, cents, ticks)
    }

    /// Converts a duration given as microseconds into whole ticks. One tick
    /// is 86,400 microseconds. Tick counts that do not fit in a `u64` are out
    /// of the supported range.
    pub fn from_micros(micros: u128) -> (r: Option<Duration>)
        ensures
            match r {
                Some(d) => d@ == micros as int / 86_400,
                None => micros as int / 86_400 > u64::MAX,
            },
    {
        let ticks = micros / 86_400;
        if ticks <= u64::MAX as u128 {
            Some(Duration { ticks: ticks as u64 })
        } else {
            None
        }
    }
}

/// Law: packing components into a tick total and decomposing the total again
/// round-trips. The normalized triple read off a duration built from any
/// component triple packs back to the exact tick total the components gave,
/// with the centival and tick parts in [0, 100).
pub proof fn lemma_components_round_trip(intervals: int, centivals: int, ticks: int)
    requires
        0 <= intervals,
        0 <= centivals,
        0 <= ticks,
    ensures
        ({
            let total = packed_ticks(intervals, centivals, ticks);
            &&& packed_ticks(total / 10_000, (total / 100) % 100, total % 100) == total
            &&& 0 <= (total / 100) % 100 < 100
            &&& 0 <= total % 100 < 100
        }),
{
    let total = packed_ticks(intervals, centivals, ticks);
    lemma_day_units_recompose(total);
}

/// The tick count a wall-clock reading of seconds and nanoseconds since the
/// Unix epoch converts to. One tick is 0.0864 seconds, so 625 ticks pass in
/// exactly 54 seconds, and the nanosecond term uses the same ratio scaled to
/// nanoseconds.
pub open spec fn ticks_of_unix(secs: int, nsecs: int) -> int {
    secs * 625 / 54 + nsecs * 625 / 54_000_000_000
}

/// A date and time of a local system in the decimalized C10 calendar and clock.
#[derive(Debug, Copy, Clone, PartialEq, Eq, Structural, Hash)]
pub struct SystemTime {
    ticks: u64,
}

impl View for SystemTime {
    type V = u64;

    /// A timestamp is modelled by its tick count since the Unix epoch.
    closed spec fn view(&self) -> u64 {
        self.ticks
    }
}

impl SystemTime {
    /// Converts a wall-clock reading of seconds and nanoseconds since the
    /// Unix epoch into a timestamp, using the exact 625-ticks-per-54-seconds
    /// ratio for both terms. Readings whose tick count does not fit in a
    /// `u64` are out of the supported range.
    pub fn from_unix(secs: u64, nsecs: u64) -> (r: Option<SystemTime>)
        requires
            nsecs < 1_000_000_000,
        ensures
            match r {
                Some(t) => t@ == ticks_of_unix(secs as int, nsecs as int),
                None => ticks_of_unix(secs as int, nsecs as int) > u64::MAX,
            },
    {
        let sec_ticks: u128 = (secs as u128) * 625 / 54;
        let nsec_ticks: u128 = (nsecs as u128) * 625 / 54_000_000_000;
        let total = sec_ticks + nsec_ticks;
        if total <= u64::MAX as u128 {
            Some(SystemTime { ticks: total as u64 })
        } else {
            None
        }
    }

    /// Returns the interval, centival, and tick components of the timestamp's
    /// day: the decomposition of the tick count within its day, each in [0, 100).
    pub fn time_components(&self) -> (r: (u64, u64, u64))
        ensures
            r.0 == (self@ / 10_000) % 100,
            r.1 == (self@ / 100) % 100,
            r.2 == self@ % 100,
            r.0 == (self@ % 1_000_000) / 10_000,
            r.0 < 100,
            r.1 < 100,
            r.2 < 100,
    {
        let ticks = self.ticks % 100;
        let cents = (self.ticks / 100) % 100;
        let ints = (self.ticks / 10_000) % 100;
        proof {
            lemma_interval_of_day(self.ticks as int);
        }
        (ints, cents, ticks)
    }

    /// Returns the year, decaday, and day components of the timestamp's date.
    /// Decaday and day-of-decaday are 1-based. Timestamps past the supported
    /// span of years are out of range.
    pub fn date_components(&self) -> (r: Option<(u64, u64, u64)>)
        ensures
            match r {
                Some(d) => {
                    &&& 1970 <= d.0 <= epochs::LAST_YEAR
                    &&& epochs::ticks_since_epoch(d.0 as int) <= self@
                    &&& self@ < epochs::ticks_since_epoch(d.0 as int + 1)
                    &&& d.1 == (self@ - epochs::ticks_since_epoch(d.0 as int)) / 1_000_000 / 10 + 1
                    &&& d.2 == ((self@ - epochs::ticks_since_epoch(d.0 as int)) / 1_000_000) % 10 + 1
                    &&& 1 <= d.1 <= 37
                    &&& 1 <= d.2 <= 10
                },
                None => self@ >= epochs::ticks_since_epoch(epochs::LAST_YEAR as int + 1),
            },
    {
        let year = match epochs::year_from_ticks(self.ticks) {
            Some(y) => y,
            None => {
                return None;
            },
        };
        let start = epochs::year_to_ticks(year);
        let dayinyear = (self.ticks - start) / 1_000_000;
        proof {
            let y = year as int;
            assert(epochs::ticks_since_epoch(y + 1) == epochs::ticks_since_epoch(y)
                + epochs::days_in_year(y) * 1_000_000);
            assert(self@ - epochs::ticks_since_epoch(y) < 366_000_000);
            vstd::arithmetic::div_mod::lemma_div_is_ordered(
                self@ - epochs::ticks_since_epoch(y),
                365_999_999,
                1_000_000,
            );
            assert(365_999_999int / 1_000_000 == 365);
        }
        let decaday = dayinyear / 10 + 1;
        let day = dayinyear % 10 + 1;
        Some((year, decaday, day))
    }
}

/// The interval-of-day component may be read off the absolute tick count
/// directly: taking the interval quotient modulo 100 is the same as first
/// reducing the tick count to its day and then taking the interval quotient.
pub proof fn lemma_interval_of_day(t: int)
    requires
        0 <= t,
    ensures
        (t / 10_000) % 100 == (t % 1_000_000) / 10_000,
{
    assert(10_000 * 100 == 1_000_000);
    vstd::arithmetic::div_mod::lemma_breakdown(t, 10_000, 100);
    vstd::arithmetic::div_mod::lemma_div_multiples_vanish_fancy(
        (t / 10_000) % 100,
        t % 10_000,
        10_000,
    );
    assert(10_000 * ((t / 10_000) % 100) == ((t / 10_000) % 100) * 10_000);
}

/// Splitting a tick count by the unit ratios loses nothing: the unbounded
/// interval quotient together with the two normalized remainders recomposes
/// to the original count.
pub proof fn lemma_day_units_recompose(t: int)
    requires
        0 <= t,
    ensures
        (t / 10_000) * 10_000 + ((t / 100) % 100) * 100 + t % 100 == t,
{
    vstd::arithmetic::div_mod::lemma_fundamental_div_mod(t, 100);
    vstd::arithmetic::div_mod::lemma_fundamental_div_mod(t / 100, 100);
    assert((t / 100) / 100 == t / 10_000) by {
        vstd::arithmetic::div_mod::lemma_div_denominator(t, 100, 100);
    }
}

} // verus!
