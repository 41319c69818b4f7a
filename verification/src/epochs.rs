//! Conversions between calendar years and Unix time, with the Unix epoch of
//! New Years 1970 as the origin.
//!
//! Years are mapped to cumulative days, seconds and ticks elapsed since the
//! epoch by summing the Gregorian year lengths, and that mapping is inverted
//! by a forward linear search. The supported span is bounded by what a `u64`
//! of ticks can hold.

use vstd::prelude::*;

verus! {

/// The last supported year. The bound keeps every tick and second count of
/// the span, including the year after it used as a search bound, far inside
/// `u64`, and keeps the linear year search fast enough that even the
/// out-of-range answer comes back promptly.
pub const LAST_YEAR: u64 = 1_000_000;

/// The Gregorian leap-year rule.
pub open spec fn is_leap_year(year: int) -> bool {
    year % 4 == 0 && (year % 100 != 0 || year % 400 == 0)
}

/// Days in one Gregorian year.
pub open spec fn days_in_year(year: int) -> int {
    if is_leap_year(year) {
        366
    } else {
        365
    }
}

/// Days elapsed from the epoch to January 1 of the given year: the sum of the
/// lengths of every year from 1970 up to, but not including, the given one.
pub open spec fn days_since_epoch(year: int) -> int
    decreases year,
{
    if year <= 1970 {
        0
    } else {
        days_since_epoch(year - 1) + days_in_year(year - 1)
    }
}

/// Seconds elapsed from the epoch to January 1 of the given year.
pub open spec fn seconds_since_epoch(year: int) -> int {
    days_since_epoch(year) * 86_400
}

/// Ticks elapsed from the epoch to January 1 of the given year.
pub open spec fn ticks_since_epoch(year: int) -> int {
    days_since_epoch(year) * 1_000_000
}

/// The cumulative day count grows by a whole year's worth of days from one
/// year to the next, so it is strictly increasing.
pub proof fn lemma_days_since_epoch_increasing(y1: int, y2: int)
    requires
        1970 <= y1 <= y2,
    ensures
        days_since_epoch(y1) + (y2 - y1) * 365 <= days_since_epoch(y2),
    decreases y2 - y1,
{
    if y1 < y2 {
        lemma_days_since_epoch_increasing(y1, y2 - 1);
    }
}

/// Adding whole years moves the start-of-year tick count forward by at least
/// 365 days' worth of ticks per year.
pub proof fn lemma_ticks_since_epoch_increasing(y1: int, y2: int)
    requires
        1970 <= y1 <= y2,
    ensures
        ticks_since_epoch(y1) + (y2 - y1) * 365_000_000 <= ticks_since_epoch(y2),
{
    lemma_days_since_epoch_increasing(y1, y2);
}

/// Law: the start-of-year tick count is strictly increasing from each
/// supported year to the next.
pub proof fn lemma_year_to_ticks_strictly_increasing(year: int)
    requires
        1970 <= year,
    ensures
        ticks_since_epoch(year) < ticks_since_epoch(year + 1),
{
    lemma_ticks_since_epoch_increasing(year, year + 1);
}

/// Law: the year resolver is exact at year boundaries. At the first tick of a
/// supported year, the only answer meeting `year_from_ticks`' postcondition
/// is that very year, so `year_from_ticks(year_to_ticks(year))` returns it.
pub proof fn lemma_year_boundary_resolves_exactly(year: int, r: int)
    requires
        1970 <= year <= LAST_YEAR,
        1970 <= r,
        ticks_since_epoch(r) <= ticks_since_epoch(year),
        ticks_since_epoch(year) < ticks_since_epoch(r + 1),
    ensures
        r == year,
{
    if r < year {
        lemma_ticks_since_epoch_increasing(r + 1, year);
    }
    if r > year {
        lemma_year_to_ticks_strictly_increasing(year);
        lemma_ticks_since_epoch_increasing(year + 1, r);
    }
}

/// Law: one tick before the first tick of a year belongs to the year before.
/// At tick count `year_to_ticks(year) - 1`, the only answer meeting
/// `year_from_ticks`' postcondition is the preceding year.
pub proof fn lemma_tick_before_year_resolves_to_previous(year: int, r: int)
    requires
        1971 <= year <= LAST_YEAR + 1,
        1970 <= r,
        ticks_since_epoch(r) <= ticks_since_epoch(year) - 1,
        ticks_since_epoch(year) - 1 < ticks_since_epoch(r + 1),
    ensures
        r == year - 1,
{
    if r < year - 1 {
        lemma_year_to_ticks_strictly_increasing(year - 1);
        lemma_ticks_since_epoch_increasing(r + 1, year - 1);
    }
    if r > year - 1 {
        lemma_ticks_since_epoch_increasing(year, r);
    }
}

/// Whether a year is a Gregorian leap year.
pub fn is_leap(year: u64) -> (b: bool)
    ensures
        b == is_leap_year(year as int),
{
    year % 4 == 0 && (year % 100 != 0 || year % 400 == 0)
}

/// Days since the Unix epoch for a given year on January 1.
pub fn year_to_days(year: u64) -> (days: u64)
    requires
        year <= LAST_YEAR + 1,
    ensures
        days == days_since_epoch(year as int),
        days <= (LAST_YEAR + 1 - 1970) * 366,
{
    if year <= 1970 {
        return 0;
    }
    let mut days: u64 = 0;
    let mut y: u64 = 1970;
    while y < year
        invariant
            1970 <= y <= year <= LAST_YEAR + 1,
            days == days_since_epoch(y as int),
            days <= (y - 1970) * 366,
        decreases year - y,
    {
        if is_leap(y) {
            days = days + 366;
        } else {
            days = days + 365;
        }
        y = y + 1;
    }
    days
}

/// Seconds after the Unix epoch for a given year.
pub fn year_to_seconds(year: u64) -> (secs: u64)
    requires
        year <= LAST_YEAR + 1,
    ensures
        secs == seconds_since_epoch(year as int),
{
    let days = year_to_days(year);
    days * 86_400
}

/// Ticks after the Unix epoch for a given year.
pub fn year_to_ticks(year: u64) -> (ticks: u64)
    requires
        year <= LAST_YEAR + 1,
    ensures
        ticks == ticks_since_epoch(year as int),
{
    let days = year_to_days(year);
    days * 1_000_000
}

/// Returns the year to which a given c10 tick belongs: the greatest supported
/// year whose starting tick is at or before the given tick count. Tick counts
/// past the start of the year after the supported span are out of range.
pub fn year_from_ticks(ticks: u64) -> (r: Option<u64>)
    ensures
        match r {
            Some(y) => {
                &&& 1970 <= y <= LAST_YEAR
                &&& ticks_since_epoch(y as int) <= ticks
                &&& ticks < ticks_since_epoch(y as int + 1)
            },
            None => ticks >= ticks_since_epoch(LAST_YEAR as int + 1),
        },
{
    let mut guess: u64 = 1970;
    let mut days: u64 = 0;
    loop
        invariant
            1970 <= guess <= LAST_YEAR,
            days == days_since_epoch(guess as int),
            days <= (guess - 1970) * 366,
            ticks_since_epoch(guess as int) <= ticks,
        decreases LAST_YEAR - guess,
    {
        let next_days = if is_leap(guess) {
            days + 366
        } else {
            days + 365
        };
        let next = next_days * 1_000_000;
        if next <= ticks {
            if guess == LAST_YEAR {
                return None;
            }
            guess = guess + 1;
            days = next_days;
        } else {
            return Some(guess);
        }
    }
}

/// Returns the year to which a given Unix epoch time (seconds) belongs: the
/// greatest supported year starting at or before the given second count.
pub fn year_from_seconds(secs: u64) -> (r: Option<u64>)
    ensures
        match r {
            Some(y) => {
                &&& 1970 <= y <= LAST_YEAR
                &&& seconds_since_epoch(y as int) <= secs
                &&& secs < seconds_since_epoch(y as int + 1)
            },
            None => secs >= seconds_since_epoch(LAST_YEAR as int + 1),
        },
{
    let mut guess: u64 = 1970;
    let mut days: u64 = 0;
    loop
        invariant
            1970 <= guess <= LAST_YEAR,
            days == days_since_epoch(guess as int),
            days <= (guess - 1970) * 366,
            seconds_since_epoch(guess as int) <= secs,
        decreases LAST_YEAR - guess,
    {
        let next_days = if is_leap(guess) {
            days + 366
        } else {
            days + 365
        };
        let next = next_days * 86_400;
        if next <= secs {
            if guess == LAST_YEAR {
                return None;
            }
            guess = guess + 1;
            days = next_days;
        } else {
            return Some(guess);
        }
    }
}

} // verus!
