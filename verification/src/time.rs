//! Calendar facts the engine needs from the outside world: the UTC release
//! time of each puzzle, and the current instant, both projected to plain
//! timestamps in seconds so that everything computed from them is verified.

use chrono::Datelike;
use chrono::TimeZone;
use vstd::prelude::*;

use crate::error::{BotError, BotResult};
use crate::leaderboard::{entry_valid, Entry};

verus! {

/// Seconds since the Unix epoch of the instant puzzle `day` of December of
/// `year` unlocks (05:00:00 UTC). The value is a fixed calendar fact,
/// determined by `year` and `day` alone; the engine learns it only through
/// [`puzzle_unlock_ts`].
pub uninterp spec fn release_ts(year: int, day: int) -> int;

/// Relies on chrono: `TimeZone::with_ymd_and_hms` on `Utc` builds December
/// `day` of `year` at 05:00:00 in the proleptic Gregorian calendar (for UTC
/// the mapping is single-valued whenever the date is valid, which holds for
/// every year up to 9999), and `DateTime::timestamp` converts it to seconds
/// since the Unix epoch. The result is a pure function of `year` and `day`;
/// for event years the docs' epoch arithmetic keeps it between the Dec 2015
/// release and the year-9999 bound used here.
#[verifier::external_body]
fn puzzle_unlock_ts(year: i32, day: u8) -> (r: Option<i64>)
    ensures
        r matches Some(t) ==> t == release_ts(year as int, day as int) && (2015 <= year <= 9999
            ==> 1_400_000_000 <= t < 400_000_000_000),
        2015 <= year <= 9999 && 1 <= day <= 25 ==> r is Some,
{
    chrono::Utc.with_ymd_and_hms(year, 12, day as u32, 5, 0, 0).single().map(|d| d.timestamp())
}

/// Relies on chrono: `Utc::now` reads the system clock; `timestamp`,
/// `Datelike::year` and `Datelike::day` project it to plain values. Nothing
/// is assumed of the clock beyond chrono's guarantee that the day of month
/// starts at 1 (and is at most 31).
#[verifier::external_body]
pub(crate) fn utc_now_parts() -> (r: (i64, i32, u8))
    ensures
        1 <= r.2 <= 31,
{
    let now = chrono::Utc::now();
    (now.timestamp(), now.year(), now.day() as u8)
}

/// The number of seconds in one day: a puzzle's deadline is the next day's
/// release, one of these later.
pub const SECONDS_PER_DAY: i64 = 86400;

impl Entry {
    /// Release instant of the puzzle for (`year`, `day`), in seconds since
    /// the Unix epoch. Defined exactly for the days of an event: day 1 to 25
    /// of December of a year from 2015 (the first event) through 9999.
    pub fn puzzle_unlock(year: i32, day: u8) -> (r: BotResult<i64>)
        ensures
            r is Ok <==> 2015 <= year <= 9999 && 1 <= day <= 25,
            r matches Ok(t) ==> t == release_ts(year as int, day as int) && 1_400_000_000 <= t
                < 400_000_000_000,
    {
        if 2015 <= year && year <= 9999 && 1 <= day && day <= 25 {
            match puzzle_unlock_ts(year, day) {
                Some(t) => Ok(t),
                None => Err(BotError::Parse),
            }
        } else {
            Err(BotError::Parse)
        }
    }

    /// How long after its puzzle's release this completion was recorded.
    /// Defined for every record within the stored-entry bounds; negative only
    /// if the upstream source handed out a completion before the release,
    /// which it promises not to.
    pub fn duration_since_release(&self) -> (r: BotResult<i64>)
        ensures
            r is Ok <==> entry_valid(self@),
            r matches Ok(d) ==> d == self@.timestamp - release_ts(self@.year, self@.day),
    {
        if !self.is_valid() {
            return Err(BotError::Parse);
        }
        match Entry::puzzle_unlock(self.year, self.day) {
            Ok(t) => Ok(self.timestamp - t),
            Err(e) => Err(e),
        }
    }

    /// How long before the next day's release (this day's deadline) this
    /// completion was recorded.
    pub fn duration_until_next_release(&self) -> (r: BotResult<i64>)
        ensures
            r is Ok <==> entry_valid(self@),
            r matches Ok(d) ==> d == release_ts(self@.year, self@.day) + SECONDS_PER_DAY
                - self@.timestamp,
    {
        if !self.is_valid() {
            return Err(BotError::Parse);
        }
        match Entry::puzzle_unlock(self.year, self.day) {
            Ok(t) => Ok(t + SECONDS_PER_DAY - self.timestamp),
            Err(e) => Err(e),
        }
    }
}

/// The last valid event (year, day) as seen from the instant described by
/// `now_ts` (seconds since the epoch), `now_year` and `now_day` (the current
/// calendar year and day of month): the current year once within fifteen
/// days of its first release, with the current day capped at 25; otherwise
/// the previous year, day 25.
pub open spec fn spec_current_year_day(now_ts: int, now_year: int, now_day: int) -> (int, int) {
    if 2015 <= now_year <= 9999 && release_ts(now_year, 1) - 15 * 86400 <= now_ts {
        (now_year, if now_day <= 25 { now_day } else { 25 as int })
    } else {
        (if now_year > -2000000000 { now_year - 1 } else { now_year }, 25 as int)
    }
}

/// The last valid event (year, day) for a given instant; the instant is
/// taken apart by the caller so that this decision is checked for every
/// clock value.
pub fn current_aoc_year_day_at(now_ts: i64, now_year: i32, now_day: u8) -> (r: (i32, u8))
    requires
        1 <= now_day <= 31,
    ensures
        (r.0 as int, r.1 as int) == spec_current_year_day(
            now_ts as int,
            now_year as int,
            now_day as int,
        ),
        1 <= r.1 <= 25,
{
    let in_window = if 2015 <= now_year && now_year <= 9999 {
        match Entry::puzzle_unlock(now_year, 1) {
            Ok(t) => t - 15 * 86400 <= now_ts,
            Err(_) => false,
        }
    } else {
        false
    };
    if in_window {
        (now_year, if now_day <= 25 { now_day } else { 25 })
    } else {
        (if now_year > -2000000000 { now_year - 1 } else { now_year }, 25)
    }
}

/// The last valid event (year, day) right now, read from the system clock.
pub fn current_aoc_year_day() -> (r: (i32, u8))
    ensures
        1 <= r.1 <= 25,
{
    let (now_ts, now_year, now_day) = utc_now_parts();
    current_aoc_year_day_at(now_ts, now_year, now_day)
}

} // verus!
