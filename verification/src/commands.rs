//! The chat commands: recognising one in a message, resolving its
//! arguments (with the current event year and day as defaults), validating
//! the requested year and day, and dispatching to the standings the command
//! asks for.

use vstd::prelude::*;
use vstd::string::StringSliceAdditionalSpecFns;
use vstd::utf8::encode_utf8;

use crate::leaderboard::Identifier;
use crate::highlights::ScrapedLeaderboard;
use crate::scores::BoardRow;
use crate::standings::{Jersey, Ranking, Scoring, Standing};
use crate::time::{release_ts, spec_current_year_day};

verus! {

/// The kinds of command a message can open with.
#[derive(Clone, Copy, Debug, PartialEq, Eq, Structural)]
pub enum CommandKind {
    Help,
    Fast,
    Board,
    Tdf,
}

/// What was found in a message: the command keyword it opens with, and the
/// first four-digit number (a year), one-or-two-digit number (a day) and
/// other word (an option keyword, kept as its bytes) among its arguments.
#[derive(Debug)]
pub struct ParsedArgs {
    pub cmd: Option<CommandKind>,
    pub year: Option<i32>,
    pub day: Option<u8>,
    pub option: Option<Vec<u8>>,
}

/// Why a requested (year, day) is not answerable.
#[derive(Clone, Copy, Debug, PartialEq, Eq, Structural)]
pub enum YearDayIssue {
    BeforeFirstEvent,
    FutureYear,
    DayZero,
    AfterChristmas,
    FutureDay,
    NotYetReleased,
}

/// The standings payload of an alternative-classification command.
#[derive(Debug)]
pub enum TdfData {
    Season(Vec<(Identifier, i64, i64)>),
    DailyPoints(Vec<(Identifier, u64)>),
    DailyTimes(Vec<(String, String)>),
}

/// A resolved command, carrying the standings it asked for.
#[derive(Debug)]
pub enum Command {
    Help,
    Ranking(i32, u8, Vec<(String, String)>, i64, Ranking),
    StandingTdf(i32, Option<u8>, TdfData, i64, Jersey),
    LeaderboardDisplay(i32, Vec<BoardRow>, i64, Scoring),
    NotValid(YearDayIssue),
}

/// Whether one byte sequence begins with another.
pub open spec fn bytes_start_with(b: Seq<u8>, p: Seq<u8>) -> bool {
    b.len() >= p.len() && b.subrange(0, p.len() as int) == p
}

/// The command keyword a message opens with, if any.
pub open spec fn spec_command_kind(b: Seq<u8>) -> Option<CommandKind> {
    if bytes_start_with(b, encode_utf8("!help"@)) {
        Some(CommandKind::Help)
    } else if bytes_start_with(b, encode_utf8("!fast"@)) {
        Some(CommandKind::Fast)
    } else if bytes_start_with(b, encode_utf8("!board"@)) {
        Some(CommandKind::Board)
    } else if bytes_start_with(b, encode_utf8("!tdf"@)) {
        Some(CommandKind::Tdf)
    } else {
        None
    }
}

/// Why a requested (year, day) is not answerable at the given instant, if
/// it is not: the series starts in 2015, the future is unknown, days run
/// from 1 to 25, and today's puzzle exists only from its release hour on.
pub open spec fn spec_year_day_issue(
    year: int,
    day: Option<int>,
    now_ts: int,
    now_year: int,
    now_day: int,
) -> Option<YearDayIssue> {
    let cur = spec_current_year_day(now_ts, now_year, now_day);
    if year < 2015 {
        Some(YearDayIssue::BeforeFirstEvent)
    } else if year > cur.0 {
        Some(YearDayIssue::FutureYear)
    } else if day == Some(0int) {
        Some(YearDayIssue::DayZero)
    } else if (match day {
        Some(d) => d > 25,
        None => false,
    }) {
        Some(YearDayIssue::AfterChristmas)
    } else if year == cur.0 && (match day {
        Some(d) => d > cur.1,
        None => false,
    }) {
        Some(YearDayIssue::FutureDay)
    } else if year == cur.0 && day == Some(cur.1) && cur.0 <= 9999 && now_ts < release_ts(
        cur.0,
        cur.1,
    ) {
        Some(YearDayIssue::NotYetReleased)
    } else {
        None
    }
}

/// Whether a byte is ASCII whitespace (the separators between arguments).
pub open spec fn is_space(b: u8) -> bool {
    b == 32 || b == 9 || b == 10 || b == 13
}

/// Whether a byte is an ASCII digit.
pub open spec fn is_digit(b: u8) -> bool {
    48 <= b <= 57
}

fn is_space_exec(b: u8) -> (r: bool)
    ensures
        r == is_space(b),
{
    b == 32 || b == 9 || b == 10 || b == 13
}

fn is_digit_exec(b: u8) -> (r: bool)
    ensures
        r == is_digit(b),
{
    48 <= b && b <= 57
}

/// Whether the message bytes begin with the keyword bytes.
fn starts_with_bytes(b: &[u8], p: &[u8]) -> (r: bool)
    ensures
        r == bytes_start_with(b@, p@),
{
    let pl = p.len();
    if b.len() < pl {
        return false;
    }
    let mut i: usize = 0;
    while i < pl
        invariant
            pl == p@.len(),
            b@.len() >= pl,
            0 <= i <= pl,
            forall|j: int| 0 <= j < i ==> b@[j] == p@[j],
        decreases pl - i,
    {
        if b[i] != p[i] {
            proof {
                assert(b@.subrange(0, pl as int)[i as int] != p@[i as int]);
            }
            return false;
        }
        i += 1;
    }
    proof {
        assert(b@.subrange(0, pl as int) =~= p@);
    }
    true
}

impl Command {
    /// Whether a message opens with one of the command keywords.
    pub fn is_command(input: &str) -> (r: bool)
        ensures
            r == (spec_command_kind(input.spec_bytes()) is Some),
    {
        let b = input.as_bytes();
        starts_with_bytes(b, "!help".as_bytes()) || starts_with_bytes(b, "!fast".as_bytes())
            || starts_with_bytes(b, "!board".as_bytes()) || starts_with_bytes(
            b,
            "!tdf".as_bytes(),
        )
    }

    /// Scan a message for its command keyword and arguments. The keyword
    /// must open the message; among the whitespace-separated words that
    /// follow, the first four-digit number is taken as the year, the first
    /// one-or-two-digit number as the day, and the first other word as the
    /// option keyword.
    pub fn parse_string(input: &str) -> (r: ParsedArgs)
        ensures
            r.cmd == spec_command_kind(input.spec_bytes()),
            r.year matches Some(y) ==> 1000 <= y <= 9999,
            r.day matches Some(d) ==> d <= 99,
    {
        let b = input.as_bytes();
        let cmd = if starts_with_bytes(b, "!help".as_bytes()) {
            Some(CommandKind::Help)
        } else if starts_with_bytes(b, "!fast".as_bytes()) {
            Some(CommandKind::Fast)
        } else if starts_with_bytes(b, "!board".as_bytes()) {
            Some(CommandKind::Board)
        } else if starts_with_bytes(b, "!tdf".as_bytes()) {
            Some(CommandKind::Tdf)
        } else {
            None
        };
        let n = b.len();
        let mut year: Option<i32> = None;
        let mut day: Option<u8> = None;
        let mut option: Option<Vec<u8>> = None;
        // skip the keyword itself: start at the first whitespace
        let mut i: usize = 0;
        while i < n && !is_space_exec(b[i])
            invariant
                n == b@.len(),
                0 <= i <= n,
            decreases n - i,
        {
            i += 1;
        }
        while i < n
            invariant
                n == b@.len(),
                0 <= i <= n,
                year matches Some(y) ==> 1000 <= y <= 9999,
                day matches Some(d) ==> d <= 99,
            decreases n - i,
        {
            if is_space_exec(b[i]) {
                i += 1;
                continue ;
            }
            // the extent of this word
            let start = i;
            let mut all_digits = true;
            let mut value: u64 = 0;
            while i < n && !is_space_exec(b[i])
                invariant
                    n == b@.len(),
                    start <= i <= n,
                    value <= 99999,
                decreases n - i,
            {
                if is_digit_exec(b[i]) {
                    if value <= 9999 {
                        value = value * 10 + ((b[i] - 48) as u64);
                    } else {
                        value = 100000 - 1;
                    }
                } else {
                    all_digits = false;
                }
                i += 1;
            }
            let wlen = i - start;
            if all_digits && wlen == 4 && value >= 1000 && value <= 9999 {
                if year.is_none() {
                    year = Some(value as i32);
                }
            } else if all_digits && wlen >= 1 && wlen <= 2 {
                if day.is_none() && value <= 99 {
                    day = Some(value as u8);
                }
            } else if wlen > 0 {
                if option.is_none() {
                    let mut w: Vec<u8> = Vec::new();
                    let mut k = start;
                    while k < i
                        invariant
                            n == b@.len(),
                            start <= k <= i <= n,
                        decreases i - k,
                    {
                        w.push(b[k]);
                        k += 1;
                    }
                    option = Some(w);
                }
            }
        }
        ParsedArgs { cmd, year, day, option }
    }

    /// Resolve and validate a message against a snapshot, as seen from the
    /// given instant.
    #[verifier::rlimit(100)]
    #[verifier::spinoff_prover]
    pub fn build_from_at(
        input: &str,
        leaderboard: &ScrapedLeaderboard,
        now_ts: i64,
        now_year: i32,
        now_day: u8,
    ) -> (r: Option<Command>)
        requires
            leaderboard.leaderboard.wf(),
            leaderboard.leaderboard.size_ok(),
            1 <= now_day <= 31,
        ensures
            r is Some <==> spec_command_kind(input.spec_bytes()) is Some,
            (match r {
                Some(c) => command_ok(
                    c,
                    input.spec_bytes(),
                    leaderboard,
                    now_ts as int,
                    now_year as int,
                    now_day as int,
                ),
                None => true,
            }),
    {
        let parsed = Command::parse_string(input);
        let (cur_year, cur_day) = crate::time::current_aoc_year_day_at(now_ts, now_year, now_day);
        let lb = &leaderboard.leaderboard;
        match parsed.cmd {
            None => None,
            Some(CommandKind::Help) => {
                let c = Command::Help;
                proof {
                    assert(command_ok(
                        c,
                        input.spec_bytes(),
                        leaderboard,
                        now_ts as int,
                        now_year as int,
                        now_day as int,
                    ));
                }
                Some(c)
            },
            Some(CommandKind::Fast) => {
                let year = match parsed.year {
                    Some(y) => y,
                    None => cur_year,
                };
                let day = match parsed.day {
                    Some(d) => d,
                    None => cur_day,
                };
                match invalid_year_day_at(year, Some(day), now_ts, now_year, now_day) {
                    Some(issue) => {
                        let c = Command::NotValid(issue);
                        proof {
                            assert(command_ok(
                                c,
                                input.spec_bytes(),
                                leaderboard,
                                now_ts as int,
                                now_year as int,
                                now_day as int,
                            ));
                        }
                        Some(c)
                    },
                    None => {
                        let ranking = resolve_ranking(&parsed.option);
                        let data = Standing::new(lb).by_time(&ranking, year, day);
                        let c = Command::Ranking(year, day, data, leaderboard.timestamp, ranking);
                        proof {
                            assert(command_ok(
                                c,
                                input.spec_bytes(),
                                leaderboard,
                                now_ts as int,
                                now_year as int,
                                now_day as int,
                            ));
                        }
                        Some(c)
                    },
                }
            },
            Some(CommandKind::Board) => {
                let year = match parsed.year {
                    Some(y) => y,
                    None => cur_year,
                };
                match invalid_year_day_at(year, None, now_ts, now_year, now_day) {
                    Some(issue) => {
                        let c = Command::NotValid(issue);
                        proof {
                            assert(command_ok(
                                c,
                                input.spec_bytes(),
                                leaderboard,
                                now_ts as int,
                                now_year as int,
                                now_day as int,
                            ));
                        }
                        Some(c)
                    },
                    None => {
                        let scoring = resolve_scoring(&parsed.option);
                        let data = crate::standings::standings_board(&scoring, lb, year);
                        let c = Command::LeaderboardDisplay(
                            year,
                            data,
                            leaderboard.timestamp,
                            scoring,
                        );
                        proof {
                            assert(command_ok(
                                c,
                                input.spec_bytes(),
                                leaderboard,
                                now_ts as int,
                                now_year as int,
                                now_day as int,
                            ));
                        }
                        Some(c)
                    },
                }
            },
            Some(CommandKind::Tdf) => {
                let year = match parsed.year {
                    Some(y) => y,
                    None => cur_year,
                };
                let day = parsed.day;
                match invalid_year_day_at(year, day, now_ts, now_year, now_day) {
                    Some(issue) => {
                        let c = Command::NotValid(issue);
                        proof {
                            assert(command_ok(
                                c,
                                input.spec_bytes(),
                                leaderboard,
                                now_ts as int,
                                now_year as int,
                                now_day as int,
                            ));
                        }
                        Some(c)
                    },
                    None => {
                        let jersey = resolve_jersey(&parsed.option);
                        let data = match day {
                            None => TdfData::Season(
                                Standing::new(lb).tdf_season_at(&jersey, year, now_year, now_day),
                            ),
                            Some(d) => {
                                if matches!(jersey, Jersey::YELLOW) {
                                    TdfData::DailyTimes(
                                        Standing::new(lb).by_time(&Ranking::PART2, year, d),
                                    )
                                } else {
                                    TdfData::DailyPoints(
                                        Standing::new(lb).by_points(&jersey, year, d),
                                    )
                                }
                            },
                        };
                        let c = Command::StandingTdf(
                            year,
                            day,
                            data,
                            leaderboard.timestamp,
                            jersey,
                        );
                        proof {
                            assert(command_ok(
                                c,
                                input.spec_bytes(),
                                leaderboard,
                                now_ts as int,
                                now_year as int,
                                now_day as int,
                            ));
                        }
                        Some(c)
                    },
                }
            },
        }
    }

    /// Resolve and validate a message against a snapshot, right now.
    pub fn build_from(input: &str, leaderboard: &ScrapedLeaderboard) -> (r: Option<Command>)
        requires
            leaderboard.leaderboard.wf(),
            leaderboard.leaderboard.size_ok(),
        ensures
            r is Some <==> spec_command_kind(input.spec_bytes()) is Some,
    {
        let (now_ts, now_year, now_day) = crate::time::utc_now_parts();
        Command::build_from_at(input, leaderboard, now_ts, now_year, now_day)
    }
}

/// What a resolved command promises: it reflects the keyword the message
/// opened with and the snapshot's timestamp, and an alternative
/// classification answer carries the payload shape its day argument calls
/// for. The payloads themselves are produced by [`Standing::by_time`],
/// [`Standing::by_points`], [`Standing::tdf_season_at`] and
/// [`crate::standings::standings_board`], under those functions' contracts.
pub open spec fn command_ok(
    c: Command,
    b: Seq<u8>,
    leaderboard: &ScrapedLeaderboard,
    now_ts: int,
    now_year: int,
    now_day: int,
) -> bool {
    match c {
        Command::Help => spec_command_kind(b) == Some(CommandKind::Help),
        Command::NotValid(_) => true,
        Command::Ranking(y, d, data, ts, rk) => {
            &&& spec_command_kind(b) == Some(CommandKind::Fast)
            &&& ts == leaderboard.timestamp
        },
        Command::LeaderboardDisplay(y, data, ts, _sc) => {
            &&& spec_command_kind(b) == Some(CommandKind::Board)
            &&& ts == leaderboard.timestamp
        },
        Command::StandingTdf(y, d, data, ts, j) => {
            &&& spec_command_kind(b) == Some(CommandKind::Tdf)
            &&& ts == leaderboard.timestamp
            &&& match data {
                TdfData::Season(rows) => d is None,
                TdfData::DailyTimes(rows) => j is YELLOW && d is Some,
                TdfData::DailyPoints(rows) => !(j is YELLOW) && d is Some,
            }
        },
    }
}

/// The time ranking an option keyword names, with the default for a missing
/// or unknown keyword.
fn resolve_ranking(option: &Option<Vec<u8>>) -> (r: Ranking) {
    match option {
        Some(w) => {
            if crate::standings::bytes_eq(w.as_slice(), "delta".as_bytes()) {
                Ranking::DELTA
            } else if crate::standings::bytes_eq(w.as_slice(), "p1".as_bytes()) {
                Ranking::PART1
            } else if crate::standings::bytes_eq(w.as_slice(), "p2".as_bytes()) {
                Ranking::PART2
            } else if crate::standings::bytes_eq(w.as_slice(), "limit".as_bytes()) {
                Ranking::LIMIT
            } else {
                Ranking::DELTA
            }
        },
        None => Ranking::DELTA,
    }
}

/// The scoring an option keyword names, with the default.
fn resolve_scoring(option: &Option<Vec<u8>>) -> (r: Scoring) {
    match option {
        Some(w) => {
            if crate::standings::bytes_eq(w.as_slice(), "stars".as_bytes()) {
                Scoring::STARS
            } else {
                Scoring::LOCAL
            }
        },
        None => Scoring::LOCAL,
    }
}

/// The jersey an option keyword names, with the default.
fn resolve_jersey(option: &Option<Vec<u8>>) -> (r: Jersey) {
    match option {
        Some(w) => {
            if crate::standings::bytes_eq(w.as_slice(), "green".as_bytes()) {
                Jersey::GREEN
            } else if crate::standings::bytes_eq(w.as_slice(), "combative".as_bytes()) {
                Jersey::COMBATIVE
            } else {
                Jersey::YELLOW
            }
        },
        None => Jersey::YELLOW,
    }
}

/// Why a requested (year, day) is not answerable at the given instant, if
/// it is not; the caller renders the explanation.
pub fn invalid_year_day_at(
    year: i32,
    day: Option<u8>,
    now_ts: i64,
    now_year: i32,
    now_day: u8,
) -> (r: Option<YearDayIssue>)
    requires
        1 <= now_day <= 31,
    ensures
        r == spec_year_day_issue(
            year as int,
            match day {
                Some(d) => Some(d as int),
                None => None,
            },
            now_ts as int,
            now_year as int,
            now_day as int,
        ),
{
    let (cur_year, cur_day) = crate::time::current_aoc_year_day_at(now_ts, now_year, now_day);
    if year < 2015 {
        Some(YearDayIssue::BeforeFirstEvent)
    } else if year > cur_year {
        Some(YearDayIssue::FutureYear)
    } else if matches!(day, Some(0u8)) {
        Some(YearDayIssue::DayZero)
    } else if (match day {
        Some(d) => d > 25,
        None => false,
    }) {
        Some(YearDayIssue::AfterChristmas)
    } else if year == cur_year && (match day {
        Some(d) => d > cur_day,
        None => false,
    }) {
        Some(YearDayIssue::FutureDay)
    } else if year == cur_year && (match day {
        Some(d) => d == cur_day,
        None => false,
    }) && year <= 9999 {
        match crate::leaderboard::Entry::puzzle_unlock(cur_year, cur_day) {
            Ok(rel) => {
                if now_ts < rel {
                    Some(YearDayIssue::NotYetReleased)
                } else {
                    None
                }
            },
            Err(_) => {
                proof {
                    assert(false);
                }
                None
            },
        }
    } else {
        None
    }
}

/// Why a requested (year, day) is not answerable right now, if it is not.
pub fn invalid_year_day_message(year: i32, day: Option<u8>) -> (r: Option<YearDayIssue>) {
    let (now_ts, now_year, now_day) = crate::time::utc_now_parts();
    invalid_year_day_at(year, day, now_ts, now_year, now_day)
}

} // verus!
