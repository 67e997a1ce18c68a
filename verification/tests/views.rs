use aoc_engine::commands::{Command, CommandKind, TdfData, YearDayIssue};
use aoc_engine::highlights::ScrapedLeaderboard;
use aoc_engine::leaderboard::{Entry, Identifier, Leaderboard, ProblemPart};
use aoc_engine::standings::{Jersey, Ranking, Scoring, Standing, PENALTY_UNFINISHED_DAY};
use aoc_engine::text::{
    format_duration, format_duration_with_days, format_rank, ordinal_number_suffix,
};
use aoc_engine::time::current_aoc_year_day_at;

fn member(name: &str, numeric: u64) -> Identifier {
    Identifier { name: name.to_string(), numeric }
}

fn entry(name: &str, numeric: u64, year: i32, day: u8, part: ProblemPart, ts: i64) -> Entry {
    Entry { timestamp: ts, year, day, part, id: member(name, numeric), rank: None }
}

fn ranked(name: &str, numeric: u64, year: i32, day: u8, part: ProblemPart, ts: i64, rank: u8) -> Entry {
    Entry { timestamp: ts, year, day, part, id: member(name, numeric), rank: Some(rank) }
}

fn board(entries: Vec<Entry>) -> Leaderboard {
    let mut lb = Leaderboard::new();
    for e in entries {
        lb.add(e).expect("valid entry");
    }
    lb
}

fn release(year: i32, day: u8) -> i64 {
    Entry::puzzle_unlock(year, day).expect("valid year and day")
}

#[test]
fn formatting_of_durations_and_ranks() {
    assert_eq!(format_duration(3661), "01:01:01");
    assert_eq!(format_duration(0), "00:00:00");
    assert_eq!(format_duration(-61), "-00:01:01");
    assert_eq!(format_duration_with_days(90061), "01 days 01:01:01");
    assert_eq!(ordinal_number_suffix(1), "st");
    assert_eq!(ordinal_number_suffix(2), "nd");
    assert_eq!(ordinal_number_suffix(3), "rd");
    assert_eq!(ordinal_number_suffix(4), "th");
    assert_eq!(ordinal_number_suffix(11), "th");
    assert_eq!(ordinal_number_suffix(12), "th");
    assert_eq!(ordinal_number_suffix(13), "th");
    assert_eq!(format_rank(1), "1st");
    assert_eq!(format_rank(21), "21st");
    assert_eq!(format_rank(112), "112th");
}

#[test]
fn keyword_resolution() {
    assert!(matches!(Scoring::from_string("local"), Some(Scoring::LOCAL)));
    assert!(matches!(Scoring::from_string("stars"), Some(Scoring::STARS)));
    assert!(Scoring::from_string("other").is_none());
    assert_eq!(Scoring::get_default_str(), "local");
    assert!(matches!(Jersey::from_string("yellow"), Some(Jersey::YELLOW)));
    assert!(matches!(Jersey::from_string("green"), Some(Jersey::GREEN)));
    assert!(matches!(Jersey::from_string("combative"), Some(Jersey::COMBATIVE)));
    assert!(Jersey::from_string("polka").is_none());
    assert_eq!(Jersey::get_default_str(), "yellow");
    assert!(matches!(Ranking::from_string("delta"), Some(Ranking::DELTA)));
    assert!(matches!(Ranking::from_string("p1"), Some(Ranking::PART1)));
    assert!(matches!(Ranking::from_string("p2"), Some(Ranking::PART2)));
    assert!(matches!(Ranking::from_string("limit"), Some(Ranking::LIMIT)));
    assert_eq!(Ranking::get_default_str(), "delta");
}

fn sample_board() -> Leaderboard {
    // 2021 is a past year; Ann finished day 1 fully and fast, Ben finished
    // day 1 slowly (part two only after a long gap), Cid solved only part 1.
    let rel = release(2021, 1);
    board(vec![
        entry("ann", 1, 2021, 1, ProblemPart::FIRST, rel + 300),
        entry("ann", 1, 2021, 1, ProblemPart::SECOND, rel + 900),
        entry("ben", 2, 2021, 1, ProblemPart::FIRST, rel + 400),
        entry("ben", 2, 2021, 1, ProblemPart::SECOND, rel + 7600),
        entry("cid", 3, 2021, 1, ProblemPart::FIRST, rel + 200),
    ])
}

#[test]
fn yellow_standings_for_past_year() {
    let lb = sample_board();
    let standing = Standing::new(&lb);
    // seen from 2022, all 25 days of 2021 are chargeable
    let rows = standing.tdf_season_at(&Jersey::YELLOW, 2021, 2022, 6);
    // only members with at least one full solve are listed
    assert_eq!(rows.len(), 2);
    let p = PENALTY_UNFINISHED_DAY;
    assert_eq!(rows[0].0.numeric, 1);
    assert_eq!(rows[0].1, 900 + 24 * p);
    assert_eq!(rows[0].2, 24);
    assert_eq!(rows[1].0.numeric, 2);
    assert_eq!(rows[1].1, 7600 + 24 * p);
    assert_eq!(rows[1].2, 24);
}

#[test]
fn green_standings_rank_by_delta() {
    let lb = sample_board();
    let standing = Standing::new(&lb);
    let rows = standing.tdf_season_at(&Jersey::GREEN, 2021, 2022, 6);
    // Ann's delta is 600 s, Ben's 7200 s; Cid has no delta
    assert_eq!(rows.len(), 2);
    assert_eq!(rows[0].0.numeric, 1);
    assert_eq!(rows[0].1, 50);
    assert_eq!(rows[0].2, 1);
    assert_eq!(rows[1].0.numeric, 2);
    assert_eq!(rows[1].1, 30);
    assert_eq!(rows[1].2, 1);
}

#[test]
fn combative_standings_reward_late_finishes() {
    // finishing two minutes before the next release earns more than
    // finishing a day early
    let rel = release(2021, 2);
    let lb = board(vec![
        entry("ann", 1, 2021, 2, ProblemPart::FIRST, rel + 60),
        entry("ann", 1, 2021, 2, ProblemPart::SECOND, rel + 86400 - 120),
        entry("ben", 2, 2021, 2, ProblemPart::FIRST, rel + 60),
        entry("ben", 2, 2021, 2, ProblemPart::SECOND, rel + 600),
    ]);
    let standing = Standing::new(&lb);
    let rows = standing.tdf_season_at(&Jersey::COMBATIVE, 2021, 2022, 6);
    assert_eq!(rows.len(), 2);
    // Ann: two whole minutes remaining
    assert_eq!(rows[0].0.numeric, 1);
    assert_eq!(rows[0].1, 495);
    // Ben finished with 85800 s remaining: the reward has decayed to zero,
    // and a day with zero points does not count as scored
    assert_eq!(rows[1].0.numeric, 2);
    assert_eq!(rows[1].1, 0);
    assert_eq!(rows[1].2, 0);
}

#[test]
fn by_time_delta_ranking() {
    let lb = sample_board();
    let standing = Standing::new(&lb);
    let rows = standing.by_time(&Ranking::DELTA, 2021, 1);
    assert_eq!(rows.len(), 2);
    assert_eq!(rows[0], ("ann".to_string(), "00:10:00".to_string()));
    assert_eq!(rows[1], ("ben".to_string(), "02:00:00".to_string()));
    let p1 = standing.by_time(&Ranking::PART1, 2021, 1);
    assert_eq!(p1.len(), 3);
    assert_eq!(p1[0], ("cid".to_string(), "00:03:20".to_string()));
}

#[test]
fn by_points_green_day() {
    let lb = sample_board();
    let standing = Standing::new(&lb);
    let rows = standing.by_points(&Jersey::GREEN, 2021, 1);
    assert_eq!(rows.len(), 2);
    assert_eq!(rows[0].0.numeric, 1);
    assert_eq!(rows[0].1, 50);
    assert_eq!(rows[1].0.numeric, 2);
    assert_eq!(rows[1].1, 30);
    let yellow = standing.by_points(&Jersey::YELLOW, 2021, 1);
    assert!(yellow.is_empty());
}

#[test]
fn statistics_infer_missing_parts() {
    // A ranked day-one board: one member appears only in part one's list at
    // +8 minutes; the slowest observed part-two time is +45 minutes. Their
    // delta is estimated one second beyond the slowest part two, with the
    // out-of-pool sentinel rank.
    let rel = release(2021, 1);
    let lb = board(vec![
        ranked("fast", 10, 2021, 1, ProblemPart::FIRST, rel + 120, 1),
        ranked("fast", 10, 2021, 1, ProblemPart::SECOND, rel + 300, 1),
        ranked("slowp2", 11, 2021, 1, ProblemPart::FIRST, rel + 240, 2),
        ranked("slowp2", 11, 2021, 1, ProblemPart::SECOND, rel + 2700, 2),
        ranked("fellout", 12, 2021, 1, ProblemPart::FIRST, rel + 480, 3),
    ]);
    let rows = lb.standings_by_delta_for_year_day(2021, 1).expect("both parts present");
    assert_eq!(rows.len(), 3);
    // fast: 180 s delta; slowp2: 2460 s; fellout: 2700 - 480 + 1 = 2221 s
    let fellout = rows.iter().find(|r| r.0.numeric == 12).unwrap();
    assert_eq!(fellout.1, 2700 - 480 + 1);
    assert_eq!(fellout.2, Some(101));
    let stats = lb.statistics_for_year_day(2021, 1).expect("both parts present");
    assert_eq!(stats.p1_fast, Some(120));
    assert_eq!(stats.p1_slow, Some(480));
    assert_eq!(stats.p2_fast, Some(300));
    assert_eq!(stats.p2_slow, Some(2700));
    // the sentinel rank 101 is excluded from the delta statistics
    assert_eq!(stats.delta_fast, Some((180, Some(1))));
    assert_eq!(stats.delta_slow, Some((2460, Some(2))));
}

#[test]
fn statistics_need_both_parts() {
    let rel = release(2021, 1);
    let lb = board(vec![entry("ann", 1, 2021, 1, ProblemPart::FIRST, rel + 300)]);
    assert!(lb.statistics_for_year_day(2021, 1).is_err());
}

#[test]
fn current_year_day_at_known_instants() {
    // the day after the 2022 event opened
    let ts = release(2022, 2);
    assert_eq!(current_aoc_year_day_at(ts, 2022, 2), (2022, 2));
    // the following summer the previous event is the last valid one
    assert_eq!(current_aoc_year_day_at(ts + 200 * 86400, 2023, 19), (2022, 25));
}

#[test]
fn command_recognition_and_parsing() {
    assert!(Command::is_command("!help"));
    assert!(Command::is_command("!fast p1 3 2022"));
    assert!(Command::is_command("!board stars"));
    assert!(Command::is_command("!tdf green 2022"));
    assert!(!Command::is_command("hello"));
    let parsed = Command::parse_string("!fast p1 3 2022");
    assert!(matches!(parsed.cmd, Some(CommandKind::Fast)));
    assert_eq!(parsed.year, Some(2022));
    assert_eq!(parsed.day, Some(3));
    assert_eq!(parsed.option.as_deref(), Some("p1".as_bytes()));
}

#[test]
fn command_dispatch() {
    let rel = release(2021, 1);
    let mut snapshot = ScrapedLeaderboard::new();
    snapshot.timestamp = 7777;
    snapshot
        .leaderboard
        .add(entry("ann", 1, 2021, 1, ProblemPart::FIRST, rel + 300))
        .unwrap();
    snapshot
        .leaderboard
        .add(entry("ann", 1, 2021, 1, ProblemPart::SECOND, rel + 900))
        .unwrap();
    // seen from December 6th 2022, 2021 day 1 is answerable
    let now = release(2022, 6) + 3600;
    match Command::build_from_at("!fast delta 1 2021", &snapshot, now, 2022, 6) {
        Some(Command::Ranking(2021, 1, rows, 7777, Ranking::DELTA)) => {
            assert_eq!(rows.len(), 1);
            assert_eq!(rows[0], ("ann".to_string(), "00:10:00".to_string()));
        }
        other => panic!("unexpected dispatch: {:?}", other),
    }
    match Command::build_from_at("!board 2021", &snapshot, now, 2022, 6) {
        Some(Command::LeaderboardDisplay(2021, rows, 7777, Scoring::LOCAL)) => {
            assert_eq!(rows.len(), 1);
            assert_eq!(rows[0].0.numeric, 1);
        }
        other => panic!("unexpected dispatch: {:?}", other),
    }
    match Command::build_from_at("!tdf green 2021", &snapshot, now, 2022, 6) {
        Some(Command::StandingTdf(2021, None, TdfData::Season(rows), 7777, Jersey::GREEN)) => {
            assert_eq!(rows.len(), 1);
        }
        other => panic!("unexpected dispatch: {:?}", other),
    }
    assert!(Command::build_from_at("hello there", &snapshot, now, 2022, 6).is_none());
    match Command::build_from_at("!fast 1999", &snapshot, now, 2022, 6) {
        Some(Command::NotValid(YearDayIssue::BeforeFirstEvent)) => {}
        other => panic!("unexpected dispatch: {:?}", other),
    }
    match Command::build_from_at("!fast 3021", &snapshot, now, 2022, 6) {
        Some(Command::NotValid(YearDayIssue::FutureYear)) => {}
        other => panic!("unexpected dispatch: {:?}", other),
    }
    match Command::build_from_at("!fast 0 2021", &snapshot, now, 2022, 6) {
        Some(Command::NotValid(YearDayIssue::DayZero)) => {}
        other => panic!("unexpected dispatch: {:?}", other),
    }
    match Command::build_from_at("!fast 26 2021", &snapshot, now, 2022, 6) {
        Some(Command::NotValid(YearDayIssue::AfterChristmas)) => {}
        other => panic!("unexpected dispatch: {:?}", other),
    }
    match Command::build_from_at("!fast 9 2022", &snapshot, now, 2022, 6) {
        Some(Command::NotValid(YearDayIssue::FutureDay)) => {}
        other => panic!("unexpected dispatch: {:?}", other),
    }
}
