use aoc_engine::decay::combative_points;
use aoc_engine::highlights::{compute_highlights, get_new_members, ScrapedLeaderboard};
use aoc_engine::leaderboard::{Entry, Identifier, Leaderboard, ProblemPart};
use aoc_engine::standings::standings_by_local_score;

fn member(name: &str, numeric: u64) -> Identifier {
    Identifier { name: name.to_string(), numeric }
}

fn entry(name: &str, numeric: u64, year: i32, day: u8, part: ProblemPart, ts: i64) -> Entry {
    Entry { timestamp: ts, year, day, part, id: member(name, numeric), rank: None }
}

fn board(entries: Vec<Entry>) -> Leaderboard {
    let mut lb = Leaderboard::new();
    for e in entries {
        lb.add(e).expect("valid entry");
    }
    lb
}

fn same_entries(a: &Leaderboard, b: &Leaderboard) -> bool {
    if a.entry_count() != b.entry_count() {
        return false;
    }
    for i in 0..a.entry_count() {
        if !b.contains_entry(a.entry_at(i)) {
            return false;
        }
    }
    true
}

fn release(year: i32, day: u8) -> i64 {
    Entry::puzzle_unlock(year, day).expect("valid year and day")
}

#[test]
fn puzzle_unlock_known_instant() {
    // December 1st 2022, 05:00:00 UTC
    assert_eq!(release(2022, 1), 1669870800);
    // consecutive days are one day apart
    assert_eq!(release(2022, 2) - release(2022, 1), 86400);
    assert!(Entry::puzzle_unlock(2014, 1).is_err());
    assert!(Entry::puzzle_unlock(2022, 0).is_err());
    assert!(Entry::puzzle_unlock(2022, 26).is_err());
}

#[test]
fn add_rejects_malformed_entries() {
    let mut lb = Leaderboard::new();
    let bad = entry("a", 1, 2022, 26, ProblemPart::FIRST, 0);
    assert!(lb.add(bad).is_err());
    assert_eq!(lb.entry_count(), 0);
    let good = entry("a", 1, 2022, 1, ProblemPart::FIRST, release(2022, 1) + 1);
    assert!(lb.add(good).is_ok());
    assert_eq!(lb.entry_count(), 1);
}

#[test]
fn merge_is_idempotent_and_commutative() {
    let rel = release(2022, 1);
    let a = board(vec![
        entry("alice", 1, 2022, 1, ProblemPart::FIRST, rel + 600),
        entry("bob", 2, 2022, 1, ProblemPart::FIRST, rel + 300),
    ]);
    let b = board(vec![
        entry("bob", 2, 2022, 1, ProblemPart::FIRST, rel + 300),
        entry("carol", 3, 2022, 2, ProblemPart::SECOND, rel + 90000),
    ]);
    let mut ab = board(vec![]);
    ab.merge(&a);
    ab.merge(&b);
    let mut ba = board(vec![]);
    ba.merge(&b);
    ba.merge(&a);
    assert!(same_entries(&ab, &ba));
    assert_eq!(ab.entry_count(), 3);
    let mut aa = board(vec![]);
    aa.merge(&a);
    aa.merge(&a);
    assert!(same_entries(&aa, &a));
}

#[test]
fn difference_complements_merge() {
    let rel = release(2022, 1);
    let a = board(vec![entry("alice", 1, 2022, 1, ProblemPart::FIRST, rel + 600)]);
    let b = board(vec![
        entry("alice", 1, 2022, 1, ProblemPart::FIRST, rel + 600),
        entry("bob", 2, 2022, 1, ProblemPart::FIRST, rel + 300),
    ]);
    let only_b = b.difference(&a);
    assert_eq!(only_b.entry_count(), 1);
    let mut merged = board(vec![]);
    merged.merge(&a);
    merged.merge(&only_b);
    let mut full = board(vec![]);
    full.merge(&a);
    full.merge(&b);
    assert!(same_entries(&merged, &full));
    assert_eq!(a.difference(&a).entry_count(), 0);
}

#[test]
fn merge_round_trip() {
    let rel = release(2022, 3);
    let lb = board(vec![entry("alice", 1, 2022, 3, ProblemPart::FIRST, rel + 60)]);
    let incoming = board(vec![
        entry("alice", 1, 2022, 3, ProblemPart::FIRST, rel + 60),
        entry("alice", 1, 2022, 3, ProblemPart::SECOND, rel + 120),
    ]);
    let mut once = board(vec![]);
    once.merge(&lb);
    once.merge(&incoming);
    let mut twice = board(vec![]);
    twice.merge(&lb);
    twice.merge(&once);
    assert!(same_entries(&once, &twice));
}

#[test]
fn is_global_complete_at_two_hundred() {
    let rel = release(2022, 1);
    let mut entries = Vec::new();
    for i in 0..100u64 {
        let mut e1 = entry("g", 1000 + i, 2022, 1, ProblemPart::FIRST, rel + 10 + i as i64);
        e1.rank = Some((i + 1) as u8);
        let mut e2 = entry("g", 1000 + i, 2022, 1, ProblemPart::SECOND, rel + 500 + i as i64);
        e2.rank = Some((i + 1) as u8);
        entries.push(e1);
        entries.push(e2);
    }
    let lb = board(entries);
    assert!(lb.is_global_complete());
}

#[test]
fn local_scores_for_two_member_day() {
    // Alice: day 1 part 1 at +10min, part 2 at +20min.
    // Bob: day 1 part 1 at +5min, part 2 at +30min.
    let rel = release(2022, 1);
    let lb = board(vec![
        entry("alice", 1, 2022, 1, ProblemPart::FIRST, rel + 600),
        entry("alice", 1, 2022, 1, ProblemPart::SECOND, rel + 1200),
        entry("bob", 2, 2022, 1, ProblemPart::FIRST, rel + 300),
        entry("bob", 2, 2022, 1, ProblemPart::SECOND, rel + 1800),
    ]);
    let n = lb.member_count_for_year(2022);
    assert_eq!(n, 2);
    let alice = member("alice", 1);
    let bob = member("bob", 2);
    // part 1: Bob first (2 points), Alice second (1 point);
    // part 2: Alice first (2 points), Bob second (1 point): 3 points each.
    assert_eq!(lb.day_stars_and_score_of(2022, &alice, 1, n), (2, 3));
    assert_eq!(lb.day_stars_and_score_of(2022, &bob, 1, n), (2, 3));
    let rows = standings_by_local_score(&lb, 2022);
    assert_eq!(rows.len(), 2);
    assert_eq!(rows[0].1, 3);
    assert_eq!(rows[1].1, 3);
    // the tie is broken by the member order: the smaller numeric id first
    assert_eq!(rows[0].0.numeric, 1);
    assert_eq!(rows[1].0.numeric, 2);
}

#[test]
fn local_score_sums_to_triangle_for_full_group() {
    // three members, all of them with both parts of day 1
    let rel = release(2021, 1);
    let mut entries = Vec::new();
    for (i, name) in ["a", "b", "c"].iter().enumerate() {
        let i = i as u64;
        entries.push(entry(name, i + 1, 2021, 1, ProblemPart::FIRST, rel + 60 * (i as i64 + 1)));
        entries.push(entry(name, i + 1, 2021, 1, ProblemPart::SECOND, rel + 600 * (i as i64 + 1)));
    }
    let lb = board(entries);
    let n = lb.member_count_for_year(2021);
    assert_eq!(n, 3);
    let mut per_part_total = 0;
    for (i, name) in ["a", "b", "c"].iter().enumerate() {
        let id = member(name, i as u64 + 1);
        per_part_total += lb.day_stars_and_score_of(2021, &id, 1, n).1;
    }
    // both parts were contested by all three members: each part hands out
    // 3 + 2 + 1 points
    assert_eq!(per_part_total, 2 * (3 + 2 + 1));
}

#[test]
fn decay_points_range_and_known_values() {
    assert_eq!(combative_points(0), 500);
    assert_eq!(combative_points(1), 498);
    assert_eq!(combative_points(10_000), 0);
    let mut prev = combative_points(0);
    for t in 1..50u64 {
        let cur = combative_points(t);
        assert!(cur <= prev, "decay must not grow");
        assert!(cur <= 500);
        prev = cur;
    }
}

#[test]
fn new_members_are_the_new_names() {
    let rel = release(2022, 1);
    let cur = board(vec![entry("alice", 1, 2022, 1, ProblemPart::FIRST, rel + 600)]);
    let new = board(vec![
        entry("alice", 1, 2022, 1, ProblemPart::FIRST, rel + 600),
        entry("bob", 2, 2022, 1, ProblemPart::FIRST, rel + 300),
        entry("carol", 3, 2022, 1, ProblemPart::FIRST, rel + 400),
    ]);
    let names = get_new_members(&cur, &new);
    assert_eq!(names, vec!["bob".to_string(), "carol".to_string()]);
}

#[test]
fn renamed_member_counts_as_new_name() {
    let rel = release(2022, 1);
    let cur = board(vec![entry("alice", 1, 2022, 1, ProblemPart::FIRST, rel + 600)]);
    let new = board(vec![entry("alicia", 1, 2022, 1, ProblemPart::FIRST, rel + 600)]);
    let names = get_new_members(&cur, &new);
    assert_eq!(names, vec!["alicia".to_string()]);
}

#[test]
fn common_members_by_numeric_id() {
    let rel = release(2022, 1);
    let public = board(vec![
        entry("alice", 1, 2022, 1, ProblemPart::FIRST, rel + 600),
        entry("zed", 99, 2022, 1, ProblemPart::FIRST, rel + 700),
    ]);
    let roster = board(vec![entry("alice renamed", 1, 2022, 2, ProblemPart::FIRST, rel + 90000)]);
    let common = public.get_common_members_with(&roster);
    assert_eq!(common.entry_count(), 1);
    assert_eq!(common.entry_at(0).id.numeric, 1);
}

#[test]
fn highlight_for_first_star_of_new_member() {
    // Carol had no prior records; the new snapshot adds one part-one star.
    let rel = release(2022, 5);
    let old = board(vec![
        entry("alice", 1, 2022, 5, ProblemPart::FIRST, rel + 100),
    ]);
    let new = board(vec![
        entry("alice", 1, 2022, 5, ProblemPart::FIRST, rel + 100),
        entry("carol", 3, 2022, 5, ProblemPart::FIRST, rel + 200),
    ]);
    let highlights = compute_highlights(&old, &new);
    assert_eq!(highlights.len(), 1);
    let h = &highlights[0];
    assert_eq!(h.name, "carol");
    assert_eq!(h.year, 2022);
    assert_eq!(h.day, 5);
    assert_eq!(h.n_stars, 1);
    assert!(h.delta.is_none(), "only one part was captured");
    // two members in the new snapshot: Carol finished part one second,
    // earning 2 - 1 = 1 point, up from nothing
    assert_eq!(h.new_points, 1);
}

#[test]
fn highlight_reports_delta_when_both_parts_arrive() {
    let rel = release(2022, 7);
    let old = board(vec![]);
    let new = board(vec![
        entry("dave", 4, 2022, 7, ProblemPart::FIRST, rel + 60),
        entry("dave", 4, 2022, 7, ProblemPart::SECOND, rel + 3721),
    ]);
    let highlights = compute_highlights(&old, &new);
    assert_eq!(highlights.len(), 1);
    let h = &highlights[0];
    assert_eq!(h.n_stars, 2);
    assert_eq!(h.delta.as_deref(), Some("01:01:01"));
    assert_eq!(h.parts_duration.len(), 2);
}

#[test]
fn scraped_leaderboard_merges_snapshots() {
    let rel = release(2022, 1);
    let mut cache = ScrapedLeaderboard::new();
    assert_eq!(cache.leaderboard.entry_count(), 0);
    let mut fresh = ScrapedLeaderboard::new();
    fresh.timestamp = 12345;
    fresh
        .leaderboard
        .add(entry("alice", 1, 2022, 1, ProblemPart::FIRST, rel + 600))
        .unwrap();
    cache.merge_with(fresh);
    assert_eq!(cache.leaderboard.entry_count(), 1);
    assert_eq!(cache.timestamp, 12345);
}
