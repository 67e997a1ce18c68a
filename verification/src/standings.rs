//! Standings: the selector enums callers steer the engine with, the classic
//! score-board standings, and the three alternative season classifications.

use vstd::prelude::*;

use crate::decay::spec_combative_points;
use crate::leaderboard::{entry_valid, EntryV, Identifier, Leaderboard, MemberV, ProblemPart};
use crate::order::{member_lt, member_lt_exec};
use crate::scores::{
    board_before, board_key, board_row_ok, in_member_day_part, members_view, total_score,
    total_stars, year_members, BoardKey, BoardRow,
};
use crate::time::release_ts;

verus! {

/// How the classic board is ranked.
#[derive(Clone, Copy, Debug, PartialEq, Eq, Structural)]
#[allow(non_camel_case_types)]
pub enum Scoring {
    LOCAL,
    STARS,
}

/// The three season-long alternative classifications.
#[derive(Clone, Copy, Debug, PartialEq, Eq, Structural)]
#[allow(non_camel_case_types)]
pub enum Jersey {
    YELLOW,
    GREEN,
    COMBATIVE,
}

/// The per-day time rankings.
#[derive(Clone, Copy, Debug, PartialEq, Eq, Structural)]
#[allow(non_camel_case_types)]
pub enum Ranking {
    DELTA,
    PART1,
    PART2,
    LIMIT,
}

/// Whether two byte strings hold the same bytes.
pub fn bytes_eq(a: &[u8], b: &[u8]) -> (r: bool)
    ensures
        r == (a@ == b@),
{
    if a.len() != b.len() {
        proof {
            assert(a@.len() != b@.len());
        }
        return false;
    }
    let n = a.len();
    let mut i: usize = 0;
    while i < n
        invariant
            n == a@.len(),
            n == b@.len(),
            0 <= i <= n,
            forall|j: int| 0 <= j < i ==> a@[j] == b@[j],
        decreases n - i,
    {
        if a[i] != b[i] {
            return false;
        }
        i += 1;
    }
    proof {
        assert(a@ =~= b@);
    }
    true
}

/// Whether a string holds exactly the given text.
pub fn str_eq(a: &str, b: &str) -> (r: bool)
    ensures
        r == (a@ == b@),
{
    let r = bytes_eq(a.as_bytes(), b.as_bytes());
    proof {
        // Equal byte encodings decode back to equal character sequences.
        vstd::utf8::encode_utf8_decode_utf8(a@);
        vstd::utf8::encode_utf8_decode_utf8(b@);
    }
    r
}

impl Scoring {
    /// The scoring method a keyword names, if any.
    pub fn from_string(s: &str) -> (r: Option<Self>)
        ensures
            r == (if s@ == "local"@ {
                Some(Scoring::LOCAL)
            } else if s@ == "stars"@ {
                Some(Scoring::STARS)
            } else {
                None::<Scoring>
            }),
    {
        if str_eq(s, "local") {
            Some(Scoring::LOCAL)
        } else if str_eq(s, "stars") {
            Some(Scoring::STARS)
        } else {
            None
        }
    }

    /// The keyword assumed when a command names no scoring method.
    pub fn get_default_str() -> (r: &'static str)
        ensures
            r@ == "local"@,
    {
        "local"
    }
}

impl Jersey {
    /// The classification a keyword names, if any.
    pub fn from_string(s: &str) -> (r: Option<Self>)
        ensures
            r == (if s@ == "yellow"@ {
                Some(Jersey::YELLOW)
            } else if s@ == "green"@ {
                Some(Jersey::GREEN)
            } else if s@ == "combative"@ {
                Some(Jersey::COMBATIVE)
            } else {
                None::<Jersey>
            }),
    {
        if str_eq(s, "yellow") {
            Some(Jersey::YELLOW)
        } else if str_eq(s, "green") {
            Some(Jersey::GREEN)
        } else if str_eq(s, "combative") {
            Some(Jersey::COMBATIVE)
        } else {
            None
        }
    }

    /// The keyword assumed when a command names no jersey.
    pub fn get_default_str() -> (r: &'static str)
        ensures
            r@ == "yellow"@,
    {
        "yellow"
    }
}

impl Ranking {
    /// The time ranking a keyword names, if any.
    pub fn from_string(s: &str) -> (r: Option<Self>)
        ensures
            r == (if s@ == "delta"@ {
                Some(Ranking::DELTA)
            } else if s@ == "p1"@ {
                Some(Ranking::PART1)
            } else if s@ == "p2"@ {
                Some(Ranking::PART2)
            } else if s@ == "limit"@ {
                Some(Ranking::LIMIT)
            } else {
                None::<Ranking>
            }),
    {
        if str_eq(s, "delta") {
            Some(Ranking::DELTA)
        } else if str_eq(s, "p1") {
            Some(Ranking::PART1)
        } else if str_eq(s, "p2") {
            Some(Ranking::PART2)
        } else if str_eq(s, "limit") {
            Some(Ranking::LIMIT)
        } else {
            None
        }
    }

    /// The keyword assumed when a command names no ranking.
    pub fn get_default_str() -> (r: &'static str)
        ensures
            r@ == "delta"@,
    {
        "delta"
    }
}

/// The year's full board ordered for the chosen scoring: every member of the
/// year exactly once with exact totals and per-day values, by falling local
/// score (`LOCAL`) or falling star count (`STARS`).
pub fn standings_board(score_type: &Scoring, leaderboard: &Leaderboard, year: i32) -> (r: Vec<
    BoardRow,
>)
    requires
        leaderboard.wf(),
        leaderboard.size_ok(),
    ensures
        r@.len() == year_members(leaderboard@, year as int).len(),
        forall|k: int|
            0 <= k < r@.len() ==> board_row_ok(leaderboard@, year as int, #[trigger] r@[k]),
        forall|a: int, b: int|
            0 <= a < b < r@.len() ==> board_before(
                *score_type is STARS,
                board_key(#[trigger] r@[a]),
                board_key(#[trigger] r@[b]),
            ),
        forall|m: MemberV|
            year_members(leaderboard@, year as int).contains(m) ==> exists|k: int|
                0 <= k < r@.len() && (#[trigger] r@[k]).0@ == m,
{
    leaderboard.board_rows(year, matches!(score_type, Scoring::STARS))
}

/// Local-score standings of a year: each member of the year once with the
/// exact total, by falling score (star count, then the member order, break
/// ties).
pub fn standings_by_local_score(leaderboard: &Leaderboard, year: i32) -> (r: Vec<
    (Identifier, u64),
>)
    requires
        leaderboard.wf(),
        leaderboard.size_ok(),
    ensures
        r@.len() == year_members(leaderboard@, year as int).len(),
        forall|k: int|
            0 <= k < r@.len() ==> year_members(leaderboard@, year as int).contains(
                (#[trigger] r@[k]).0@,
            ) && r@[k].1 == total_score(leaderboard@, year as int, r@[k].0@),
        forall|a: int, b: int|
            0 <= a < b < r@.len() ==> board_before(
                false,
                BoardKey {
                    stars: total_stars(leaderboard@, year as int, (#[trigger] r@[a]).0@),
                    score: r@[a].1 as int,
                    member: r@[a].0@,
                },
                BoardKey {
                    stars: total_stars(leaderboard@, year as int, (#[trigger] r@[b]).0@),
                    score: r@[b].1 as int,
                    member: r@[b].0@,
                },
            ),
        forall|m: MemberV|
            year_members(leaderboard@, year as int).contains(m) ==> exists|k: int|
                0 <= k < r@.len() && (#[trigger] r@[k]).0@ == m,
{
    let rows = leaderboard.board_rows(year, false);
    let out = project_totals(rows);
    proof {
        assert forall|k: int|
            0 <= k < out@.len() implies year_members(leaderboard@, year as int).contains(
            (#[trigger] out@[k]).0@,
        ) && out@[k].1 == total_score(leaderboard@, year as int, out@[k].0@) by {
            assert(board_row_ok(leaderboard@, year as int, rows@[k]));
        }
        assert forall|a: int, b: int|
            0 <= a < b < out@.len() implies board_before(
            false,
            BoardKey {
                stars: total_stars(leaderboard@, year as int, (#[trigger] out@[a]).0@),
                score: out@[a].1 as int,
                member: out@[a].0@,
            },
            BoardKey {
                stars: total_stars(leaderboard@, year as int, (#[trigger] out@[b]).0@),
                score: out@[b].1 as int,
                member: out@[b].0@,
            },
        ) by {
            assert(board_row_ok(leaderboard@, year as int, rows@[a]));
            assert(board_row_ok(leaderboard@, year as int, rows@[b]));
            assert(BoardKey {
                stars: total_stars(leaderboard@, year as int, out@[a].0@),
                score: out@[a].1 as int,
                member: out@[a].0@,
            } =~= board_key(rows@[a]));
            assert(BoardKey {
                stars: total_stars(leaderboard@, year as int, out@[b].0@),
                score: out@[b].1 as int,
                member: out@[b].0@,
            } =~= board_key(rows@[b]));
        }
        assert forall|m: MemberV|
            year_members(leaderboard@, year as int).contains(m) implies exists|k: int|
            0 <= k < out@.len() && (#[trigger] out@[k]).0@ == m by {
            let k = choose|k: int| 0 <= k < rows@.len() && (#[trigger] rows@[k]).0@ == m;
            assert(out@[k].0@ == m);
        }
    }
    out
}

/// Star-count standings of a year: each member of the year once with the
/// exact count, by falling star count (local score, then the member order,
/// break ties).
pub fn standings_by_number_of_stars(leaderboard: &Leaderboard, year: i32) -> (r: Vec<
    (Identifier, u64),
>)
    requires
        leaderboard.wf(),
        leaderboard.size_ok(),
    ensures
        r@.len() == year_members(leaderboard@, year as int).len(),
        forall|k: int|
            0 <= k < r@.len() ==> year_members(leaderboard@, year as int).contains(
                (#[trigger] r@[k]).0@,
            ) && r@[k].1 == total_stars(leaderboard@, year as int, r@[k].0@),
        forall|a: int, b: int|
            0 <= a < b < r@.len() ==> board_before(
                true,
                BoardKey {
                    stars: r@[a].1 as int,
                    score: total_score(leaderboard@, year as int, (#[trigger] r@[a]).0@),
                    member: r@[a].0@,
                },
                BoardKey {
                    stars: r@[b].1 as int,
                    score: total_score(leaderboard@, year as int, (#[trigger] r@[b]).0@),
                    member: r@[b].0@,
                },
            ),
        forall|m: MemberV|
            year_members(leaderboard@, year as int).contains(m) ==> exists|k: int|
                0 <= k < r@.len() && (#[trigger] r@[k]).0@ == m,
{
    let rows = leaderboard.board_rows(year, true);
    let mut out: Vec<(Identifier, u64)> = Vec::new();
    let n = rows.len();
    let mut i: usize = 0;
    while i < n
        invariant
            n == rows@.len(),
            0 <= i <= n,
            out@.len() == i,
            forall|k: int|
                0 <= k < i ==> (#[trigger] out@[k]).0@ == rows@[k].0@ && out@[k].1 == rows@[k].2,
        decreases n - i,
    {
        let row = &rows[i];
        out.push((row.0.clone(), row.2));
        i += 1;
    }
    proof {
        assert forall|k: int|
            0 <= k < out@.len() implies year_members(leaderboard@, year as int).contains(
            (#[trigger] out@[k]).0@,
        ) && out@[k].1 == total_stars(leaderboard@, year as int, out@[k].0@) by {
            assert(board_row_ok(leaderboard@, year as int, rows@[k]));
        }
        assert forall|a: int, b: int|
            0 <= a < b < out@.len() implies board_before(
            true,
            BoardKey {
                stars: out@[a].1 as int,
                score: total_score(leaderboard@, year as int, (#[trigger] out@[a]).0@),
                member: out@[a].0@,
            },
            BoardKey {
                stars: out@[b].1 as int,
                score: total_score(leaderboard@, year as int, (#[trigger] out@[b]).0@),
                member: out@[b].0@,
            },
        ) by {
            assert(board_row_ok(leaderboard@, year as int, rows@[a]));
            assert(board_row_ok(leaderboard@, year as int, rows@[b]));
            assert(BoardKey {
                stars: out@[a].1 as int,
                score: total_score(leaderboard@, year as int, out@[a].0@),
                member: out@[a].0@,
            } =~= board_key(rows@[a]));
            assert(BoardKey {
                stars: out@[b].1 as int,
                score: total_score(leaderboard@, year as int, out@[b].0@),
                member: out@[b].0@,
            } =~= board_key(rows@[b]));
        }
        assert forall|m: MemberV|
            year_members(leaderboard@, year as int).contains(m) implies exists|k: int|
            0 <= k < out@.len() && (#[trigger] out@[k]).0@ == m by {
            let k = choose|k: int| 0 <= k < rows@.len() && (#[trigger] rows@[k]).0@ == m;
            assert(out@[k].0@ == m);
        }
    }
    out
}

/// Time charged for every day a member leaves unfinished: seven days, in
/// seconds.
pub const PENALTY_UNFINISHED_DAY: i64 = 604800;

/// Whether a member holds a record for one part of one day.
pub open spec fn has_part(s: Set<EntryV>, y: int, m: MemberV, d: int, pt: ProblemPart) -> bool {
    exists|e: EntryV| #[trigger] s.contains(e) && in_member_day_part(y, m, d, pt)(e)
}

/// `t` is the earliest time at which the member completed that part that
/// day.
pub open spec fn is_min_part_ts(
    s: Set<EntryV>,
    y: int,
    m: MemberV,
    d: int,
    pt: ProblemPart,
    t: int,
) -> bool {
    &&& exists|e: EntryV|
        #[trigger] s.contains(e) && in_member_day_part(y, m, d, pt)(e) && e.timestamp == t
    &&& forall|e: EntryV|
        #[trigger] s.contains(e) && in_member_day_part(y, m, d, pt)(e) ==> e.timestamp >= t
}

/// The earliest completion time of one part of one day (meaningful when the
/// member completed that part).
pub open spec fn part_ts(s: Set<EntryV>, y: int, m: MemberV, d: int, pt: ProblemPart) -> int {
    choose|t: int| is_min_part_ts(s, y, m, d, pt, t)
}

/// Two earliest times are the same time.
pub proof fn lemma_min_part_ts_unique(
    s: Set<EntryV>,
    y: int,
    m: MemberV,
    d: int,
    pt: ProblemPart,
    t: int,
)
    requires
        is_min_part_ts(s, y, m, d, pt, t),
    ensures
        part_ts(s, y, m, d, pt) == t,
{
    let t2 = choose|t2: int| is_min_part_ts(s, y, m, d, pt, t2);
    assert(is_min_part_ts(s, y, m, d, pt, t2));
    assert(t2 >= t);
    assert(t >= t2);
}

/// A finite collection in which the member completed the part has an
/// earliest completion of it.
pub proof fn lemma_min_part_ts_exists(s: Set<EntryV>, y: int, m: MemberV, d: int, pt: ProblemPart)
    requires
        s.finite(),
        has_part(s, y, m, d, pt),
    ensures
        is_min_part_ts(s, y, m, d, pt, part_ts(s, y, m, d, pt)),
    decreases s.len(),
{
    let w = choose|e: EntryV| #[trigger] s.contains(e) && in_member_day_part(y, m, d, pt)(e);
    let rest = s.remove(w);
    if has_part(rest, y, m, d, pt) {
        lemma_min_part_ts_exists(rest, y, m, d, pt);
        let tr = part_ts(rest, y, m, d, pt);
        let t = if w.timestamp < tr {
            w.timestamp
        } else {
            tr
        };
        assert(is_min_part_ts(s, y, m, d, pt, t)) by {
            let wr = choose|e: EntryV|
                #[trigger] rest.contains(e) && in_member_day_part(y, m, d, pt)(e) && e.timestamp
                    == tr;
            assert forall|e: EntryV|
                #[trigger] s.contains(e) && in_member_day_part(y, m, d, pt)(
                    e,
                ) implies e.timestamp >= t by {
                if e != w {
                    assert(rest.contains(e));
                }
            }
        }
        lemma_min_part_ts_unique(s, y, m, d, pt, t);
    } else {
        assert(is_min_part_ts(s, y, m, d, pt, w.timestamp)) by {
            assert forall|e: EntryV|
                #[trigger] s.contains(e) && in_member_day_part(y, m, d, pt)(
                    e,
                ) implies e.timestamp >= w.timestamp by {
                if e != w {
                    assert(rest.contains(e));
                }
            }
        }
        lemma_min_part_ts_unique(s, y, m, d, pt, w.timestamp);
    }
}

/// Whether a member completed both parts of a day (and so has a delta).
pub open spec fn has_delta(s: Set<EntryV>, y: int, m: MemberV, d: int) -> bool {
    has_part(s, y, m, d, ProblemPart::FIRST) && has_part(s, y, m, d, ProblemPart::SECOND)
}

/// Time between the earliest completions of the two parts of a day.
pub open spec fn delta_of(s: Set<EntryV>, y: int, m: MemberV, d: int) -> int {
    part_ts(s, y, m, d, ProblemPart::SECOND) - part_ts(s, y, m, d, ProblemPart::FIRST)
}

/// Time from the puzzle's release to the member's full (part two) solve.
pub open spec fn p2_solve_time(s: Set<EntryV>, y: int, m: MemberV, d: int) -> int {
    part_ts(s, y, m, d, ProblemPart::SECOND) - release_ts(y, d)
}

/// The time one day charges to the cumulative-time classification: the full
/// solve time, but never more than the unfinished-day penalty.
pub open spec fn yellow_charge(s: Set<EntryV>, y: int, m: MemberV, d: int) -> int {
    if p2_solve_time(s, y, m, d) <= PENALTY_UNFINISHED_DAY {
        p2_solve_time(s, y, m, d)
    } else {
        PENALTY_UNFINISHED_DAY as int
    }
}

/// Cumulative charged time over days 1 through `d`: the capped solve time
/// for a completed day, the full penalty for an uncompleted one.
pub open spec fn yellow_through(s: Set<EntryV>, y: int, m: MemberV, d: int) -> int
    decreases d,
{
    if d <= 0 {
        0
    } else {
        yellow_through(s, y, m, d - 1) + (if has_part(s, y, m, d, ProblemPart::SECOND) {
            yellow_charge(s, y, m, d)
        } else {
            PENALTY_UNFINISHED_DAY as int
        })
    }
}

/// How many of days 1 through `d` the member left without a part-two solve.
pub open spec fn incomplete_through(s: Set<EntryV>, y: int, m: MemberV, d: int) -> int
    decreases d,
{
    if d <= 0 {
        0
    } else {
        incomplete_through(s, y, m, d - 1) + (if has_part(s, y, m, d, ProblemPart::SECOND) {
            0int
        } else {
            1int
        })
    }
}

/// How many days are chargeable: up to the current day in the running year,
/// all 25 for a past one.
pub open spec fn chargeable_days(y: int, now_year: int, now_day: int) -> int {
    if y == now_year {
        if now_day <= 25 {
            now_day
        } else {
            25
        }
    } else {
        25
    }
}

/// Deadline margin: how long before the next day's release the member's full
/// solve landed.
pub open spec fn remaining_of(s: Set<EntryV>, y: int, m: MemberV, d: int) -> int {
    release_ts(y, d) + 86400 - part_ts(s, y, m, d, ProblemPart::SECOND)
}

/// Whether a day counts for the urgency classification: part two solved,
/// and before the deadline.
pub open spec fn comb_counted(s: Set<EntryV>, y: int, m: MemberV, d: int) -> bool {
    has_part(s, y, m, d, ProblemPart::SECOND) && remaining_of(s, y, m, d) > 0
}

/// Urgency points one day awards.
pub open spec fn comb_day_points(s: Set<EntryV>, y: int, m: MemberV, d: int) -> int {
    if comb_counted(s, y, m, d) {
        spec_combative_points(remaining_of(s, y, m, d) / 60)
    } else {
        0
    }
}

/// Urgency points over days 1 through `d`.
pub open spec fn comb_total_through(s: Set<EntryV>, y: int, m: MemberV, d: int) -> int
    decreases d,
{
    if d <= 0 {
        0
    } else {
        comb_total_through(s, y, m, d - 1) + comb_day_points(s, y, m, d)
    }
}

/// Days among 1 through `d` that awarded urgency points.
pub open spec fn comb_days_through(s: Set<EntryV>, y: int, m: MemberV, d: int) -> int
    decreases d,
{
    if d <= 0 {
        0
    } else {
        comb_days_through(s, y, m, d - 1) + (if comb_day_points(s, y, m, d) > 0 {
            1int
        } else {
            0int
        })
    }
}

/// The members a day's delta ranking places before `m`: a smaller delta, or
/// the same delta and the earlier member order.
pub open spec fn green_prev(s: Set<EntryV>, y: int, d: int, m: MemberV) -> spec_fn(
    MemberV,
) -> bool {
    |m2: MemberV|
        has_delta(s, y, m2, d) && (delta_of(s, y, m2, d) < delta_of(s, y, m, d) || (delta_of(
            s,
            y,
            m2,
            d,
        ) == delta_of(s, y, m, d) && member_lt(m2, m)))
}

/// A member's position in a day's delta ranking (0 for the smallest delta).
pub open spec fn green_rank(s: Set<EntryV>, y: int, d: int, m: MemberV) -> int {
    year_members(s, y).filter(green_prev(s, y, d, m)).len() as int
}

/// The fixed descending points handed to the first fifteen of a day's delta
/// ranking.
pub open spec fn green_points_table(r: int) -> int {
    if r == 0 {
        50
    } else if r == 1 {
        30
    } else if r == 2 {
        20
    } else if r == 3 {
        18
    } else if r == 4 {
        16
    } else if r == 5 {
        14
    } else if r == 6 {
        12
    } else if r == 7 {
        10
    } else if r == 8 {
        8
    } else if r == 9 {
        7
    } else if r == 10 {
        6
    } else if r == 11 {
        5
    } else if r == 12 {
        4
    } else if r == 13 {
        3
    } else if r == 14 {
        2
    } else {
        0
    }
}

/// Delta points one day awards a member.
pub open spec fn green_day_points(s: Set<EntryV>, y: int, m: MemberV, d: int) -> int {
    if has_delta(s, y, m, d) {
        green_points_table(green_rank(s, y, d, m))
    } else {
        0
    }
}

/// Delta points over days 1 through `d`.
pub open spec fn green_total_through(s: Set<EntryV>, y: int, m: MemberV, d: int) -> int
    decreases d,
{
    if d <= 0 {
        0
    } else {
        green_total_through(s, y, m, d - 1) + green_day_points(s, y, m, d)
    }
}

/// Days among 1 through `d` that awarded delta points.
pub open spec fn green_days_through(s: Set<EntryV>, y: int, m: MemberV, d: int) -> int
    decreases d,
{
    if d <= 0 {
        0
    } else {
        green_days_through(s, y, m, d - 1) + (if green_day_points(s, y, m, d) > 0 {
            1int
        } else {
            0int
        })
    }
}

/// Whether one day feeds a classification for a member.
pub open spec fn tdf_day_hit(s: Set<EntryV>, jersey: Jersey, y: int, m: MemberV, d: int) -> bool {
    match jersey {
        Jersey::YELLOW => has_part(s, y, m, d, ProblemPart::SECOND),
        Jersey::GREEN => green_day_points(s, y, m, d) > 0,
        Jersey::COMBATIVE => comb_counted(s, y, m, d),
    }
}

/// Which members a classification lists: anyone with at least one day that
/// feeds it.
pub open spec fn tdf_eligible(s: Set<EntryV>, jersey: Jersey, y: int, m: MemberV) -> bool {
    exists|d: int| 1 <= d <= 25 && #[trigger] tdf_day_hit(s, jersey, y, m, d)
}

/// What one classification line holds for its member.
pub open spec fn tdf_row_ok(
    s: Set<EntryV>,
    jersey: Jersey,
    y: int,
    nowy: int,
    nowd: int,
    row: (Identifier, i64, i64),
) -> bool {
    &&& tdf_eligible(s, jersey, y, row.0@)
    &&& match jersey {
        Jersey::YELLOW => {
            let dd = chargeable_days(y, nowy, nowd);
            row.1 == yellow_through(s, y, row.0@, dd) && row.2 == incomplete_through(
                s,
                y,
                row.0@,
                dd,
            )
        },
        Jersey::GREEN => row.1 == green_total_through(s, y, row.0@, 25) && row.2
            == green_days_through(s, y, row.0@, 25),
        Jersey::COMBATIVE => row.1 == comb_total_through(s, y, row.0@, 25) && row.2
            == comb_days_through(s, y, row.0@, 25),
    }
}

/// The components a classification is ordered by.
#[verifier::ext_equal]
pub ghost struct TdfKey {
    pub value: int,
    pub count: int,
    pub member: MemberV,
}

/// The key of a classification line.
pub open spec fn tdf_key(row: (Identifier, i64, i64)) -> TdfKey {
    TdfKey { value: row.1 as int, count: row.2 as int, member: row.0@ }
}

/// Whether the classification ranks smaller values first (cumulative time)
/// or larger ones (points).
pub open spec fn tdf_asc(jersey: Jersey) -> bool {
    jersey is YELLOW
}

/// Strict classification order: by value, then by the secondary count the
/// same way round, members as the final tie-break.
pub open spec fn tdf_before(asc: bool, a: TdfKey, b: TdfKey) -> bool {
    if asc {
        a.value < b.value || (a.value == b.value && (a.count < b.count || (a.count == b.count
            && member_lt(a.member, b.member))))
    } else {
        a.value > b.value || (a.value == b.value && (a.count > b.count || (a.count == b.count
            && member_lt(a.member, b.member))))
    }
}

/// Everything a classification's standings promise: one line per eligible
/// member, exact value and secondary count, in the classification's order.
pub open spec fn tdf_rows_ok(
    s: Set<EntryV>,
    jersey: Jersey,
    y: int,
    nowy: int,
    nowd: int,
    rows: Seq<(Identifier, i64, i64)>,
) -> bool {
    &&& forall|k: int| 0 <= k < rows.len() ==> tdf_row_ok(s, jersey, y, nowy, nowd, #[trigger] rows[k])
    &&& forall|a: int, b: int|
        0 <= a < b < rows.len() ==> tdf_before(
            tdf_asc(jersey),
            tdf_key(#[trigger] rows[a]),
            tdf_key(#[trigger] rows[b]),
        )
    &&& forall|m: MemberV|
        tdf_eligible(s, jersey, y, m) ==> exists|k: int|
            0 <= k < rows.len() && (#[trigger] rows[k]).0@ == m
}

impl Leaderboard {
    /// The earliest time at which a member completed one part of one day, if
    /// ever.
    pub fn part_min_ts(&self, year: i32, id: &Identifier, day: u8, part: ProblemPart) -> (r:
        Option<i64>)
        requires
            self.wf(),
        ensures
            r is Some <==> has_part(self@, year as int, id@, day as int, part),
            r matches Some(t) ==> t == part_ts(self@, year as int, id@, day as int, part) && 0
                <= t < 400_000_000_000,
    {
        proof {
            self.lemma_view_is_entry_seq();
        }
        let n = self.entry_count();
        let mut i: usize = 0;
        let mut found = false;
        let mut best: i64 = 0;
        while i < n
            invariant
                self.wf(),
                n == self.entry_seq().len(),
                0 <= i <= n,
                !found ==> forall|j: int|
                    0 <= j < i ==> !in_member_day_part(year as int, id@, day as int, part)(
                        #[trigger] self.entry_seq()[j],
                    ),
                found ==> exists|j: int|
                    0 <= j < i && in_member_day_part(year as int, id@, day as int, part)(
                        #[trigger] self.entry_seq()[j],
                    ) && self.entry_seq()[j].timestamp == best,
                found ==> forall|j: int|
                    0 <= j < i && in_member_day_part(year as int, id@, day as int, part)(
                        #[trigger] self.entry_seq()[j],
                    ) ==> self.entry_seq()[j].timestamp >= best,
                found ==> 0 <= best < 400_000_000_000,
            decreases n - i,
        {
            let x = self.entry_at(i);
            let hit = x.year == year && x.day == day && x.id == *id && x.part == part;
            proof {
                assert(self.entry_seq()[i as int] == x@);
                assert(hit == in_member_day_part(year as int, id@, day as int, part)(x@));
            }
            if hit {
                if !found || x.timestamp < best {
                    best = x.timestamp;
                    found = true;
                }
            }
            i += 1;
        }
        if found {
            proof {
                let sq = self.entry_seq();
                assert(is_min_part_ts(self@, year as int, id@, day as int, part, best as int))
                    by {
                    let j = choose|j: int|
                        0 <= j < n && in_member_day_part(year as int, id@, day as int, part)(
                            #[trigger] sq[j],
                        ) && sq[j].timestamp == best;
                    assert(sq.contains(sq[j]));
                    assert(self@.contains(sq[j]));
                    assert forall|e: EntryV|
                        #[trigger] self@.contains(e) && in_member_day_part(
                            year as int,
                            id@,
                            day as int,
                            part,
                        )(e) implies e.timestamp >= best by {
                        let k = choose|k: int| 0 <= k < sq.len() && sq[k] == e;
                    }
                }
                lemma_min_part_ts_unique(
                    self@,
                    year as int,
                    id@,
                    day as int,
                    part,
                    best as int,
                );
            }
            Some(best)
        } else {
            proof {
                if has_part(self@, year as int, id@, day as int, part) {
                    let e = choose|e: EntryV|
                        #[trigger] self@.contains(e) && in_member_day_part(
                            year as int,
                            id@,
                            day as int,
                            part,
                        )(e);
                    let k = choose|k: int|
                        0 <= k < self.entry_seq().len() && self.entry_seq()[k] == e;
                }
            }
            None
        }
    }

    /// The day's delta: time between the member's earliest part-one and
    /// part-two completions, when both exist.
    pub fn member_delta(&self, year: i32, id: &Identifier, day: u8) -> (r: Option<i64>)
        requires
            self.wf(),
        ensures
            r is Some <==> has_delta(self@, year as int, id@, day as int),
            r matches Some(v) ==> v == delta_of(self@, year as int, id@, day as int),
    {
        let p1 = self.part_min_ts(year, id, day, ProblemPart::FIRST);
        let p2 = self.part_min_ts(year, id, day, ProblemPart::SECOND);
        match (p1, p2) {
            (Some(a), Some(b)) => Some(b - a),
            _ => None,
        }
    }

    /// The day's deadline margin: how long before the next release the
    /// member's full solve landed, when it landed at all and in time.
    pub fn member_remaining(&self, year: i32, id: &Identifier, day: u8) -> (r: Option<i64>)
        requires
            self.wf(),
        ensures
            r is Some <==> comb_counted(self@, year as int, id@, day as int),
            r matches Some(v) ==> v == remaining_of(self@, year as int, id@, day as int) && v
                > 0,
    {
        match self.part_min_ts(year, id, day, ProblemPart::SECOND) {
            Some(t) => {
                proof {
                    self.lemma_wf_entries_valid();
                    let e = choose|e: EntryV|
                        #[trigger] self@.contains(e) && in_member_day_part(
                            year as int,
                            id@,
                            day as int,
                            ProblemPart::SECOND,
                        )(e);
                    assert(entry_valid(e));
                }
                match crate::leaderboard::Entry::puzzle_unlock(year, day) {
                    Ok(rel) => {
                        let rem = rel + 86400 - t;
                        if rem > 0 {
                            Some(rem)
                        } else {
                            None
                        }
                    },
                    Err(_) => {
                        proof {
                            assert(false);
                        }
                        None
                    },
                }
            },
            None => None,
        }
    }

    /// The day's capped full-solve time, for a day the member completed.
    fn yellow_day_charge(&self, year: i32, id: &Identifier, day: u8) -> (r: Option<i64>)
        requires
            self.wf(),
        ensures
            r is Some <==> has_part(self@, year as int, id@, day as int, ProblemPart::SECOND),
            r matches Some(v) ==> v == yellow_charge(self@, year as int, id@, day as int)
                && -400_000_000_000 < v <= PENALTY_UNFINISHED_DAY,
    {
        match self.part_min_ts(year, id, day, ProblemPart::SECOND) {
            Some(t) => {
                proof {
                    self.lemma_wf_entries_valid();
                    let e = choose|e: EntryV|
                        #[trigger] self@.contains(e) && in_member_day_part(
                            year as int,
                            id@,
                            day as int,
                            ProblemPart::SECOND,
                        )(e);
                    assert(entry_valid(e));
                }
                match crate::leaderboard::Entry::puzzle_unlock(year, day) {
                    Ok(rel) => {
                        let solve = t - rel;
                        if solve <= PENALTY_UNFINISHED_DAY {
                            Some(solve)
                        } else {
                            Some(PENALTY_UNFINISHED_DAY)
                        }
                    },
                    Err(_) => {
                        proof {
                            assert(false);
                        }
                        None
                    },
                }
            },
            None => None,
        }
    }

    /// Cumulative charged time and unfinished-day count over the first
    /// `dcount` days.
    fn yellow_totals_of(&self, year: i32, id: &Identifier, dcount: u8) -> (r: (i64, i64))
        requires
            self.wf(),
            dcount <= 25,
        ensures
            r.0 == yellow_through(self@, year as int, id@, dcount as int),
            r.1 == incomplete_through(self@, year as int, id@, dcount as int),
    {
        let mut d: u8 = 0;
        let mut total: i64 = 0;
        let mut missed: i64 = 0;
        while d < dcount
            invariant
                self.wf(),
                0 <= d <= dcount <= 25,
                total == yellow_through(self@, year as int, id@, d as int),
                missed == incomplete_through(self@, year as int, id@, d as int),
                -(d as int) * 400_000_000_000 <= total <= (d as int) * (
                PENALTY_UNFINISHED_DAY as int),
                0 <= missed <= d,
            decreases dcount - d,
        {
            match self.yellow_day_charge(year, id, d + 1) {
                Some(c) => {
                    total += c;
                },
                None => {
                    total += PENALTY_UNFINISHED_DAY;
                    missed += 1;
                },
            }
            d += 1;
        }
        (total, missed)
    }

    /// Urgency points and scoring-day count over the 25 days.
    fn comb_totals_of(&self, year: i32, id: &Identifier) -> (r: (i64, i64))
        requires
            self.wf(),
        ensures
            r.0 == comb_total_through(self@, year as int, id@, 25),
            r.1 == comb_days_through(self@, year as int, id@, 25),
    {
        let mut d: u8 = 0;
        let mut total: i64 = 0;
        let mut days: i64 = 0;
        while d < 25
            invariant
                self.wf(),
                0 <= d <= 25,
                total == comb_total_through(self@, year as int, id@, d as int),
                days == comb_days_through(self@, year as int, id@, d as int),
                0 <= total <= (d as int) * 500,
                0 <= days <= d,
            decreases 25 - d,
        {
            match self.member_remaining(year, id, d + 1) {
                Some(rem) => {
                    let minutes = rem / 60;
                    let pts = crate::decay::combative_points(minutes as u64);
                    proof {
                        crate::decay::lemma_combative_points_range(minutes as int);
                    }
                    total += pts as i64;
                    if pts > 0 {
                        days += 1;
                    }
                },
                None => {},
            }
            d += 1;
        }
        (total, days)
    }
}

pub proof fn lemma_member_push_to_set(s: Seq<MemberV>, e: MemberV)
    ensures
        s.push(e).to_set() == s.to_set().insert(e),
{
    assert(s.push(e).to_set() =~= s.to_set().insert(e)) by {
        assert forall|x: MemberV| #[trigger]
            s.push(e).to_set().contains(x) implies s.to_set().insert(e).contains(x) by {
            let i = choose|i: int| 0 <= i < s.push(e).len() && s.push(e)[i] == x;
            if i < s.len() {
                assert(s[i] == x);
            }
        }
        assert forall|x: MemberV| #[trigger]
            s.to_set().insert(e).contains(x) implies s.push(e).to_set().contains(x) by {
            if s.to_set().contains(x) {
                let i = choose|i: int| 0 <= i < s.len() && s[i] == x;
                assert(s.push(e)[i] == x);
            } else {
                assert(s.push(e)[s.len() as int] == e);
            }
        }
    }
}

proof fn lemma_member_filter_count_step(s: Seq<MemberV>, i: int, p: spec_fn(MemberV) -> bool)
    requires
        s.no_duplicates(),
        0 <= i < s.len(),
    ensures
        s.take(i).to_set().filter(p).finite(),
        s.take(i + 1).to_set().filter(p).len() == s.take(i).to_set().filter(p).len() + (
        if p(s[i]) {
            1int
        } else {
            0int
        }),
{
    broadcast use vstd::seq_lib::seq_to_set_is_finite;

    assert(s.take(i + 1) =~= s.take(i).push(s[i]));
    lemma_member_push_to_set(s.take(i), s[i]);
    let pre = s.take(i).to_set();
    assert(!pre.contains(s[i])) by {
        if pre.contains(s[i]) {
            let j = choose|j: int| 0 <= j < s.take(i).len() && s.take(i)[j] == s[i];
            assert(s[j] == s[i]);
        }
    }
    pre.lemma_len_filter(p);
    if p(s[i]) {
        assert(pre.insert(s[i]).filter(p) =~= pre.filter(p).insert(s[i]));
        assert(!pre.filter(p).contains(s[i]));
    } else {
        assert(pre.insert(s[i]).filter(p) =~= pre.filter(p));
    }
}

impl Leaderboard {
    /// Delta points a member earns for one day, counting how many members
    /// the day's delta ranking places before them.
    pub fn green_day_points_of(
        &self,
        year: i32,
        id: &Identifier,
        day: u8,
        members: &Vec<Identifier>,
    ) -> (r: u64)
        requires
            self.wf(),
            members_view(members@).to_set() == year_members(self@, year as int),
            members_view(members@).no_duplicates(),
        ensures
            r == green_day_points(self@, year as int, id@, day as int),
            r <= 50,
    {
        let my_delta = match self.member_delta(year, id, day) {
            Some(v) => v,
            None => {
                return 0;
            },
        };
        let n = members.len();
        let mut i: usize = 0;
        let mut count: usize = 0;
        proof {
            assert(members_view(members@).take(0) =~= Seq::<MemberV>::empty());
            assert(members_view(members@).take(0).to_set() =~= Set::<MemberV>::empty());
            assert(members_view(members@).take(0).to_set().filter(
                green_prev(self@, year as int, day as int, id@),
            ) =~= Set::<MemberV>::empty());
        }
        while i < n
            invariant
                self.wf(),
                n == members@.len(),
                members@.len() == members_view(members@).len(),
                0 <= i <= n,
                count <= i,
                count == members_view(members@).take(i as int).to_set().filter(
                    green_prev(self@, year as int, day as int, id@),
                ).len(),
                members_view(members@).no_duplicates(),
                has_delta(self@, year as int, id@, day as int),
                my_delta == delta_of(self@, year as int, id@, day as int),
            decreases n - i,
        {
            proof {
                lemma_member_filter_count_step(
                    members_view(members@),
                    i as int,
                    green_prev(self@, year as int, day as int, id@),
                );
            }
            let m2 = &members[i];
            let hit = match self.member_delta(year, m2, day) {
                Some(v2) => v2 < my_delta || (v2 == my_delta && member_lt_exec(m2, id)),
                None => false,
            };
            proof {
                assert(members_view(members@)[i as int] == m2@);
                assert(hit == green_prev(self@, year as int, day as int, id@)(m2@));
            }
            if hit {
                count += 1;
            }
            i += 1;
        }
        proof {
            assert(members_view(members@).take(n as int) =~= members_view(members@));
        }
        green_points_value(count)
    }

    /// Delta points and scoring-day count over the 25 days.
    fn green_totals_of(&self, year: i32, id: &Identifier, members: &Vec<Identifier>) -> (r: (
        i64,
        i64,
    ))
        requires
            self.wf(),
            members_view(members@).to_set() == year_members(self@, year as int),
            members_view(members@).no_duplicates(),
        ensures
            r.0 == green_total_through(self@, year as int, id@, 25),
            r.1 == green_days_through(self@, year as int, id@, 25),
    {
        let mut d: u8 = 0;
        let mut total: i64 = 0;
        let mut days: i64 = 0;
        while d < 25
            invariant
                self.wf(),
                members_view(members@).to_set() == year_members(self@, year as int),
                members_view(members@).no_duplicates(),
                0 <= d <= 25,
                total == green_total_through(self@, year as int, id@, d as int),
                days == green_days_through(self@, year as int, id@, d as int),
                0 <= total <= (d as int) * 50,
                0 <= days <= d,
            decreases 25 - d,
        {
            let pts = self.green_day_points_of(year, id, d + 1, members);
            total += pts as i64;
            if pts > 0 {
                days += 1;
            }
            d += 1;
        }
        (total, days)
    }

    /// Whether a classification lists this member at all.
    fn tdf_eligible_exec(
        &self,
        jersey: &Jersey,
        year: i32,
        id: &Identifier,
        members: &Vec<Identifier>,
    ) -> (r: bool)
        requires
            self.wf(),
            members_view(members@).to_set() == year_members(self@, year as int),
            members_view(members@).no_duplicates(),
        ensures
            r == tdf_eligible(self@, *jersey, year as int, id@),
    {
        let mut d: u8 = 1;
        let mut found = false;
        while d <= 25
            invariant
                self.wf(),
                members_view(members@).to_set() == year_members(self@, year as int),
                members_view(members@).no_duplicates(),
                1 <= d <= 26,
                found ==> tdf_eligible(self@, *jersey, year as int, id@),
                !found ==> forall|dd: int|
                    1 <= dd < d ==> !#[trigger] tdf_day_hit(
                        self@,
                        *jersey,
                        year as int,
                        id@,
                        dd,
                    ),
            decreases 26 - d,
        {
            let hit = match jersey {
                Jersey::YELLOW => self.part_min_ts(year, id, d, ProblemPart::SECOND).is_some(),
                Jersey::GREEN => self.green_day_points_of(year, id, d, members) > 0,
                Jersey::COMBATIVE => self.member_remaining(year, id, d).is_some(),
            };
            proof {
                assert(hit == tdf_day_hit(self@, *jersey, year as int, id@, d as int));
            }
            if hit {
                found = true;
            }
            d += 1;
        }
        found
    }
}

/// The points one position of the day's delta ranking earns.
fn green_points_value(rank: usize) -> (r: u64)
    ensures
        r == green_points_table(rank as int),
        r <= 50,
{
    if rank == 0 {
        50
    } else if rank == 1 {
        30
    } else if rank == 2 {
        20
    } else if rank == 3 {
        18
    } else if rank == 4 {
        16
    } else if rank == 5 {
        14
    } else if rank == 6 {
        12
    } else if rank == 7 {
        10
    } else if rank == 8 {
        8
    } else if rank == 9 {
        7
    } else if rank == 10 {
        6
    } else if rank == 11 {
        5
    } else if rank == 12 {
        4
    } else if rank == 13 {
        3
    } else if rank == 14 {
        2
    } else {
        0
    }
}

pub proof fn lemma_tdf_before_connex(asc: bool, a: TdfKey, b: TdfKey)
    requires
        !tdf_before(asc, a, b),
        !tdf_before(asc, b, a),
    ensures
        a.value == b.value && a.count == b.count && a.member == b.member,
{
    crate::order::lemma_member_lt_connex(a.member, b.member);
}

pub proof fn lemma_tdf_before_trans(asc: bool, a: TdfKey, b: TdfKey, c: TdfKey)
    requires
        tdf_before(asc, a, b),
        tdf_before(asc, b, c),
    ensures
        tdf_before(asc, a, c),
{
    if a.value == b.value && b.value == c.value && a.count == b.count && b.count == c.count {
        crate::order::lemma_member_lt_trans(a.member, b.member, c.member);
    }
}

/// Exec comparison deciding the classification order.
fn tdf_before_exec(asc: bool, a: &(Identifier, i64, i64), b: &(Identifier, i64, i64)) -> (r:
    bool)
    ensures
        r == tdf_before(asc, tdf_key(*a), tdf_key(*b)),
{
    if asc {
        a.1 < b.1 || (a.1 == b.1 && (a.2 < b.2 || (a.2 == b.2 && member_lt_exec(&a.0, &b.0))))
    } else {
        a.1 > b.1 || (a.1 == b.1 && (a.2 > b.2 || (a.2 == b.2 && member_lt_exec(&a.0, &b.0))))
    }
}

/// Insert a classification line into a list sorted by the classification
/// order, for a member not yet on it, keeping the list sorted.
pub fn insert_tdf_row(out: &mut Vec<(Identifier, i64, i64)>, row: (Identifier, i64, i64), asc: bool)
    requires
        forall|a: int, b: int|
            0 <= a < b < old(out)@.len() ==> tdf_before(
                asc,
                tdf_key(#[trigger] old(out)@[a]),
                tdf_key(#[trigger] old(out)@[b]),
            ),
        forall|k: int| 0 <= k < old(out)@.len() ==> (#[trigger] old(out)@[k]).0@ != row.0@,
    ensures
        exists|j: int| 0 <= j <= old(out)@.len() && final(out)@ == old(out)@.insert(j, row),
        forall|a: int, b: int|
            0 <= a < b < final(out)@.len() ==> tdf_before(
                asc,
                tdf_key(#[trigger] final(out)@[a]),
                tdf_key(#[trigger] final(out)@[b]),
            ),
{
    let n = out.len();
    let mut i: usize = 0;
    while i < n && tdf_before_exec(asc, &out[i], &row)
        invariant
            n == out@.len(),
            0 <= i <= n,
            forall|a: int|
                0 <= a < i ==> tdf_before(asc, tdf_key(#[trigger] out@[a]), tdf_key(row)),
            forall|a: int, b: int|
                0 <= a < b < out@.len() ==> tdf_before(
                    asc,
                    tdf_key(#[trigger] out@[a]),
                    tdf_key(#[trigger] out@[b]),
                ),
            forall|k: int| 0 <= k < out@.len() ==> (#[trigger] out@[k]).0@ != row.0@,
            out == old(out),
        decreases n - i,
    {
        i += 1;
    }
    proof {
        if i < n {
            if !tdf_before(asc, tdf_key(row), tdf_key(out@[i as int])) {
                lemma_tdf_before_connex(asc, tdf_key(out@[i as int]), tdf_key(row));
                assert(false);
            }
        }
    }
    out.insert(i, row);
    proof {
        let pre = old(out)@;
        assert(out@ == pre.insert(i as int, row));
        assert forall|a: int, b: int|
            0 <= a < b < out@.len() implies tdf_before(
            asc,
            tdf_key(#[trigger] out@[a]),
            tdf_key(#[trigger] out@[b]),
        ) by {
            if a < i && b == i {
            } else if a == i && b > i {
                assert(out@[b] == pre[b - 1]);
                if b - 1 > i {
                    lemma_tdf_before_trans(
                        asc,
                        tdf_key(row),
                        tdf_key(pre[i as int]),
                        tdf_key(pre[b - 1]),
                    );
                }
            } else if a < i && b > i {
                assert(out@[a] == pre[a]);
                assert(out@[b] == pre[b - 1]);
                if b - 1 == i {
                } else {
                    assert(tdf_before(asc, tdf_key(pre[a]), tdf_key(pre[b - 1])));
                }
            } else {
                assert(out@[a] == (if a < i { pre[a] } else { pre[a - 1] }));
                assert(out@[b] == (if b < i { pre[b] } else { pre[b - 1] }));
            }
        }
    }
}

/// One step of building a classification: if the member at position `j` is
/// eligible, compute their line and insert it in order.
#[verifier::rlimit(100)]
fn tdf_add_member(
    lb: &Leaderboard,
    jersey: &Jersey,
    year: i32,
    now_year: i32,
    now_day: u8,
    dcount: u8,
    members: &Vec<Identifier>,
    j: usize,
    out: &mut Vec<(Identifier, i64, i64)>,
)
    requires
        lb.wf(),
        members_view(members@).to_set() == year_members(lb@, year as int),
        members_view(members@).no_duplicates(),
        dcount as int == chargeable_days(year as int, now_year as int, now_day as int),
        dcount <= 25,
        j < members@.len(),
        forall|k: int|
            0 <= k < old(out)@.len() ==> tdf_row_ok(
                lb@,
                *jersey,
                year as int,
                now_year as int,
                now_day as int,
                #[trigger] old(out)@[k],
            ),
        forall|a: int, b: int|
            0 <= a < b < old(out)@.len() ==> tdf_before(
                tdf_asc(*jersey),
                tdf_key(#[trigger] old(out)@[a]),
                tdf_key(#[trigger] old(out)@[b]),
            ),
        forall|k: int|
            0 <= k < old(out)@.len() ==> members_view(members@).take(j as int).to_set().contains(
                (#[trigger] old(out)@[k]).0@,
            ),
        forall|q: int|
            #![trigger members@[q]]
            0 <= q < j ==> (tdf_eligible(lb@, *jersey, year as int, members@[q]@) ==> exists|k: int|
                0 <= k < old(out)@.len() && (#[trigger] old(out)@[k]).0@ == members@[q]@),
    ensures
        forall|k: int|
            0 <= k < final(out)@.len() ==> tdf_row_ok(
                lb@,
                *jersey,
                year as int,
                now_year as int,
                now_day as int,
                #[trigger] final(out)@[k],
            ),
        forall|a: int, b: int|
            0 <= a < b < final(out)@.len() ==> tdf_before(
                tdf_asc(*jersey),
                tdf_key(#[trigger] final(out)@[a]),
                tdf_key(#[trigger] final(out)@[b]),
            ),
        forall|k: int|
            0 <= k < final(out)@.len() ==> members_view(members@).take(
                j as int + 1,
            ).to_set().contains((#[trigger] final(out)@[k]).0@),
        forall|q: int|
            #![trigger members@[q]]
            0 <= q < j + 1 ==> (tdf_eligible(lb@, *jersey, year as int, members@[q]@)
                ==> exists|k: int|
                0 <= k < final(out)@.len() && (#[trigger] final(out)@[k]).0@ == members@[q]@),
{
    let id = &members[j];
    let asc = matches!(jersey, Jersey::YELLOW);
    proof {
        assert(members_view(members@)[j as int] == id@);
        assert(asc == tdf_asc(*jersey));
    }
    if lb.tdf_eligible_exec(jersey, year, id, members) {
        let vals: (i64, i64) = match jersey {
            Jersey::YELLOW => lb.yellow_totals_of(year, id, dcount),
            Jersey::GREEN => lb.green_totals_of(year, id, members),
            Jersey::COMBATIVE => lb.comb_totals_of(year, id),
        };
        let row = (id.clone(), vals.0, vals.1);
        proof {
            assert(tdf_row_ok(lb@, *jersey, year as int, now_year as int, now_day as int, row));
            let mv = members_view(members@);
            assert forall|k: int|
                0 <= k < out@.len() implies (#[trigger] out@[k]).0@ != row.0@ by {
                if out@[k].0@ == row.0@ {
                    assert(mv.take(j as int).to_set().contains(mv[j as int]));
                    let q = choose|q: int|
                        0 <= q < mv.take(j as int).len() && mv.take(j as int)[q] == mv[j as int];
                    assert(mv[q] == mv[j as int]);
                }
            }
        }
        let ghost pre = out@;
        insert_tdf_row(out, row, asc);
        proof {
            let jj = choose|jj: int|
                0 <= jj <= pre.len() && out@ == #[trigger] pre.insert(jj, row);
            assert forall|q: int|
                #![trigger members@[q]]
                0 <= q < j + 1 implies (tdf_eligible(lb@, *jersey, year as int, members@[q]@)
                ==> exists|k: int|
                0 <= k < out@.len() && (#[trigger] out@[k]).0@ == members@[q]@) by {
                if q < j {
                    if tdf_eligible(lb@, *jersey, year as int, members@[q]@) {
                        let k0 = choose|k0: int|
                            0 <= k0 < pre.len() && (#[trigger] pre[k0]).0@ == members@[q]@;
                        if k0 < jj {
                            assert(out@[k0] == pre[k0]);
                        } else {
                            assert(out@[k0 + 1] == pre[k0]);
                        }
                    }
                } else {
                    assert(out@[jj] == row);
                }
            }
            let mv = members_view(members@);
            assert(mv.take(j as int + 1) =~= mv.take(j as int).push(mv[j as int]));
            lemma_member_push_to_set(mv.take(j as int), mv[j as int]);
            assert forall|k: int|
                0 <= k < out@.len() implies mv.take(j as int + 1).to_set().contains(
                (#[trigger] out@[k]).0@,
            ) by {
                if k < jj {
                    assert(out@[k] == pre[k]);
                } else if k > jj {
                    assert(out@[k] == pre[k - 1]);
                } else {
                    assert(out@[k] == row);
                    assert(mv[j as int] == row.0@);
                }
            }
        }
    } else {
        proof {
            let mv = members_view(members@);
            assert(mv.take(j as int + 1) =~= mv.take(j as int).push(mv[j as int]));
            lemma_member_push_to_set(mv.take(j as int), mv[j as int]);
        }
    }
}

/// A standings computation scoped to one leaderboard snapshot.
pub struct Standing<'a> {
    pub leaderboard: &'a Leaderboard,
}

impl<'a> Standing<'a> {
    pub fn new(leaderboard: &'a Leaderboard) -> (r: Standing<'a>)
        ensures
            r.leaderboard == leaderboard,
    {
        Standing { leaderboard }
    }

    /// A classification's season standings as seen from the given instant
    /// (only the cumulative-time classification reads the instant, to know
    /// how many days are chargeable so far).
    #[verifier::rlimit(100)]
    pub fn tdf_season_at(&self, jersey: &Jersey, year: i32, now_year: i32, now_day: u8) -> (r:
        Vec<(Identifier, i64, i64)>)
        requires
            self.leaderboard.wf(),
        ensures
            tdf_rows_ok(
                self.leaderboard@,
                *jersey,
                year as int,
                now_year as int,
                now_day as int,
                r@,
            ),
    {
        let lb = self.leaderboard;
        let dcount: u8 = if year == now_year {
            if now_day <= 25 {
                now_day
            } else {
                25
            }
        } else {
            25
        };
        proof {
            assert(dcount as int == chargeable_days(year as int, now_year as int, now_day as int));
        }
        let members = lb.members_for_year(year);
        let n = members.len();
        let asc = matches!(jersey, Jersey::YELLOW);
        let mut out: Vec<(Identifier, i64, i64)> = Vec::new();
        let mut j: usize = 0;
        while j < n
            invariant
                lb.wf(),
                lb == self.leaderboard,
                n == members@.len(),
                members_view(members@).to_set() == year_members(lb@, year as int),
                members_view(members@).no_duplicates(),
                asc == tdf_asc(*jersey),
                dcount as int == chargeable_days(year as int, now_year as int, now_day as int),
                dcount <= 25,
                0 <= j <= n,
                forall|k: int|
                    0 <= k < out@.len() ==> tdf_row_ok(
                        lb@,
                        *jersey,
                        year as int,
                        now_year as int,
                        now_day as int,
                        #[trigger] out@[k],
                    ),
                forall|a: int, b: int|
                    0 <= a < b < out@.len() ==> tdf_before(
                        asc,
                        tdf_key(#[trigger] out@[a]),
                        tdf_key(#[trigger] out@[b]),
                    ),
                forall|k: int|
                    0 <= k < out@.len() ==> members_view(members@).take(
                        j as int,
                    ).to_set().contains((#[trigger] out@[k]).0@),
                forall|q: int|
                    #![trigger members@[q]]
                    0 <= q < j ==> (tdf_eligible(lb@, *jersey, year as int, members@[q]@)
                        ==> exists|k: int|
                        0 <= k < out@.len() && (#[trigger] out@[k]).0@ == members@[q]@),
            decreases n - j,
        {
            tdf_add_member(lb, jersey, year, now_year, now_day, dcount, &members, j, &mut out);
            j += 1;
        }
        proof {
            assert forall|m: MemberV|
                tdf_eligible(lb@, *jersey, year as int, m) implies exists|k: int|
                0 <= k < out@.len() && (#[trigger] out@[k]).0@ == m by {
                assert(year_members(lb@, year as int).contains(m)) by {
                    match jersey {
                        Jersey::YELLOW => {
                            let d = choose|d: int|
                                1 <= d <= 25 && #[trigger] has_part(
                                    lb@,
                                    year as int,
                                    m,
                                    d,
                                    ProblemPart::SECOND,
                                );
                            let e = choose|e: EntryV|
                                #[trigger] lb@.contains(e) && in_member_day_part(
                                    year as int,
                                    m,
                                    d,
                                    ProblemPart::SECOND,
                                )(e);
                            assert(crate::scores::year_entries(lb@, year as int).contains(e));
                        },
                        Jersey::GREEN => {
                            let d = choose|d: int|
                                1 <= d <= 25 && #[trigger] green_day_points(
                                    lb@,
                                    year as int,
                                    m,
                                    d,
                                ) > 0;
                            assert(has_delta(lb@, year as int, m, d));
                            let e = choose|e: EntryV|
                                #[trigger] lb@.contains(e) && in_member_day_part(
                                    year as int,
                                    m,
                                    d,
                                    ProblemPart::SECOND,
                                )(e);
                            assert(crate::scores::year_entries(lb@, year as int).contains(e));
                        },
                        Jersey::COMBATIVE => {
                            let d = choose|d: int|
                                1 <= d <= 25 && #[trigger] comb_counted(lb@, year as int, m, d);
                            let e = choose|e: EntryV|
                                #[trigger] lb@.contains(e) && in_member_day_part(
                                    year as int,
                                    m,
                                    d,
                                    ProblemPart::SECOND,
                                )(e);
                            assert(crate::scores::year_entries(lb@, year as int).contains(e));
                        },
                    }
                }
                let mv = members_view(members@);
                let q = choose|q: int| 0 <= q < mv.len() && mv[q] == m;
                assert(members@[q]@ == m);
            }
        }
        out
    }

    /// A classification's season standings right now. Only the
    /// cumulative-time classification depends on the clock; the instant the
    /// standings were computed for is reflected in the rows themselves.
    pub fn tdf_season(&self, jersey: &Jersey, year: i32) -> (r: Vec<(Identifier, i64, i64)>)
        requires
            self.leaderboard.wf(),
        ensures
            exists|nowy: int, nowd: int|
                1 <= nowd <= 31 && #[trigger] tdf_rows_ok(
                    self.leaderboard@,
                    *jersey,
                    year as int,
                    nowy,
                    nowd,
                    r@,
                ),
    {
        let (_, now_year, now_day) = crate::time::utc_now_parts();
        let r = self.tdf_season_at(jersey, year, now_year, now_day);
        proof {
            assert(1 <= now_day as int <= 31);
        }
        r
    }
}

/// Whether a member shows up in one day's time ranking of the given kind.
pub open spec fn ranking_applicable(
    s: Set<EntryV>,
    rk: Ranking,
    y: int,
    m: MemberV,
    d: int,
) -> bool {
    match rk {
        Ranking::DELTA => has_delta(s, y, m, d),
        Ranking::PART1 => has_part(s, y, m, d, ProblemPart::FIRST),
        Ranking::PART2 => has_part(s, y, m, d, ProblemPart::SECOND),
        Ranking::LIMIT => comb_counted(s, y, m, d),
    }
}

/// The time the ranking sorts a member by.
pub open spec fn ranking_time(s: Set<EntryV>, rk: Ranking, y: int, m: MemberV, d: int) -> int {
    match rk {
        Ranking::DELTA => delta_of(s, y, m, d),
        Ranking::PART1 => part_ts(s, y, m, d, ProblemPart::FIRST) - release_ts(y, d),
        Ranking::PART2 => part_ts(s, y, m, d, ProblemPart::SECOND) - release_ts(y, d),
        Ranking::LIMIT => remaining_of(s, y, m, d),
    }
}

/// What a day's time ranking promises, through a witness list of the ranked
/// members: every line carries one applicable member's name and rendered
/// time, lines rise strictly by (time, member), and every applicable member
/// of the year is on exactly one line.
pub open spec fn by_time_rows_ok(
    s: Set<EntryV>,
    rk: Ranking,
    y: int,
    d: int,
    ms: Seq<MemberV>,
    rows: Seq<(String, String)>,
) -> bool {
    &&& rows.len() == ms.len()
    &&& forall|k: int|
        #![trigger ms[k]]
        0 <= k < rows.len() ==> ranking_applicable(s, rk, y, ms[k], d) && rows[k].0@ == ms[k].name
            && rows[k].1@ == crate::text::duration_str(ranking_time(s, rk, y, ms[k], d))
    &&& forall|a: int, b: int|
        0 <= a < b < ms.len() ==> (ranking_time(s, rk, y, #[trigger] ms[a], d) < ranking_time(
            s,
            rk,
            y,
            #[trigger] ms[b],
            d,
        ) || (ranking_time(s, rk, y, ms[a], d) == ranking_time(s, rk, y, ms[b], d) && member_lt(
            ms[a],
            ms[b],
        )))
    &&& forall|m: MemberV|
        ranking_applicable(s, rk, y, m, d) && year_members(s, y).contains(m) ==> exists|k: int|
            0 <= k < ms.len() && ms[k] == m
}

/// Whether a member earns points in one day's view of a classification.
pub open spec fn points_applicable(s: Set<EntryV>, j: Jersey, y: int, m: MemberV, d: int) -> bool {
    match j {
        Jersey::YELLOW => false,
        Jersey::GREEN => has_delta(s, y, m, d) && green_rank(s, y, d, m) < 15,
        Jersey::COMBATIVE => comb_counted(s, y, m, d),
    }
}

/// The points that day's view shows for a member.
pub open spec fn points_value(s: Set<EntryV>, j: Jersey, y: int, m: MemberV, d: int) -> int {
    match j {
        Jersey::YELLOW => 0,
        Jersey::GREEN => green_points_table(green_rank(s, y, d, m)),
        Jersey::COMBATIVE => comb_day_points(s, y, m, d),
    }
}

/// The position the day's points view orders a member by: the delta rank
/// for the delta points, the deadline margin for the urgency points.
pub open spec fn points_order(s: Set<EntryV>, j: Jersey, y: int, m: MemberV, d: int) -> int {
    match j {
        Jersey::YELLOW => 0,
        Jersey::GREEN => green_rank(s, y, d, m),
        Jersey::COMBATIVE => remaining_of(s, y, m, d),
    }
}

/// What a day's points view promises, through a witness list of the scoring
/// members.
pub open spec fn by_points_rows_ok(
    s: Set<EntryV>,
    j: Jersey,
    y: int,
    d: int,
    ms: Seq<MemberV>,
    rows: Seq<(Identifier, u64)>,
) -> bool {
    &&& rows.len() == ms.len()
    &&& forall|k: int|
        #![trigger ms[k]]
        0 <= k < rows.len() ==> points_applicable(s, j, y, ms[k], d) && rows[k].0@ == ms[k]
            && rows[k].1 == points_value(s, j, y, ms[k], d)
    &&& forall|a: int, b: int|
        0 <= a < b < ms.len() ==> (points_order(s, j, y, #[trigger] ms[a], d) < points_order(
            s,
            j,
            y,
            #[trigger] ms[b],
            d,
        ) || (points_order(s, j, y, ms[a], d) == points_order(s, j, y, ms[b], d) && member_lt(
            ms[a],
            ms[b],
        )))
    &&& forall|m: MemberV|
        points_applicable(s, j, y, m, d) && year_members(s, y).contains(m) ==> exists|k: int|
            0 <= k < ms.len() && ms[k] == m
}

impl<'a> Standing<'a> {
    /// The member's ranking time of the given kind, if the member shows up
    /// in that ranking at all.
    fn ranking_time_of(&self, rk: &Ranking, year: i32, id: &Identifier, day: u8) -> (r: Option<
        i64,
    >)
        requires
            self.leaderboard.wf(),
        ensures
            r is Some <==> ranking_applicable(
                self.leaderboard@,
                *rk,
                year as int,
                id@,
                day as int,
            ),
            r matches Some(t) ==> t == ranking_time(
                self.leaderboard@,
                *rk,
                year as int,
                id@,
                day as int,
            ),
    {
        let lb = self.leaderboard;
        match rk {
            Ranking::DELTA => lb.member_delta(year, id, day),
            Ranking::PART1 => {
                match lb.part_min_ts(year, id, day, ProblemPart::FIRST) {
                    Some(t) => {
                        proof {
                            lb.lemma_wf_entries_valid();
                            let e = choose|e: EntryV|
                                #[trigger] lb@.contains(e) && in_member_day_part(
                                    year as int,
                                    id@,
                                    day as int,
                                    ProblemPart::FIRST,
                                )(e);
                            assert(entry_valid(e));
                        }
                        match crate::leaderboard::Entry::puzzle_unlock(year, day) {
                            Ok(rel) => Some(t - rel),
                            Err(_) => {
                                proof {
                                    assert(false);
                                }
                                None
                            },
                        }
                    },
                    None => None,
                }
            },
            Ranking::PART2 => {
                match lb.part_min_ts(year, id, day, ProblemPart::SECOND) {
                    Some(t) => {
                        proof {
                            lb.lemma_wf_entries_valid();
                            let e = choose|e: EntryV|
                                #[trigger] lb@.contains(e) && in_member_day_part(
                                    year as int,
                                    id@,
                                    day as int,
                                    ProblemPart::SECOND,
                                )(e);
                            assert(entry_valid(e));
                        }
                        match crate::leaderboard::Entry::puzzle_unlock(year, day) {
                            Ok(rel) => Some(t - rel),
                            Err(_) => {
                                proof {
                                    assert(false);
                                }
                                None
                            },
                        }
                    },
                    None => None,
                }
            },
            Ranking::LIMIT => lb.member_remaining(year, id, day),
        }
    }

    /// One day's time ranking: names and rendered times, fastest first.
    pub fn by_time(&self, ranking_type: &Ranking, year: i32, day: u8) -> (r: Vec<
        (String, String),
    >)
        requires
            self.leaderboard.wf(),
        ensures
            exists|ms: Seq<MemberV>|
                #[trigger] by_time_rows_ok(
                    self.leaderboard@,
                    *ranking_type,
                    year as int,
                    day as int,
                    ms,
                    r@,
                ),
    {
        let lb = self.leaderboard;
        let members = lb.members_for_year(year);
        let n = members.len();
        let mut rows: Vec<(Identifier, i64, i64)> = Vec::new();
        let mut j: usize = 0;
        while j < n
            invariant
                lb.wf(),
                lb == self.leaderboard,
                n == members@.len(),
                members_view(members@).to_set() == year_members(lb@, year as int),
                members_view(members@).no_duplicates(),
                0 <= j <= n,
                forall|k: int|
                    0 <= k < rows@.len() ==> ranking_applicable(
                        lb@,
                        *ranking_type,
                        year as int,
                        (#[trigger] rows@[k]).0@,
                        day as int,
                    ) && rows@[k].1 == ranking_time(
                        lb@,
                        *ranking_type,
                        year as int,
                        rows@[k].0@,
                        day as int,
                    ) && rows@[k].2 == 0,
                forall|a: int, b: int|
                    0 <= a < b < rows@.len() ==> tdf_before(
                        true,
                        tdf_key(#[trigger] rows@[a]),
                        tdf_key(#[trigger] rows@[b]),
                    ),
                forall|k: int|
                    0 <= k < rows@.len() ==> members_view(members@).take(
                        j as int,
                    ).to_set().contains((#[trigger] rows@[k]).0@),
                forall|q: int|
                    #![trigger members@[q]]
                    0 <= q < j ==> (ranking_applicable(
                        lb@,
                        *ranking_type,
                        year as int,
                        members@[q]@,
                        day as int,
                    ) ==> exists|k: int|
                        0 <= k < rows@.len() && (#[trigger] rows@[k]).0@ == members@[q]@),
            decreases n - j,
        {
            let id = &members[j];
            proof {
                assert(members_view(members@)[j as int] == id@);
            }
            if let Some(t) = self.ranking_time_of(ranking_type, year, id, day) {
                let row = (id.clone(), t, 0i64);
                proof {
                    let mv = members_view(members@);
                    assert forall|k: int|
                        0 <= k < rows@.len() implies (#[trigger] rows@[k]).0@ != row.0@ by {
                        if rows@[k].0@ == row.0@ {
                            assert(mv.take(j as int).to_set().contains(mv[j as int]));
                            let q = choose|q: int|
                                0 <= q < mv.take(j as int).len() && mv.take(j as int)[q]
                                    == mv[j as int];
                            assert(mv[q] == mv[j as int]);
                        }
                    }
                }
                let ghost pre = rows@;
                insert_tdf_row(&mut rows, row, true);
                proof {
                    let mv = members_view(members@);
                    let jj = choose|jj: int|
                        0 <= jj <= pre.len() && rows@ == #[trigger] pre.insert(jj, row);
                    assert(mv.take(j as int + 1) =~= mv.take(j as int).push(mv[j as int]));
                    lemma_member_push_to_set(mv.take(j as int), mv[j as int]);
                    assert forall|k: int|
                        0 <= k < rows@.len() implies mv.take(j as int + 1).to_set().contains(
                        (#[trigger] rows@[k]).0@,
                    ) by {
                        if k < jj {
                            assert(rows@[k] == pre[k]);
                        } else if k > jj {
                            assert(rows@[k] == pre[k - 1]);
                        } else {
                            assert(rows@[k] == row);
                        }
                    }
                    assert forall|q: int|
                        #![trigger members@[q]]
                        0 <= q < j + 1 implies (ranking_applicable(
                        lb@,
                        *ranking_type,
                        year as int,
                        members@[q]@,
                        day as int,
                    ) ==> exists|k: int|
                        0 <= k < rows@.len() && (#[trigger] rows@[k]).0@ == members@[q]@) by {
                        if q < j {
                            if ranking_applicable(
                                lb@,
                                *ranking_type,
                                year as int,
                                members@[q]@,
                                day as int,
                            ) {
                                let k0 = choose|k0: int|
                                    0 <= k0 < pre.len() && (#[trigger] pre[k0]).0@
                                        == members@[q]@;
                                if k0 < jj {
                                    assert(rows@[k0] == pre[k0]);
                                } else {
                                    assert(rows@[k0 + 1] == pre[k0]);
                                }
                            }
                        } else {
                            assert(rows@[jj] == row);
                        }
                    }
                }
            } else {
                proof {
                    let mv = members_view(members@);
                    assert(mv.take(j as int + 1) =~= mv.take(j as int).push(mv[j as int]));
                    lemma_member_push_to_set(mv.take(j as int), mv[j as int]);
                }
            }
            j += 1;
        }
        // render: names with their times
        let mut out: Vec<(String, String)> = Vec::new();
        let rn = rows.len();
        let mut k: usize = 0;
        while k < rn
            invariant
                rn == rows@.len(),
                0 <= k <= rn,
                out@.len() == k,
                forall|q: int|
                    0 <= q < k ==> (#[trigger] out@[q]).0@ == rows@[q].0@.name && out@[q].1@
                        == crate::text::duration_str(rows@[q].1 as int),
            decreases rn - k,
        {
            let row = &rows[k];
            out.push((row.0.name.clone(), crate::text::format_duration(row.1)));
            k += 1;
        }
        proof {
            let ghost ms = Seq::new(rows@.len(), |k: int| rows@[k].0@);
            assert forall|m: MemberV|
                ranking_applicable(lb@, *ranking_type, year as int, m, day as int)
                    && year_members(lb@, year as int).contains(m) implies exists|k: int|
                0 <= k < ms.len() && ms[k] == m by {
                let mv = members_view(members@);
                let q = choose|q: int| 0 <= q < mv.len() && mv[q] == m;
                assert(members@[q]@ == m);
                let k0 = choose|k0: int|
                    0 <= k0 < rows@.len() && (#[trigger] rows@[k0]).0@ == m;
                assert(ms[k0] == m);
            }
            assert forall|a: int, b: int|
                0 <= a < b < ms.len() implies (ranking_time(
                lb@,
                *ranking_type,
                year as int,
                #[trigger] ms[a],
                day as int,
            ) < ranking_time(lb@, *ranking_type, year as int, #[trigger] ms[b], day as int) || (
            ranking_time(lb@, *ranking_type, year as int, ms[a], day as int) == ranking_time(
                lb@,
                *ranking_type,
                year as int,
                ms[b],
                day as int,
            ) && member_lt(ms[a], ms[b]))) by {
                assert(tdf_before(true, tdf_key(rows@[a]), tdf_key(rows@[b])));
            }
            assert(by_time_rows_ok(
                lb@,
                *ranking_type,
                year as int,
                day as int,
                ms,
                out@,
            ));
        }
        out
    }

    /// One day's points view of a classification: the scoring members with
    /// the points the day hands them, in the day's ranking order.
    pub fn by_points(&self, jersey: &Jersey, year: i32, day: u8) -> (r: Vec<(Identifier, u64)>)
        requires
            self.leaderboard.wf(),
        ensures
            exists|ms: Seq<MemberV>|
                #[trigger] by_points_rows_ok(
                    self.leaderboard@,
                    *jersey,
                    year as int,
                    day as int,
                    ms,
                    r@,
                ),
    {
        let lb = self.leaderboard;
        if matches!(jersey, Jersey::YELLOW) {
            let out: Vec<(Identifier, u64)> = Vec::new();
            proof {
                let ms = Seq::<MemberV>::empty();
                assert(by_points_rows_ok(lb@, *jersey, year as int, day as int, ms, out@));
            }
            return out;
        }
        let members = lb.members_for_year(year);
        let n = members.len();
        let mut rows: Vec<(Identifier, i64, i64)> = Vec::new();
        let mut j: usize = 0;
        while j < n
            invariant
                lb.wf(),
                lb == self.leaderboard,
                !(jersey is YELLOW),
                n == members@.len(),
                members_view(members@).to_set() == year_members(lb@, year as int),
                members_view(members@).no_duplicates(),
                0 <= j <= n,
                forall|k: int|
                    0 <= k < rows@.len() ==> points_applicable(
                        lb@,
                        *jersey,
                        year as int,
                        (#[trigger] rows@[k]).0@,
                        day as int,
                    ) && rows@[k].1 == points_order(
                        lb@,
                        *jersey,
                        year as int,
                        rows@[k].0@,
                        day as int,
                    ) && rows@[k].2 == points_value(
                        lb@,
                        *jersey,
                        year as int,
                        rows@[k].0@,
                        day as int,
                    ) && 0 <= rows@[k].2 <= 500,
                forall|a: int, b: int|
                    0 <= a < b < rows@.len() ==> tdf_before(
                        true,
                        tdf_key(#[trigger] rows@[a]),
                        tdf_key(#[trigger] rows@[b]),
                    ),
                forall|k: int|
                    0 <= k < rows@.len() ==> members_view(members@).take(
                        j as int,
                    ).to_set().contains((#[trigger] rows@[k]).0@),
                forall|q: int|
                    #![trigger members@[q]]
                    0 <= q < j ==> (points_applicable(
                        lb@,
                        *jersey,
                        year as int,
                        members@[q]@,
                        day as int,
                    ) ==> exists|k: int|
                        0 <= k < rows@.len() && (#[trigger] rows@[k]).0@ == members@[q]@),
            decreases n - j,
        {
            let id = &members[j];
            proof {
                assert(members_view(members@)[j as int] == id@);
            }
            let hit: Option<(i64, u64)> = match jersey {
                Jersey::YELLOW => None,
                Jersey::GREEN => {
                    match lb.member_delta(year, id, day) {
                        Some(_) => {
                            let pts = lb.green_day_points_of(year, id, day, &members);
                            if pts > 0 {
                                let rk = lb.green_rank_of(year, id, day, &members);
                                Some((rk as i64, pts))
                            } else {
                                None
                            }
                        },
                        None => None,
                    }
                },
                Jersey::COMBATIVE => {
                    match lb.member_remaining(year, id, day) {
                        Some(rem) => {
                            let minutes = rem / 60;
                            let pts = crate::decay::combative_points(minutes as u64);
                            proof {
                                crate::decay::lemma_combative_points_range(minutes as int);
                            }
                            Some((rem, pts))
                        },
                        None => None,
                    }
                },
            };
            if let Some((key, pts)) = hit {
                let row = (id.clone(), key, pts as i64);
                proof {
                    let mv = members_view(members@);
                    assert forall|k: int|
                        0 <= k < rows@.len() implies (#[trigger] rows@[k]).0@ != row.0@ by {
                        if rows@[k].0@ == row.0@ {
                            assert(mv.take(j as int).to_set().contains(mv[j as int]));
                            let q = choose|q: int|
                                0 <= q < mv.take(j as int).len() && mv.take(j as int)[q]
                                    == mv[j as int];
                            assert(mv[q] == mv[j as int]);
                        }
                    }
                }
                let ghost pre = rows@;
                insert_tdf_row(&mut rows, row, true);
                proof {
                    let mv = members_view(members@);
                    let jj = choose|jj: int|
                        0 <= jj <= pre.len() && rows@ == #[trigger] pre.insert(jj, row);
                    assert(mv.take(j as int + 1) =~= mv.take(j as int).push(mv[j as int]));
                    lemma_member_push_to_set(mv.take(j as int), mv[j as int]);
                    assert forall|k: int|
                        0 <= k < rows@.len() implies mv.take(j as int + 1).to_set().contains(
                        (#[trigger] rows@[k]).0@,
                    ) by {
                        if k < jj {
                            assert(rows@[k] == pre[k]);
                        } else if k > jj {
                            assert(rows@[k] == pre[k - 1]);
                        } else {
                            assert(rows@[k] == row);
                        }
                    }
                    assert forall|q: int|
                        #![trigger members@[q]]
                        0 <= q < j + 1 implies (points_applicable(
                        lb@,
                        *jersey,
                        year as int,
                        members@[q]@,
                        day as int,
                    ) ==> exists|k: int|
                        0 <= k < rows@.len() && (#[trigger] rows@[k]).0@ == members@[q]@) by {
                        if q < j {
                            if points_applicable(
                                lb@,
                                *jersey,
                                year as int,
                                members@[q]@,
                                day as int,
                            ) {
                                let k0 = choose|k0: int|
                                    0 <= k0 < pre.len() && (#[trigger] pre[k0]).0@
                                        == members@[q]@;
                                if k0 < jj {
                                    assert(rows@[k0] == pre[k0]);
                                } else {
                                    assert(rows@[k0 + 1] == pre[k0]);
                                }
                            }
                        } else {
                            assert(rows@[jj] == row);
                        }
                    }
                }
            } else {
                proof {
                    let mv = members_view(members@);
                    assert(mv.take(j as int + 1) =~= mv.take(j as int).push(mv[j as int]));
                    lemma_member_push_to_set(mv.take(j as int), mv[j as int]);
                }
            }
            j += 1;
        }
        let mut out: Vec<(Identifier, u64)> = Vec::new();
        let rn = rows.len();
        let mut k: usize = 0;
        while k < rn
            invariant
                rn == rows@.len(),
                0 <= k <= rn,
                out@.len() == k,
                forall|q: int|
                    0 <= q < k ==> (#[trigger] out@[q]).0@ == rows@[q].0@ && out@[q].1
                        == rows@[q].2,
                forall|q: int| 0 <= q < rn ==> 0 <= (#[trigger] rows@[q]).2 <= 500,
            decreases rn - k,
        {
            let row = &rows[k];
            out.push((row.0.clone(), row.2 as u64));
            k += 1;
        }
        proof {
            let ghost ms = Seq::new(rows@.len(), |k: int| rows@[k].0@);
            assert forall|m: MemberV|
                points_applicable(lb@, *jersey, year as int, m, day as int) && year_members(
                    lb@,
                    year as int,
                ).contains(m) implies exists|k: int| 0 <= k < ms.len() && ms[k] == m by {
                let mv = members_view(members@);
                let q = choose|q: int| 0 <= q < mv.len() && mv[q] == m;
                assert(members@[q]@ == m);
                let k0 = choose|k0: int|
                    0 <= k0 < rows@.len() && (#[trigger] rows@[k0]).0@ == m;
                assert(ms[k0] == m);
            }
            assert forall|a: int, b: int|
                0 <= a < b < ms.len() implies (points_order(
                lb@,
                *jersey,
                year as int,
                #[trigger] ms[a],
                day as int,
            ) < points_order(lb@, *jersey, year as int, #[trigger] ms[b], day as int) || (
            points_order(lb@, *jersey, year as int, ms[a], day as int) == points_order(
                lb@,
                *jersey,
                year as int,
                ms[b],
                day as int,
            ) && member_lt(ms[a], ms[b]))) by {
                assert(tdf_before(true, tdf_key(rows@[a]), tdf_key(rows@[b])));
            }
            assert(by_points_rows_ok(lb@, *jersey, year as int, day as int, ms, out@));
        }
        out
    }
}

impl Leaderboard {
    /// A member's position in a day's delta ranking, counted directly.
    pub(crate) fn green_rank_of(
        &self,
        year: i32,
        id: &Identifier,
        day: u8,
        members: &Vec<Identifier>,
    ) -> (r: usize)
        requires
            self.wf(),
            members_view(members@).to_set() == year_members(self@, year as int),
            members_view(members@).no_duplicates(),
            has_delta(self@, year as int, id@, day as int),
        ensures
            r == green_rank(self@, year as int, day as int, id@),
    {
        let my_delta = match self.member_delta(year, id, day) {
            Some(v) => v,
            None => 0,
        };
        let n = members.len();
        let mut i: usize = 0;
        let mut count: usize = 0;
        proof {
            assert(members_view(members@).take(0) =~= Seq::<MemberV>::empty());
            assert(members_view(members@).take(0).to_set() =~= Set::<MemberV>::empty());
            assert(members_view(members@).take(0).to_set().filter(
                green_prev(self@, year as int, day as int, id@),
            ) =~= Set::<MemberV>::empty());
        }
        while i < n
            invariant
                self.wf(),
                n == members@.len(),
                members@.len() == members_view(members@).len(),
                0 <= i <= n,
                count <= i,
                count == members_view(members@).take(i as int).to_set().filter(
                    green_prev(self@, year as int, day as int, id@),
                ).len(),
                members_view(members@).no_duplicates(),
                has_delta(self@, year as int, id@, day as int),
                my_delta == delta_of(self@, year as int, id@, day as int),
            decreases n - i,
        {
            proof {
                lemma_member_filter_count_step(
                    members_view(members@),
                    i as int,
                    green_prev(self@, year as int, day as int, id@),
                );
            }
            let m2 = &members[i];
            let hit = match self.member_delta(year, m2, day) {
                Some(v2) => v2 < my_delta || (v2 == my_delta && member_lt_exec(m2, id)),
                None => false,
            };
            proof {
                assert(members_view(members@)[i as int] == m2@);
                assert(hit == green_prev(self@, year as int, day as int, id@)(m2@));
            }
            if hit {
                count += 1;
            }
            i += 1;
        }
        proof {
            assert(members_view(members@).take(n as int) =~= members_view(members@));
        }
        count
    }
}

/// Completing a previously-unfinished day never worsens the cumulative-time
/// classification: the new day's charge is capped by the penalty the day
/// cost before, and no other day's charge changes.
pub proof fn lemma_yellow_monotonic(s: Set<EntryV>, e: EntryV, y: int, m: MemberV, dcount: int)
    requires
        s.finite(),
        e.year == y,
        e.id == m,
        e.part == ProblemPart::SECOND,
        !has_part(s, y, m, e.day, ProblemPart::SECOND),
        0 <= dcount <= 25,
    ensures
        yellow_through(s.insert(e), y, m, dcount) <= yellow_through(s, y, m, dcount),
    decreases dcount,
{
    let s2 = s.insert(e);
    if dcount > 0 {
        lemma_yellow_monotonic(s, e, y, m, dcount - 1);
        let d = dcount;
        if d == e.day {
            // the day turns from a full penalty into a charge capped by it
            assert(s2.contains(e));
            assert(in_member_day_part(y, m, d, ProblemPart::SECOND)(e));
            assert(has_part(s2, y, m, d, ProblemPart::SECOND));
            assert(yellow_charge(s2, y, m, d) <= PENALTY_UNFINISHED_DAY as int);
        } else {
            // any other day's completions are untouched
            lemma_day_unchanged(s, e, y, m, d);
        }
    }
}

/// Inserting a record for another day changes nothing about this day's
/// part-two completions.
proof fn lemma_day_unchanged(s: Set<EntryV>, e: EntryV, y: int, m: MemberV, d: int)
    requires
        s.finite(),
        e.year == y,
        e.id == m,
        e.day != d,
    ensures
        has_part(s.insert(e), y, m, d, ProblemPart::SECOND) == has_part(
            s,
            y,
            m,
            d,
            ProblemPart::SECOND,
        ),
        has_part(s, y, m, d, ProblemPart::SECOND) ==> part_ts(
            s.insert(e),
            y,
            m,
            d,
            ProblemPart::SECOND,
        ) == part_ts(s, y, m, d, ProblemPart::SECOND),
{
    let s2 = s.insert(e);
    let pt = ProblemPart::SECOND;
    assert forall|x: EntryV|
        #[trigger] s2.contains(x) && in_member_day_part(y, m, d, pt)(x) implies s.contains(
        x,
    ) by {
        if x == e {
            assert(false);
        }
    }
    if has_part(s, y, m, d, pt) {
        lemma_min_part_ts_exists(s, y, m, d, pt);
        let t = part_ts(s, y, m, d, pt);
        assert(is_min_part_ts(s2, y, m, d, pt, t)) by {
            let w = choose|w: EntryV|
                #[trigger] s.contains(w) && in_member_day_part(y, m, d, pt)(w) && w.timestamp
                    == t;
            assert(s2.contains(w));
        }
        lemma_min_part_ts_unique(s2, y, m, d, pt, t);
    }
}

/// Map board lines to (member, local-score total) pairs.
fn project_totals(rows: Vec<BoardRow>) -> (r: Vec<(Identifier, u64)>)
    ensures
        r@.len() == rows@.len(),
        forall|k: int|
            0 <= k < r@.len() ==> (#[trigger] r@[k]).0@ == rows@[k].0@ && r@[k].1 == rows@[k].3,
{
    let mut out: Vec<(Identifier, u64)> = Vec::new();
    let n = rows.len();
    let mut i: usize = 0;
    while i < n
        invariant
            n == rows@.len(),
            0 <= i <= n,
            out@.len() == i,
            forall|k: int|
                0 <= k < i ==> (#[trigger] out@[k]).0@ == rows@[k].0@ && out@[k].1 == rows@[k].3,
        decreases n - i,
    {
        let row = &rows[i];
        out.push((row.0.clone(), row.3));
        i += 1;
    }
    out
}

} // verus!
