//! Statistics over one day of the externally ranked (top-100-per-part)
//! board: fastest and slowest times for each part, and the part-1 to part-2
//! deltas, with a documented deterministic estimate for members observed in
//! only one part's list.

use vstd::prelude::*;
use vstd::string::StringExecFns;

use crate::error::{BotError, BotResult};
use crate::leaderboard::{entry_valid, EntryV, Identifier, Leaderboard, MemberV, ProblemPart};
use crate::order::entry_lt;
use crate::scores::{in_member_day_part, in_star_group, members_view, year_members};
use crate::standings::{delta_of, has_delta, has_part, is_min_part_ts, part_ts};
use crate::time::release_ts;

verus! {

/// Whether any record at all exists for one part of one day.
pub open spec fn group_has(s: Set<EntryV>, y: int, d: int, p: ProblemPart) -> bool {
    exists|e: EntryV| #[trigger] s.contains(e) && in_star_group(y, d, p)(e)
}

/// `t` is the earliest timestamp in the (year, day, part) group.
pub open spec fn is_group_min_ts(s: Set<EntryV>, y: int, d: int, p: ProblemPart, t: int) -> bool {
    &&& exists|e: EntryV| #[trigger] s.contains(e) && in_star_group(y, d, p)(e) && e.timestamp == t
    &&& forall|e: EntryV| #[trigger] s.contains(e) && in_star_group(y, d, p)(e) ==> e.timestamp
        >= t
}

/// `t` is the latest timestamp in the (year, day, part) group.
pub open spec fn is_group_max_ts(s: Set<EntryV>, y: int, d: int, p: ProblemPart, t: int) -> bool {
    &&& exists|e: EntryV| #[trigger] s.contains(e) && in_star_group(y, d, p)(e) && e.timestamp == t
    &&& forall|e: EntryV| #[trigger] s.contains(e) && in_star_group(y, d, p)(e) ==> e.timestamp
        <= t
}

/// The earliest timestamp of a group (meaningful when the group is
/// nonempty).
pub open spec fn group_min_ts(s: Set<EntryV>, y: int, d: int, p: ProblemPart) -> int {
    choose|t: int| is_group_min_ts(s, y, d, p, t)
}

/// The latest timestamp of a group (meaningful when the group is nonempty).
pub open spec fn group_max_ts(s: Set<EntryV>, y: int, d: int, p: ProblemPart) -> int {
    choose|t: int| is_group_max_ts(s, y, d, p, t)
}

pub proof fn lemma_group_min_ts_unique(s: Set<EntryV>, y: int, d: int, p: ProblemPart, t: int)
    requires
        is_group_min_ts(s, y, d, p, t),
    ensures
        group_min_ts(s, y, d, p) == t,
{
    let t2 = choose|t2: int| is_group_min_ts(s, y, d, p, t2);
    assert(is_group_min_ts(s, y, d, p, t2));
    assert(t2 >= t);
    assert(t >= t2);
}

pub proof fn lemma_group_max_ts_unique(s: Set<EntryV>, y: int, d: int, p: ProblemPart, t: int)
    requires
        is_group_max_ts(s, y, d, p, t),
    ensures
        group_max_ts(s, y, d, p) == t,
{
    let t2 = choose|t2: int| is_group_max_ts(s, y, d, p, t2);
    assert(is_group_max_ts(s, y, d, p, t2));
    assert(t2 <= t);
    assert(t <= t2);
}

/// Whether a member holds any record on one day of a year.
pub open spec fn member_on_day(s: Set<EntryV>, y: int, d: int, m: MemberV) -> bool {
    has_part(s, y, m, d, ProblemPart::FIRST) || has_part(s, y, m, d, ProblemPart::SECOND)
}

/// `e` is the member's part-two record the entry order places first.
pub open spec fn is_least_p2(s: Set<EntryV>, y: int, m: MemberV, d: int, e: EntryV) -> bool {
    &&& s.contains(e)
    &&& in_member_day_part(y, m, d, ProblemPart::SECOND)(e)
    &&& forall|x: EntryV|
        #[trigger] s.contains(x) && in_member_day_part(y, m, d, ProblemPart::SECOND)(x) ==> x == e
            || entry_lt(e, x)
}

/// The member's first part-two record of the day (meaningful when one
/// exists).
pub open spec fn least_p2(s: Set<EntryV>, y: int, m: MemberV, d: int) -> EntryV {
    choose|e: EntryV| is_least_p2(s, y, m, d, e)
}

/// The rank attached to the member's first part-two record of the day.
pub open spec fn member_p2_rank(s: Set<EntryV>, y: int, m: MemberV, d: int) -> Option<int> {
    least_p2(s, y, m, d).rank
}

pub proof fn lemma_least_p2_unique(s: Set<EntryV>, y: int, m: MemberV, d: int, e: EntryV)
    requires
        is_least_p2(s, y, m, d, e),
    ensures
        least_p2(s, y, m, d) == e,
{
    let e2 = choose|e2: EntryV| is_least_p2(s, y, m, d, e2);
    assert(is_least_p2(s, y, m, d, e2));
    if e2 != e {
        assert(entry_lt(e, e2));
        assert(entry_lt(e2, e));
        crate::order::lemma_entry_lt_asymm(e, e2);
    }
}

/// The delta reported for a member of the day's board: the true part-1 to
/// part-2 delta when both parts were observed, otherwise the documented
/// one-second-biased estimate against the other part's slowest observed
/// time.
pub open spec fn delta_value(s: Set<EntryV>, y: int, d: int, m: MemberV) -> int {
    if has_delta(s, y, m, d) {
        delta_of(s, y, m, d)
    } else if has_part(s, y, m, d, ProblemPart::SECOND) {
        // entered the ranked pool only at part two: the unobserved part one
        // was at latest the slowest observed one, minus a second of bias
        part_ts(s, y, m, d, ProblemPart::SECOND) - group_max_ts(s, y, d, ProblemPart::FIRST) - 1
    } else {
        // fell out of the pool before part two: it is at least the slowest
        // observed part-two time, plus a second of bias
        group_max_ts(s, y, d, ProblemPart::SECOND) - part_ts(s, y, m, d, ProblemPart::FIRST) + 1
    }
}

/// The rank reported next to a member's delta: the part-two record's rank,
/// or the out-of-pool sentinel 101 for a member with no observed part two.
pub open spec fn delta_rank(s: Set<EntryV>, y: int, d: int, m: MemberV) -> Option<int> {
    if has_part(s, y, m, d, ProblemPart::SECOND) {
        member_p2_rank(s, y, m, d)
    } else {
        Some(101int)
    }
}

/// Whether a member's delta counts for the fastest/slowest statistics:
/// their final rank is within part two's top 100.
pub open spec fn delta_qualifies(s: Set<EntryV>, y: int, d: int, m: MemberV) -> bool {
    &&& member_on_day(s, y, d, m)
    &&& match delta_rank(s, y, d, m) {
        Some(rk) => rk <= 100,
        None => false,
    }
}

/// Fastest and slowest times of one day of a ranked board, with the delta
/// statistics restricted to members ranked within part two's top 100.
#[derive(Debug, Clone)]
pub struct LeaderboardStatistics {
    pub p1_fast: Option<i64>,
    pub p1_slow: Option<i64>,
    pub p2_fast: Option<i64>,
    pub p2_slow: Option<i64>,
    pub delta_fast: Option<(i64, Option<u8>)>,
    pub delta_slow: Option<(i64, Option<u8>)>,
}

impl Leaderboard {
    /// The earliest and latest timestamps of one (year, day, part) group, if
    /// the group has records at all.
    pub fn group_min_max_ts(&self, year: i32, day: u8, part: ProblemPart) -> (r: Option<
        (i64, i64),
    >)
        requires
            self.wf(),
        ensures
            r is Some <==> group_has(self@, year as int, day as int, part),
            r matches Some(mm) ==> mm.0 == group_min_ts(self@, year as int, day as int, part)
                && mm.1 == group_max_ts(self@, year as int, day as int, part) && 0 <= mm.0
                < 400_000_000_000 && 0 <= mm.1 < 400_000_000_000,
    {
        proof {
            self.lemma_view_is_entry_seq();
        }
        let n = self.entry_count();
        let mut i: usize = 0;
        let mut found = false;
        let mut lo: i64 = 0;
        let mut hi: i64 = 0;
        while i < n
            invariant
                self.wf(),
                n == self.entry_seq().len(),
                0 <= i <= n,
                !found ==> forall|j: int|
                    0 <= j < i ==> !in_star_group(year as int, day as int, part)(
                        #[trigger] self.entry_seq()[j],
                    ),
                found ==> exists|j: int|
                    0 <= j < i && in_star_group(year as int, day as int, part)(
                        #[trigger] self.entry_seq()[j],
                    ) && self.entry_seq()[j].timestamp == lo,
                found ==> exists|j: int|
                    0 <= j < i && in_star_group(year as int, day as int, part)(
                        #[trigger] self.entry_seq()[j],
                    ) && self.entry_seq()[j].timestamp == hi,
                found ==> forall|j: int|
                    0 <= j < i && in_star_group(year as int, day as int, part)(
                        #[trigger] self.entry_seq()[j],
                    ) ==> lo <= self.entry_seq()[j].timestamp <= hi,
                found ==> 0 <= lo < 400_000_000_000 && 0 <= hi < 400_000_000_000,
            decreases n - i,
        {
            let x = self.entry_at(i);
            let hit = x.year == year && x.day == day && x.part == part;
            proof {
                assert(self.entry_seq()[i as int] == x@);
                assert(hit == in_star_group(year as int, day as int, part)(x@));
            }
            if hit {
                if !found {
                    lo = x.timestamp;
                    hi = x.timestamp;
                    found = true;
                } else {
                    if x.timestamp < lo {
                        lo = x.timestamp;
                    }
                    if x.timestamp > hi {
                        hi = x.timestamp;
                    }
                }
            }
            i += 1;
        }
        if found {
            proof {
                let sq = self.entry_seq();
                assert(is_group_min_ts(self@, year as int, day as int, part, lo as int)) by {
                    let j = choose|j: int|
                        0 <= j < n && in_star_group(year as int, day as int, part)(
                            #[trigger] sq[j],
                        ) && sq[j].timestamp == lo;
                    assert(sq.contains(sq[j]));
                    assert forall|e: EntryV|
                        #[trigger] self@.contains(e) && in_star_group(
                            year as int,
                            day as int,
                            part,
                        )(e) implies e.timestamp >= lo by {
                        let k = choose|k: int| 0 <= k < sq.len() && sq[k] == e;
                    }
                }
                assert(is_group_max_ts(self@, year as int, day as int, part, hi as int)) by {
                    let j = choose|j: int|
                        0 <= j < n && in_star_group(year as int, day as int, part)(
                            #[trigger] sq[j],
                        ) && sq[j].timestamp == hi;
                    assert(sq.contains(sq[j]));
                    assert forall|e: EntryV|
                        #[trigger] self@.contains(e) && in_star_group(
                            year as int,
                            day as int,
                            part,
                        )(e) implies e.timestamp <= hi by {
                        let k = choose|k: int| 0 <= k < sq.len() && sq[k] == e;
                    }
                }
                lemma_group_min_ts_unique(self@, year as int, day as int, part, lo as int);
                lemma_group_max_ts_unique(self@, year as int, day as int, part, hi as int);
            }
            Some((lo, hi))
        } else {
            proof {
                if group_has(self@, year as int, day as int, part) {
                    let e = choose|e: EntryV|
                        #[trigger] self@.contains(e) && in_star_group(
                            year as int,
                            day as int,
                            part,
                        )(e);
                    let k = choose|k: int|
                        0 <= k < self.entry_seq().len() && self.entry_seq()[k] == e;
                }
            }
            None
        }
    }

    /// The member's first part-two record of the day: its timestamp and the
    /// rank it carried.
    fn least_p2_of(&self, year: i32, id: &Identifier, day: u8) -> (r: Option<(i64, Option<u8>)>)
        requires
            self.wf(),
        ensures
            r is Some <==> has_part(self@, year as int, id@, day as int, ProblemPart::SECOND),
            r is Some ==> is_least_p2(
                self@,
                year as int,
                id@,
                day as int,
                least_p2(self@, year as int, id@, day as int),
            ),
            r matches Some(v) ==> v.0 == least_p2(self@, year as int, id@, day as int).timestamp
                && 0 <= v.0 < 400_000_000_000 && (match (v.1, member_p2_rank(
                self@,
                year as int,
                id@,
                day as int,
            )) {
                (Some(a), Some(b)) => a == b,
                (None, None) => true,
                _ => false,
            }),
    {
        proof {
            self.lemma_view_is_entry_seq();
        }
        let n = self.entry_count();
        let mut i: usize = 0;
        let mut best: Option<(i64, Option<u8>)> = None;
        let ghost mut best_j: int = 0;
        while i < n
            invariant
                self.wf(),
                n == self.entry_seq().len(),
                0 <= i <= n,
                best is None ==> forall|j: int|
                    0 <= j < i ==> !in_member_day_part(
                        year as int,
                        id@,
                        day as int,
                        ProblemPart::SECOND,
                    )(#[trigger] self.entry_seq()[j]),
                best matches Some(v) ==> 0 <= best_j < i && in_member_day_part(
                    year as int,
                    id@,
                    day as int,
                    ProblemPart::SECOND,
                )(self.entry_seq()[best_j]) && v.0 == self.entry_seq()[best_j].timestamp && 0
                    <= v.0 < 400_000_000_000 && (
                match (v.1, self.entry_seq()[best_j].rank) {
                    (Some(a), Some(b)) => a as int == b,
                    (None, None) => true,
                    _ => false,
                }),
                best is Some ==> forall|j: int|
                    0 <= j < i && in_member_day_part(
                        year as int,
                        id@,
                        day as int,
                        ProblemPart::SECOND,
                    )(#[trigger] self.entry_seq()[j]) ==> (self.entry_seq()[j]
                        == self.entry_seq()[best_j] || entry_lt(
                        self.entry_seq()[best_j],
                        self.entry_seq()[j],
                    )),
            decreases n - i,
        {
            let x = self.entry_at(i);
            let hit = x.year == year && x.day == day && x.id == *id && matches!(
                x.part,
                ProblemPart::SECOND,
            );
            proof {
                assert(self.entry_seq()[i as int] == x@);
                assert(hit == in_member_day_part(
                    year as int,
                    id@,
                    day as int,
                    ProblemPart::SECOND,
                )(x@));
            }
            if hit {
                let replace = match best {
                    None => true,
                    Some(b) => x.timestamp < b.0 || (x.timestamp == b.0 && rank_lt_exec(
                        x.rank,
                        b.1,
                    )),
                };
                proof {
                    if best is Some && replace {
                        // the new record precedes the held one, and so by
                        // transitivity every record seen so far
                        assert(entry_lt(x@, self.entry_seq()[best_j]));
                        assert forall|j: int|
                            0 <= j < i && in_member_day_part(
                                year as int,
                                id@,
                                day as int,
                                ProblemPart::SECOND,
                            )(#[trigger] self.entry_seq()[j]) implies (self.entry_seq()[j] == x@
                            || entry_lt(x@, self.entry_seq()[j])) by {
                            if self.entry_seq()[j] != self.entry_seq()[best_j] {
                                crate::order::lemma_entry_lt_trans(
                                    x@,
                                    self.entry_seq()[best_j],
                                    self.entry_seq()[j],
                                );
                            }
                        }
                    }
                    if best is Some && !replace {
                        let b = self.entry_seq()[best_j];
                        if x@ != b {
                            assert(entry_lt(b, x@));
                        }
                    }
                }
                if replace {
                    best = Some((x.timestamp, x.rank));
                    proof {
                        best_j = i as int;
                    }
                }
            }
            i += 1;
        }
        if best.is_some() {
            proof {
                let sq = self.entry_seq();
                let b = sq[best_j];
                assert(self@.contains(b)) by {
                    assert(sq.contains(b));
                }
                assert(is_least_p2(self@, year as int, id@, day as int, b)) by {
                    assert forall|e: EntryV|
                        #[trigger] self@.contains(e) && in_member_day_part(
                            year as int,
                            id@,
                            day as int,
                            ProblemPart::SECOND,
                        )(e) implies e == b || entry_lt(b, e) by {
                        let k = choose|k: int| 0 <= k < sq.len() && sq[k] == e;
                    }
                }
                lemma_least_p2_unique(self@, year as int, id@, day as int, b);
            }
        } else {
            proof {
                if has_part(self@, year as int, id@, day as int, ProblemPart::SECOND) {
                    let e = choose|e: EntryV|
                        #[trigger] self@.contains(e) && in_member_day_part(
                            year as int,
                            id@,
                            day as int,
                            ProblemPart::SECOND,
                        )(e);
                    let k = choose|k: int|
                        0 <= k < self.entry_seq().len() && self.entry_seq()[k] == e;
                }
            }
        }
        best
    }
}

/// A part-two record that the entry order places first also carries the
/// member's earliest part-two time.
pub proof fn lemma_least_p2_min_ts(s: Set<EntryV>, y: int, m: MemberV, d: int)
    requires
        is_least_p2(s, y, m, d, least_p2(s, y, m, d)),
    ensures
        part_ts(s, y, m, d, ProblemPart::SECOND) == least_p2(s, y, m, d).timestamp,
{
    let b = least_p2(s, y, m, d);
    assert(is_min_part_ts(s, y, m, d, ProblemPart::SECOND, b.timestamp)) by {
        assert(s.contains(b) && in_member_day_part(y, m, d, ProblemPart::SECOND)(b)
            && b.timestamp == b.timestamp);
        assert forall|e: EntryV|
            #[trigger] s.contains(e) && in_member_day_part(y, m, d, ProblemPart::SECOND)(
                e,
            ) implies e.timestamp >= b.timestamp by {
            if e != b {
                assert(entry_lt(b, e));
            }
        }
    }
    crate::standings::lemma_min_part_ts_unique(s, y, m, d, ProblemPart::SECOND, b.timestamp);
}

impl Leaderboard {
    /// One member's reported delta and rank for the day; the group maxima
    /// feed the estimates for members observed in only one part.
    fn delta_row_of(&self, year: i32, id: &Identifier, day: u8, max_p1: i64, max_p2: i64) -> (r:
        (i64, Option<u8>))
        requires
            self.wf(),
            member_on_day(self@, year as int, day as int, id@),
            max_p1 == group_max_ts(self@, year as int, day as int, ProblemPart::FIRST),
            max_p2 == group_max_ts(self@, year as int, day as int, ProblemPart::SECOND),
            0 <= max_p1 < 400_000_000_000,
            0 <= max_p2 < 400_000_000_000,
        ensures
            r.0 == delta_value(self@, year as int, day as int, id@),
            match (r.1, delta_rank(self@, year as int, day as int, id@)) {
                (Some(a), Some(b)) => a as int == b,
                (None, None) => true,
                _ => false,
            },
    {
        let p1 = self.part_min_ts(year, id, day, ProblemPart::FIRST);
        let p2 = self.least_p2_of(year, id, day);
        proof {
            if p2 is Some {
                lemma_least_p2_min_ts(self@, year as int, id@, day as int);
            }
        }
        match (p1, p2) {
            (Some(a), Some(b)) => (b.0 - a, b.1),
            (None, Some(b)) => (b.0 - max_p1 - 1, b.1),
            (Some(a), None) => (max_p2 - a + 1, Some(101u8)),
            (None, None) => {
                proof {
                    assert(false);
                }
                (0, None)
            },
        }
    }

    /// The day's delta standings: one line per member observed that day,
    /// with the reported delta and rank, ordered by rising delta. Needs both
    /// parts' groups to be nonempty (otherwise the estimates have no
    /// reference point): `Compute` otherwise.
    pub fn standings_by_delta_for_year_day(&self, year: i32, day: u8) -> (r: BotResult<
        Vec<(Identifier, i64, Option<u8>)>,
    >)
        requires
            self.wf(),
        ensures
            r is Ok <==> group_has(self@, year as int, day as int, ProblemPart::FIRST)
                && group_has(self@, year as int, day as int, ProblemPart::SECOND),
            r matches Ok(rows) ==> {
                &&& forall|k: int|
                    0 <= k < rows@.len() ==> member_on_day(
                        self@,
                        year as int,
                        day as int,
                        (#[trigger] rows@[k]).0@,
                    ) && rows@[k].1 == delta_value(self@, year as int, day as int, rows@[k].0@)
                        && (match (rows@[k].2, delta_rank(
                        self@,
                        year as int,
                        day as int,
                        rows@[k].0@,
                    )) {
                        (Some(a), Some(b)) => a as int == b,
                        (None, None) => true,
                        _ => false,
                    })
                &&& forall|a: int, b: int|
                    0 <= a < b < rows@.len() ==> (#[trigger] rows@[a]).1 <= (
                    #[trigger] rows@[b]).1
                &&& forall|a: int, b: int|
                    0 <= a < b < rows@.len() ==> (#[trigger] rows@[a]).0@ != (
                    #[trigger] rows@[b]).0@
                &&& forall|m: MemberV|
                    member_on_day(self@, year as int, day as int, m) && year_members(
                        self@,
                        year as int,
                    ).contains(m) ==> exists|k: int|
                        0 <= k < rows@.len() && (#[trigger] rows@[k]).0@ == m
            },
    {
        let mm1 = self.group_min_max_ts(year, day, ProblemPart::FIRST);
        let mm2 = self.group_min_max_ts(year, day, ProblemPart::SECOND);
        let (max_p1, max_p2) = match (mm1, mm2) {
            (Some(a), Some(b)) => (a.1, b.1),
            _ => {
                return Err(BotError::Compute(String::from_str("MinMax times could not be computed")));
            },
        };
        let members = self.members_for_year(year);
        let n = members.len();
        let mut rows: Vec<(Identifier, i64, i64)> = Vec::new();
        let mut j: usize = 0;
        while j < n
            invariant
                self.wf(),
                n == members@.len(),
                members_view(members@).to_set() == year_members(self@, year as int),
                members_view(members@).no_duplicates(),
                max_p1 == group_max_ts(self@, year as int, day as int, ProblemPart::FIRST),
                max_p2 == group_max_ts(self@, year as int, day as int, ProblemPart::SECOND),
                0 <= max_p1 < 400_000_000_000,
                0 <= max_p2 < 400_000_000_000,
                0 <= j <= n,
                forall|k: int|
                    0 <= k < rows@.len() ==> member_on_day(
                        self@,
                        year as int,
                        day as int,
                        (#[trigger] rows@[k]).0@,
                    ) && rows@[k].1 == delta_value(self@, year as int, day as int, rows@[k].0@)
                        && (match (delta_rank(self@, year as int, day as int, rows@[k].0@)) {
                        Some(b) => rows@[k].2 == b && 0 <= b <= 255,
                        None => rows@[k].2 == -1,
                    }),
                forall|a: int, b: int|
                    0 <= a < b < rows@.len() ==> crate::standings::tdf_before(
                        true,
                        crate::standings::tdf_key(#[trigger] rows@[a]),
                        crate::standings::tdf_key(#[trigger] rows@[b]),
                    ),
                forall|k: int| 0 <= k < rows@.len() ==> -1 <= (#[trigger] rows@[k]).2 <= 255,
                forall|k: int|
                    0 <= k < rows@.len() ==> members_view(members@).take(
                        j as int,
                    ).to_set().contains((#[trigger] rows@[k]).0@),
                forall|q: int|
                    #![trigger members@[q]]
                    0 <= q < j ==> (member_on_day(self@, year as int, day as int, members@[q]@)
                        ==> exists|k: int|
                        0 <= k < rows@.len() && (#[trigger] rows@[k]).0@ == members@[q]@),
            decreases n - j,
        {
            let id = &members[j];
            proof {
                assert(members_view(members@)[j as int] == id@);
            }
            let on_day = self.part_min_ts(year, id, day, ProblemPart::FIRST).is_some()
                || self.part_min_ts(year, id, day, ProblemPart::SECOND).is_some();
            if on_day {
                let (v, rk) = self.delta_row_of(year, id, day, max_p1, max_p2);
                let code: i64 = match rk {
                    Some(x) => x as i64,
                    None => -1,
                };
                let row = (id.clone(), v, code);
                proof {
                    let mv = members_view(members@);
                    assert forall|k: int|
                        0 <= k < rows@.len() implies (#[trigger] rows@[k]).0@ != row.0@ by {
                        if rows@[k].0@ == row.0@ {
                            assert(mv.take(j as int).to_set().contains(mv[j as int]));
                            let q = choose|q: int|
                                0 <= q < mv.take(j as int).len() && mv.take(j as int)[q]
                                    == mv[j as int];
                            assert(mv[q] == mv[j as int]);
                        }
                    }
                }
                let ghost pre = rows@;
                crate::standings::insert_tdf_row(&mut rows, row, true);
                proof {
                    let mv = members_view(members@);
                    let jj = choose|jj: int|
                        0 <= jj <= pre.len() && rows@ == #[trigger] pre.insert(jj, row);
                    assert(mv.take(j as int + 1) =~= mv.take(j as int).push(mv[j as int]));
                    crate::standings::lemma_member_push_to_set(mv.take(j as int), mv[j as int]);
                    assert forall|k: int|
                        0 <= k < rows@.len() implies mv.take(j as int + 1).to_set().contains(
                        (#[trigger] rows@[k]).0@,
                    ) && -1 <= (#[trigger] rows@[k]).2 <= 255 by {
                        if k < jj {
                            assert(rows@[k] == pre[k]);
                        } else if k > jj {
                            assert(rows@[k] == pre[k - 1]);
                        } else {
                            assert(rows@[k] == row);
                        }
                    }
                    assert forall|q: int|
                        #![trigger members@[q]]
                        0 <= q < j + 1 implies (member_on_day(
                        self@,
                        year as int,
                        day as int,
                        members@[q]@,
                    ) ==> exists|k: int|
                        0 <= k < rows@.len() && (#[trigger] rows@[k]).0@ == members@[q]@) by {
                        if q < j {
                            if member_on_day(self@, year as int, day as int, members@[q]@) {
                                let k0 = choose|k0: int|
                                    0 <= k0 < pre.len() && (#[trigger] pre[k0]).0@
                                        == members@[q]@;
                                if k0 < jj {
                                    assert(rows@[k0] == pre[k0]);
                                } else {
                                    assert(rows@[k0 + 1] == pre[k0]);
                                }
                            }
                        } else {
                            assert(rows@[jj] == row);
                        }
                    }
                }
            } else {
                proof {
                    let mv = members_view(members@);
                    assert(mv.take(j as int + 1) =~= mv.take(j as int).push(mv[j as int]));
                    crate::standings::lemma_member_push_to_set(mv.take(j as int), mv[j as int]);
                }
            }
            j += 1;
        }
        // project the sortable rank code back to the optional rank
        let mut out: Vec<(Identifier, i64, Option<u8>)> = Vec::new();
        let rn = rows.len();
        let mut k: usize = 0;
        while k < rn
            invariant
                self.wf(),
                rn == rows@.len(),
                0 <= k <= rn,
                out@.len() == k,
                forall|q: int|
                    0 <= q < k ==> (#[trigger] out@[q]).0@ == rows@[q].0@ && out@[q].1
                        == rows@[q].1 && (out@[q].2 == (if rows@[q].2 == -1 {
                        None
                    } else {
                        Some(rows@[q].2 as u8)
                    })),
                forall|k2: int|
                    0 <= k2 < rows@.len() ==> member_on_day(
                        self@,
                        year as int,
                        day as int,
                        (#[trigger] rows@[k2]).0@,
                    ) && rows@[k2].1 == delta_value(
                        self@,
                        year as int,
                        day as int,
                        rows@[k2].0@,
                    ) && (match (delta_rank(self@, year as int, day as int, rows@[k2].0@)) {
                        Some(b) => rows@[k2].2 == b && 0 <= b <= 255,
                        None => rows@[k2].2 == -1,
                    }) && -1 <= rows@[k2].2 <= 255,
                forall|a: int, b: int|
                    0 <= a < b < rows@.len() ==> crate::standings::tdf_before(
                        true,
                        crate::standings::tdf_key(#[trigger] rows@[a]),
                        crate::standings::tdf_key(#[trigger] rows@[b]),
                    ),
                forall|m: MemberV|
                    member_on_day(self@, year as int, day as int, m) && year_members(
                        self@,
                        year as int,
                    ).contains(m) ==> exists|k2: int|
                        0 <= k2 < rows@.len() && (#[trigger] rows@[k2]).0@ == m,
            decreases rn - k,
        {
            let row = &rows[k];
            let rk: Option<u8> = if row.2 == -1 {
                None
            } else {
                proof {
                    assert(-1 <= rows@[k as int].2 <= 255);
                }
                Some(row.2 as u8)
            };
            out.push((row.0.clone(), row.1, rk));
            k += 1;
        }
        proof {
            assert forall|m: MemberV|
                member_on_day(self@, year as int, day as int, m) && year_members(
                    self@,
                    year as int,
                ).contains(m) implies exists|k2: int|
                0 <= k2 < out@.len() && (#[trigger] out@[k2]).0@ == m by {
                let mv = members_view(members@);
                let q = choose|q: int| 0 <= q < mv.len() && mv[q] == m;
                assert(members@[q]@ == m);
                let k0 = choose|k0: int|
                    0 <= k0 < rows@.len() && (#[trigger] rows@[k0]).0@ == m;
                assert(out@[k0].0@ == m);
            }
            assert forall|a: int, b: int|
                0 <= a < b < out@.len() implies (#[trigger] out@[a]).1 <= (
            #[trigger] out@[b]).1 by {
                assert(crate::standings::tdf_before(
                    true,
                    crate::standings::tdf_key(rows@[a]),
                    crate::standings::tdf_key(rows@[b]),
                ));
            }
            assert forall|a: int, b: int|
                0 <= a < b < out@.len() implies (#[trigger] out@[a]).0@ != (
            #[trigger] out@[b]).0@ by {
                assert(crate::standings::tdf_before(
                    true,
                    crate::standings::tdf_key(rows@[a]),
                    crate::standings::tdf_key(rows@[b]),
                ));
                if rows@[a].0@ == rows@[b].0@ {
                    crate::order::lemma_member_lt_irrefl(rows@[a].0@);
                }
            }
        }
        Ok(out)
    }
}

impl Leaderboard {
    /// Min and max times for both parts of one day, plus the fastest and
    /// slowest deltas among members ranked within part two's top 100.
    /// `Compute` when either part has no records yet: callers treat that as
    /// "not enough data" and poll again.
    pub fn statistics_for_year_day(&self, year: i32, day: u8) -> (r: BotResult<
        LeaderboardStatistics,
    >)
        requires
            self.wf(),
        ensures
            r is Ok <==> group_has(self@, year as int, day as int, ProblemPart::FIRST)
                && group_has(self@, year as int, day as int, ProblemPart::SECOND),
            r matches Ok(st) ==> {
                let y = year as int;
                let d = day as int;
                let rel = release_ts(y, d);
                &&& st.p1_fast == Some((group_min_ts(self@, y, d, ProblemPart::FIRST) - rel) as i64)
                &&& st.p1_slow == Some((group_max_ts(self@, y, d, ProblemPart::FIRST) - rel) as i64)
                &&& st.p2_fast == Some((group_min_ts(self@, y, d, ProblemPart::SECOND) - rel) as i64)
                &&& st.p2_slow == Some((group_max_ts(self@, y, d, ProblemPart::SECOND) - rel) as i64)
                &&& match st.delta_fast {
                    Some(v) => exists|m: MemberV|
                        #[trigger] delta_qualifies(self@, y, d, m) && v.0 == delta_value(
                            self@,
                            y,
                            d,
                            m,
                        ) && (match (v.1, delta_rank(self@, y, d, m)) {
                            (Some(a), Some(b)) => a as int == b,
                            (None, None) => true,
                            _ => false,
                        }) && (forall|m2: MemberV|
                            #[trigger] delta_qualifies(self@, y, d, m2) ==> v.0 <= delta_value(
                                self@,
                                y,
                                d,
                                m2,
                            )),
                    None => forall|m: MemberV| !#[trigger] delta_qualifies(self@, y, d, m),
                }
                &&& match st.delta_slow {
                    Some(v) => exists|m: MemberV|
                        #[trigger] delta_qualifies(self@, y, d, m) && v.0 == delta_value(
                            self@,
                            y,
                            d,
                            m,
                        ) && (match (v.1, delta_rank(self@, y, d, m)) {
                            (Some(a), Some(b)) => a as int == b,
                            (None, None) => true,
                            _ => false,
                        }) && (forall|m2: MemberV|
                            #[trigger] delta_qualifies(self@, y, d, m2) ==> v.0 >= delta_value(
                                self@,
                                y,
                                d,
                                m2,
                            )),
                    None => forall|m: MemberV| !#[trigger] delta_qualifies(self@, y, d, m),
                }
            },
    {
        let mm1 = match self.group_min_max_ts(year, day, ProblemPart::FIRST) {
            Some(v) => v,
            None => {
                return Err(
                    BotError::Compute(String::from_str("Could not retrieve minmax for part 1")),
                );
            },
        };
        let mm2 = match self.group_min_max_ts(year, day, ProblemPart::SECOND) {
            Some(v) => v,
            None => {
                return Err(
                    BotError::Compute(String::from_str("Could not retrieve minmax for part 2")),
                );
            },
        };
        proof {
            self.lemma_wf_entries_valid();
            let e = choose|e: EntryV|
                #[trigger] self@.contains(e) && in_star_group(
                    year as int,
                    day as int,
                    ProblemPart::FIRST,
                )(e);
            assert(entry_valid(e));
        }
        let rel = match crate::leaderboard::Entry::puzzle_unlock(year, day) {
            Ok(t) => t,
            Err(e) => {
                proof {
                    assert(false);
                }
                return Err(e);
            },
        };
        let rows = match self.standings_by_delta_for_year_day(year, day) {
            Ok(rows) => rows,
            Err(e) => {
                proof {
                    assert(false);
                }
                return Err(e);
            },
        };
        let rn = rows.len();
        let ghost y = year as int;
        let ghost d = day as int;
        // first qualifying line: fastest delta within part two's top 100
        let mut fast: Option<(i64, Option<u8>)> = None;
        let mut i: usize = 0;
        while i < rn && fast.is_none()
            invariant
                self.wf(),
                rn == rows@.len(),
                0 <= i <= rn,
                rows_ok(self@, y, d, rows@),
                fast is None ==> forall|j: int|
                    0 <= j < i ==> !row_qualifies(#[trigger] rows@[j]),
                fast matches Some(v) ==> exists|j: int|
                    0 <= j < i && row_qualifies(#[trigger] rows@[j]) && v.0 == rows@[j].1 && v.1
                        == rows@[j].2 && (forall|j2: int|
                        0 <= j2 < j ==> !row_qualifies(#[trigger] rows@[j2])),
            decreases rn - i,
        {
            let q = match rows[i].2 {
                Some(x) => x <= 100,
                None => false,
            };
            if q {
                fast = Some((rows[i].1, rows[i].2));
            }
            i += 1;
        }
        // last qualifying line: slowest such delta
        let mut slow: Option<(i64, Option<u8>)> = None;
        let mut k: usize = rn;
        while k > 0 && slow.is_none()
            invariant
                self.wf(),
                rn == rows@.len(),
                0 <= k <= rn,
                rows_ok(self@, y, d, rows@),
                slow is None ==> forall|j: int|
                    k <= j < rn ==> !row_qualifies(#[trigger] rows@[j]),
                slow matches Some(v) ==> exists|j: int|
                    k <= j < rn && row_qualifies(#[trigger] rows@[j]) && v.0 == rows@[j].1 && v.1
                        == rows@[j].2 && (forall|j2: int|
                        j < j2 < rn ==> !row_qualifies(#[trigger] rows@[j2])),
            decreases k,
        {
            k -= 1;
            let q = match rows[k].2 {
                Some(x) => x <= 100,
                None => false,
            };
            if q {
                slow = Some((rows[k].1, rows[k].2));
            }
        }
        proof {
            lemma_scan_results(self@, y, d, rows@, fast, slow);
        }
        Ok(
            LeaderboardStatistics {
                p1_fast: Some(mm1.0 - rel),
                p1_slow: Some(mm1.1 - rel),
                p2_fast: Some(mm2.0 - rel),
                p2_slow: Some(mm2.1 - rel),
                delta_fast: fast,
                delta_slow: slow,
            },
        )
    }
}

/// What the delta standings promise of their rows (restated so the scan
/// loops can carry it through).
pub open spec fn rows_ok(
    s: Set<EntryV>,
    y: int,
    d: int,
    rows: Seq<(Identifier, i64, Option<u8>)>,
) -> bool {
    &&& forall|k: int|
        0 <= k < rows.len() ==> member_on_day(s, y, d, (#[trigger] rows[k]).0@) && rows[k].1
            == delta_value(s, y, d, rows[k].0@) && (match (rows[k].2, delta_rank(
            s,
            y,
            d,
            rows[k].0@,
        )) {
            (Some(a), Some(b)) => a as int == b,
            (None, None) => true,
            _ => false,
        })
    &&& forall|a: int, b: int| 0 <= a < b < rows.len() ==> (#[trigger] rows[a]).1 <= (
    #[trigger] rows[b]).1
    &&& forall|m: MemberV|
        member_on_day(s, y, d, m) && year_members(s, y).contains(m) ==> exists|k: int|
            0 <= k < rows.len() && (#[trigger] rows[k]).0@ == m
}

/// Whether one line of the delta standings carries a top-100 part-two rank.
pub open spec fn row_qualifies(row: (Identifier, i64, Option<u8>)) -> bool {
    match row.2 {
        Some(x) => x <= 100,
        None => false,
    }
}

/// A member observed on a day of the year is one of the year's members.
proof fn lemma_on_day_in_year(s: Set<EntryV>, y: int, d: int, m: MemberV)
    requires
        member_on_day(s, y, d, m),
    ensures
        year_members(s, y).contains(m),
{
    if has_part(s, y, m, d, ProblemPart::FIRST) {
        let e = choose|e: EntryV|
            #[trigger] s.contains(e) && in_member_day_part(y, m, d, ProblemPart::FIRST)(e);
        assert(crate::scores::year_entries(s, y).contains(e));
    } else {
        let e = choose|e: EntryV|
            #[trigger] s.contains(e) && in_member_day_part(y, m, d, ProblemPart::SECOND)(e);
        assert(crate::scores::year_entries(s, y).contains(e));
    }
}

/// Lift the two scans' row-level results to the member-level statements the
/// statistics promise.
proof fn lemma_scan_results(
    s: Set<EntryV>,
    y: int,
    d: int,
    rows: Seq<(Identifier, i64, Option<u8>)>,
    fast: Option<(i64, Option<u8>)>,
    slow: Option<(i64, Option<u8>)>,
)
    requires
        rows_ok(s, y, d, rows),
        fast is None ==> forall|j: int| 0 <= j < rows.len() ==> !row_qualifies(#[trigger] rows[j]),
        fast matches Some(v) ==> exists|j: int|
            0 <= j < rows.len() && row_qualifies(#[trigger] rows[j]) && v.0 == rows[j].1 && v.1
                == rows[j].2 && (forall|j2: int|
                0 <= j2 < j ==> !row_qualifies(#[trigger] rows[j2])),
        slow is None ==> forall|j: int| 0 <= j < rows.len() ==> !row_qualifies(#[trigger] rows[j]),
        slow matches Some(v) ==> exists|j: int|
            0 <= j < rows.len() && row_qualifies(#[trigger] rows[j]) && v.0 == rows[j].1 && v.1
                == rows[j].2 && (forall|j2: int|
                j < j2 < rows.len() ==> !row_qualifies(#[trigger] rows[j2])),
        fast is Some <==> slow is Some,
    ensures
        match fast {
            Some(v) => exists|m: MemberV|
                #[trigger] delta_qualifies(s, y, d, m) && v.0 == delta_value(s, y, d, m) && (
                match (v.1, delta_rank(s, y, d, m)) {
                    (Some(a), Some(b)) => a as int == b,
                    (None, None) => true,
                    _ => false,
                }) && (forall|m2: MemberV|
                    #[trigger] delta_qualifies(s, y, d, m2) ==> v.0 <= delta_value(s, y, d, m2)),
            None => forall|m: MemberV| !#[trigger] delta_qualifies(s, y, d, m),
        },
        match slow {
            Some(v) => exists|m: MemberV|
                #[trigger] delta_qualifies(s, y, d, m) && v.0 == delta_value(s, y, d, m) && (
                match (v.1, delta_rank(s, y, d, m)) {
                    (Some(a), Some(b)) => a as int == b,
                    (None, None) => true,
                    _ => false,
                }) && (forall|m2: MemberV|
                    #[trigger] delta_qualifies(s, y, d, m2) ==> v.0 >= delta_value(s, y, d, m2)),
            None => forall|m: MemberV| !#[trigger] delta_qualifies(s, y, d, m),
        },
{
    assert forall|m2: MemberV| #[trigger]
        delta_qualifies(s, y, d, m2) implies exists|k: int|
        0 <= k < rows.len() && (#[trigger] rows[k]).0@ == m2 && row_qualifies(rows[k]) by {
        lemma_on_day_in_year(s, y, d, m2);
        let k = choose|k: int| 0 <= k < rows.len() && (#[trigger] rows[k]).0@ == m2;
        assert(row_qualifies(rows[k]));
    }
    match fast {
        Some(v) => {
            let j = choose|j: int|
                0 <= j < rows.len() && #[trigger] row_qualifies(rows[j]) && v.0 == rows[j].1
                    && v.1 == rows[j].2 && (forall|j2: int|
                    0 <= j2 < j ==> !row_qualifies(#[trigger] rows[j2]));
            let m = rows[j].0@;
            assert(delta_qualifies(s, y, d, m));
            assert forall|m2: MemberV| #[trigger]
                delta_qualifies(s, y, d, m2) implies v.0 <= delta_value(s, y, d, m2) by {
                let k = choose|k: int|
                    0 <= k < rows.len() && (#[trigger] rows[k]).0@ == m2 && row_qualifies(
                        rows[k],
                    );
                assert(k >= j);
                if k > j {
                    assert(rows[j].1 <= rows[k].1);
                }
            }
        },
        None => {
            assert forall|m: MemberV| !#[trigger] delta_qualifies(s, y, d, m) by {
                if delta_qualifies(s, y, d, m) {
                    let k = choose|k: int|
                        0 <= k < rows.len() && (#[trigger] rows[k]).0@ == m && row_qualifies(
                            rows[k],
                        );
                }
            }
        },
    }
    match slow {
        Some(v) => {
            let j = choose|j: int|
                0 <= j < rows.len() && #[trigger] row_qualifies(rows[j]) && v.0 == rows[j].1
                    && v.1 == rows[j].2 && (forall|j2: int|
                    j < j2 < rows.len() ==> !row_qualifies(#[trigger] rows[j2]));
            let m = rows[j].0@;
            assert(delta_qualifies(s, y, d, m));
            assert forall|m2: MemberV| #[trigger]
                delta_qualifies(s, y, d, m2) implies v.0 >= delta_value(s, y, d, m2) by {
                let k = choose|k: int|
                    0 <= k < rows.len() && (#[trigger] rows[k]).0@ == m2 && row_qualifies(
                        rows[k],
                    );
                assert(k <= j);
                if k < j {
                    assert(rows[k].1 <= rows[j].1);
                }
            }
        },
        None => {
            assert forall|m: MemberV| !#[trigger] delta_qualifies(s, y, d, m) by {
                if delta_qualifies(s, y, d, m) {
                    let k = choose|k: int|
                        0 <= k < rows.len() && (#[trigger] rows[k]).0@ == m && row_qualifies(
                            rows[k],
                        );
                }
            }
        },
    }
}

/// Exec comparison of the optional rank component of the entry order.
fn rank_lt_exec(a: Option<u8>, b: Option<u8>) -> (r: bool)
    ensures
        r == crate::order::opt_rank_lt(
            match a {
                Some(x) => Some(x as int),
                None => None,
            },
            match b {
                Some(x) => Some(x as int),
                None => None,
            },
        ),
{
    match (a, b) {
        (None, Some(_)) => true,
        (Some(x), Some(y)) => x < y,
        _ => false,
    }
}

} // verus!
