//! Cross-snapshot diffing: what changed between two polls, as one
//! structured highlight per (member, day) touched, ready for a notification
//! layer to render.

use vstd::prelude::*;

use crate::leaderboard::{Entry, EntryV, Identifier, Leaderboard, MemberV};
use crate::order::{bytes_lt, bytes_lt_exec, member_lt};
use crate::scores::{day_score, day_stars, in_member_day};
use crate::standings::{delta_of, has_delta};
use crate::text::{duration_str, format_duration};
use vstd::utf8::encode_utf8;

verus! {

/// A member's newly observed completions on one day: how many stars they
/// gained, the day's local-score change, and the part-1 to part-2 delta when
/// both parts arrived within this diff.
#[derive(Debug)]
pub struct DayHighlight {
    pub parts_duration: Vec<String>,
    pub year: i32,
    pub day: u8,
    pub n_stars: u64,
    pub name: String,
    pub numeric: u64,
    pub delta: Option<String>,
    pub new_points: u64,
}

/// The member a highlight is about.
pub open spec fn highlight_member(h: DayHighlight) -> MemberV {
    MemberV { name: h.name@, numeric: h.numeric as int }
}

/// Whether the diff holds a record for the (year, member, day) triple.
pub open spec fn touched(diff: Set<EntryV>, y: int, m: MemberV, d: int) -> bool {
    exists|e: EntryV| #[trigger] diff.contains(e) && in_member_day(y, m, d)(e)
}

/// The day's local-score gain: the new day score less the old one, floored
/// at zero for a member whose old snapshot had more.
pub open spec fn points_gain(cur: Set<EntryV>, new: Set<EntryV>, y: int, m: MemberV, d: int) -> int {
    let gain = day_score(new, y, m, d) - day_score(cur, y, m, d);
    if gain >= 0 {
        gain
    } else {
        0
    }
}

/// Everything one highlight promises, relative to the old snapshot, the new
/// one, and their diff.
pub open spec fn highlight_ok(
    cur: Set<EntryV>,
    new: Set<EntryV>,
    diff: Set<EntryV>,
    h: DayHighlight,
) -> bool {
    let m = highlight_member(h);
    let y = h.year as int;
    let d = h.day as int;
    &&& touched(diff, y, m, d)
    &&& h.n_stars == day_stars(diff, y, m, d)
    &&& h.new_points == points_gain(cur, new, y, m, d)
    &&& match h.delta {
        Some(t) => has_delta(diff, y, m, d) && t@ == duration_str(delta_of(diff, y, m, d)),
        None => !has_delta(diff, y, m, d),
    }
    &&& h.parts_duration@.len() == day_stars(new, y, m, d)
}

/// Strict order on highlights: largest score gain first, then year, day and
/// member order.
pub open spec fn highlight_before(a: DayHighlight, b: DayHighlight) -> bool {
    if a.new_points != b.new_points {
        a.new_points > b.new_points
    } else if a.year != b.year {
        a.year < b.year
    } else if a.day != b.day {
        a.day < b.day
    } else {
        member_lt(highlight_member(a), highlight_member(b))
    }
}

/// Strict order on display names: by the bytes of their UTF-8 encodings
/// (the order std gives strings). Kept opaque so that quantified contracts
/// do not unfold the encoding.
#[verifier::opaque]
pub open spec fn name_lt(a: Seq<char>, b: Seq<char>) -> bool {
    bytes_lt(encode_utf8(a), encode_utf8(b))
}

pub proof fn lemma_name_lt_connex(a: Seq<char>, b: Seq<char>)
    requires
        !name_lt(a, b),
        !name_lt(b, a),
    ensures
        a == b,
{
    reveal(name_lt);
    crate::order::lemma_bytes_lt_connex(encode_utf8(a), encode_utf8(b));
    vstd::utf8::encode_utf8_decode_utf8(a);
    vstd::utf8::encode_utf8_decode_utf8(b);
}

pub proof fn lemma_name_lt_trans(a: Seq<char>, b: Seq<char>, c: Seq<char>)
    requires
        name_lt(a, b),
        name_lt(b, c),
    ensures
        name_lt(a, c),
{
    reveal(name_lt);
    crate::order::lemma_bytes_lt_trans(encode_utf8(a), encode_utf8(b), encode_utf8(c));
}

/// Exec comparison deciding the name order.
pub fn name_lt_exec(a: &str, b: &str) -> (r: bool)
    ensures
        r == name_lt(a@, b@),
{
    let r = bytes_lt_exec(a.as_bytes(), b.as_bytes());
    proof {
        reveal(name_lt);
    }
    r
}

/// The display names recorded in a collection.
pub open spec fn entry_name() -> spec_fn(EntryV) -> Seq<char> {
    |e: EntryV| e.id.name
}

/// The set of display names recorded in a collection.
pub open spec fn names_of(s: Set<EntryV>) -> Set<Seq<char>> {
    s.map(entry_name())
}

/// A long-lived leaderboard together with the instant it was last fed.
#[derive(Debug)]
pub struct ScrapedLeaderboard {
    pub timestamp: i64,
    pub leaderboard: Leaderboard,
}

impl ScrapedLeaderboard {
    /// An empty board stamped with the current instant.
    pub fn new() -> (r: ScrapedLeaderboard)
        ensures
            r.leaderboard.wf(),
            r.leaderboard@ == Set::<EntryV>::empty(),
    {
        let (now_ts, _, _) = crate::time::utc_now_parts();
        ScrapedLeaderboard { timestamp: now_ts, leaderboard: Leaderboard::new() }
    }

    /// Fold a fresh snapshot in: union of the records, and the fresh
    /// snapshot's timestamp.
    pub fn merge_with(&mut self, other: ScrapedLeaderboard)
        requires
            old(self).leaderboard.wf(),
            other.leaderboard.wf(),
        ensures
            final(self).leaderboard.wf(),
            final(self).leaderboard@ == old(self).leaderboard@.union(other.leaderboard@),
            final(self).timestamp == other.timestamp,
    {
        self.timestamp = other.timestamp;
        self.leaderboard.merge(&other.leaderboard);
    }
}

/// Whether any record in the collection belongs to this numeric member id.
pub open spec fn has_numeric(s: Set<EntryV>, n: int) -> bool {
    exists|e: EntryV| #[trigger] s.contains(e) && e.id.numeric == n
}

impl Leaderboard {
    /// Whether some record here carries the given numeric member id.
    pub fn contains_numeric(&self, n: u64) -> (r: bool)
        requires
            self.wf(),
        ensures
            r == has_numeric(self@, n as int),
    {
        proof {
            self.lemma_view_is_entry_seq();
        }
        let cnt = self.entry_count();
        let mut i: usize = 0;
        while i < cnt
            invariant
                self.wf(),
                cnt == self.entry_seq().len(),
                0 <= i <= cnt,
                forall|j: int|
                    0 <= j < i ==> (#[trigger] self.entry_seq()[j]).id.numeric != n as int,
            decreases cnt - i,
        {
            let x = self.entry_at(i);
            if x.id.numeric == n {
                proof {
                    assert(self.entry_seq()[i as int] == x@);
                }
                return true;
            }
            i += 1;
        }
        proof {
            if has_numeric(self@, n as int) {
                let e = choose|e: EntryV| #[trigger] self@.contains(e) && e.id.numeric == n as int;
                let k = choose|k: int|
                    0 <= k < self.entry_seq().len() && self.entry_seq()[k] == e;
            }
        }
        false
    }

    /// The records held here whose member also appears (by numeric id) in
    /// the other board: used to spot roster members on the public board.
    pub fn get_common_members_with(&self, other: &Leaderboard) -> (r: Leaderboard)
        requires
            self.wf(),
            other.wf(),
        ensures
            r.wf(),
            r@ == self@.filter(|e: EntryV| has_numeric(other@, e.id.numeric)),
    {
        proof {
            self.lemma_view_is_entry_seq();
        }
        let cnt = self.entry_count();
        let mut out = Leaderboard::new();
        proof {
            assert(out@ =~= self.entry_seq().take(0).to_set().filter(
                |e: EntryV| has_numeric(other@, e.id.numeric),
            ));
        }
        let mut i: usize = 0;
        while i < cnt
            invariant
                self.wf(),
                other.wf(),
                cnt == self.entry_seq().len(),
                0 <= i <= cnt,
                out.wf(),
                out@ == self.entry_seq().take(i as int).to_set().filter(
                    |e: EntryV| has_numeric(other@, e.id.numeric),
                ),
            decreases cnt - i,
        {
            let x = self.entry_at(i);
            proof {
                assert(self.entry_seq()[i as int] == x@);
                crate::leaderboard::lemma_take_one_more_to_set(self.entry_seq(), i as int);
            }
            if other.contains_numeric(x.id.numeric) {
                let added = out.add(x.clone());
                proof {
                    assert(added is Ok) by {
                        assert(crate::leaderboard::entry_valid(x@));
                    }
                }
            }
            proof {
                assert(out@ =~= self.entry_seq().take(i as int + 1).to_set().filter(
                    |e: EntryV| has_numeric(other@, e.id.numeric),
                ));
            }
            i += 1;
        }
        proof {
            assert(self.entry_seq().take(cnt as int) =~= self.entry_seq());
            assert(out@ =~= self@.filter(|e: EntryV| has_numeric(other@, e.id.numeric)));
        }
        out
    }

    /// Whether some record here carries exactly this display name.
    pub fn contains_name(&self, name: &String) -> (r: bool)
        requires
            self.wf(),
        ensures
            r == names_of(self@).contains(name@),
    {
        proof {
            self.lemma_view_is_entry_seq();
        }
        let cnt = self.entry_count();
        let mut i: usize = 0;
        while i < cnt
            invariant
                self.wf(),
                cnt == self.entry_seq().len(),
                0 <= i <= cnt,
                forall|j: int| 0 <= j < i ==> (#[trigger] self.entry_seq()[j]).id.name != name@,
            decreases cnt - i,
        {
            let x = self.entry_at(i);
            if crate::standings::str_eq(x.id.name.as_str(), name.as_str()) {
                proof {
                    assert(self.entry_seq()[i as int] == x@);
                    assert(names_of(self@).contains(name@)) by {
                        assert(self@.contains(x@) && entry_name()(x@) == name@);
                    }
                }
                return true;
            }
            i += 1;
        }
        proof {
            if names_of(self@).contains(name@) {
                let e = choose|e: EntryV| #[trigger] self@.contains(e) && entry_name()(e) == name@;
                let k = choose|k: int|
                    0 <= k < self.entry_seq().len() && self.entry_seq()[k] == e;
            }
        }
        false
    }
}

/// The display names present in the fresh snapshot but absent from the
/// current one, each once, in rising byte order of the name. A member who
/// merely renamed themselves shows up here: diffing keys on the name.
pub fn get_new_members(cur: &Leaderboard, new: &Leaderboard) -> (r: Vec<String>)
    requires
        cur.wf(),
        new.wf(),
    ensures
        forall|i: int|
            0 <= i < r@.len() ==> names_of(new@).contains((#[trigger] r@[i])@) && !names_of(
                cur@,
            ).contains(r@[i]@),
        forall|nm: Seq<char>|
            names_of(new@).contains(nm) && !names_of(cur@).contains(nm) ==> exists|i: int|
                0 <= i < r@.len() && (#[trigger] r@[i])@ == nm,
        forall|a: int, b: int|
            0 <= a < b < r@.len() ==> name_lt((#[trigger] r@[a])@, (#[trigger] r@[b])@),
{
    proof {
        new.lemma_view_is_entry_seq();
    }
    let cnt = new.entry_count();
    let mut out: Vec<String> = Vec::new();
    let mut i: usize = 0;
    while i < cnt
        invariant
            cur.wf(),
            new.wf(),
            cnt == new.entry_seq().len(),
            0 <= i <= cnt,
            forall|k: int|
                0 <= k < out@.len() ==> names_of(new@).contains((#[trigger] out@[k])@)
                    && !names_of(cur@).contains(out@[k]@),
            forall|j: int|
                #![trigger new.entry_seq()[j]]
                0 <= j < i ==> (names_of(cur@).contains(new.entry_seq()[j].id.name) || exists|
                    k: int,
                |
                    0 <= k < out@.len() && (#[trigger] out@[k])@ == new.entry_seq()[j].id.name),
            forall|a: int, b: int|
                0 <= a < b < out@.len() ==> name_lt((#[trigger] out@[a])@, (#[trigger] out@[b])@),
        decreases cnt - i,
    {
        let x = new.entry_at(i);
        proof {
            assert(new.entry_seq()[i as int] == x@);
        }
        if !cur.contains_name(&x.id.name) {
            insert_name_sorted(&mut out, &x.id.name);
            proof {
                assert(names_of(new@).contains(x@.id.name)) by {
                    assert(new@.contains(x@) && entry_name()(x@) == x@.id.name);
                }
            }
        }
        i += 1;
    }
    proof {
        assert forall|nm: Seq<char>|
            names_of(new@).contains(nm) && !names_of(cur@).contains(nm) implies exists|i2: int|
            0 <= i2 < out@.len() && (#[trigger] out@[i2])@ == nm by {
            let e = choose|e: EntryV| #[trigger] new@.contains(e) && entry_name()(e) == nm;
            let j = choose|j: int| 0 <= j < new.entry_seq().len() && new.entry_seq()[j] == e;
        }
    }
    out
}

/// Whether a highlight is about the given (year, member, day) triple.
pub open spec fn highlight_matches(h: DayHighlight, y: int, m: MemberV, d: int) -> bool {
    h.year == y && h.day == d && highlight_member(h) == m
}

pub proof fn lemma_highlight_before_connex(a: DayHighlight, b: DayHighlight)
    requires
        !highlight_before(a, b),
        !highlight_before(b, a),
    ensures
        a.new_points == b.new_points && a.year == b.year && a.day == b.day && highlight_member(a)
            == highlight_member(b),
{
    crate::order::lemma_member_lt_connex(highlight_member(a), highlight_member(b));
}

pub proof fn lemma_highlight_before_trans(a: DayHighlight, b: DayHighlight, c: DayHighlight)
    requires
        highlight_before(a, b),
        highlight_before(b, c),
    ensures
        highlight_before(a, c),
{
    if a.new_points == b.new_points && b.new_points == c.new_points && a.year == b.year && b.year
        == c.year && a.day == b.day && b.day == c.day {
        crate::order::lemma_member_lt_trans(
            highlight_member(a),
            highlight_member(b),
            highlight_member(c),
        );
    }
}

/// Exec comparison deciding the highlight order.
fn highlight_before_exec(a: &DayHighlight, b: &DayHighlight) -> (r: bool)
    ensures
        r == highlight_before(*a, *b),
{
    proof {
        reveal(crate::order::member_lt);
    }
    if a.new_points != b.new_points {
        a.new_points > b.new_points
    } else if a.year != b.year {
        a.year < b.year
    } else if a.day != b.day {
        a.day < b.day
    } else if a.numeric != b.numeric {
        a.numeric < b.numeric
    } else {
        crate::order::bytes_lt_exec(a.name.as_str().as_bytes(), b.name.as_str().as_bytes())
    }
}

impl Leaderboard {
    /// How many records one member holds here for one day.
    pub fn count_member_day(&self, year: i32, id: &Identifier, day: u8) -> (r: u64)
        requires
            self.wf(),
        ensures
            r == day_stars(self@, year as int, id@, day as int),
    {
        proof {
            self.lemma_view_is_entry_seq();
            assert(self.entry_seq().take(0) =~= Seq::<EntryV>::empty());
            assert(self.entry_seq().take(0).to_set() =~= Set::<EntryV>::empty());
            assert(self.entry_seq().take(0).to_set().filter(
                in_member_day(year as int, id@, day as int),
            ) =~= Set::<EntryV>::empty());
        }
        let cnt = self.entry_count();
        let mut i: usize = 0;
        let mut stars: u64 = 0;
        while i < cnt
            invariant
                self.wf(),
                cnt == self.entry_seq().len(),
                0 <= i <= cnt,
                stars <= i,
                stars == self.entry_seq().take(i as int).to_set().filter(
                    in_member_day(year as int, id@, day as int),
                ).len(),
            decreases cnt - i,
        {
            proof {
                crate::scores::lemma_filter_count_step(
                    self.entry_seq(),
                    i as int,
                    in_member_day(year as int, id@, day as int),
                );
            }
            let x = self.entry_at(i);
            let hit = x.year == year && x.day == day && x.id == *id;
            proof {
                assert(self.entry_seq()[i as int] == x@);
                assert(hit == in_member_day(year as int, id@, day as int)(x@));
            }
            if hit {
                stars += 1;
            }
            i += 1;
        }
        proof {
            assert(self.entry_seq().take(cnt as int) =~= self.entry_seq());
        }
        stars
    }

    /// The durations since release of one member's records of the day, each
    /// rendered, in rising order of duration.
    fn member_day_durations(&self, year: i32, id: &Identifier, day: u8) -> (r: Vec<String>)
        requires
            self.wf(),
        ensures
            r@.len() == day_stars(self@, year as int, id@, day as int),
    {
        proof {
            self.lemma_view_is_entry_seq();
            assert(self.entry_seq().take(0) =~= Seq::<EntryV>::empty());
            assert(self.entry_seq().take(0).to_set() =~= Set::<EntryV>::empty());
            assert(self.entry_seq().take(0).to_set().filter(
                in_member_day(year as int, id@, day as int),
            ) =~= Set::<EntryV>::empty());
        }
        let cnt = self.entry_count();
        let mut durs: Vec<i64> = Vec::new();
        let mut i: usize = 0;
        while i < cnt
            invariant
                self.wf(),
                cnt == self.entry_seq().len(),
                0 <= i <= cnt,
                durs@.len() == self.entry_seq().take(i as int).to_set().filter(
                    in_member_day(year as int, id@, day as int),
                ).len(),
            decreases cnt - i,
        {
            proof {
                crate::scores::lemma_filter_count_step(
                    self.entry_seq(),
                    i as int,
                    in_member_day(year as int, id@, day as int),
                );
            }
            let x = self.entry_at(i);
            let hit = x.year == year && x.day == day && x.id == *id;
            proof {
                assert(self.entry_seq()[i as int] == x@);
                assert(hit == in_member_day(year as int, id@, day as int)(x@));
            }
            if hit {
                let rel = match crate::leaderboard::Entry::puzzle_unlock(year, day) {
                    Ok(t) => t,
                    Err(_) => {
                        proof {
                            assert(false);
                        }
                        0
                    },
                };
                let d0 = x.timestamp - rel;
                // keep the list in rising order of duration
                let mut p: usize = 0;
                let dl = durs.len();
                while p < dl && durs[p] < d0
                    invariant
                        dl == durs@.len(),
                        0 <= p <= dl,
                    decreases dl - p,
                {
                    p += 1;
                }
                durs.insert(p, d0);
            }
            i += 1;
        }
        proof {
            assert(self.entry_seq().take(cnt as int) =~= self.entry_seq());
        }
        let mut out: Vec<String> = Vec::new();
        let dn = durs.len();
        let mut k: usize = 0;
        while k < dn
            invariant
                dn == durs@.len(),
                0 <= k <= dn,
                out@.len() == k,
            decreases dn - k,
        {
            out.push(format_duration(durs[k]));
            k += 1;
        }
        out
    }
}

/// What changed between two polls: one highlight per (member, day) with
/// newly observed records, ordered by largest score gain first.
pub fn compute_highlights(current: &Leaderboard, new: &Leaderboard) -> (r: Vec<DayHighlight>)
    requires
        current.wf(),
        new.wf(),
        current.size_ok(),
        new.size_ok(),
    ensures
        forall|k: int|
            0 <= k < r@.len() ==> highlight_ok(
                current@,
                new@,
                new@.difference(current@),
                #[trigger] r@[k],
            ),
        forall|a: int, b: int|
            0 <= a < b < r@.len() ==> highlight_before(#[trigger] r@[a], #[trigger] r@[b]),
        forall|y: int, m: MemberV, d: int|
            touched(new@.difference(current@), y, m, d) ==> exists|k: int|
                0 <= k < r@.len() && highlight_matches(#[trigger] r@[k], y, m, d),
{
    let diff = new.difference(current);
    proof {
        diff.lemma_view_is_entry_seq();
    }
    let dn = diff.entry_count();
    let mut out: Vec<DayHighlight> = Vec::new();
    let mut i: usize = 0;
    while i < dn
        invariant
            current.wf(),
            new.wf(),
            current.size_ok(),
            new.size_ok(),
            diff.wf(),
            diff@ == new@.difference(current@),
            dn == diff.entry_seq().len(),
            0 <= i <= dn,
            forall|k: int|
                0 <= k < out@.len() ==> highlight_ok(current@, new@, diff@, #[trigger] out@[k]),
            forall|a: int, b: int|
                0 <= a < b < out@.len() ==> highlight_before(
                    #[trigger] out@[a],
                    #[trigger] out@[b],
                ),
            forall|j: int|
                #![trigger diff.entry_seq()[j]]
                0 <= j < i ==> exists|k: int|
                    0 <= k < out@.len() && highlight_matches(
                        #[trigger] out@[k],
                        diff.entry_seq()[j].year,
                        diff.entry_seq()[j].id,
                        diff.entry_seq()[j].day,
                    ),
        decreases dn - i,
    {
        let e = diff.entry_at(i);
        proof {
            assert(diff.entry_seq()[i as int] == e@);
        }
        if !highlight_present(&out, e) {
            let row = build_highlight(current, new, &diff, e);
            let ghost pre = out@;
            insert_highlight_sorted(&mut out, row, Ghost(e@));
            proof {
                let jj = choose|jj: int|
                    0 <= jj <= pre.len() && out@ == #[trigger] pre.insert(jj, row);
                assert forall|k: int|
                    0 <= k < out@.len() implies highlight_ok(
                    current@,
                    new@,
                    diff@,
                    #[trigger] out@[k],
                ) by {
                    if k < jj {
                        assert(out@[k] == pre[k]);
                    } else if k > jj {
                        assert(out@[k] == pre[k - 1]);
                    } else {
                        assert(out@[k] == row);
                    }
                }
                assert forall|j: int|
                    #![trigger diff.entry_seq()[j]]
                    0 <= j < i + 1 implies exists|k: int|
                    0 <= k < out@.len() && highlight_matches(
                        #[trigger] out@[k],
                        diff.entry_seq()[j].year,
                        diff.entry_seq()[j].id,
                        diff.entry_seq()[j].day,
                    ) by {
                    if j < i {
                        let k0 = choose|k0: int|
                            0 <= k0 < pre.len() && highlight_matches(
                                #[trigger] pre[k0],
                                diff.entry_seq()[j].year,
                                diff.entry_seq()[j].id,
                                diff.entry_seq()[j].day,
                            );
                        if k0 < jj {
                            assert(out@[k0] == pre[k0]);
                        } else {
                            assert(out@[k0 + 1] == pre[k0]);
                        }
                    } else {
                        assert(out@[jj] == row);
                    }
                }
            }
        } else {
            proof {
                assert(exists|k: int|
                    0 <= k < out@.len() && highlight_matches(
                        #[trigger] out@[k],
                        e@.year,
                        e@.id,
                        e@.day,
                    ));
            }
        }
        i += 1;
    }
    proof {
        assert forall|y: int, m: MemberV, d: int|
            touched(diff@, y, m, d) implies exists|k: int|
            0 <= k < out@.len() && highlight_matches(#[trigger] out@[k], y, m, d) by {
            let e = choose|e: EntryV| #[trigger] diff@.contains(e) && in_member_day(y, m, d)(e);
            let j = choose|j: int| 0 <= j < diff.entry_seq().len() && diff.entry_seq()[j] == e;
        }
    }
    out
}

/// Whether the list already holds the highlight for this record's (year,
/// member, day).
fn highlight_present(out: &Vec<DayHighlight>, e: &Entry) -> (r: bool)
    ensures
        r == exists|k: int|
            0 <= k < out@.len() && highlight_matches(#[trigger] out@[k], e@.year, e@.id, e@.day),
{
    let n = out.len();
    let mut k: usize = 0;
    while k < n
        invariant
            n == out@.len(),
            0 <= k <= n,
            forall|q: int|
                0 <= q < k ==> !highlight_matches(#[trigger] out@[q], e@.year, e@.id, e@.day),
        decreases n - k,
    {
        let h = &out[k];
        let hit = h.year == e.year && h.day == e.day && h.numeric == e.id.numeric
            && crate::standings::str_eq(h.name.as_str(), e.id.name.as_str());
        if hit {
            proof {
                assert(highlight_matches(out@[k as int], e@.year, e@.id, e@.day));
            }
            return true;
        }
        proof {
            assert(!highlight_matches(out@[k as int], e@.year, e@.id, e@.day));
        }
        k += 1;
    }
    false
}

/// Build the highlight for one record's (year, member, day).
fn build_highlight(
    current: &Leaderboard,
    new: &Leaderboard,
    diff: &Leaderboard,
    e: &Entry,
) -> (r: DayHighlight)
    requires
        current.wf(),
        new.wf(),
        current.size_ok(),
        new.size_ok(),
        diff.wf(),
        diff@ == new@.difference(current@),
        diff@.contains(e@),
    ensures
        highlight_ok(current@, new@, diff@, r),
        highlight_matches(r, e@.year, e@.id, e@.day),
{
    let year = e.year;
    let day = e.day;
    let id = &e.id;
    let stars = diff.count_member_day(year, id, day);
    let n_new = new.member_count_for_year(year);
    let n_cur = current.member_count_for_year(year);
    let ns = new.day_stars_and_score_of(year, id, day, n_new).1;
    let cs = current.day_stars_and_score_of(year, id, day, n_cur).1;
    let gain = if ns >= cs {
        ns - cs
    } else {
        0
    };
    let delta = match diff.member_delta(year, id, day) {
        Some(v) => Some(format_duration(v)),
        None => None,
    };
    let parts = new.member_day_durations(year, id, day);
    let row = DayHighlight {
        parts_duration: parts,
        year,
        day,
        n_stars: stars,
        name: id.name.clone(),
        numeric: id.numeric,
        delta,
        new_points: gain,
    };
    proof {
        assert(highlight_member(row) =~= e@.id);
        assert(touched(diff@, e@.year, e@.id, e@.day)) by {
            assert(diff@.contains(e@) && in_member_day(e@.year, e@.id, e@.day)(e@));
        }
    }
    row
}

/// Insert a highlight into a list sorted by the highlight order, for a
/// (year, member, day) not yet on it, keeping the list sorted.
fn insert_highlight_sorted(out: &mut Vec<DayHighlight>, row: DayHighlight, trip: Ghost<EntryV>)
    requires
        forall|a: int, b: int|
            0 <= a < b < old(out)@.len() ==> highlight_before(
                #[trigger] old(out)@[a],
                #[trigger] old(out)@[b],
            ),
        forall|k: int|
            0 <= k < old(out)@.len() ==> !highlight_matches(
                #[trigger] old(out)@[k],
                trip@.year,
                trip@.id,
                trip@.day,
            ),
        highlight_matches(row, trip@.year, trip@.id, trip@.day),
    ensures
        exists|j: int| 0 <= j <= old(out)@.len() && final(out)@ == old(out)@.insert(j, row),
        forall|a: int, b: int|
            0 <= a < b < final(out)@.len() ==> highlight_before(
                #[trigger] final(out)@[a],
                #[trigger] final(out)@[b],
            ),
{
    let n = out.len();
    let mut i: usize = 0;
    while i < n && highlight_before_exec(&out[i], &row)
        invariant
            n == out@.len(),
            0 <= i <= n,
            forall|a: int| 0 <= a < i ==> highlight_before(#[trigger] out@[a], row),
            forall|a: int, b: int|
                0 <= a < b < out@.len() ==> highlight_before(
                    #[trigger] out@[a],
                    #[trigger] out@[b],
                ),
            forall|k: int|
                0 <= k < out@.len() ==> !highlight_matches(
                    #[trigger] out@[k],
                    trip@.year,
                    trip@.id,
                    trip@.day,
                ),
            highlight_matches(row, trip@.year, trip@.id, trip@.day),
            out == old(out),
        decreases n - i,
    {
        i += 1;
    }
    proof {
        if i < n {
            if !highlight_before(row, out@[i as int]) {
                lemma_highlight_before_connex(out@[i as int], row);
                assert(highlight_matches(out@[i as int], trip@.year, trip@.id, trip@.day));
                assert(false);
            }
        }
    }
    let ghost pre = out@;
    out.insert(i, row);
    proof {
        assert forall|a: int, b: int|
            0 <= a < b < out@.len() implies highlight_before(
            #[trigger] out@[a],
            #[trigger] out@[b],
        ) by {
            if a < i && b == i {
            } else if a == i && b > i {
                assert(out@[b] == pre[b - 1]);
                if b - 1 > i {
                    lemma_highlight_before_trans(row, pre[i as int], pre[b - 1]);
                }
            } else if a < i && b > i {
                assert(out@[a] == pre[a]);
                assert(out@[b] == pre[b - 1]);
                if b - 1 == i {
                } else {
                    assert(highlight_before(pre[a], pre[b - 1]));
                }
            } else {
                assert(out@[a] == (if a < i { pre[a] } else { pre[a - 1] }));
                assert(out@[b] == (if b < i { pre[b] } else { pre[b - 1] }));
            }
        }
    }
}

/// Insert a name into an ascending (by bytes), duplicate-free list, keeping
/// it ascending; a name already present is left alone.
#[verifier::rlimit(100)]
fn insert_name_sorted(out: &mut Vec<String>, name: &String)
    requires
        forall|a: int, b: int|
            0 <= a < b < old(out)@.len() ==> name_lt(
                (#[trigger] old(out)@[a])@,
                (#[trigger] old(out)@[b])@,
            ),
    ensures
        forall|k: int|
            0 <= k < final(out)@.len() ==> (#[trigger] final(out)@[k])@ == name@ || exists|
                k0: int,
            | 0 <= k0 < old(out)@.len() && (#[trigger] old(out)@[k0])@ == final(out)@[k]@,
        exists|k: int| 0 <= k < final(out)@.len() && (#[trigger] final(out)@[k])@ == name@,
        forall|k0: int|
            #![trigger old(out)@[k0]]
            0 <= k0 < old(out)@.len() ==> exists|k: int|
                0 <= k < final(out)@.len() && (#[trigger] final(out)@[k])@ == old(out)@[k0]@,
        forall|a: int, b: int|
            0 <= a < b < final(out)@.len() ==> name_lt(
                (#[trigger] final(out)@[a])@,
                (#[trigger] final(out)@[b])@,
            ),
{
    let (i, present) = name_pos(out, name);
    if present {
        return ;
    }
    let ghost pre = out@;
    out.insert(i, name.clone());
    proof {
        lemma_name_insert_membership(pre, out@, i as int, name@);
        lemma_name_insert_sorted(pre, out@, i as int, name@);
    }
}

/// Where the name belongs in the ascending list, and whether it is already
/// there.
fn name_pos(out: &Vec<String>, name: &String) -> (r: (usize, bool))
    requires
        forall|a: int, b: int|
            0 <= a < b < out@.len() ==> name_lt((#[trigger] out@[a])@, (#[trigger] out@[b])@),
    ensures
        r.0 <= out@.len(),
        forall|a: int| 0 <= a < r.0 ==> name_lt((#[trigger] out@[a])@, name@),
        r.1 ==> r.0 < out@.len() && out@[r.0 as int]@ == name@,
        !r.1 && r.0 < out@.len() ==> name_lt(name@, out@[r.0 as int]@),
{
    let n = out.len();
    let mut i: usize = 0;
    while i < n && name_lt_exec(out[i].as_str(), name.as_str())
        invariant
            n == out@.len(),
            0 <= i <= n,
            forall|a: int| 0 <= a < i ==> name_lt((#[trigger] out@[a])@, name@),
        decreases n - i,
    {
        i += 1;
    }
    if i < n && crate::standings::str_eq(out[i].as_str(), name.as_str()) {
        return (i, true);
    }
    proof {
        if i < n {
            if !name_lt(name@, out@[i as int]@) {
                lemma_name_lt_connex(out@[i as int]@, name@);
                assert(false);
            }
        }
    }
    (i, false)
}

/// After a list insertion, every element is the new one or one of the old
/// ones, and every old one is still there.
proof fn lemma_name_insert_membership(pre: Seq<String>, post: Seq<String>, i: int, nm: Seq<char>)
    requires
        0 <= i <= pre.len(),
        post.len() == pre.len() + 1,
        post[i]@ == nm,
        forall|k: int| 0 <= k < i ==> post[k] == #[trigger] pre[k],
        forall|k: int| i <= k < pre.len() ==> post[k + 1] == #[trigger] pre[k],
    ensures
        forall|k: int|
            0 <= k < post.len() ==> ((#[trigger] post[k])@ == nm || exists|k0: int|
                0 <= k0 < pre.len() && (#[trigger] pre[k0])@ == post[k]@),
        exists|k: int| 0 <= k < post.len() && (#[trigger] post[k])@ == nm,
        forall|k0: int|
            #![trigger pre[k0]]
            0 <= k0 < pre.len() ==> exists|k: int|
                0 <= k < post.len() && (#[trigger] post[k])@ == pre[k0]@,
{
    assert forall|k: int|
        0 <= k < post.len() implies ((#[trigger] post[k])@ == nm || exists|k0: int|
        0 <= k0 < pre.len() && (#[trigger] pre[k0])@ == post[k]@) by {
        if k < i {
            assert(pre[k] == post[k]);
        } else if k > i {
            assert(pre[k - 1] == post[k]);
        }
    }
    assert forall|k0: int|
        #![trigger pre[k0]]
        0 <= k0 < pre.len() implies exists|k: int|
        0 <= k < post.len() && (#[trigger] post[k])@ == pre[k0]@ by {
        if k0 < i {
            assert(post[k0] == pre[k0]);
        } else {
            assert(post[k0 + 1] == pre[k0]);
        }
    }
}

/// Inserting at the found position keeps the list strictly ascending.
proof fn lemma_name_insert_sorted(pre: Seq<String>, post: Seq<String>, i: int, nm: Seq<char>)
    requires
        0 <= i <= pre.len(),
        post.len() == pre.len() + 1,
        post[i]@ == nm,
        forall|k: int| 0 <= k < i ==> post[k] == #[trigger] pre[k],
        forall|k: int| i <= k < pre.len() ==> post[k + 1] == #[trigger] pre[k],
        forall|a: int, b: int|
            0 <= a < b < pre.len() ==> name_lt((#[trigger] pre[a])@, (#[trigger] pre[b])@),
        forall|a: int| 0 <= a < i ==> name_lt((#[trigger] pre[a])@, nm),
        i < pre.len() ==> name_lt(nm, pre[i]@),
    ensures
        forall|a: int, b: int|
            0 <= a < b < post.len() ==> name_lt((#[trigger] post[a])@, (#[trigger] post[b])@),
{
    assert forall|a: int, b: int|
        0 <= a < b < post.len() implies name_lt(
        (#[trigger] post[a])@,
        (#[trigger] post[b])@,
    ) by {
        if a < i && b == i {
            assert(post[a] == pre[a]);
            assert(name_lt(pre[a]@, nm));
        } else if a == i && b > i {
            assert(post[b] == pre[b - 1]);
            assert(name_lt(nm, pre[i]@));
            if b - 1 > i {
                lemma_name_lt_trans(nm, pre[i]@, pre[b - 1]@);
            }
        } else if a < i && b > i {
            assert(post[a] == pre[a]);
            assert(post[b] == pre[b - 1]);
            if b - 1 == i {
                assert(name_lt(pre[a]@, nm));
            } else {
                assert(name_lt(pre[a]@, pre[b - 1]@));
            }
        } else {
            assert(post[a] == (if a < i { pre[a] } else { pre[a - 1] }));
            assert(post[b] == (if b < i { pre[b] } else { pre[b - 1] }));
        }
    }
}

} // verus!
