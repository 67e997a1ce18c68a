//! Classic scoring over a leaderboard: the local-score scheme (first to
//! finish a star among N members earns N, the next N-1, and so on) and the
//! star counts, both per day and accumulated over a year.

use vstd::prelude::*;

use crate::leaderboard::{Entry, EntryV, Identifier, Leaderboard, MemberV, ProblemPart};
use crate::order::{
    entry_lt, entry_lt_exec, lemma_rank_bounds, lemma_set_sum_empty, lemma_set_sum_insert,
    member_lt, member_lt_exec, rank_within, set_sum, triangle,
};

verus! {

/// Membership of a record in one event year, as a predicate value so every
/// use names the same function.
pub open spec fn in_year(y: int) -> spec_fn(EntryV) -> bool {
    |e: EntryV| e.year == y
}

/// Projection from a record to the member that holds it.
pub open spec fn entry_member() -> spec_fn(EntryV) -> MemberV {
    |e: EntryV| e.id
}

/// The member values of a list of identifiers.
pub open spec fn members_view(v: Seq<Identifier>) -> Seq<MemberV> {
    v.map_values(|m: Identifier| m@)
}

/// The records of one event year.
pub open spec fn year_entries(s: Set<EntryV>, y: int) -> Set<EntryV> {
    s.filter(in_year(y))
}

/// The members that hold at least one record in the year. Identity is the
/// full (name, numeric id) pair: a renamed member counts as two.
pub open spec fn year_members(s: Set<EntryV>, y: int) -> Set<MemberV> {
    year_entries(s, y).map(entry_member())
}

/// Membership of a record in one star group, as a predicate value.
pub open spec fn in_star_group(y: int, d: int, p: ProblemPart) -> spec_fn(EntryV) -> bool {
    |e: EntryV| e.year == y && e.day == d && e.part == p
}

/// One star's competition pool: all records for the same (year, day, part).
pub open spec fn star_group(s: Set<EntryV>, y: int, d: int, p: ProblemPart) -> Set<EntryV> {
    s.filter(in_star_group(y, d, p))
}

/// The records of a star group that the entry order places before `e`.
pub open spec fn group_before(e: EntryV) -> spec_fn(EntryV) -> bool {
    |x: EntryV| x.year == e.year && x.day == e.day && x.part == e.part && entry_lt(x, e)
}

/// Chronological rank of a record within its star group (0 for the first
/// finisher), under the total entry order.
pub open spec fn entry_rank(s: Set<EntryV>, e: EntryV) -> int {
    rank_within(star_group(s, e.year, e.day, e.part), e)
}

/// Local score a record earns: the year's member count minus the rank, and
/// never below zero.
pub open spec fn entry_score(s: Set<EntryV>, y: int, e: EntryV) -> int {
    let n = year_members(s, y).len() as int;
    let r = entry_rank(s, e);
    if r < n {
        n - r
    } else {
        0
    }
}

/// Membership of a record in one member's day, as a predicate value.
pub open spec fn in_member_day(y: int, m: MemberV, d: int) -> spec_fn(EntryV) -> bool {
    |e: EntryV| e.year == y && e.day == d && e.id == m
}

/// A member's records on one day of a year.
pub open spec fn member_day_entries(s: Set<EntryV>, y: int, m: MemberV, d: int) -> Set<EntryV> {
    s.filter(in_member_day(y, m, d))
}

/// Membership of a record in one member's day and part, as a predicate
/// value.
pub open spec fn in_member_day_part(y: int, m: MemberV, d: int, p: ProblemPart) -> spec_fn(
    EntryV,
) -> bool {
    |e: EntryV| e.year == y && e.day == d && e.id == m && e.part == p
}

/// A member's records on one day, one part.
pub open spec fn member_day_part_entries(
    s: Set<EntryV>,
    y: int,
    m: MemberV,
    d: int,
    p: ProblemPart,
) -> Set<EntryV> {
    s.filter(in_member_day_part(y, m, d, p))
}

/// The local score of a record, as a function value.
pub open spec fn score_fn(s: Set<EntryV>, y: int) -> spec_fn(EntryV) -> int {
    |e: EntryV| entry_score(s, y, e)
}

/// Stars a member shows for one day: one per record.
pub open spec fn day_stars(s: Set<EntryV>, y: int, m: MemberV, d: int) -> int {
    member_day_entries(s, y, m, d).len() as int
}

/// Local score a member earned on one day: the sum of the scores of that
/// member's records of the day.
pub open spec fn day_score(s: Set<EntryV>, y: int, m: MemberV, d: int) -> int {
    set_sum(member_day_entries(s, y, m, d), score_fn(s, y))
}

/// Local score accumulated over days 1 through `d`.
pub open spec fn score_through(s: Set<EntryV>, y: int, m: MemberV, d: int) -> int
    decreases d,
{
    if d <= 0 {
        0
    } else {
        score_through(s, y, m, d - 1) + day_score(s, y, m, d)
    }
}

/// Stars accumulated over days 1 through `d`.
pub open spec fn stars_through(s: Set<EntryV>, y: int, m: MemberV, d: int) -> int
    decreases d,
{
    if d <= 0 {
        0
    } else {
        stars_through(s, y, m, d - 1) + day_stars(s, y, m, d)
    }
}

/// A member's total local score for the year.
pub open spec fn total_score(s: Set<EntryV>, y: int, m: MemberV) -> int {
    score_through(s, y, m, 25)
}

/// A member's total star count for the year.
pub open spec fn total_stars(s: Set<EntryV>, y: int, m: MemberV) -> int {
    stars_through(s, y, m, 25)
}

/// Stepping a deduplicated traversal: the elements of one more position,
/// filtered, grow by exactly the new element's contribution.
pub proof fn lemma_filter_count_step(s: Seq<EntryV>, i: int, p: spec_fn(EntryV) -> bool)
    requires
        s.no_duplicates(),
        0 <= i < s.len(),
    ensures
        s.take(i).to_set().filter(p).finite(),
        s.take(i + 1).to_set().filter(p).len() == s.take(i).to_set().filter(p).len() + (
        if p(s[i]) {
            1int
        } else {
            0int
        }),
{
    broadcast use vstd::seq_lib::seq_to_set_is_finite;

    crate::leaderboard::lemma_take_one_more_to_set(s, i);
    crate::leaderboard::lemma_no_dup_prefix_misses(s, i);
    let pre = s.take(i).to_set();
    pre.lemma_len_filter(p);
    if p(s[i]) {
        assert(pre.insert(s[i]).filter(p) =~= pre.filter(p).insert(s[i]));
        assert(!pre.filter(p).contains(s[i]));
    } else {
        assert(pre.insert(s[i]).filter(p) =~= pre.filter(p));
    }
}

/// As above, for the member image of the filtered elements.
pub proof fn lemma_member_image_step(s: Seq<EntryV>, i: int, y: int)
    requires
        0 <= i < s.len(),
    ensures
        s.take(i + 1).to_set().filter(in_year(y)).map(entry_member()) == (if s[i].year == y {
            s.take(i).to_set().filter(in_year(y)).map(entry_member()).insert(s[i].id)
        } else {
            s.take(i).to_set().filter(in_year(y)).map(entry_member())
        }),
{
    crate::leaderboard::lemma_take_one_more_to_set(s, i);
    let pre = s.take(i).to_set();
    let img = entry_member();
    let p = in_year(y);
    if s[i].year == y {
        assert(pre.insert(s[i]).filter(p).map(img) =~= pre.filter(p).map(img).insert(
            s[i].id,
        )) by {
            assert forall|m: MemberV| #[trigger]
                pre.insert(s[i]).filter(p).map(img).contains(
                    m,
                ) implies pre.filter(p).map(img).insert(s[i].id).contains(m) by {
                let e = choose|e: EntryV| pre.insert(s[i]).filter(p).contains(e) && img(e) == m;
                if e != s[i] {
                    assert(pre.filter(p).contains(e));
                }
            }
            assert forall|m: MemberV| #[trigger]
                pre.filter(p).map(img).insert(s[i].id).contains(m) implies pre.insert(
                s[i],
            ).filter(p).map(img).contains(m) by {
                if m == s[i].id {
                    assert(pre.insert(s[i]).filter(p).contains(s[i]));
                } else {
                    let e = choose|e: EntryV| pre.filter(p).contains(e) && img(e) == m;
                    assert(pre.insert(s[i]).filter(p).contains(e));
                }
            }
        }
    } else {
        assert(pre.insert(s[i]).filter(p) =~= pre.filter(p));
    }
}

impl Leaderboard {
    /// Chronological rank of a record within its star group, by counting the
    /// stored records the entry order places before it.
    pub fn rank_of(&self, e: &Entry) -> (r: usize)
        requires
            self.wf(),
        ensures
            r == entry_rank(self@, e@),
    {
        let n = self.entry_count();
        let mut i: usize = 0;
        let mut count: usize = 0;
        proof {
            assert(self.entry_seq().take(0) =~= Seq::<EntryV>::empty());
            assert(self.entry_seq().take(0).to_set() =~= Set::<EntryV>::empty());
            assert(self.entry_seq().take(0).to_set().filter(group_before(e@))
                =~= Set::<EntryV>::empty());
        }
        while i < n
            invariant
                self.wf(),
                n == self.entry_seq().len(),
                0 <= i <= n,
                count <= i,
                count == self.entry_seq().take(i as int).to_set().filter(group_before(e@)).len(),
            decreases n - i,
        {
            proof {
                lemma_filter_count_step(self.entry_seq(), i as int, group_before(e@));
            }
            let x = self.entry_at(i);
            let hit = x.year == e.year && x.day == e.day && x.part == e.part && entry_lt_exec(
                x,
                e,
            );
            proof {
                assert(self.entry_seq()[i as int] == x@);
                assert(hit == group_before(e@)(x@));
            }
            if hit {
                count += 1;
            }
            i += 1;
        }
        proof {
            self.lemma_view_is_entry_seq();
            assert(self.entry_seq().take(n as int) =~= self.entry_seq());
            assert(self@.filter(group_before(e@)) =~= star_group(
                self@,
                e@.year,
                e@.day,
                e@.part,
            ).filter(|x: EntryV| entry_lt(x, e@)));
        }
        count
    }

    /// The members holding at least one record in the year, in ascending
    /// member order, each exactly once.
    pub fn members_for_year(&self, year: i32) -> (r: Vec<Identifier>)
        requires
            self.wf(),
        ensures
            members_view(r@).to_set() == year_members(self@, year as int),
            members_view(r@).no_duplicates(),
            r@.len() == year_members(self@, year as int).len(),
            forall|a: int, b: int|
                0 <= a < b < r@.len() ==> member_lt(#[trigger] r@[a]@, #[trigger] r@[b]@),
    {
        let n = self.entry_count();
        let mut out: Vec<Identifier> = Vec::new();
        proof {
            assert(members_view(out@) =~= Seq::<MemberV>::empty());
            assert(members_view(out@).to_set() =~= self.entry_seq().take(
                0,
            ).to_set().filter(in_year(year as int)).map(entry_member()));
        }
        let mut i: usize = 0;
        while i < n
            invariant
                self.wf(),
                n == self.entry_seq().len(),
                0 <= i <= n,
                members_view(out@).to_set() == self.entry_seq().take(
                    i as int,
                ).to_set().filter(in_year(year as int)).map(entry_member()),
                forall|a: int, b: int|
                    0 <= a < b < out@.len() ==> member_lt(
                        #[trigger] out@[a]@,
                        #[trigger] out@[b]@,
                    ),
            decreases n - i,
        {
            let x = self.entry_at(i);
            let ghost pre_ms = members_view(out@).to_set();
            let ghost img_i = self.entry_seq().take(i as int).to_set().filter(
                in_year(year as int),
            ).map(entry_member());
            if x.year == year {
                insert_member_sorted(&mut out, &x.id);
                proof {
                    assert(members_view(out@).to_set() == pre_ms.insert(x.id@));
                }
            }
            proof {
                lemma_member_image_step(self.entry_seq(), i as int, year as int);
                assert(self.entry_seq()[i as int] == x@);
                assert(members_view(out@).to_set() == self.entry_seq().take(
                    i as int + 1,
                ).to_set().filter(in_year(year as int)).map(entry_member()));
            }
            i += 1;
        }
        proof {
            self.lemma_view_is_entry_seq();
            assert(self.entry_seq().take(n as int) =~= self.entry_seq());
            let ms = members_view(out@);
            assert(ms.no_duplicates()) by {
                assert forall|a: int, b: int| 0 <= a < b < ms.len() implies ms[a] != ms[b] by {
                    crate::order::lemma_member_lt_irrefl(ms[a]);
                }
            }
            ms.unique_seq_to_set();
        }
        out
    }

    /// Number of members holding at least one record in the year.
    pub fn member_count_for_year(&self, year: i32) -> (r: usize)
        requires
            self.wf(),
        ensures
            r == year_members(self@, year as int).len(),
    {
        let members = self.members_for_year(year);
        members.len()
    }
}

/// Insert a member into an ascending, duplicate-free list, keeping it
/// ascending; a member already present is left alone.
fn insert_member_sorted(out: &mut Vec<Identifier>, id: &Identifier)
    requires
            forall|a: int, b: int|
                0 <= a < b < old(out)@.len() ==> member_lt(
                    #[trigger] old(out)@[a]@,
                    #[trigger] old(out)@[b]@,
                ),
        ensures
            members_view(final(out)@).to_set() == members_view(old(out)@).to_set().insert(id@),
            forall|a: int, b: int|
                0 <= a < b < final(out)@.len() ==> member_lt(
                    #[trigger] final(out)@[a]@,
                    #[trigger] final(out)@[b]@,
                ),
    {
        let n = out.len();
        let mut i: usize = 0;
        while i < n && member_lt_exec(&out[i], id)
            invariant
                n == out@.len(),
                0 <= i <= n,
                forall|a: int| 0 <= a < i ==> member_lt(#[trigger] out@[a]@, id@),
                forall|a: int, b: int|
                    0 <= a < b < out@.len() ==> member_lt(
                        #[trigger] out@[a]@,
                        #[trigger] out@[b]@,
                    ),
                out == old(out),
            decreases n - i,
        {
            i += 1;
        }
        if i < n && out[i] == *id {
            proof {
                let ms = members_view(out@);
                assert(ms[i as int] == id@);
                assert(ms.to_set().contains(id@));
                assert(ms.to_set().insert(id@) =~= ms.to_set());
            }
            return ;
        }
        proof {
            if i < n {
                if !member_lt(id@, out@[i as int]@) {
                    crate::order::lemma_member_lt_connex(out@[i as int]@, id@);
                    assert(false);
                }
            }
        }
        out.insert(i, id.clone());
        proof {
            let pre = members_view(old(out)@);
            let post = members_view(out@);
            assert(post =~= pre.insert(i as int, id@));
            assert(post.to_set() =~= pre.to_set().insert(id@)) by {
                assert forall|m: MemberV| #[trigger] post.to_set().contains(m) implies pre.to_set().insert(
                    id@,
                ).contains(m) by {
                    let k = choose|k: int| 0 <= k < post.len() && post[k] == m;
                    if k < i {
                        assert(pre[k] == m);
                    } else if k > i {
                        assert(pre[k - 1] == m);
                    }
                }
                assert forall|m: MemberV| #[trigger]
                    pre.to_set().insert(id@).contains(m) implies post.to_set().contains(m) by {
                    if m == id@ {
                        assert(post[i as int] == m);
                    } else {
                        let k = choose|k: int| 0 <= k < pre.len() && pre[k] == m;
                        if k < i {
                            assert(post[k] == m);
                        } else {
                            assert(post[k + 1] == m);
                        }
                    }
                }
            }
            assert forall|a: int, b: int|
                0 <= a < b < out@.len() implies member_lt(
                #[trigger] out@[a]@,
                #[trigger] out@[b]@,
            ) by {
                let pa = old(out)@;
                if a < i && b == i {
                } else if a == i && b > i {
                    assert(out@[b]@ == pa[b - 1]@);
                    if b - 1 > i {
                        assert(member_lt(pa[i as int]@, pa[b - 1]@));
                        crate::order::lemma_member_lt_trans(id@, pa[i as int]@, pa[b - 1]@);
                    }
                } else if a < i && b > i {
                    assert(out@[a]@ == pa[a]@);
                    assert(out@[b]@ == pa[b - 1]@);
                    if b - 1 == i {
                        assert(member_lt(pa[a]@, id@));
                    } else {
                        assert(member_lt(pa[a]@, pa[b - 1]@));
                    }
                } else if a > i || b < i {
                    assert(out@[a]@ == (if a < i { pa[a]@ } else { pa[a - 1]@ }));
                    assert(out@[b]@ == (if b < i { pa[b]@ } else { pa[b - 1]@ }));
                }
            }
        }
    }

/// As [`lemma_filter_count_step`], but summing `f` over the filtered
/// elements instead of counting them.
pub proof fn lemma_filter_sum_step(
    s: Seq<EntryV>,
    i: int,
    p: spec_fn(EntryV) -> bool,
    f: spec_fn(EntryV) -> int,
)
    requires
        s.no_duplicates(),
        0 <= i < s.len(),
    ensures
        set_sum(s.take(i + 1).to_set().filter(p), f) == set_sum(s.take(i).to_set().filter(p), f)
            + (if p(s[i]) {
            f(s[i])
        } else {
            0int
        }),
{
    broadcast use vstd::seq_lib::seq_to_set_is_finite;

    crate::leaderboard::lemma_take_one_more_to_set(s, i);
    crate::leaderboard::lemma_no_dup_prefix_misses(s, i);
    let pre = s.take(i).to_set();
    pre.lemma_len_filter(p);
    if p(s[i]) {
        assert(pre.insert(s[i]).filter(p) =~= pre.filter(p).insert(s[i]));
        assert(!pre.filter(p).contains(s[i]));
        lemma_set_sum_insert(pre.filter(p), f, s[i]);
    } else {
        assert(pre.insert(s[i]).filter(p) =~= pre.filter(p));
    }
}

impl Leaderboard {
    /// Whether the collection is small enough that every score sum computed
    /// here fits the machine words used; callers outside verified code test
    /// this before asking for standings.
    pub open spec fn size_ok(&self) -> bool {
        self.entry_seq().len() <= 100_000_000
    }

    /// Executable test of [`Leaderboard::size_ok`].
    pub fn check_size(&self) -> (r: bool)
        ensures
            r == self.size_ok(),
    {
        self.entry_count() <= 100_000_000
    }

    /// Stars and local score one member earned on one day of a year;
    /// `n` is the year's member count, the score a first finisher earns.
    pub fn day_stars_and_score_of(&self, year: i32, id: &Identifier, day: u8, n: usize) -> (r: (
        u64,
        u64,
    ))
        requires
            self.wf(),
            self.size_ok(),
            n == year_members(self@, year as int).len(),
        ensures
            r.0 == day_stars(self@, year as int, id@, day as int),
            r.1 == day_score(self@, year as int, id@, day as int),
            r.0 <= self.entry_seq().len(),
            r.1 <= self.entry_seq().len() * n,
    {
        let cnt = self.entry_count();
        let mut i: usize = 0;
        let mut stars: u64 = 0;
        let mut score: u64 = 0;
        proof {
            self.lemma_view_is_entry_seq();
            lemma_year_members_card(self@, year as int, self.entry_seq());
            assert(self.entry_seq().take(0) =~= Seq::<EntryV>::empty());
            assert(self.entry_seq().take(0).to_set() =~= Set::<EntryV>::empty());
            assert(self.entry_seq().take(0).to_set().filter(
                in_member_day(year as int, id@, day as int),
            ) =~= Set::<EntryV>::empty());
            lemma_set_sum_empty(score_fn(self@, year as int));
            assert(set_sum(
                self.entry_seq().take(0).to_set().filter(
                    in_member_day(year as int, id@, day as int),
                ),
                score_fn(self@, year as int),
            ) == 0);
        }
        while i < cnt
            invariant
                self.wf(),
                self.size_ok(),
                n == year_members(self@, year as int).len(),
                cnt == self.entry_seq().len(),
                0 <= i <= cnt,
                stars == self.entry_seq().take(i as int).to_set().filter(
                    in_member_day(year as int, id@, day as int),
                ).len(),
                stars <= i,
                score == set_sum(
                    self.entry_seq().take(i as int).to_set().filter(
                        in_member_day(year as int, id@, day as int),
                    ),
                    score_fn(self@, year as int),
                ),
                score <= (i as int) * (n as int),
                n <= 100_000_000,
            decreases cnt - i,
        {
            proof {
                lemma_filter_count_step(
                    self.entry_seq(),
                    i as int,
                    in_member_day(year as int, id@, day as int),
                );
                lemma_filter_sum_step(
                    self.entry_seq(),
                    i as int,
                    in_member_day(year as int, id@, day as int),
                    score_fn(self@, year as int),
                );
            }
            let x = self.entry_at(i);
            let hit = x.year == year && x.day == day && x.id == *id;
            proof {
                assert(self.entry_seq()[i as int] == x@);
                assert(hit == in_member_day(year as int, id@, day as int)(x@));
                assert((i as int + 1) * (n as int) == (i as int) * (n as int) + (n as int))
                    by (nonlinear_arith);
                assert((i as int + 1) * (n as int) <= 100_000_000int * 100_000_000)
                    by (nonlinear_arith)
                    requires
                        i as int + 1 <= 100_000_000,
                        n <= 100_000_000,
                ;
            }
            if hit {
                let sc = self.entry_local_score(year, n, x);
                stars += 1;
                score += sc;
            }
            i += 1;
        }
        proof {
            self.lemma_view_is_entry_seq();
            assert(self.entry_seq().take(cnt as int) =~= self.entry_seq());
            assert((cnt as int) * (n as int) >= (i as int) * (n as int));
        }
        (stars, score)
    }

    /// Local score of one record: the year's member count `n` minus the
    /// record's chronological rank in its star group, floored at zero.
    fn entry_local_score(&self, year: i32, n: usize, e: &Entry) -> (r: u64)
        requires
            self.wf(),
            n == year_members(self@, year as int).len(),
        ensures
            r == entry_score(self@, year as int, e@),
            r <= n,
    {
        let rank = self.rank_of(e);
        if rank < n {
            (n - rank) as u64
        } else {
            0
        }
    }

    /// Stars and local score one member accumulated over the 25 days of a
    /// year.
    pub fn year_totals_of(&self, year: i32, id: &Identifier, n: usize) -> (r: (u64, u64))
        requires
            self.wf(),
            self.size_ok(),
            n == year_members(self@, year as int).len(),
        ensures
            r.0 == total_stars(self@, year as int, id@),
            r.1 == total_score(self@, year as int, id@),
    {
        let mut d: u8 = 0;
        let mut stars: u64 = 0;
        let mut score: u64 = 0;
        while d < 25
            invariant
                self.wf(),
                self.size_ok(),
                n == year_members(self@, year as int).len(),
                0 <= d <= 25,
                stars == stars_through(self@, year as int, id@, d as int),
                score == score_through(self@, year as int, id@, d as int),
                stars <= (d as int) * 100_000_000,
                score <= (d as int) * 10_000_000_000_000_000,
            decreases 25 - d,
        {
            let (ds, dp) = self.day_stars_and_score_of(year, id, d + 1, n);
            proof {
                assert(n <= 100_000_000) by {
                    self.lemma_view_is_entry_seq();
                    lemma_year_members_card(self@, year as int, self.entry_seq());
                }
                assert((self.entry_seq().len() as int) * (n as int) <= 100_000_000int
                    * 100_000_000) by (nonlinear_arith)
                    requires
                        self.entry_seq().len() <= 100_000_000,
                        n <= 100_000_000,
                ;
            }
            stars += ds;
            score += dp;
            d += 1;
        }
        (stars, score)
    }

    /// The per-day stars and scores of one member, as a list indexed by day
    /// minus one.
    pub fn daily_stars_and_scores_of(&self, year: i32, id: &Identifier, n: usize) -> (r: Vec<
        (u64, u64),
    >)
        requires
            self.wf(),
            self.size_ok(),
            n == year_members(self@, year as int).len(),
        ensures
            r@.len() == 25,
            forall|k: int|
                0 <= k < 25 ==> (#[trigger] r@[k]).0 == day_stars(
                    self@,
                    year as int,
                    id@,
                    k + 1,
                ) && r@[k].1 == day_score(self@, year as int, id@, k + 1),
    {
        let mut out: Vec<(u64, u64)> = Vec::new();
        let mut d: u8 = 0;
        while d < 25
            invariant
                self.wf(),
                self.size_ok(),
                n == year_members(self@, year as int).len(),
                0 <= d <= 25,
                out@.len() == d,
                forall|k: int|
                    0 <= k < d ==> (#[trigger] out@[k]).0 == day_stars(
                        self@,
                        year as int,
                        id@,
                        k + 1,
                    ) && out@[k].1 == day_score(self@, year as int, id@, k + 1),
            decreases 25 - d,
        {
            let row = self.day_stars_and_score_of(year, id, d + 1, n);
            out.push(row);
            d += 1;
        }
        out
    }
}

/// One line of the score board: a member, the 25 per-day (stars, score)
/// pairs, and the star and score totals.
pub type BoardRow = (Identifier, Vec<(u64, u64)>, u64, u64);

/// The components a board is ordered by.
#[verifier::ext_equal]
pub ghost struct BoardKey {
    pub stars: int,
    pub score: int,
    pub member: MemberV,
}

/// The key of a board line.
pub open spec fn board_key(r: BoardRow) -> BoardKey {
    BoardKey { stars: r.2 as int, score: r.3 as int, member: r.0@ }
}

/// Strict board order: by falling score then falling stars (or the other way
/// round when `stars_first`), members as the final tie-break.
pub open spec fn board_before(stars_first: bool, a: BoardKey, b: BoardKey) -> bool {
    if stars_first {
        a.stars > b.stars || (a.stars == b.stars && (a.score > b.score || (a.score == b.score
            && member_lt(a.member, b.member))))
    } else {
        a.score > b.score || (a.score == b.score && (a.stars > b.stars || (a.stars == b.stars
            && member_lt(a.member, b.member))))
    }
}

pub proof fn lemma_board_before_connex(stars_first: bool, a: BoardKey, b: BoardKey)
    requires
        !board_before(stars_first, a, b),
        !board_before(stars_first, b, a),
    ensures
        a.stars == b.stars && a.score == b.score && a.member == b.member,
{
    crate::order::lemma_member_lt_connex(a.member, b.member);
}

pub proof fn lemma_board_before_trans(stars_first: bool, a: BoardKey, b: BoardKey, c: BoardKey)
    requires
        board_before(stars_first, a, b),
        board_before(stars_first, b, c),
    ensures
        board_before(stars_first, a, c),
{
    if a.stars == b.stars && b.stars == c.stars && a.score == b.score && b.score == c.score {
        crate::order::lemma_member_lt_trans(a.member, b.member, c.member);
    }
}

/// Exec comparison deciding the board order.
fn board_before_exec(stars_first: bool, a: &BoardRow, b: &BoardRow) -> (r: bool)
    ensures
        r == board_before(stars_first, board_key(*a), board_key(*b)),
{
    if stars_first {
        a.2 > b.2 || (a.2 == b.2 && (a.3 > b.3 || (a.3 == b.3 && member_lt_exec(&a.0, &b.0))))
    } else {
        a.3 > b.3 || (a.3 == b.3 && (a.2 > b.2 || (a.2 == b.2 && member_lt_exec(&a.0, &b.0))))
    }
}

/// Insert a board line into a list sorted by the board order, for a member
/// not yet on it, keeping the list sorted.
fn insert_board_row(out: &mut Vec<BoardRow>, row: BoardRow, stars_first: bool)
    requires
        forall|a: int, b: int|
            0 <= a < b < old(out)@.len() ==> board_before(
                stars_first,
                board_key(#[trigger] old(out)@[a]),
                board_key(#[trigger] old(out)@[b]),
            ),
        forall|k: int| 0 <= k < old(out)@.len() ==> (#[trigger] old(out)@[k]).0@ != row.0@,
    ensures
        exists|j: int|
            0 <= j <= old(out)@.len() && final(out)@ == old(out)@.insert(j, row),
        forall|a: int, b: int|
            0 <= a < b < final(out)@.len() ==> board_before(
                stars_first,
                board_key(#[trigger] final(out)@[a]),
                board_key(#[trigger] final(out)@[b]),
            ),
{
    let n = out.len();
    let mut i: usize = 0;
    while i < n && board_before_exec(stars_first, &out[i], &row)
        invariant
            n == out@.len(),
            0 <= i <= n,
            forall|a: int|
                0 <= a < i ==> board_before(
                    stars_first,
                    board_key(#[trigger] out@[a]),
                    board_key(row),
                ),
            forall|a: int, b: int|
                0 <= a < b < out@.len() ==> board_before(
                    stars_first,
                    board_key(#[trigger] out@[a]),
                    board_key(#[trigger] out@[b]),
                ),
            forall|k: int| 0 <= k < out@.len() ==> (#[trigger] out@[k]).0@ != row.0@,
            out == old(out),
        decreases n - i,
    {
        i += 1;
    }
    proof {
        if i < n {
            if !board_before(stars_first, board_key(row), board_key(out@[i as int])) {
                lemma_board_before_connex(stars_first, board_key(out@[i as int]), board_key(row));
                assert(false);
            }
        }
    }
    out.insert(i, row);
    proof {
        let pre = old(out)@;
        assert(out@ == pre.insert(i as int, row));
        assert forall|a: int, b: int|
            0 <= a < b < out@.len() implies board_before(
            stars_first,
            board_key(#[trigger] out@[a]),
            board_key(#[trigger] out@[b]),
        ) by {
            if a < i && b == i {
            } else if a == i && b > i {
                assert(out@[b] == pre[b - 1]);
                if b - 1 > i {
                    lemma_board_before_trans(
                        stars_first,
                        board_key(row),
                        board_key(pre[i as int]),
                        board_key(pre[b - 1]),
                    );
                }
            } else if a < i && b > i {
                assert(out@[a] == pre[a]);
                assert(out@[b] == pre[b - 1]);
                if b - 1 == i {
                } else {
                    assert(board_before(
                        stars_first,
                        board_key(pre[a]),
                        board_key(pre[b - 1]),
                    ));
                }
            } else {
                assert(out@[a] == (if a < i { pre[a] } else { pre[a - 1] }));
                assert(out@[b] == (if b < i { pre[b] } else { pre[b - 1] }));
            }
        }
    }
}

/// Everything one board line promises: its member is of the year, its
/// totals and 25 per-day values are exactly the spec's.
pub open spec fn board_row_ok(s: Set<EntryV>, y: int, row: BoardRow) -> bool {
    &&& year_members(s, y).contains(row.0@)
    &&& row.2 == total_stars(s, y, row.0@)
    &&& row.3 == total_score(s, y, row.0@)
    &&& row.1@.len() == 25
    &&& forall|dd: int|
        0 <= dd < 25 ==> (#[trigger] row.1@[dd]).0 == day_stars(s, y, row.0@, dd + 1)
            && row.1@[dd].1 == day_score(s, y, row.0@, dd + 1)
}

impl Leaderboard {
    /// The full score board of a year: one line per member, every line's
    /// totals and per-day values exact, ordered by the board order.
    #[verifier::rlimit(100)]
    pub fn board_rows(&self, year: i32, stars_first: bool) -> (r: Vec<BoardRow>)
        requires
            self.wf(),
            self.size_ok(),
        ensures
            r@.len() == year_members(self@, year as int).len(),
            forall|k: int|
                0 <= k < r@.len() ==> board_row_ok(self@, year as int, #[trigger] r@[k]),
            forall|a: int, b: int|
                0 <= a < b < r@.len() ==> board_before(
                    stars_first,
                    board_key(#[trigger] r@[a]),
                    board_key(#[trigger] r@[b]),
                ),
            forall|m: MemberV|
                year_members(self@, year as int).contains(m) ==> exists|k: int|
                    0 <= k < r@.len() && (#[trigger] r@[k]).0@ == m,
    {
        let members = self.members_for_year(year);
        let n = members.len();
        let mut out: Vec<BoardRow> = Vec::new();
        let mut j: usize = 0;
        while j < n
            invariant
                self.wf(),
                self.size_ok(),
                n == members@.len(),
                n == year_members(self@, year as int).len(),
                members_view(members@).to_set() == year_members(self@, year as int),
                members_view(members@).no_duplicates(),
                forall|a: int, b: int|
                    0 <= a < b < members@.len() ==> member_lt(
                        #[trigger] members@[a]@,
                        #[trigger] members@[b]@,
                    ),
                0 <= j <= n,
                out@.len() == j,
                forall|k: int|
                    0 <= k < out@.len() ==> board_row_ok(self@, year as int, #[trigger] out@[k]),
                forall|k: int|
                    0 <= k < out@.len() ==> exists|q: int|
                        0 <= q < j && (#[trigger] members@[q])@ == (#[trigger] out@[k]).0@,
                forall|a: int, b: int|
                    0 <= a < b < out@.len() ==> board_before(
                        stars_first,
                        board_key(#[trigger] out@[a]),
                        board_key(#[trigger] out@[b]),
                    ),
                forall|q: int|
                    #![trigger members@[q]]
                    0 <= q < j ==> exists|k: int|
                        0 <= k < out@.len() && (#[trigger] out@[k]).0@ == members@[q]@,
            decreases n - j,
        {
            let id = &members[j];
            proof {
                assert(members_view(members@)[j as int] == id@);
                assert(members_view(members@).to_set().contains(id@));
            }
            let daily = self.daily_stars_and_scores_of(year, id, n);
            let totals = self.year_totals_of(year, id, n);
            let row: BoardRow = (id.clone(), daily, totals.0, totals.1);
            proof {
                assert(board_row_ok(self@, year as int, row));
            }
            proof {
                assert forall|k: int|
                    0 <= k < out@.len() implies (#[trigger] out@[k]).0@ != row.0@ by {
                    let q = choose|q: int| 0 <= q < j && members@[q]@ == out@[k].0@;
                    assert(members_view(members@)[q] == members@[q]@);
                    assert(members_view(members@)[j as int] == id@);
                    if members@[q]@ == id@ {
                        crate::order::lemma_member_lt_irrefl(id@);
                    }
                }
            }
            let ghost pre = out@;
            insert_board_row(&mut out, row, stars_first);
            proof {
                let jj = choose|jj: int|
                    0 <= jj <= pre.len() && out@ == #[trigger] pre.insert(jj, row);
                assert forall|q: int|
                    #![trigger members@[q]]
                    0 <= q < j + 1 implies exists|k: int|
                    0 <= k < out@.len() && (#[trigger] out@[k]).0@ == members@[q]@ by {
                    if q < j {
                        let k0 = choose|k0: int|
                            0 <= k0 < pre.len() && (#[trigger] pre[k0]).0@ == members@[q]@;
                        if k0 < jj {
                            assert(out@[k0] == pre[k0]);
                        } else {
                            assert(out@[k0 + 1] == pre[k0]);
                        }
                    } else {
                        assert(out@[jj] == row);
                    }
                }
                assert forall|k: int|
                    #![trigger out@[k]]
                    0 <= k < out@.len() implies exists|q: int|
                    #![trigger members@[q]]
                    0 <= q < j + 1 && members@[q]@ == out@[k].0@ by {
                    if k < jj {
                        assert(out@[k] == pre[k]);
                    } else if k > jj {
                        assert(out@[k] == pre[k - 1]);
                    } else {
                        assert(out@[k] == row);
                        assert(members@[j as int]@ == row.0@);
                    }
                }
            }
            j += 1;
        }
        proof {
            assert forall|m: MemberV|
                year_members(self@, year as int).contains(m) implies exists|k: int|
                0 <= k < out@.len() && (#[trigger] out@[k]).0@ == m by {
                let mv = members_view(members@);
                assert(mv.to_set().contains(m));
                let q = choose|q: int| 0 <= q < mv.len() && mv[q] == m;
                assert(members@[q]@ == m);
            }
            members_view(members@).unique_seq_to_set();
        }
        out
    }
}

/// The year's member count is at most the number of records: each member is
/// the image of at least one record.
pub proof fn lemma_year_members_card(s: Set<EntryV>, y: int, sq: Seq<EntryV>)
    requires
        s == sq.to_set(),
    ensures
        year_members(s, y).len() <= sq.len(),
{
    broadcast use vstd::seq_lib::seq_to_set_is_finite;

    sq.lemma_cardinality_of_set();
    s.lemma_len_filter(in_year(y));
    vstd::set_lib::lemma_len_subset(year_entries(s, y), s);
    vstd::set_lib::lemma_map_size_bound(year_entries(s, y), year_members(s, y), entry_member());
}

/// Local score conservation: in a star group every position from first to
/// last is taken exactly once, so a group of the year's full `n` members
/// hands out `n + (n - 1) + ... + 1` points in total.
pub proof fn lemma_local_score_conservation(
    lb: Leaderboard,
    y: int,
    d: int,
    p: ProblemPart,
)
    requires
        lb.wf(),
        star_group(lb@, y, d, p).len() == year_members(lb@, y).len(),
    ensures
        set_sum(star_group(lb@, y, d, p), score_fn(lb@, y)) == triangle(
            (year_members(lb@, y).len() + 1) as nat,
        ),
{
    lb.lemma_view_is_entry_seq();
    let g = star_group(lb@, y, d, p);
    lb@.lemma_len_filter(|e: EntryV| e.year == y && e.day == d && e.part == p);
    let n = year_members(lb@, y).len() as int;
    let score = score_fn(lb@, y);
    let rank = |e: EntryV| rank_within(g, e);
    assert forall|e: EntryV| g.contains(e) implies #[trigger] score(e) == n - rank(e) by {
        assert(star_group(lb@, e.year, e.day, e.part) =~= g);
        lemma_rank_bounds(g, e);
    }
    lemma_sum_const_minus(g, score, rank, n);
    crate::order::lemma_rank_sum(g);
    lemma_triangle_shift(n as nat);
}

/// Summing `n - rank(e)` over a finite set equals `n * |s|` minus the sum of
/// the ranks.
proof fn lemma_sum_const_minus(
    s: Set<EntryV>,
    f: spec_fn(EntryV) -> int,
    r: spec_fn(EntryV) -> int,
    n: int,
)
    requires
        s.finite(),
        forall|e: EntryV| s.contains(e) ==> #[trigger] f(e) == n - r(e),
    ensures
        set_sum(s, f) == n * s.len() - set_sum(s, r),
    decreases s.len(),
{
    if s.len() == 0 {
        assert(s =~= Set::<EntryV>::empty());
        lemma_set_sum_empty(f);
        lemma_set_sum_empty(r);
    } else {
        let x = s.choose();
        crate::order::lemma_set_sum_remove(s, f, x);
        crate::order::lemma_set_sum_remove(s, r, x);
        lemma_sum_const_minus(s.remove(x), f, r, n);
        assert(n * s.len() == n * (s.len() - 1) + n) by (nonlinear_arith);
    }
}

/// `n * n - triangle(n) == triangle(n + 1)`: handing out `n - rank` over all
/// `n` ranks totals `n + (n-1) + ... + 1`.
proof fn lemma_triangle_shift(n: nat)
    ensures
        n * n - triangle(n) == triangle((n + 1) as nat),
{
    crate::order::lemma_triangle_double(n);
    assert(triangle((n + 1) as nat) == n + triangle(n));
    let m = n as int;
    assert(m * (m - 1) == m * m - m) by (nonlinear_arith);
}

} // verus!
