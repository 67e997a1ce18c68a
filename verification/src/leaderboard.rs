//! Data model: a single completion record ([`Entry`]) and the deduplicating
//! collection of such records ([`Leaderboard`]).
//!
//! A leaderboard is mathematically a *set* of entries: an entry is one
//! immutable fact ("member X completed part P of day D of year Y at time T",
//! plus the rank it held when it came from a public top-100 board), two
//! entries are the same fact exactly when every component matches, and
//! repeated polls of the upstream source are folded in by set union so that
//! nothing is ever counted twice or lost.

use vstd::prelude::*;

use crate::error::BotError;

verus! {

/// Which of the two parts of a day's puzzle an entry is about.
#[derive(Clone, Copy, Debug, PartialEq, Eq, Structural, Hash)]
#[allow(non_camel_case_types)]
pub enum ProblemPart {
    FIRST,
    SECOND,
}

impl ProblemPart {
    /// Part number (1 or 2) to part; no other number names a part.
    pub fn from(input: usize) -> (r: Self)
        requires
            1 <= input <= 2,
        ensures
            r == (if input == 1 { ProblemPart::FIRST } else { ProblemPart::SECOND }),
    {
        if input == 1 {
            ProblemPart::FIRST
        } else {
            ProblemPart::SECOND
        }
    }
}

/// Mathematical value of an [`Identifier`]: the display name as a sequence of
/// characters together with the stable numeric id. Two identifiers denote the
/// same member exactly when both components match.
#[verifier::ext_equal]
pub ghost struct MemberV {
    pub name: Seq<char>,
    pub numeric: int,
}

/// A participant's identity on one leaderboard: display name and numeric id.
#[derive(Debug)]
pub struct Identifier {
    pub name: String,
    pub numeric: u64,
}

impl View for Identifier {
    type V = MemberV;

    open spec fn view(&self) -> MemberV {
        MemberV { name: self.name@, numeric: self.numeric as int }
    }
}

impl Clone for Identifier {
    fn clone(&self) -> (r: Self)
        ensures
            r@ == self@,
    {
        Identifier { name: self.name.clone(), numeric: self.numeric }
    }
}

impl PartialEq for Identifier {
    fn eq(&self, other: &Identifier) -> (r: bool) {
        self.numeric == other.numeric && self.name == other.name
    }
}

impl Eq for Identifier {

}

impl vstd::std_specs::cmp::PartialEqSpecImpl for Identifier {
    open spec fn obeys_eq_spec() -> bool {
        true
    }

    open spec fn eq_spec(&self, other: &Identifier) -> bool {
        self@ == other@
    }
}

/// Mathematical value of an [`Entry`].
#[verifier::ext_equal]
pub ghost struct EntryV {
    pub timestamp: int,
    pub year: int,
    pub day: int,
    pub part: ProblemPart,
    pub id: MemberV,
    pub rank: Option<int>,
}

/// The bounds every stored entry satisfies: a day of the event (1 to 25), an
/// event year the upstream source can describe, and a timestamp within the
/// same era (seconds since the Unix epoch, non-negative and well below any
/// release time the model can produce).
pub open spec fn entry_valid(e: EntryV) -> bool {
    &&& 1 <= e.day <= 25
    &&& 2015 <= e.year <= 9999
    &&& 0 <= e.timestamp < 400_000_000_000
}

/// One immutable completion fact. Entries compare by the full tuple: there is
/// no synthetic key, and identical tuples collapse into one record.
#[derive(Debug)]
pub struct Entry {
    pub timestamp: i64,
    pub year: i32,
    pub day: u8,
    pub part: ProblemPart,
    pub id: Identifier,
    pub rank: Option<u8>,
}

impl View for Entry {
    type V = EntryV;

    open spec fn view(&self) -> EntryV {
        EntryV {
            timestamp: self.timestamp as int,
            year: self.year as int,
            day: self.day as int,
            part: self.part,
            id: self.id@,
            rank: match self.rank {
                Some(r) => Some(r as int),
                None => None,
            },
        }
    }
}

impl Clone for Entry {
    fn clone(&self) -> (r: Self)
        ensures
            r@ == self@,
    {
        Entry {
            timestamp: self.timestamp,
            year: self.year,
            day: self.day,
            part: self.part,
            id: self.id.clone(),
            rank: self.rank,
        }
    }
}

impl PartialEq for Entry {
    fn eq(&self, other: &Entry) -> (r: bool) {
        self.timestamp == other.timestamp && self.year == other.year && self.day == other.day
            && self.part == other.part && self.id == other.id && match (self.rank, other.rank) {
            (Some(a), Some(b)) => a == b,
            (None, None) => true,
            _ => false,
        }
    }
}

impl Eq for Entry {

}

impl vstd::std_specs::cmp::PartialEqSpecImpl for Entry {
    open spec fn obeys_eq_spec() -> bool {
        true
    }

    open spec fn eq_spec(&self, other: &Entry) -> bool {
        self@ == other@
    }
}

impl Entry {
    /// Whether this record satisfies the stored-entry bounds; callers outside
    /// verified code use this to validate before inserting.
    pub fn is_valid(&self) -> (r: bool)
        ensures
            r == entry_valid(self@),
    {
        1 <= self.day && self.day <= 25 && 2015 <= self.year && self.year <= 9999
            && 0 <= self.timestamp && self.timestamp < 400_000_000_000
    }
}

/// A deduplicated collection of completion records. Its mathematical value is
/// the set of the records' values; the order entries are held in is not
/// observable through any contract.
#[derive(Debug)]
pub struct Leaderboard {
    entries: Vec<Entry>,
}

impl View for Leaderboard {
    type V = Set<EntryV>;

    closed spec fn view(&self) -> Set<EntryV> {
        self.entry_seq().to_set()
    }
}

impl Leaderboard {
    /// The stored records in their internal order; contracts are stated over
    /// the set view, which this sequence carries without duplicates.
    pub closed spec fn entry_seq(&self) -> Seq<EntryV> {
        self.entries@.map_values(|e: Entry| e@)
    }

    /// Well-formedness: no duplicate facts, and every record within bounds.
    pub open spec fn wf(&self) -> bool {
        &&& self.entry_seq().no_duplicates()
        &&& forall|i: int|
            0 <= i < self.entry_seq().len() ==> entry_valid(#[trigger] self.entry_seq()[i])
    }

    pub proof fn lemma_view_is_entry_seq(&self)
        ensures
            self@ == self.entry_seq().to_set(),
            forall|e: EntryV| self@.contains(e) <==> self.entry_seq().contains(e),
            self@.finite(),
    {
        broadcast use vstd::seq_lib::seq_to_set_is_finite;

    }

    /// Every stored fact of a well-formed board is within bounds.
    pub proof fn lemma_wf_entries_valid(&self)
        requires
            self.wf(),
        ensures
            forall|e: EntryV| self@.contains(e) ==> entry_valid(e),
    {
        self.lemma_view_is_entry_seq();
        assert forall|e: EntryV| self@.contains(e) implies entry_valid(e) by {
            let i = choose|i: int|
                0 <= i < self.entry_seq().len() && self.entry_seq()[i] == e;
        }
    }

    pub fn new() -> (r: Leaderboard)
        ensures
            r.wf(),
            r@ == Set::<EntryV>::empty(),
    {
        let r = Leaderboard { entries: Vec::new() };
        proof {
            assert(r.entry_seq() =~= Seq::<EntryV>::empty());
            assert(r@ =~= Set::<EntryV>::empty());
        }
        r
    }

    pub fn len(&self) -> (r: usize)
        requires
            self.wf(),
        ensures
            r == self@.len(),
    {
        proof {
            self.lemma_view_is_entry_seq();
            self.entry_seq().unique_seq_to_set();
        }
        self.entries.len()
    }

    /// The externally published boards hold 100 records per part; a board
    /// scoped to one day is complete at exactly 200 records.
    pub fn is_global_complete(&self) -> (r: bool)
        requires
            self.wf(),
        ensures
            r == (self@.len() == 200),
    {
        self.len() == 200
    }

    /// Number of stored records (for indexed traversal).
    pub fn entry_count(&self) -> (r: usize)
        ensures
            r == self.entry_seq().len(),
    {
        self.entries.len()
    }

    /// The record at an index of the internal order (for indexed traversal).
    pub fn entry_at(&self, i: usize) -> (r: &Entry)
        requires
            i < self.entry_seq().len(),
        ensures
            r@ == self.entry_seq()[i as int],
            self@.contains(r@),
    {
        proof {
            self.lemma_view_is_entry_seq();
            assert(self.entry_seq().contains(self.entry_seq()[i as int]));
        }
        &self.entries[i]
    }

    /// Whether this exact fact is already recorded.
    pub fn contains_entry(&self, e: &Entry) -> (r: bool)
        ensures
            r == self@.contains(e@),
    {
        proof {
            self.lemma_view_is_entry_seq();
        }
        let n = self.entries.len();
        let mut i: usize = 0;
        while i < n
            invariant
                n == self.entries.len(),
                0 <= i <= n,
                forall|j: int| 0 <= j < i ==> self.entry_seq()[j] != e@,
            decreases n - i,
        {
            if self.entries[i] == *e {
                assert(self.entry_seq()[i as int] == e@);
                return true;
            }
            i += 1;
        }
        assert(!self.entry_seq().contains(e@));
        false
    }

    /// Record one fact. A record outside the stored-entry bounds is rejected
    /// as malformed, mirroring the upstream validation this model relies on;
    /// a fact already present changes nothing.
    pub fn add(&mut self, e: Entry) -> (r: Result<(), BotError>)
        requires
            old(self).wf(),
        ensures
            final(self).wf(),
            entry_valid(e@) ==> r is Ok && final(self)@ == old(self)@.insert(e@),
            !entry_valid(e@) ==> r is Err && final(self)@ == old(self)@,
    {
        if !e.is_valid() {
            return Err(BotError::Parse);
        }
        if self.contains_entry(&e) {
            proof {
                self.lemma_view_is_entry_seq();
                assert(self@.insert(e@) =~= self@);
            }
            return Ok(());
        }
        let ghost pre = self.entry_seq();
        self.entries.push(e);
        proof {
            assert(self.entry_seq() =~= pre.push(e@));
            lemma_push_to_set(pre, e@);
            assert(self@ =~= old(self)@.insert(e@));
            lemma_push_no_duplicates(pre, e@);
        }
        Ok(())
    }

    /// Fold another snapshot in: set union. Nothing is removed or changed;
    /// facts present in both snapshots are kept once.
    pub fn merge(&mut self, other: &Leaderboard)
        requires
            old(self).wf(),
            other.wf(),
        ensures
            final(self).wf(),
            final(self)@ == old(self)@.union(other@),
    {
        proof {
            other.lemma_view_is_entry_seq();
        }
        let n = other.entries.len();
        let mut i: usize = 0;
        while i < n
            invariant
                n == other.entries.len(),
                other.wf(),
                0 <= i <= n,
                self.wf(),
                self@ == old(self)@.union(other.entry_seq().take(i as int).to_set()),
            decreases n - i,
        {
            let ghost pre = self@;
            let e = &other.entries[i];
            assert(entry_valid(e@)) by {
                assert(other.entry_seq()[i as int] == e@);
            }
            if !self.contains_entry(e) {
                let ghost sp = self.entry_seq();
                self.entries.push(e.clone());
                proof {
                    assert(self.entry_seq() =~= sp.push(e@));
                    lemma_push_to_set(sp, e@);
                    lemma_push_no_duplicates(sp, e@);
                }
            }
            proof {
                lemma_take_one_more_to_set(other.entry_seq(), i as int);
                assert(self@ =~= old(self)@.union(
                    other.entry_seq().take(i as int + 1).to_set(),
                ));
            }
            i += 1;
        }
        proof {
            assert(other.entry_seq().take(n as int) =~= other.entry_seq());
            assert(self@ =~= old(self)@.union(other@));
        }
    }

    /// The facts recorded here but absent from `baseline`: pure set
    /// difference, used to detect what is new since an earlier poll. A member
    /// whose display name changed upstream is not matched across the rename.
    pub fn difference(&self, baseline: &Leaderboard) -> (r: Leaderboard)
        requires
            self.wf(),
            baseline.wf(),
        ensures
            r.wf(),
            r@ == self@.difference(baseline@),
    {
        proof {
            self.lemma_view_is_entry_seq();
        }
        let n = self.entries.len();
        let mut out = Leaderboard { entries: Vec::new() };
        proof {
            assert(out.entry_seq() =~= Seq::<EntryV>::empty());
            assert(out@ =~= self.entry_seq().take(0).to_set().difference(baseline@));
        }
        let mut i: usize = 0;
        while i < n
            invariant
                n == self.entries.len(),
                self.wf(),
                baseline.wf(),
                0 <= i <= n,
                out.wf(),
                out@ == self.entry_seq().take(i as int).to_set().difference(baseline@),
            decreases n - i,
        {
            let e = &self.entries[i];
            assert(self.entry_seq()[i as int] == e@);
            if !baseline.contains_entry(e) {
                let ghost sp = out.entry_seq();
                proof {
                    lemma_no_dup_prefix_misses(self.entry_seq(), i as int);
                }
                out.entries.push(e.clone());
                proof {
                    assert(out.entry_seq() =~= sp.push(e@));
                    lemma_push_to_set(sp, e@);
                    lemma_push_no_duplicates(sp, e@);
                }
            }
            proof {
                lemma_take_one_more_to_set(self.entry_seq(), i as int);
                assert(out@ =~= self.entry_seq().take(i as int + 1).to_set().difference(
                    baseline@,
                ));
            }
            i += 1;
        }
        proof {
            assert(self.entry_seq().take(n as int) =~= self.entry_seq());
            assert(out@ =~= self@.difference(baseline@));
        }
        out
    }
}

pub proof fn lemma_push_to_set(s: Seq<EntryV>, e: EntryV)
    ensures
        s.push(e).to_set() == s.to_set().insert(e),
{
    broadcast use vstd::seq_lib::group_seq_properties;

    assert(s.push(e).to_set() =~= s.to_set().insert(e)) by {
        assert forall|x: EntryV| #[trigger]
            s.push(e).to_set().contains(x) implies s.to_set().insert(e).contains(x) by {
            let i = choose|i: int| 0 <= i < s.push(e).len() && s.push(e)[i] == x;
            if i < s.len() {
                assert(s[i] == x);
            }
        }
        assert forall|x: EntryV| #[trigger]
            s.to_set().insert(e).contains(x) implies s.push(e).to_set().contains(x) by {
            if s.to_set().contains(x) {
                let i = choose|i: int| 0 <= i < s.len() && s[i] == x;
                assert(s.push(e)[i] == x);
            } else {
                assert(s.push(e)[s.len() as int] == e);
            }
        }
    }
}

pub proof fn lemma_push_no_duplicates(s: Seq<EntryV>, e: EntryV)
    requires
        s.no_duplicates(),
        !s.to_set().contains(e),
    ensures
        s.push(e).no_duplicates(),
{
    assert forall|i: int, j: int|
        0 <= i < j < s.push(e).len() implies s.push(e)[i] != s.push(e)[j] by {
        if j == s.len() {
            assert(s[i] == s.push(e)[i]);
            assert(s.to_set().contains(s[i]));
        }
    }
}

pub proof fn lemma_no_dup_prefix_misses(s: Seq<EntryV>, i: int)
    requires
        s.no_duplicates(),
        0 <= i < s.len(),
    ensures
        !s.take(i).to_set().contains(s[i]),
{
    if s.take(i).to_set().contains(s[i]) {
        let j = choose|j: int| 0 <= j < s.take(i).len() && s.take(i)[j] == s[i];
        assert(s[j] == s[i]);
    }
}

pub proof fn lemma_take_one_more_to_set(s: Seq<EntryV>, i: int)
    requires
        0 <= i < s.len(),
    ensures
        s.take(i + 1).to_set() == s.take(i).to_set().insert(s[i]),
{
    assert(s.take(i + 1) =~= s.take(i).push(s[i]));
    lemma_push_to_set(s.take(i), s[i]);
}

} // verus!
