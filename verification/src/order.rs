//! Total orders used to rank records deterministically.
//!
//! Members are ordered by numeric id and then by the UTF-8 bytes of their
//! display name (the order std gives strings); entries are ordered by
//! timestamp first, with every remaining component as a tie-break, so that
//! two distinct records always compare one way. On top of the entry order
//! sit the counting rank (how many records of a group precede one) and the
//! arithmetic facts about summing those ranks that the scoring laws rest on.

use vstd::prelude::*;
use vstd::utf8::decode_utf8;
use vstd::utf8::encode_utf8;

use crate::leaderboard::{Entry, EntryV, Identifier, MemberV, ProblemPart};

verus! {

/// Strict lexicographic order on byte sequences.
pub open spec fn bytes_lt(a: Seq<u8>, b: Seq<u8>) -> bool
    decreases a.len(),
{
    if b.len() == 0 {
        false
    } else if a.len() == 0 {
        true
    } else if a[0] != b[0] {
        a[0] < b[0]
    } else {
        bytes_lt(a.drop_first(), b.drop_first())
    }
}

pub proof fn lemma_bytes_lt_connex(a: Seq<u8>, b: Seq<u8>)
    requires
        !bytes_lt(a, b),
        !bytes_lt(b, a),
    ensures
        a == b,
    decreases a.len(),
{
    if b.len() == 0 {
        assert(a =~= b);
    } else if a.len() == 0 {
    } else {
        lemma_bytes_lt_connex(a.drop_first(), b.drop_first());
        assert(a =~= seq![a[0]] + a.drop_first());
        assert(b =~= seq![b[0]] + b.drop_first());
    }
}

pub proof fn lemma_bytes_lt_asymm(a: Seq<u8>, b: Seq<u8>)
    requires
        bytes_lt(a, b),
    ensures
        !bytes_lt(b, a),
    decreases a.len(),
{
    if a.len() > 0 && b.len() > 0 && a[0] == b[0] {
        lemma_bytes_lt_asymm(a.drop_first(), b.drop_first());
    }
}

pub proof fn lemma_bytes_lt_trans(a: Seq<u8>, b: Seq<u8>, c: Seq<u8>)
    requires
        bytes_lt(a, b),
        bytes_lt(b, c),
    ensures
        bytes_lt(a, c),
    decreases a.len(),
{
    if a.len() > 0 && b.len() > 0 && c.len() > 0 && a[0] == b[0] && b[0] == c[0] {
        lemma_bytes_lt_trans(a.drop_first(), b.drop_first(), c.drop_first());
    }
}

pub proof fn lemma_bytes_lt_irrefl(a: Seq<u8>)
    ensures
        !bytes_lt(a, a),
    decreases a.len(),
{
    if a.len() > 0 {
        lemma_bytes_lt_irrefl(a.drop_first());
    }
}

/// Equal prefixes do not decide the comparison.
proof fn lemma_bytes_lt_skip(a: Seq<u8>, b: Seq<u8>, i: int)
    requires
        0 <= i <= a.len(),
        i <= b.len(),
        a.take(i) == b.take(i),
    ensures
        bytes_lt(a, b) == bytes_lt(a.skip(i), b.skip(i)),
    decreases i,
{
    if i > 0 {
        assert(a.take(i)[0] == a[0]);
        assert(b.take(i)[0] == b[0]);
        assert(a.drop_first().take(i - 1) =~= a.take(i).drop_first());
        assert(b.drop_first().take(i - 1) =~= b.take(i).drop_first());
        lemma_bytes_lt_skip(a.drop_first(), b.drop_first(), i - 1);
        assert(a.drop_first().skip(i - 1) =~= a.skip(i));
        assert(b.drop_first().skip(i - 1) =~= b.skip(i));
    } else {
        assert(a.skip(0) =~= a);
        assert(b.skip(0) =~= b);
    }
}

pub fn bytes_lt_exec(a: &[u8], b: &[u8]) -> (r: bool)
    ensures
        r == bytes_lt(a@, b@),
{
    let alen = a.len();
    let blen = b.len();
    let mut i: usize = 0;
    while i < alen && i < blen
        invariant
            0 <= i <= alen,
            i <= blen,
            alen == a@.len(),
            blen == b@.len(),
            a@.take(i as int) == b@.take(i as int),
        decreases alen - i,
    {
        let x = a[i];
        let y = b[i];
        if x != y {
            proof {
                lemma_bytes_lt_skip(a@, b@, i as int);
                assert(a@.skip(i as int)[0] == a@[i as int]);
                assert(b@.skip(i as int)[0] == b@[i as int]);
            }
            return x < y;
        }
        proof {
            assert(a@.take(i as int + 1) =~= b@.take(i as int + 1));
        }
        i += 1;
    }
    proof {
        lemma_bytes_lt_skip(a@, b@, i as int);
    }
    if i >= alen {
        proof {
            assert(a@.skip(i as int).len() == 0);
            assert(b@.skip(i as int).len() == b@.len() - i);
        }
        alen < blen
    } else {
        proof {
            assert(b@.skip(i as int).len() == 0);
        }
        false
    }
}

/// Strict total order on member identities: numeric id first, then the
/// display name by its UTF-8 bytes. Kept opaque so that quantified
/// contracts do not unfold the encoding; the lemmas below carry its order
/// properties.
#[verifier::opaque]
pub open spec fn member_lt(a: MemberV, b: MemberV) -> bool {
    if a.numeric != b.numeric {
        a.numeric < b.numeric
    } else {
        bytes_lt(encode_utf8(a.name), encode_utf8(b.name))
    }
}

pub proof fn lemma_member_lt_connex(a: MemberV, b: MemberV)
    requires
        !member_lt(a, b),
        !member_lt(b, a),
    ensures
        a == b,
{
    broadcast use vstd::utf8::encode_utf8_decode_utf8;

    reveal(member_lt);
    if a.numeric == b.numeric {
        lemma_bytes_lt_connex(encode_utf8(a.name), encode_utf8(b.name));
        assert(decode_utf8(encode_utf8(a.name)) == decode_utf8(encode_utf8(b.name)));
        assert(a =~= b);
    }
}

pub proof fn lemma_member_lt_asymm(a: MemberV, b: MemberV)
    requires
        member_lt(a, b),
    ensures
        !member_lt(b, a),
{
    reveal(member_lt);
    if a.numeric == b.numeric {
        lemma_bytes_lt_asymm(encode_utf8(a.name), encode_utf8(b.name));
    }
}

pub proof fn lemma_member_lt_irrefl(a: MemberV)
    ensures
        !member_lt(a, a),
{
    reveal(member_lt);
    lemma_bytes_lt_irrefl(encode_utf8(a.name));
}

pub proof fn lemma_member_lt_trans(a: MemberV, b: MemberV, c: MemberV)
    requires
        member_lt(a, b),
        member_lt(b, c),
    ensures
        member_lt(a, c),
{
    reveal(member_lt);
    if a.numeric == b.numeric && b.numeric == c.numeric {
        lemma_bytes_lt_trans(encode_utf8(a.name), encode_utf8(b.name), encode_utf8(c.name));
    }
}

pub fn member_lt_exec(a: &Identifier, b: &Identifier) -> (r: bool)
    ensures
        r == member_lt(a@, b@),
{
    proof {
        reveal(member_lt);
    }
    if a.numeric != b.numeric {
        a.numeric < b.numeric
    } else {
        bytes_lt_exec(a.name.as_str().as_bytes(), b.name.as_str().as_bytes())
    }
}

/// Order on the optional rank component: an unranked record precedes any
/// ranked one.
pub open spec fn opt_rank_lt(a: Option<int>, b: Option<int>) -> bool {
    match (a, b) {
        (Option::None, Option::Some(_)) => true,
        (Option::Some(x), Option::Some(y)) => x < y,
        _ => false,
    }
}

/// Numeric index of a part, for ordering.
pub open spec fn part_index(p: ProblemPart) -> int {
    match p {
        ProblemPart::FIRST => 1,
        ProblemPart::SECOND => 2,
    }
}

/// Strict total order on entries: chronological by timestamp, every other
/// component a tie-break, so distinct records always compare one way.
pub open spec fn entry_lt(a: EntryV, b: EntryV) -> bool {
    if a.timestamp != b.timestamp {
        a.timestamp < b.timestamp
    } else if a.id != b.id {
        member_lt(a.id, b.id)
    } else if a.rank != b.rank {
        opt_rank_lt(a.rank, b.rank)
    } else if part_index(a.part) != part_index(b.part) {
        part_index(a.part) < part_index(b.part)
    } else if a.year != b.year {
        a.year < b.year
    } else {
        a.day < b.day
    }
}

pub proof fn lemma_entry_lt_connex(a: EntryV, b: EntryV)
    requires
        !entry_lt(a, b),
        !entry_lt(b, a),
    ensures
        a == b,
{
    if a.id != b.id {
        lemma_member_lt_connex(a.id, b.id);
    }
    assert(a =~= b);
}

pub proof fn lemma_entry_lt_asymm(a: EntryV, b: EntryV)
    requires
        entry_lt(a, b),
    ensures
        !entry_lt(b, a),
{
    if a.timestamp == b.timestamp && a.id != b.id {
        lemma_member_lt_asymm(a.id, b.id);
    }
}

pub proof fn lemma_entry_lt_irrefl(a: EntryV)
    ensures
        !entry_lt(a, a),
{
}

pub proof fn lemma_entry_lt_trans(a: EntryV, b: EntryV, c: EntryV)
    requires
        entry_lt(a, b),
        entry_lt(b, c),
    ensures
        entry_lt(a, c),
{
    if a.timestamp == b.timestamp && b.timestamp == c.timestamp {
        if a.id != b.id {
            if b.id != c.id {
                lemma_member_lt_trans(a.id, b.id, c.id);
            }
            if a.id == c.id {
                lemma_member_lt_irrefl(a.id);
            }
        } else if b.id != c.id {
            if a.id == c.id {
                lemma_member_lt_irrefl(a.id);
            }
        } else {
            // identities all agree: the remaining components are compared
            // lexicographically, with only the optional rank needing care
            if a.rank != b.rank && b.rank != c.rank {
                assert(opt_rank_lt(a.rank, c.rank));
                assert(a.rank != c.rank);
            }
        }
    }
}

pub fn entry_lt_exec(a: &Entry, b: &Entry) -> (r: bool)
    ensures
        r == entry_lt(a@, b@),
{
    if a.timestamp != b.timestamp {
        a.timestamp < b.timestamp
    } else if !(a.id == b.id) {
        member_lt_exec(&a.id, &b.id)
    } else {
        let rank_eq = match (a.rank, b.rank) {
            (Some(x), Some(y)) => x == y,
            (None, None) => true,
            _ => false,
        };
        if !rank_eq {
            match (a.rank, b.rank) {
                (None, Some(_)) => true,
                (Some(x), Some(y)) => x < y,
                _ => false,
            }
        } else {
            let pa: u8 = match a.part {
                ProblemPart::FIRST => 1,
                ProblemPart::SECOND => 2,
            };
            let pb: u8 = match b.part {
                ProblemPart::FIRST => 1,
                ProblemPart::SECOND => 2,
            };
            if pa != pb {
                pa < pb
            } else if a.year != b.year {
                a.year < b.year
            } else {
                a.day < b.day
            }
        }
    }
}

/// Sum of `f` over a finite set.
pub open spec fn set_sum<A>(s: Set<A>, f: spec_fn(A) -> int) -> int {
    s.fold(0, |acc: int, x: A| acc + f(x))
}

pub proof fn lemma_set_sum_empty<A>(f: spec_fn(A) -> int)
    ensures
        set_sum(Set::<A>::empty(), f) == 0,
{
    vstd::set::fold::lemma_fold_empty(0, |acc: int, x: A| acc + f(x));
}

pub proof fn lemma_set_sum_insert<A>(s: Set<A>, f: spec_fn(A) -> int, a: A)
    requires
        s.finite(),
        !s.contains(a),
    ensures
        set_sum(s.insert(a), f) == set_sum(s, f) + f(a),
{
    vstd::set::fold::lemma_fold_insert(s, 0, |acc: int, x: A| acc + f(x), a);
}

pub proof fn lemma_set_sum_remove<A>(s: Set<A>, f: spec_fn(A) -> int, a: A)
    requires
        s.finite(),
        s.contains(a),
    ensures
        set_sum(s, f) == set_sum(s.remove(a), f) + f(a),
{
    lemma_set_sum_insert(s.remove(a), f, a);
    assert(s.remove(a).insert(a) =~= s);
}

/// Two functions that agree on every element of the set sum to the same
/// value over it.
pub proof fn lemma_set_sum_congruence<A>(s: Set<A>, f: spec_fn(A) -> int, g: spec_fn(A) -> int)
    requires
        s.finite(),
        forall|x: A| s.contains(x) ==> f(x) == g(x),
    ensures
        set_sum(s, f) == set_sum(s, g),
    decreases s.len(),
{
    if s.len() == 0 {
        assert(s =~= Set::<A>::empty());
        lemma_set_sum_empty(f);
        lemma_set_sum_empty(g);
    } else {
        let x = s.choose();
        lemma_set_sum_remove(s, f, x);
        lemma_set_sum_remove(s, g, x);
        lemma_set_sum_congruence(s.remove(x), f, g);
    }
}

/// A sum of values each between `lo` and `hi` lies between `lo` and `hi`
/// times the cardinality.
pub proof fn lemma_set_sum_bounds<A>(s: Set<A>, f: spec_fn(A) -> int, lo: int, hi: int)
    requires
        s.finite(),
        lo <= hi,
        forall|x: A| s.contains(x) ==> lo <= #[trigger] f(x) <= hi,
    ensures
        lo * s.len() <= set_sum(s, f) <= hi * s.len(),
    decreases s.len(),
{
    if s.len() == 0 {
        assert(s =~= Set::<A>::empty());
        lemma_set_sum_empty(f);
    } else {
        let x = s.choose();
        lemma_set_sum_remove(s, f, x);
        lemma_set_sum_bounds(s.remove(x), f, lo, hi);
        assert(lo * s.len() == lo * (s.len() - 1) + lo) by (nonlinear_arith);
        assert(hi * s.len() == hi * (s.len() - 1) + hi) by (nonlinear_arith);
    }
}

/// `0 + 1 + ... + (n - 1)`, the total local score a fully contested group
/// foregoes to ranking.
pub open spec fn triangle(n: nat) -> nat
    decreases n,
{
    if n == 0 {
        0
    } else {
        (n - 1) as nat + triangle((n - 1) as nat)
    }
}

pub proof fn lemma_triangle_double(n: nat)
    ensures
        2 * triangle(n) == n * (n - 1),
    decreases n,
{
    if n > 0 {
        lemma_triangle_double((n - 1) as nat);
        let t1 = triangle((n - 1) as nat) as int;
        let m = n as int;
        assert(triangle(n) as int == (m - 1) + t1);
        assert(2 * t1 == (m - 1) * (m - 2));
        assert(2 * ((m - 1) + t1) == 2 * (m - 1) + 2 * t1);
        assert(2 * (m - 1) + (m - 1) * (m - 2) == m * (m - 1)) by (nonlinear_arith)
            requires
                m >= 1,
        ;
        assert(2 * (triangle(n) as int) == m * (m - 1));
    } else {
        assert(triangle(n) == 0);
    }
}

pub proof fn lemma_triangle_closed_form(n: nat)
    ensures
        triangle(n) == n * (n - 1) / 2,
{
    lemma_triangle_double(n);
    assert(2 * triangle(n) / 2 == triangle(n)) by (nonlinear_arith);
}

/// A finite nonempty set has a greatest entry under the entry order.
pub proof fn lemma_exists_max(s: Set<EntryV>) -> (m: EntryV)
    requires
        s.finite(),
        s.len() > 0,
    ensures
        s.contains(m),
        forall|x: EntryV| s.contains(x) && x != m ==> entry_lt(x, m),
    decreases s.len(),
{
    let x = s.choose();
    if s.len() == 1 {
        assert forall|y: EntryV| s.contains(y) && y != x implies entry_lt(y, x) by {
            assert(s.remove(x).contains(y));
            assert(s.remove(x).len() == 0);
            assert(s.remove(x) =~= Set::<EntryV>::empty());
        }
        x
    } else {
        let rest = s.remove(x);
        let m0 = lemma_exists_max(rest);
        if entry_lt(m0, x) {
            assert forall|y: EntryV| s.contains(y) && y != x implies entry_lt(y, x) by {
                if y != m0 {
                    lemma_entry_lt_trans(y, m0, x);
                }
            }
            x
        } else {
            if !entry_lt(x, m0) {
                lemma_entry_lt_connex(x, m0);
                assert(rest.contains(m0));
                assert(false);
            }
            assert forall|y: EntryV| s.contains(y) && y != m0 implies entry_lt(y, m0) by {}
            m0
        }
    }
}

/// The counting rank of `e` within the finite set `s`: how many elements of
/// `s` the entry order places before `e`.
pub open spec fn rank_within(s: Set<EntryV>, e: EntryV) -> int {
    s.filter(|x: EntryV| entry_lt(x, e)).len() as int
}

/// Ranks within a finite set sum to `triangle` of its size: the counting
/// rank runs over `0 .. len` without repetition.
pub proof fn lemma_rank_sum(s: Set<EntryV>)
    requires
        s.finite(),
    ensures
        set_sum(s, |e: EntryV| rank_within(s, e)) == triangle(s.len()),
    decreases s.len(),
{
    let f = |e: EntryV| rank_within(s, e);
    if s.len() == 0 {
        assert(s =~= Set::<EntryV>::empty());
        lemma_set_sum_empty(f);
    } else {
        let m = lemma_exists_max(s);
        let rest = s.remove(m);
        let g = |e: EntryV| rank_within(rest, e);
        assert(s.filter(|x: EntryV| entry_lt(x, m)) =~= rest) by {
            assert forall|x: EntryV| rest.contains(x) implies s.filter(
                |x: EntryV| entry_lt(x, m),
            ).contains(x) by {}
            assert forall|x: EntryV|
                s.filter(|x: EntryV| entry_lt(x, m)).contains(x) implies rest.contains(x) by {
                lemma_entry_lt_irrefl(m);
            }
        }
        assert(f(m) == s.len() - 1);
        assert forall|e: EntryV| rest.contains(e) implies f(e) == g(e) by {
            assert(s.filter(|x: EntryV| entry_lt(x, e)) =~= rest.filter(
                |x: EntryV| entry_lt(x, e),
            )) by {
                if s.filter(|x: EntryV| entry_lt(x, e)).contains(m) {
                    lemma_entry_lt_asymm(e, m);
                }
            }
        }
        lemma_set_sum_remove(s, f, m);
        lemma_set_sum_congruence(rest, f, g);
        lemma_rank_sum(rest);
    }
}

/// Each rank is a position within the group: at least 0, and less than the
/// group's size for a member of the group.
pub proof fn lemma_rank_bounds(s: Set<EntryV>, e: EntryV)
    requires
        s.finite(),
    ensures
        0 <= rank_within(s, e),
        s.contains(e) ==> rank_within(s, e) < s.len(),
{
    let fs = s.filter(|x: EntryV| entry_lt(x, e));
    s.lemma_len_filter(|x: EntryV| entry_lt(x, e));
    if s.contains(e) {
        lemma_entry_lt_irrefl(e);
        assert(fs.subset_of(s.remove(e)));
        vstd::set_lib::lemma_len_subset(fs, s.remove(e));
    }
}

} // verus!
