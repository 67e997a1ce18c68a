//! The algebra of [`crate::leaderboard::Leaderboard::merge`] and
//! [`crate::leaderboard::Leaderboard::difference`], stated over the set view
//! that those operations' contracts are written in.

use vstd::prelude::*;

use crate::leaderboard::{EntryV, Leaderboard};

verus! {

/// Merging is commutative and idempotent: folding snapshot `b` into `a`
/// records the same set of facts as folding `a` into `b`, and folding a
/// snapshot into itself changes nothing.
pub proof fn lemma_merge_commutative_idempotent(a: Leaderboard, b: Leaderboard)
    requires
        a.wf(),
        b.wf(),
    ensures
        a@.union(b@) == b@.union(a@),
        a@.union(a@) == a@,
{
    assert(a@.union(b@) =~= b@.union(a@));
    assert(a@.union(a@) =~= a@);
}

/// Difference complements merge: merging into `a` exactly the facts of `b`
/// that `a` lacks recovers the merge of the two, and a snapshot differs from
/// itself in nothing.
pub proof fn lemma_difference_complements_merge(a: Leaderboard, b: Leaderboard)
    requires
        a.wf(),
        b.wf(),
    ensures
        a@.union(b@.difference(a@)) == a@.union(b@),
        a@.difference(a@) == Set::<EntryV>::empty(),
{
    assert(a@.union(b@.difference(a@))  =~= a@.union(b@));
    assert(a@.difference(a@) =~= Set::<EntryV>::empty());
}

/// Merging the same incoming snapshot twice is the same as merging it once:
/// repeated polls that return the whole upstream state fold in without
/// duplicating anything.
pub proof fn lemma_merge_round_trip(lb: Leaderboard, incoming: Leaderboard)
    requires
        lb.wf(),
        incoming.wf(),
    ensures
        lb@.union(lb@.union(incoming@)) == lb@.union(incoming@),
{
    assert(lb@.union(lb@.union(incoming@)) =~= lb@.union(incoming@));
}

} // verus!
