//! Candidate neighbors and the order of a pool.

use vstd::prelude::*;
use crate::score::Score;

verus! {

/// Identifies a point within its segment.
pub type PointOffsetType = u32;

/// A point together with its score.
#[derive(Clone, Copy, Debug, PartialEq, Eq, Structural)]
pub struct ScoredPointOffset {
    pub idx: PointOffsetType,
    pub score: Score,
}

/// Score of a candidate neighbor, plus a flag that lets the refinement skip
/// pairs that an earlier pass has settled.
#[derive(Clone, Copy, Debug, PartialEq, Eq, Structural)]
pub struct Candidate {
    pub idx: PointOffsetType,
    pub score: Score,
    /// `true` if no refinement pass has kept this candidate yet.
    pub new_flag: bool,
}

impl Candidate {
    /// Whether this candidate stands before `other` in a sorted pool: it is
    /// closer, or as close and has the smaller id.
    pub open spec fn precedes(self, other: Candidate) -> bool {
        ||| self.score.rank() > other.score.rank()
        ||| self.score.rank() == other.score.rank() && self.idx < other.idx
    }

    /// Orders candidates closest first, ties broken by id.
    pub fn cmp_desc(&self, other: &Self) -> (order: std::cmp::Ordering)
        ensures
            match order {
                std::cmp::Ordering::Less => self.precedes(*other),
                std::cmp::Ordering::Greater => other.precedes(*self),
                std::cmp::Ordering::Equal => self.score == other.score && self.idx == other.idx,
            },
    {
        let left: i64 = self.score.total_rank();
        let right: i64 = other.score.total_rank();
        if left > right {
            std::cmp::Ordering::Less
        } else if left < right {
            std::cmp::Ordering::Greater
        } else if self.idx < other.idx {
            std::cmp::Ordering::Less
        } else if self.idx > other.idx {
            std::cmp::Ordering::Greater
        } else {
            std::cmp::Ordering::Equal
        }
    }
}

/// Whether `pool` stands closest first, ties broken by id.
pub open spec fn in_order(pool: Seq<Candidate>) -> bool {
    forall|i: int, j: int|
        0 <= i < j < pool.len() ==> !(#[trigger] pool[j]).precedes(#[trigger] pool[i])
}

/// Whether `sorted` is `pool` put in order. Candidates of one point with one
/// score may differ in their flags, and may stand either way round.
pub open spec fn sorts_to(pool: Seq<Candidate>, sorted: Seq<Candidate>) -> bool {
    &&& sorted.to_multiset() == pool.to_multiset()
    &&& in_order(sorted)
}

/// `pool` with every run of candidates of one point cut to its first.
pub open spec fn deduped(pool: Seq<Candidate>) -> Seq<Candidate>
    decreases pool.len(),
{
    if pool.len() == 0 {
        pool
    } else {
        let before = deduped(pool.drop_last());
        if before.len() > 0 && before.last().idx == pool.last().idx {
            before
        } else {
            before.push(pool.last())
        }
    }
}

/// The first `cap` candidates of `pool`, or all of them.
pub open spec fn capped(pool: Seq<Candidate>, cap: nat) -> Seq<Candidate> {
    if pool.len() > cap {
        pool.take(cap as int)
    } else {
        pool
    }
}

/// `pool` with every flag set to `new_flag`.
pub open spec fn flagged(pool: Seq<Candidate>, new_flag: bool) -> Seq<Candidate> {
    pool.map_values(|c: Candidate| Candidate { new_flag, ..c })
}

/// Sorts a pool by `slice::sort_unstable_by` with [`Candidate::cmp_desc`], of
/// which it claims that the items are kept and stand in the comparator's order.
/// Which of two items that the comparator holds equal comes first is left open.
#[verifier::external_body]
pub(crate) fn sort_pool(pool: &mut Vec<Candidate>)
    ensures
        sorts_to(old(pool)@, final(pool)@),
{
    pool.sort_unstable_by(Candidate::cmp_desc);
}

/// Cuts every run of candidates of one point to its first.
pub(crate) fn dedup_pool(pool: &Vec<Candidate>) -> (unique: Vec<Candidate>)
    ensures
        unique@ == deduped(pool@),
{
    let mut unique: Vec<Candidate> = Vec::new();
    let mut i: usize = 0;
    assert(pool@.take(0) =~= Seq::empty());
    while i < pool.len()
        invariant
            i <= pool@.len(),
            unique@ == deduped(pool@.take(i as int)),
        decreases pool@.len() - i,
    {
        let candidate: Candidate = pool[i];
        assert(pool@.take(i + 1).drop_last() =~= pool@.take(i as int));
        let count: usize = unique.len();
        if count == 0 || unique[count - 1].idx != candidate.idx {
            unique.push(candidate);
        }
        i = i + 1;
    }
    assert(pool@.take(pool@.len() as int) =~= pool@);
    unique
}

/// Keeps the first `cap` candidates.
pub(crate) fn cap_pool(pool: &mut Vec<Candidate>, cap: usize)
    ensures
        final(pool)@ == capped(old(pool)@, cap as nat),
{
    if pool.len() > cap {
        pool.truncate(cap);
    }
}

/// Sets every flag to `new_flag`.
pub(crate) fn flag_pool(pool: &mut Vec<Candidate>, new_flag: bool)
    ensures
        final(pool)@ == flagged(old(pool)@, new_flag),
{
    let ghost before = pool@;
    let mut i: usize = 0;
    while i < pool.len()
        invariant
            i <= pool@.len(),
            pool@.len() == before.len(),
            forall|j: int| 0 <= j < i ==> pool@[j] == flagged(before, new_flag)[j],
            forall|j: int| i <= j < pool@.len() ==> pool@[j] == before[j],
        decreases pool@.len() - i,
    {
        let candidate: Candidate = pool[i];
        pool[i] = Candidate { idx: candidate.idx, score: candidate.score, new_flag };
        i = i + 1;
    }
    assert(pool@ =~= flagged(before, new_flag));
}

} // verus!
