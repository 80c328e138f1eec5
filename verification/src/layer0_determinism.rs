//! The refinement has one result.
//!
//! Sorting leaves open which of two candidates of one point with one score comes
//! first; they may differ in their flags. That does not matter. A flag only saves
//! comparisons whose outcome is known: two candidates that are not new do not stop
//! one another. So the pools of two runs agree in all but flags after every step, and
//! the neighbor lists agree.

use vstd::prelude::*;
use crate::candidate::{Candidate, PointOffsetType, ScoredPointOffset};
use crate::layer0_model::HandedOn;
use crate::score::Score;

verus! {

/// `pool` with all flags set, so that they tell nothing.
pub open spec fn unflagged(pool: Seq<Candidate>) -> Seq<Candidate> {
    crate::candidate::flagged(pool, true)
}

/// `graph` with all flags set.
pub open spec fn unflagged_graph(graph: Seq<Seq<Candidate>>) -> Seq<Seq<Candidate>> {
    graph.map_values(|pool: Seq<Candidate>| unflagged(pool))
}

/// `handed` with all flags set.
pub open spec fn unflagged_handed(handed: Seq<HandedOn>) -> Seq<HandedOn> {
    handed.map_values(
        |moved: HandedOn|
            HandedOn {
                to: moved.to,
                candidate: Candidate { new_flag: true, ..moved.candidate },
            },
    )
}

/// Whether no candidate of `pool` that is not new stops another such one behind it.
pub open spec fn is_calm(
    pool: Seq<Candidate>,
    score: spec_fn(PointOffsetType, PointOffsetType) -> Score,
) -> bool {
    forall|i: int, j: int|
        0 <= i < pool.len() && 0 <= j < pool.len() && !pool[i].new_flag && !pool[j].new_flag
            && pool[i].precedes(pool[j]) ==> pool[i].idx != pool[j].idx && !score(
            (#[trigger] pool[j]).idx,
            (#[trigger] pool[i]).idx,
        ).exceeds(pool[j].score)
}

/// Whether all pools of `graph` are calm.
pub open spec fn is_calm_graph(
    graph: Seq<Seq<Candidate>>,
    score: spec_fn(PointOffsetType, PointOffsetType) -> Score,
) -> bool {
    forall|u: int| 0 <= u < graph.len() ==> is_calm(#[trigger] graph[u], score)
}

// ---------------------------------------------------------------------------
// Sorting
// ---------------------------------------------------------------------------

/// Without flags a candidate occurs as often as it did with either.
proof fn lemma_unflagged_counts(pool: Seq<Candidate>, x: Candidate)
    ensures
        unflagged(pool).to_multiset().count(x) == if x.new_flag {
            pool.to_multiset().count(x) + pool.to_multiset().count(
                Candidate { new_flag: false, ..x },
            )
        } else {
            0
        },
    decreases pool.len(),
{
    broadcast use vstd::seq_lib::group_to_multiset_ensures;

    if pool.len() == 0 {
        assert(unflagged(pool) =~= Seq::<Candidate>::empty());
        assert(pool =~= Seq::<Candidate>::empty());
    } else {
        let shorter = pool.drop_last();
        let last = pool.last();
        lemma_unflagged_counts(shorter, x);
        assert(pool =~= shorter.push(last));
        assert(unflagged(pool) =~= unflagged(shorter).push(Candidate { new_flag: true, ..last }));
    }
}

/// Sorting keeps what a pool holds without flags.
proof fn lemma_sorted_unflagged(pool: Seq<Candidate>, sorted: Seq<Candidate>)
    requires
        crate::candidate::sorts_to(pool, sorted),
    ensures
        unflagged(sorted).to_multiset() == unflagged(pool).to_multiset(),
        crate::candidate::in_order(unflagged(sorted)),
{
    assert forall|x: Candidate|
        unflagged(sorted).to_multiset().count(x) == unflagged(pool).to_multiset().count(x) by {
        lemma_unflagged_counts(sorted, x);
        lemma_unflagged_counts(pool, x);
    }
    assert(unflagged(sorted).to_multiset() =~= unflagged(pool).to_multiset());
    let bare = unflagged(sorted);
    assert forall|i: int, j: int| 0 <= i < j < bare.len() implies !(#[trigger] bare[j]).precedes(
        #[trigger] bare[i],
    ) by {
        assert(!sorted[j].precedes(sorted[i]));
    }
}

/// There is one way to put candidates in order that do not differ in flags alone.
proof fn lemma_order_is_unique(one: Seq<Candidate>, two: Seq<Candidate>)
    requires
        crate::candidate::in_order(one),
        crate::candidate::in_order(two),
        one.to_multiset() == two.to_multiset(),
        forall|i: int| 0 <= i < one.len() ==> (#[trigger] one[i]).new_flag,
        forall|i: int| 0 <= i < two.len() ==> (#[trigger] two[i]).new_flag,
    ensures
        one == two,
    decreases one.len(),
{
    broadcast use vstd::seq_lib::group_to_multiset_ensures;

    assert(one.len() == one.to_multiset().len());
    assert(two.len() == two.to_multiset().len());
    if one.len() == 0 {
        assert(one =~= two);
    } else {
        let a = one.last();
        let b = two.last();
        assert(one[one.len() - 1] == a && two[two.len() - 1] == b);
        assert(one.contains(a));
        assert(two.contains(b));
        assert(two.to_multiset().count(a) > 0);
        assert(one.to_multiset().count(b) > 0);
        assert(two.contains(a));
        assert(one.contains(b));
        let j = choose|j: int| 0 <= j < two.len() && two[j] == a;
        let i = choose|i: int| 0 <= i < one.len() && one[i] == b;
        if a != b {
            assert(!two[two.len() - 1].precedes(two[j]));
            assert(!one[one.len() - 1].precedes(one[i]));
            crate::score::law_rank_refines_comparison(a.score, b.score);
        }
        let shorter = one.drop_last();
        let fewer = two.drop_last();
        assert(one =~= shorter.push(a));
        assert(two =~= fewer.push(a));
        assert(shorter.to_multiset() =~= one.to_multiset().remove(a));
        assert(fewer.to_multiset() =~= two.to_multiset().remove(a));
        assert forall|i: int, j: int| 0 <= i < j < shorter.len() implies !(
        #[trigger] shorter[j]).precedes(#[trigger] shorter[i]) by {
            assert(!one[j].precedes(one[i]));
        }
        assert forall|i: int, j: int| 0 <= i < j < fewer.len() implies !(
        #[trigger] fewer[j]).precedes(#[trigger] fewer[i]) by {
            assert(!two[j].precedes(two[i]));
        }
        assert forall|i: int| 0 <= i < shorter.len() implies (#[trigger] shorter[i]).new_flag by {
            assert(one[i].new_flag);
        }
        assert forall|i: int| 0 <= i < fewer.len() implies (#[trigger] fewer[i]).new_flag by {
            assert(two[i].new_flag);
        }
        lemma_order_is_unique(shorter, fewer);
    }
}

/// Pools that agree in all but flags are sorted alike in all but flags.
proof fn lemma_sorted_alike(
    one: Seq<Candidate>,
    two: Seq<Candidate>,
    sorted_one: Seq<Candidate>,
    sorted_two: Seq<Candidate>,
)
    requires
        unflagged(one) == unflagged(two),
        crate::candidate::sorts_to(one, sorted_one),
        crate::candidate::sorts_to(two, sorted_two),
    ensures
        unflagged(sorted_one) == unflagged(sorted_two),
{
    lemma_sorted_unflagged(one, sorted_one);
    lemma_sorted_unflagged(two, sorted_two);
    lemma_order_is_unique(unflagged(sorted_one), unflagged(sorted_two));
}

/// Cutting runs does not look at flags.
proof fn lemma_deduped_unflagged(pool: Seq<Candidate>)
    ensures
        unflagged(crate::candidate::deduped(pool)) == crate::candidate::deduped(unflagged(pool)),
    decreases pool.len(),
{
    if pool.len() == 0 {
        assert(unflagged(pool) =~= pool);
    } else {
        let shorter = pool.drop_last();
        lemma_deduped_unflagged(shorter);
        assert(unflagged(pool).drop_last() =~= unflagged(shorter));
        let before = crate::candidate::deduped(shorter);
        assert(unflagged(before).len() == before.len());
        if before.len() > 0 {
            assert(unflagged(before).last().idx == before.last().idx);
        }
        assert(unflagged(crate::candidate::deduped(pool)) =~= crate::candidate::deduped(
            unflagged(pool),
        ));
    }
}

/// Capping does not look at flags.
proof fn lemma_capped_unflagged(pool: Seq<Candidate>, cap: nat)
    ensures
        unflagged(crate::candidate::capped(pool, cap)) == crate::candidate::capped(
            unflagged(pool),
            cap,
        ),
{
    assert(unflagged(crate::candidate::capped(pool, cap)) =~= crate::candidate::capped(
        unflagged(pool),
        cap,
    ));
}

// ---------------------------------------------------------------------------
// Updates
// ---------------------------------------------------------------------------

/// Where no kept candidate that is not new stops such an `nn`, flags do not matter to
/// what stops `nn`.
proof fn lemma_blocker_unflagged(
    kept: Seq<Candidate>,
    nn: Candidate,
    score: spec_fn(PointOffsetType, PointOffsetType) -> Score,
)
    requires
        forall|i: int|
            0 <= i < kept.len() && !(#[trigger] kept[i]).new_flag && !nn.new_flag ==> {
                &&& kept[i].idx != nn.idx
                &&& !score(nn.idx, kept[i].idx).exceeds(nn.score)
            },
    ensures
        crate::layer0_model::blocker(
            unflagged(kept),
            Candidate { new_flag: true, ..nn },
            score,
        ) == match crate::layer0_model::blocker(kept, nn, score) {
            Some(other) => Some(Candidate { new_flag: true, ..other }),
            None => None,
        },
    decreases kept.len(),
{
    if kept.len() > 0 {
        let shorter = kept.drop_last();
        assert forall|i: int|
            0 <= i < shorter.len() && !(#[trigger] shorter[i]).new_flag && !nn.new_flag implies {
            &&& shorter[i].idx != nn.idx
            &&& !score(nn.idx, shorter[i].idx).exceeds(nn.score)
        } by {
            assert(shorter[i] == kept[i]);
        }
        lemma_blocker_unflagged(shorter, nn, score);
        assert(unflagged(kept).drop_last() =~= unflagged(shorter));
        assert(kept[kept.len() - 1] == kept.last());
        assert(unflagged(kept).last() == Candidate { new_flag: true, ..kept.last() });
    }
}

/// What the refinement keeps comes from the pool, and what it hands on is new.
pub proof fn lemma_refined_members(
    pool: Seq<Candidate>,
    u: int,
    score: spec_fn(PointOffsetType, PointOffsetType) -> Score,
)
    ensures
        forall|i: int|
            0 <= i < crate::layer0_model::refined(pool, u, score).kept.len() ==> pool.contains(
                #[trigger] crate::layer0_model::refined(pool, u, score).kept[i],
            ),
        unflagged_handed(crate::layer0_model::refined(pool, u, score).handed)
            == crate::layer0_model::refined(pool, u, score).handed,
    decreases pool.len(),
{
    let result = crate::layer0_model::refined(pool, u, score);
    if pool.len() > 0 {
        let shorter = pool.drop_last();
        let before = crate::layer0_model::refined(shorter, u, score);
        lemma_refined_members(shorter, u, score);
        assert forall|i: int| 0 <= i < result.kept.len() implies pool.contains(
            #[trigger] result.kept[i],
        ) by {
            if i < before.kept.len() {
                assert(shorter.contains(before.kept[i]));
                let k = choose|k: int| 0 <= k < shorter.len() && shorter[k] == before.kept[i];
                assert(pool[k] == result.kept[i]);
            } else {
                assert(pool[pool.len() - 1] == result.kept[i]);
            }
        }
        assert forall|i: int| 0 <= i < result.handed.len() implies unflagged_handed(
            result.handed,
        )[i] == result.handed[i] by {
            if i < before.handed.len() {
                assert(unflagged_handed(before.handed)[i] == before.handed[i]);
            }
        }
    }
    assert(unflagged_handed(result.handed) =~= result.handed);
}

/// The refinement of a calm pool in strict order does not depend on flags.
proof fn lemma_refined_unflagged(
    pool: Seq<Candidate>,
    u: int,
    score: spec_fn(PointOffsetType, PointOffsetType) -> Score,
)
    requires
        is_calm(pool, score),
        forall|i: int, j: int|
            0 <= i < j < pool.len() ==> (#[trigger] pool[i]).precedes(#[trigger] pool[j]),
    ensures
        crate::layer0_model::refined(unflagged(pool), u, score).kept == unflagged(
            crate::layer0_model::refined(pool, u, score).kept,
        ),
        crate::layer0_model::refined(unflagged(pool), u, score).handed
            == crate::layer0_model::refined(pool, u, score).handed,
    decreases pool.len(),
{
    if pool.len() == 0 {
        assert(unflagged(pool) =~= pool);
        assert(unflagged(crate::layer0_model::refined(pool, u, score).kept) =~= Seq::<
            Candidate,
        >::empty());
    } else {
        let shorter = pool.drop_last();
        let nn = pool.last();
        assert(pool[pool.len() - 1] == nn);
        assert forall|i: int, j: int|
            0 <= i < shorter.len() && 0 <= j < shorter.len() && !shorter[i].new_flag
                && !shorter[j].new_flag && shorter[i].precedes(shorter[j]) implies shorter[i].idx != shorter[j].idx && !score(
            (#[trigger] shorter[j]).idx,
            (#[trigger] shorter[i]).idx,
        ).exceeds(shorter[j].score) by {
            assert(pool[i] == shorter[i] && pool[j] == shorter[j]);
        }
        assert forall|i: int, j: int| 0 <= i < j < shorter.len() implies (
        #[trigger] shorter[i]).precedes(#[trigger] shorter[j]) by {
            assert(pool[i].precedes(pool[j]));
        }
        lemma_refined_unflagged(shorter, u, score);
        lemma_refined_members(shorter, u, score);
        assert(unflagged(pool).drop_last() =~= unflagged(shorter));
        assert(unflagged(pool).last() == Candidate { new_flag: true, ..nn });
        let before = crate::layer0_model::refined(shorter, u, score);
        assert forall|i: int|
            0 <= i < before.kept.len() && !(#[trigger] before.kept[i]).new_flag
                && !nn.new_flag implies {
            &&& before.kept[i].idx != nn.idx
            &&& !score(nn.idx, before.kept[i].idx).exceeds(nn.score)
        } by {
            assert(shorter.contains(before.kept[i]));
            let k = choose|k: int| 0 <= k < shorter.len() && shorter[k] == before.kept[i];
            assert(pool[k] == before.kept[i]);
            assert(pool[k].precedes(pool[pool.len() - 1]));
        }
        lemma_blocker_unflagged(before.kept, nn, score);
        assert(unflagged(before.kept.push(nn)) =~= unflagged(before.kept).push(
            Candidate { new_flag: true, ..nn },
        ));
    }
}

/// Delivery does not look at flags.
proof fn lemma_delivered_unflagged(graph: Seq<Seq<Candidate>>, handed: Seq<HandedOn>)
    ensures
        unflagged_graph(crate::layer0_model::delivered(graph, handed))
            == crate::layer0_model::delivered(unflagged_graph(graph), unflagged_handed(handed)),
    decreases handed.len(),
{
    if handed.len() > 0 {
        let earlier = handed.drop_last();
        let last = handed.last();
        lemma_delivered_unflagged(graph, earlier);
        crate::layer0_laws::lemma_delivered_len(graph, earlier);
        assert(unflagged_handed(handed).drop_last() =~= unflagged_handed(earlier));
        let before = crate::layer0_model::delivered(graph, earlier);
        let after = crate::layer0_model::received(before, last);
        let bare_last = unflagged_handed(handed).last();
        if last.to < before.len() {
            let to = last.to as int;
            assert(unflagged(before[to].push(last.candidate)) =~= unflagged(before[to]).push(
                bare_last.candidate,
            ));
        }
        assert(unflagged_graph(after) =~= crate::layer0_model::received(
            unflagged_graph(before),
            bare_last,
        ));
    }
}

/// A pool whose candidates that are not new come from a calm one is calm.
proof fn lemma_calm_part(
    calm: Seq<Candidate>,
    part: Seq<Candidate>,
    score: spec_fn(PointOffsetType, PointOffsetType) -> Score,
)
    requires
        is_calm(calm, score),
        forall|i: int|
            0 <= i < part.len() && !(#[trigger] part[i]).new_flag ==> calm.contains(part[i]),
    ensures
        is_calm(part, score),
{
    assert forall|i: int, j: int|
        0 <= i < part.len() && 0 <= j < part.len() && !part[i].new_flag && !part[j].new_flag
            && part[i].precedes(part[j]) implies part[i].idx != part[j].idx && !score(
        (#[trigger] part[j]).idx,
        (#[trigger] part[i]).idx,
    ).exceeds(part[j].score) by {
        let a = choose|a: int| 0 <= a < calm.len() && calm[a] == part[i];
        let b = choose|b: int| 0 <= b < calm.len() && calm[b] == part[j];
        assert(calm[a].precedes(calm[b]));
    }
}

/// Whether a candidate of `u` that is not new is in the pool of `u` in `graph`.
pub open spec fn settled_in(graph: Seq<Seq<Candidate>>) -> spec_fn(int, Candidate) -> bool {
    |u: int, c: Candidate| !c.new_flag ==> graph[u].contains(c)
}

/// A graph whose candidates that are not new come from a calm one is calm.
proof fn lemma_calm_graph_part(
    calm: Seq<Seq<Candidate>>,
    part: Seq<Seq<Candidate>>,
    score: spec_fn(PointOffsetType, PointOffsetType) -> Score,
)
    requires
        calm.len() == part.len(),
        is_calm_graph(calm, score),
        crate::layer0_laws::graph_holds(part, settled_in(calm)),
    ensures
        is_calm_graph(part, score),
{
    let settled = settled_in(calm);
    assert forall|u: int| 0 <= u < part.len() implies is_calm(#[trigger] part[u], score) by {
        assert(crate::layer0_laws::pool_holds(part[u], u, settled));
        assert(is_calm(calm[u], score));
        assert forall|i: int|
            0 <= i < part[u].len() && !(#[trigger] part[u][i]).new_flag implies calm[u].contains(
            part[u][i],
        ) by {
            assert(settled(u, part[u][i]));
        }
        lemma_calm_part(calm[u], part[u], score);
    }
}

/// What the refinement of a pool in strict order keeps is calm once it is settled.
proof fn lemma_kept_is_calm(
    pool: Seq<Candidate>,
    u: int,
    score: spec_fn(PointOffsetType, PointOffsetType) -> Score,
)
    requires
        is_calm(pool, score),
        crate::candidate::in_order(pool),
    ensures
        is_calm(
            crate::candidate::flagged(
                crate::layer0_model::refined(pool, u, score).kept,
                false,
            ),
            score,
        ),
{
    let kept = crate::layer0_model::refined(pool, u, score).kept;
    let settled = crate::candidate::flagged(kept, false);
    crate::layer0_structure::law_refinement_prunes_longest_edges(pool, u, score);
    lemma_refined_members(pool, u, score);
    lemma_kept_in_order(pool, u, score);
    assert forall|i: int, j: int|
        0 <= i < settled.len() && 0 <= j < settled.len() && !settled[i].new_flag
            && !settled[j].new_flag && settled[i].precedes(settled[j]) implies settled[i].idx != settled[j].idx && !score(
        (#[trigger] settled[j]).idx,
        (#[trigger] settled[i]).idx,
    ).exceeds(settled[j].score) by {
        assert(kept[i].precedes(kept[j]));
        if j < i {
            assert(!kept[i].precedes(kept[j]));
        }
        assert(i < j);
        if !kept[i].new_flag && !kept[j].new_flag {
            assert(pool.contains(kept[i]));
            assert(pool.contains(kept[j]));
            let a = choose|a: int| 0 <= a < pool.len() && pool[a] == kept[i];
            let b = choose|b: int| 0 <= b < pool.len() && pool[b] == kept[j];
            assert(pool[a].precedes(pool[b]));
        }
    }
}

/// What the refinement keeps stands in the order of the pool.
pub proof fn lemma_kept_in_order(
    pool: Seq<Candidate>,
    u: int,
    score: spec_fn(PointOffsetType, PointOffsetType) -> Score,
)
    requires
        crate::candidate::in_order(pool),
    ensures
        crate::candidate::in_order(crate::layer0_model::refined(pool, u, score).kept),
    decreases pool.len(),
{
    if pool.len() > 0 {
        let shorter = pool.drop_last();
        assert forall|i: int, j: int| 0 <= i < j < shorter.len() implies !(
        #[trigger] shorter[j]).precedes(#[trigger] shorter[i]) by {
            assert(!pool[j].precedes(pool[i]));
        }
        lemma_kept_in_order(shorter, u, score);
        lemma_refined_members(shorter, u, score);
        let before = crate::layer0_model::refined(shorter, u, score).kept;
        let kept = crate::layer0_model::refined(pool, u, score).kept;
        assert forall|i: int, j: int| 0 <= i < j < kept.len() implies !(
        #[trigger] kept[j]).precedes(#[trigger] kept[i]) by {
            assert(kept[i] == before[i]);
            if j < before.len() {
                assert(kept[j] == before[j]);
            } else {
                assert(shorter.contains(before[i]));
                let k = choose|k: int| 0 <= k < shorter.len() && shorter[k] == before[i];
                assert(pool[k] == before[i]);
                assert(!pool[pool.len() - 1].precedes(pool[k]));
            }
        }
    }
}

/// A pool that holds the same candidates, or fewer, is as calm.
proof fn lemma_calm_sorted(
    pool: Seq<Candidate>,
    sorted: Seq<Candidate>,
    score: spec_fn(PointOffsetType, PointOffsetType) -> Score,
)
    requires
        is_calm(pool, score),
        crate::candidate::sorts_to(pool, sorted),
    ensures
        is_calm(crate::candidate::deduped(sorted), score),
        forall|i: int, j: int|
            0 <= i < j < crate::candidate::deduped(sorted).len() ==> (
            #[trigger] crate::candidate::deduped(sorted)[i]).precedes(
                #[trigger] crate::candidate::deduped(sorted)[j],
            ),
{
    let member = |w: int, c: Candidate| pool.contains(c);
    assert forall|i: int| 0 <= i < sorted.len() implies member(0, #[trigger] sorted[i]) by {
        crate::layer0_laws::lemma_sorted_member(pool, sorted, i);
    }
    crate::layer0_laws::lemma_deduped_holds(sorted, 0, member);
    let unique = crate::candidate::deduped(sorted);
    assert forall|i: int|
        0 <= i < unique.len() && !(#[trigger] unique[i]).new_flag implies pool.contains(
        unique[i],
    ) by {
        assert(member(0, unique[i]));
    }
    lemma_calm_part(pool, unique, score);
    lemma_deduped_in_order(sorted);
}

/// Cutting the runs of a sorted pool leaves no two candidates of one point with one
/// score, so that the order is strict.
pub proof fn lemma_deduped_in_order(sorted: Seq<Candidate>)
    requires
        crate::candidate::in_order(sorted),
    ensures
        sorted.len() > 0 ==> crate::candidate::deduped(sorted).len() > 0
            && crate::candidate::deduped(sorted).last().idx == sorted.last().idx,
        forall|i: int, j: int|
            0 <= i < j < crate::candidate::deduped(sorted).len() ==> (
            #[trigger] crate::candidate::deduped(sorted)[i]).precedes(
                #[trigger] crate::candidate::deduped(sorted)[j],
            ),
    decreases sorted.len(),
{
    if sorted.len() > 0 {
        let shorter = sorted.drop_last();
        assert forall|i: int, j: int| 0 <= i < j < shorter.len() implies !(
        #[trigger] shorter[j]).precedes(#[trigger] shorter[i]) by {
            assert(!sorted[j].precedes(sorted[i]));
        }
        lemma_deduped_in_order(shorter);
        let member = |w: int, c: Candidate| shorter.contains(c);
        assert forall|i: int| 0 <= i < shorter.len() implies member(0, #[trigger] shorter[i]) by {}
        crate::layer0_laws::lemma_deduped_holds(shorter, 0, member);
        let before = crate::candidate::deduped(shorter);
        let after = crate::candidate::deduped(sorted);
        let c = sorted[sorted.len() - 1];
        assert forall|i: int, j: int| 0 <= i < j < after.len() implies (
        #[trigger] after[i]).precedes(#[trigger] after[j]) by {
            assert(after[i] == before[i]);
            if j < before.len() {
                assert(after[j] == before[j]);
            } else {
                assert(after[j] == c);
                assert(member(0, before[i]));
                let k = choose|k: int| 0 <= k < shorter.len() && shorter[k] == before[i];
                assert(sorted[k] == before[i]);
                assert(!c.precedes(sorted[k]));
                let beside = sorted[sorted.len() - 2];
                assert(beside == shorter.last());
                assert(!c.precedes(beside));
                if k < sorted.len() - 2 {
                    assert(!beside.precedes(sorted[k]));
                }
            }
        }
    }
}

/// What refining the pool of `u` does to a graph, flags aside.
proof fn lemma_vertex_unflagged(
    before: Seq<Seq<Candidate>>,
    u: int,
    score: spec_fn(PointOffsetType, PointOffsetType) -> Score,
    after: Seq<Seq<Candidate>>,
) -> (sorted: Seq<Candidate>)
    requires
        0 <= u < before.len(),
        is_calm_graph(before, score),
        crate::layer0_model::vertex_updates(before, u, score, after),
    ensures
        crate::candidate::sorts_to(before[u], sorted),
        after.len() == before.len(),
        is_calm_graph(after, score),
        ({
            let result = crate::layer0_model::refined(
                crate::candidate::deduped(unflagged(sorted)),
                u,
                score,
            );
            unflagged_graph(after) == crate::layer0_model::delivered(
                unflagged_graph(before),
                result.handed,
            ).update(u, result.kept)
        }),
{
    let n = before.len();
    let (kept, handed) = choose|kept: Seq<Candidate>, handed: Seq<HandedOn>|
        {
            &&& #[trigger] crate::layer0_model::refines_to(before[u], u, score, kept, handed)
            &&& after == crate::layer0_model::vertex_updated(before, u, kept, handed)
        };
    let sorted = choose|sorted: Seq<Candidate>|
        {
            &&& #[trigger] crate::candidate::sorts_to(before[u], sorted)
            &&& crate::layer0_model::refined(crate::candidate::deduped(sorted), u, score)
                == (crate::layer0_model::Refined { kept, handed })
        };
    let unique = crate::candidate::deduped(sorted);
    assert(is_calm(before[u], score));
    lemma_calm_sorted(before[u], sorted, score);
    lemma_refined_unflagged(unique, u, score);
    lemma_refined_members(unique, u, score);
    lemma_deduped_unflagged(sorted);
    lemma_delivered_unflagged(before, handed);
    crate::layer0_laws::lemma_delivered_len(before, handed);
    let middle = crate::layer0_model::delivered(before, handed);
    let settled = crate::candidate::flagged(kept, false);
    assert(unflagged(settled) =~= unflagged(kept));
    assert(unflagged_graph(after) =~= unflagged_graph(middle).update(u, unflagged(kept)));

    let old_ones = settled_in(before);
    assert forall|w: int| 0 <= w < n implies #[trigger] crate::layer0_laws::pool_holds(
        before[w],
        w,
        old_ones,
    ) by {}
    assert forall|i: int| 0 <= i < handed.len() implies old_ones(
        (#[trigger] handed[i]).to as int,
        handed[i].candidate,
    ) by {
        assert(unflagged_handed(handed)[i] == handed[i]);
    }
    crate::layer0_laws::lemma_delivered_holds(before, handed, old_ones);
    lemma_calm_graph_part(before, middle, score);
    lemma_kept_is_calm(unique, u, score);
    assert forall|w: int| 0 <= w < after.len() implies is_calm(#[trigger] after[w], score) by {
        if w != u {
            assert(after[w] == middle[w]);
            assert(is_calm(middle[w], score));
        }
    }
    sorted
}

/// Whether two graphs agree in all but flags, and have calm pools.
pub open spec fn run_alike(
    one: Seq<Seq<Candidate>>,
    two: Seq<Seq<Candidate>>,
    n: nat,
    score: spec_fn(PointOffsetType, PointOffsetType) -> Score,
) -> bool {
    &&& one.len() == n
    &&& two.len() == n
    &&& unflagged_graph(one) == unflagged_graph(two)
    &&& is_calm_graph(one, score)
    &&& is_calm_graph(two, score)
}

/// Graphs that agree have pools that agree.
proof fn lemma_pools_alike(one: Seq<Seq<Candidate>>, two: Seq<Seq<Candidate>>, u: int)
    requires
        unflagged_graph(one) == unflagged_graph(two),
        0 <= u < one.len(),
    ensures
        one.len() == two.len(),
        unflagged(one[u]) == unflagged(two[u]),
{
    assert(unflagged_graph(one).len() == one.len());
    assert(unflagged_graph(two).len() == two.len());
    assert(unflagged_graph(one)[u] == unflagged(one[u]));
    assert(unflagged_graph(two)[u] == unflagged(two[u]));
}

proof fn lemma_prefix_alike(
    one: Seq<Seq<Candidate>>,
    two: Seq<Seq<Candidate>>,
    count: nat,
    n: nat,
    score: spec_fn(PointOffsetType, PointOffsetType) -> Score,
    after_one: Seq<Seq<Candidate>>,
    after_two: Seq<Seq<Candidate>>,
)
    requires
        count <= n <= u32::MAX,
        run_alike(one, two, n, score),
        crate::layer0_model::prefix_updates(one, count, score, after_one),
        crate::layer0_model::prefix_updates(two, count, score, after_two),
    ensures
        run_alike(after_one, after_two, n, score),
    decreases count,
{
    if count > 0 {
        let u = count - 1;
        let middle_one = choose|middle: Seq<Seq<Candidate>>|
            {
                &&& crate::layer0_model::prefix_updates(one, (count - 1) as nat, score, middle)
                &&& #[trigger] crate::layer0_model::vertex_updates(
                    middle,
                    count - 1,
                    score,
                    after_one,
                )
            };
        let middle_two = choose|middle: Seq<Seq<Candidate>>|
            {
                &&& crate::layer0_model::prefix_updates(two, (count - 1) as nat, score, middle)
                &&& #[trigger] crate::layer0_model::vertex_updates(
                    middle,
                    count - 1,
                    score,
                    after_two,
                )
            };
        lemma_prefix_alike(one, two, u as nat, n, score, middle_one, middle_two);
        let sorted_one = lemma_vertex_unflagged(middle_one, u, score, after_one);
        let sorted_two = lemma_vertex_unflagged(middle_two, u, score, after_two);
        lemma_pools_alike(middle_one, middle_two, u);
        lemma_sorted_alike(middle_one[u], middle_two[u], sorted_one, sorted_two);
    }
}

proof fn lemma_passes_alike(
    one: Seq<Seq<Candidate>>,
    two: Seq<Seq<Candidate>>,
    passes: nat,
    n: nat,
    score: spec_fn(PointOffsetType, PointOffsetType) -> Score,
    after_one: Seq<Seq<Candidate>>,
    after_two: Seq<Seq<Candidate>>,
)
    requires
        n <= u32::MAX,
        run_alike(one, two, n, score),
        crate::layer0_model::passes_update(one, passes, score, after_one),
        crate::layer0_model::passes_update(two, passes, score, after_two),
    ensures
        run_alike(after_one, after_two, n, score),
    decreases passes,
{
    if passes > 0 {
        let middle_one = choose|middle: Seq<Seq<Candidate>>|
            {
                &&& crate::layer0_model::passes_update(one, (passes - 1) as nat, score, middle)
                &&& #[trigger] crate::layer0_model::round_updates(middle, score, after_one)
            };
        let middle_two = choose|middle: Seq<Seq<Candidate>>|
            {
                &&& crate::layer0_model::passes_update(two, (passes - 1) as nat, score, middle)
                &&& #[trigger] crate::layer0_model::round_updates(middle, score, after_two)
            };
        lemma_passes_alike(one, two, (passes - 1) as nat, n, score, middle_one, middle_two);
        lemma_prefix_alike(middle_one, middle_two, n, n, score, after_one, after_two);
    }
}

// ---------------------------------------------------------------------------
// Reverse edges
// ---------------------------------------------------------------------------

/// Turning edges round does not look at flags.
proof fn lemma_scattered_unflagged(graph: Seq<Seq<Candidate>>, count: nat)
    requires
        count <= graph.len(),
    ensures
        unflagged_graph(crate::layer0_model::scattered(graph, count))
            == crate::layer0_model::scattered(unflagged_graph(graph), count),
    decreases count,
{
    if count == 0 {
        let none = crate::layer0_model::bare_graph(graph.len());
        assert forall|u: int| 0 <= u < none.len() implies unflagged_graph(none)[u] == none[u] by {
            assert(unflagged(none[u]) =~= none[u]);
        }
        assert(unflagged_graph(none) =~= none);
    } else {
        let u = count - 1;
        let before = crate::layer0_model::scattered(graph, (count - 1) as nat);
        let turned = crate::layer0_model::turned(u, graph[u]);
        lemma_scattered_unflagged(graph, (count - 1) as nat);
        lemma_delivered_unflagged(before, turned);
        assert(unflagged_handed(turned) =~= crate::layer0_model::turned(
            u,
            unflagged_graph(graph)[u],
        ));
    }
}

/// Whether a candidate of `w` is an edge of `graph` turned round, with its flag.
pub open spec fn turned_from(graph: Seq<Seq<Candidate>>) -> spec_fn(int, Candidate) -> bool {
    |w: int, c: Candidate|
        c.idx < graph.len() && graph[c.idx as int].contains(
            Candidate { idx: w as PointOffsetType, ..c },
        )
}

/// What the edges of a graph turned round give comes from that graph.
pub proof fn lemma_scattered_from(graph: Seq<Seq<Candidate>>, count: nat)
    requires
        count <= graph.len() <= u32::MAX,
    ensures
        crate::layer0_model::scattered(graph, count).len() == graph.len(),
        crate::layer0_laws::graph_holds(
            crate::layer0_model::scattered(graph, count),
            turned_from(graph),
        ),
    decreases count,
{
    let from = turned_from(graph);
    if count > 0 {
        let u = count - 1;
        let before = crate::layer0_model::scattered(graph, (count - 1) as nat);
        let turned = crate::layer0_model::turned(u, graph[u]);
        lemma_scattered_from(graph, (count - 1) as nat);
        assert forall|i: int| 0 <= i < turned.len() implies from(
            (#[trigger] turned[i]).to as int,
            turned[i].candidate,
        ) by {
            assert(graph[u][i] == (Candidate {
                idx: turned[i].to,
                ..turned[i].candidate
            }));
        }
        crate::layer0_laws::lemma_delivered_holds(before, turned, from);
        crate::layer0_laws::lemma_delivered_len(before, turned);
    }
}

/// A candidate that is not new after reverse edges were added was there before.
proof fn lemma_reverse_settled(
    before: Seq<Seq<Candidate>>,
    cap: nat,
    after: Seq<Seq<Candidate>>,
)
    requires
        before.len() <= u32::MAX,
        crate::layer0_model::reverse_adds(before, cap, after),
    ensures
        crate::layer0_laws::graph_holds(after, settled_in(before)),
{
    let n = before.len();
    let merged = choose|merged: Seq<Seq<Candidate>>|
        {
            &&& #[trigger] crate::layer0_model::merges_all(before, cap, merged)
            &&& forall|u: int|
                0 <= u < before.len() ==> crate::layer0_model::trims_to(
                    crate::layer0_model::scattered(merged, merged.len())[u],
                    cap,
                    #[trigger] after[u],
                )
        };
    let incoming = crate::layer0_model::scattered(before, n);
    let back = crate::layer0_model::scattered(merged, n);
    lemma_scattered_from(before, n);
    lemma_scattered_from(merged, n);
    let from_before = turned_from(before);
    let from_merged = turned_from(merged);
    let settled = settled_in(before);
    assert forall|u: int| 0 <= u < n implies #[trigger] crate::layer0_laws::pool_holds(
        after[u],
        u,
        settled,
    ) by {
        assert(crate::layer0_model::trims_to(back[u], cap, after[u]));
        let sorted = choose|sorted: Seq<Candidate>|
            {
                &&& #[trigger] crate::candidate::sorts_to(back[u], sorted)
                &&& after[u] == crate::candidate::capped(sorted, cap)
            };
        assert(crate::layer0_laws::pool_holds(back[u], u, from_merged));
        crate::layer0_laws::lemma_sorted_holds(back[u], sorted, u, from_merged);
        assert forall|i: int| 0 <= i < after[u].len() implies settled(
            u,
            #[trigger] after[u][i],
        ) by {
            let c = after[u][i];
            assert(from_merged(u, sorted[i]));
            if !c.new_flag {
                let v = c.idx as int;
                let e = Candidate { idx: u as PointOffsetType, ..c };
                assert(merged[v].contains(e));
                lemma_merged_settled(incoming[v], before[v], cap, merged[v], e);
                let k = choose|k: int| 0 <= k < incoming[v].len() && incoming[v][k] == e;
                assert(crate::layer0_laws::pool_holds(incoming[v], v, from_before));
                assert(from_before(v, incoming[v][k]));
                assert((Candidate { idx: v as PointOffsetType, ..e }) == c);
            }
        }
    }
}

/// A merged candidate that is not new is one of those that came in.
proof fn lemma_merged_settled(
    incoming: Seq<Candidate>,
    own: Seq<Candidate>,
    cap: nat,
    merged: Seq<Candidate>,
    e: Candidate,
)
    requires
        crate::layer0_model::merges_to(incoming, own, cap, merged),
        merged.contains(e),
        !e.new_flag,
    ensures
        incoming.contains(e),
{
    let fresh = crate::candidate::flagged(own, true);
    let all = incoming + fresh;
    let sorted = choose|sorted: Seq<Candidate>|
        {
            &&& #[trigger] crate::candidate::sorts_to(
                incoming + crate::candidate::flagged(own, true),
                sorted,
            )
            &&& merged == crate::candidate::capped(crate::candidate::deduped(sorted), cap)
        };
    let member = |w: int, c: Candidate| all.contains(c);
    assert forall|i: int| 0 <= i < sorted.len() implies member(0, #[trigger] sorted[i]) by {
        crate::layer0_laws::lemma_sorted_member(all, sorted, i);
    }
    crate::layer0_laws::lemma_deduped_holds(sorted, 0, member);
    let unique = crate::candidate::deduped(sorted);
    let k = choose|k: int| 0 <= k < merged.len() && merged[k] == e;
    assert(unique[k] == e);
    assert(member(0, unique[k]));
    let i = choose|i: int| 0 <= i < all.len() && all[i] == e;
    if i >= incoming.len() {
        assert(all[i] == fresh[i - incoming.len()]);
    }
    assert(incoming[i] == e);
}

/// Without flags, merging is one function of what is merged.
proof fn lemma_merged_alike(
    incoming_one: Seq<Candidate>,
    incoming_two: Seq<Candidate>,
    own_one: Seq<Candidate>,
    own_two: Seq<Candidate>,
    cap: nat,
    merged_one: Seq<Candidate>,
    merged_two: Seq<Candidate>,
)
    requires
        unflagged(incoming_one) == unflagged(incoming_two),
        unflagged(own_one) == unflagged(own_two),
        crate::layer0_model::merges_to(incoming_one, own_one, cap, merged_one),
        crate::layer0_model::merges_to(incoming_two, own_two, cap, merged_two),
    ensures
        unflagged(merged_one) == unflagged(merged_two),
{
    let sorted_one = choose|sorted: Seq<Candidate>|
        {
            &&& #[trigger] crate::candidate::sorts_to(
                incoming_one + crate::candidate::flagged(own_one, true),
                sorted,
            )
            &&& merged_one == crate::candidate::capped(crate::candidate::deduped(sorted), cap)
        };
    let sorted_two = choose|sorted: Seq<Candidate>|
        {
            &&& #[trigger] crate::candidate::sorts_to(
                incoming_two + crate::candidate::flagged(own_two, true),
                sorted,
            )
            &&& merged_two == crate::candidate::capped(crate::candidate::deduped(sorted), cap)
        };
    let one = incoming_one + unflagged(own_one);
    let two = incoming_two + unflagged(own_two);
    assert(unflagged(one) =~= unflagged(incoming_one) + unflagged(own_one));
    assert(unflagged(two) =~= unflagged(incoming_two) + unflagged(own_two));
    lemma_sorted_alike(one, two, sorted_one, sorted_two);
    lemma_deduped_unflagged(sorted_one);
    lemma_deduped_unflagged(sorted_two);
    lemma_capped_unflagged(crate::candidate::deduped(sorted_one), cap);
    lemma_capped_unflagged(crate::candidate::deduped(sorted_two), cap);
}

/// Graphs whose pools agree in all but flags agree.
proof fn lemma_graphs_alike(one: Seq<Seq<Candidate>>, two: Seq<Seq<Candidate>>)
    requires
        one.len() == two.len(),
        forall|u: int|
            0 <= u < one.len() ==> unflagged(#[trigger] one[u]) == unflagged(two[u]),
    ensures
        unflagged_graph(one) == unflagged_graph(two),
{
    assert forall|u: int| 0 <= u < one.len() implies unflagged_graph(one)[u] == unflagged_graph(
        two,
    )[u] by {
        assert(unflagged(one[u]) == unflagged(two[u]));
    }
    assert(unflagged_graph(one) =~= unflagged_graph(two));
}

proof fn lemma_reverse_alike(
    one: Seq<Seq<Candidate>>,
    two: Seq<Seq<Candidate>>,
    cap: nat,
    n: nat,
    score: spec_fn(PointOffsetType, PointOffsetType) -> Score,
    after_one: Seq<Seq<Candidate>>,
    after_two: Seq<Seq<Candidate>>,
)
    requires
        n <= u32::MAX,
        run_alike(one, two, n, score),
        crate::layer0_model::reverse_adds(one, cap, after_one),
        crate::layer0_model::reverse_adds(two, cap, after_two),
    ensures
        run_alike(after_one, after_two, n, score),
{
    let merged_one = choose|merged: Seq<Seq<Candidate>>|
        {
            &&& #[trigger] crate::layer0_model::merges_all(one, cap, merged)
            &&& forall|u: int|
                0 <= u < one.len() ==> crate::layer0_model::trims_to(
                    crate::layer0_model::scattered(merged, merged.len())[u],
                    cap,
                    #[trigger] after_one[u],
                )
        };
    let merged_two = choose|merged: Seq<Seq<Candidate>>|
        {
            &&& #[trigger] crate::layer0_model::merges_all(two, cap, merged)
            &&& forall|u: int|
                0 <= u < two.len() ==> crate::layer0_model::trims_to(
                    crate::layer0_model::scattered(merged, merged.len())[u],
                    cap,
                    #[trigger] after_two[u],
                )
        };
    let incoming_one = crate::layer0_model::scattered(one, n);
    let incoming_two = crate::layer0_model::scattered(two, n);
    lemma_scattered_unflagged(one, n);
    lemma_scattered_unflagged(two, n);
    lemma_scattered_from(one, n);
    lemma_scattered_from(two, n);
    assert forall|u: int| 0 <= u < n implies unflagged(#[trigger] merged_one[u]) == unflagged(
        merged_two[u],
    ) by {
        lemma_pools_alike(one, two, u);
        lemma_pools_alike(incoming_one, incoming_two, u);
        assert(crate::layer0_model::merges_to(incoming_one[u], one[u], cap, merged_one[u]));
        assert(crate::layer0_model::merges_to(incoming_two[u], two[u], cap, merged_two[u]));
        lemma_merged_alike(
            incoming_one[u],
            incoming_two[u],
            one[u],
            two[u],
            cap,
            merged_one[u],
            merged_two[u],
        );
    }
    lemma_graphs_alike(merged_one, merged_two);
    let back_one = crate::layer0_model::scattered(merged_one, n);
    let back_two = crate::layer0_model::scattered(merged_two, n);
    lemma_scattered_unflagged(merged_one, n);
    lemma_scattered_unflagged(merged_two, n);
    lemma_scattered_from(merged_one, n);
    lemma_scattered_from(merged_two, n);
    assert forall|u: int| 0 <= u < n implies unflagged(#[trigger] after_one[u]) == unflagged(
        after_two[u],
    ) by {
        lemma_pools_alike(back_one, back_two, u);
        assert(crate::layer0_model::trims_to(back_one[u], cap, after_one[u]));
        assert(crate::layer0_model::trims_to(back_two[u], cap, after_two[u]));
        let sorted_one = choose|sorted: Seq<Candidate>|
            {
                &&& #[trigger] crate::candidate::sorts_to(back_one[u], sorted)
                &&& after_one[u] == crate::candidate::capped(sorted, cap)
            };
        let sorted_two = choose|sorted: Seq<Candidate>|
            {
                &&& #[trigger] crate::candidate::sorts_to(back_two[u], sorted)
                &&& after_two[u] == crate::candidate::capped(sorted, cap)
            };
        lemma_sorted_alike(back_one[u], back_two[u], sorted_one, sorted_two);
        lemma_capped_unflagged(sorted_one, cap);
        lemma_capped_unflagged(sorted_two, cap);
    }
    lemma_graphs_alike(after_one, after_two);
    lemma_reverse_settled(one, cap, after_one);
    lemma_reverse_settled(two, cap, after_two);
    lemma_calm_graph_part(one, after_one, score);
    lemma_calm_graph_part(two, after_two, score);
}

// ---------------------------------------------------------------------------
// The whole refinement
// ---------------------------------------------------------------------------

proof fn lemma_round_alike(
    one: Seq<Seq<Candidate>>,
    two: Seq<Seq<Candidate>>,
    round: nat,
    rounds: nat,
    passes: nat,
    cap: nat,
    n: nat,
    score: spec_fn(PointOffsetType, PointOffsetType) -> Score,
    after_one: Seq<Seq<Candidate>>,
    after_two: Seq<Seq<Candidate>>,
)
    requires
        n <= u32::MAX,
        run_alike(one, two, n, score),
        crate::layer0_model::round_refines(one, round, rounds, passes, cap, score, after_one),
        crate::layer0_model::round_refines(two, round, rounds, passes, cap, score, after_two),
    ensures
        run_alike(after_one, after_two, n, score),
{
    if round + 1 < rounds {
        let middle_one = choose|middle: Seq<Seq<Candidate>>|
            {
                &&& #[trigger] crate::layer0_model::passes_update(one, passes, score, middle)
                &&& crate::layer0_model::reverse_adds(middle, cap, after_one)
            };
        let middle_two = choose|middle: Seq<Seq<Candidate>>|
            {
                &&& #[trigger] crate::layer0_model::passes_update(two, passes, score, middle)
                &&& crate::layer0_model::reverse_adds(middle, cap, after_two)
            };
        lemma_passes_alike(one, two, passes, n, score, middle_one, middle_two);
        lemma_reverse_alike(middle_one, middle_two, cap, n, score, after_one, after_two);
    } else {
        lemma_passes_alike(one, two, passes, n, score, after_one, after_two);
    }
}

proof fn lemma_rounds_alike(
    one: Seq<Seq<Candidate>>,
    two: Seq<Seq<Candidate>>,
    count: nat,
    rounds: nat,
    passes: nat,
    cap: nat,
    n: nat,
    score: spec_fn(PointOffsetType, PointOffsetType) -> Score,
    after_one: Seq<Seq<Candidate>>,
    after_two: Seq<Seq<Candidate>>,
)
    requires
        n <= u32::MAX,
        run_alike(one, two, n, score),
        crate::layer0_model::rounds_refine(one, count, rounds, passes, cap, score, after_one),
        crate::layer0_model::rounds_refine(two, count, rounds, passes, cap, score, after_two),
    ensures
        run_alike(after_one, after_two, n, score),
    decreases count,
{
    if count > 0 {
        let last = (count - 1) as nat;
        let middle_one = choose|middle: Seq<Seq<Candidate>>|
            {
                &&& crate::layer0_model::rounds_refine(
                    one,
                    (count - 1) as nat,
                    rounds,
                    passes,
                    cap,
                    score,
                    middle,
                )
                &&& #[trigger] crate::layer0_model::round_refines(
                    middle,
                    (count - 1) as nat,
                    rounds,
                    passes,
                    cap,
                    score,
                    after_one,
                )
            };
        let middle_two = choose|middle: Seq<Seq<Candidate>>|
            {
                &&& crate::layer0_model::rounds_refine(
                    two,
                    (count - 1) as nat,
                    rounds,
                    passes,
                    cap,
                    score,
                    middle,
                )
                &&& #[trigger] crate::layer0_model::round_refines(
                    middle,
                    (count - 1) as nat,
                    rounds,
                    passes,
                    cap,
                    score,
                    after_two,
                )
            };
        lemma_rounds_alike(
            one,
            two,
            last,
            rounds,
            passes,
            cap,
            n,
            score,
            middle_one,
            middle_two,
        );
        lemma_round_alike(
            middle_one,
            middle_two,
            last,
            rounds,
            passes,
            cap,
            n,
            score,
            after_one,
            after_two,
        );
    }
}

/// Whether a candidate is new.
spec fn is_new() -> spec_fn(int, Candidate) -> bool {
    |u: int, c: Candidate| c.new_flag
}

/// A pool of new candidates is as it is without flags.
proof fn lemma_new_is_unflagged(pool: Seq<Candidate>, u: int)
    requires
        crate::layer0_laws::pool_holds(pool, u, is_new()),
    ensures
        unflagged(pool) == pool,
{
    let fresh = is_new();
    assert forall|i: int| 0 <= i < pool.len() implies unflagged(pool)[i] == pool[i] by {
        assert(fresh(u, pool[i]));
    }
    assert(unflagged(pool) =~= pool);
}

/// The initial graph is one function of the points, the scores, the seed and the
/// number of workers.
pub proof fn law_initial_graph_is_determined(
    one: Seq<Seq<Candidate>>,
    two: Seq<Seq<Candidate>>,
    n: nat,
    s: nat,
    seed: u64,
    workers: nat,
    score: spec_fn(PointOffsetType, PointOffsetType) -> Score,
)
    requires
        0 < workers <= u64::MAX,
        crate::layer0_model::initializes(
            crate::layer0_model::bare_graph(n),
            one,
            s,
            seed,
            workers,
            score,
        ),
        crate::layer0_model::initializes(
            crate::layer0_model::bare_graph(n),
            two,
            s,
            seed,
            workers,
            score,
        ),
    ensures
        one == two,
{
    let fresh = is_new();
    crate::layer0_laws::lemma_initial_holds(one, n, s, seed, workers, score, fresh);
    crate::layer0_laws::lemma_initial_holds(two, n, s, seed, workers, score, fresh);
    if n > 1 {
        assert forall|u: int| 0 <= u < n implies one[u] == two[u] by {
            crate::layer0_model::law_chunks_partition(0, workers, n);
            let t = crate::layer0_laws::lemma_chunk_of(u as nat, workers, workers, n) as u64;
            let from = crate::layer0_model::chunk_start(t as nat, workers, n);
            let to = crate::layer0_model::chunk_start((t + 1) as nat, workers, n);
            assert(crate::layer0_model::chunk_starts_as(one, s, seed, t, from, to, score));
            assert(crate::layer0_model::chunk_starts_as(two, s, seed, t, from, to, score));
            let draw = crate::layer0_model::vertex_draw(seed, t, (u - from) as nat, s);
            let positions = if n > s {
                crate::layer0_model::sample(draw, s, n)
            } else {
                crate::layer0_model::all_positions(n)
            };
            let proposed = crate::layer0_model::proposals(u, positions, score);
            lemma_sorted_alike(proposed, proposed, one[u], two[u]);
            assert(crate::layer0_laws::pool_holds(one[u], u, fresh));
            assert(crate::layer0_laws::pool_holds(two[u], u, fresh));
            lemma_new_is_unflagged(one[u], u);
            lemma_new_is_unflagged(two[u], u);
        }
        assert(one =~= two);
    }
}

/// A graph of new candidates is calm.
proof fn lemma_new_is_calm(
    graph: Seq<Seq<Candidate>>,
    score: spec_fn(PointOffsetType, PointOffsetType) -> Score,
)
    requires
        crate::layer0_laws::graph_holds(graph, is_new()),
    ensures
        is_calm_graph(graph, score),
{
    let fresh = is_new();
    assert forall|u: int| 0 <= u < graph.len() implies is_calm(#[trigger] graph[u], score) by {
        assert(crate::layer0_laws::pool_holds(graph[u], u, fresh));
        assert forall|i: int| 0 <= i < graph[u].len() implies (#[trigger] graph[u][i]).new_flag by {
            assert(fresh(u, graph[u][i]));
        }
    }
}

/// Choosing neighbors does not look at flags.
proof fn lemma_chosen_unflagged(sorted: Seq<Candidate>, u: int, n: nat)
    ensures
        unflagged(crate::layer0_model::chosen(sorted, u, n)) == crate::layer0_model::chosen(
            unflagged(sorted),
            u,
            n,
        ),
    decreases sorted.len(),
{
    if sorted.len() == 0 {
        assert(unflagged(sorted) =~= sorted);
    } else {
        let shorter = sorted.drop_last();
        lemma_chosen_unflagged(shorter, u, n);
        assert(unflagged(sorted).drop_last() =~= unflagged(shorter));
        let before = crate::layer0_model::chosen(shorter, u, n);
        if before.len() > 0 {
            assert(unflagged(before).last().idx == before.last().idx);
        }
        assert(unflagged(crate::layer0_model::chosen(sorted, u, n))
            =~= crate::layer0_model::chosen(unflagged(sorted), u, n));
    }
}

/// Pools that agree in all but flags give one list.
proof fn lemma_lists_alike(
    one: Seq<Candidate>,
    two: Seq<Candidate>,
    u: int,
    alive: Seq<PointOffsetType>,
    list_one: Seq<ScoredPointOffset>,
    list_two: Seq<ScoredPointOffset>,
)
    requires
        unflagged(one) == unflagged(two),
        crate::layer0_model::lists(one, u, alive, list_one),
        crate::layer0_model::lists(two, u, alive, list_two),
    ensures
        list_one == list_two,
{
    let n = alive.len();
    let sorted_one = choose|sorted: Seq<Candidate>|
        {
            &&& #[trigger] crate::candidate::sorts_to(one, sorted)
            &&& list_one == crate::layer0_model::named(
                crate::layer0_model::chosen(sorted, u, alive.len()),
                alive,
            )
        };
    let sorted_two = choose|sorted: Seq<Candidate>|
        {
            &&& #[trigger] crate::candidate::sorts_to(two, sorted)
            &&& list_two == crate::layer0_model::named(
                crate::layer0_model::chosen(sorted, u, alive.len()),
                alive,
            )
        };
    lemma_sorted_alike(one, two, sorted_one, sorted_two);
    lemma_chosen_unflagged(sorted_one, u, n);
    lemma_chosen_unflagged(sorted_two, u, n);
    let chosen_one = crate::layer0_model::chosen(sorted_one, u, n);
    let chosen_two = crate::layer0_model::chosen(sorted_two, u, n);
    assert(list_one =~= crate::layer0_model::named(unflagged(chosen_one), alive));
    assert(list_two =~= crate::layer0_model::named(unflagged(chosen_two), alive));
}

/// The refined layer 0 is one function of the live points, the scores, the parameters,
/// the seed and the number of threads: two runs give the same lists.
pub proof fn law_layer0_is_determined(
    alive_flags: Seq<bool>,
    s: nat,
    rounds: nat,
    passes: nat,
    cap: nat,
    seed: u64,
    num_threads: nat,
    score: spec_fn(PointOffsetType, PointOffsetType) -> Score,
    one: Seq<Seq<ScoredPointOffset>>,
    two: Seq<Seq<ScoredPointOffset>>,
)
    requires
        alive_flags.len() <= u32::MAX,
        crate::layer0_model::layer0_of(
            alive_flags,
            s,
            rounds,
            passes,
            cap,
            seed,
            num_threads,
            score,
            one,
        ),
        crate::layer0_model::layer0_of(
            alive_flags,
            s,
            rounds,
            passes,
            cap,
            seed,
            num_threads,
            score,
            two,
        ),
    ensures
        one == two,
{
    let alive = crate::layer0_model::alive_points(alive_flags);
    let n = alive.len();
    crate::layer0_model::law_alive_points(alive_flags);
    if n > 0 {
        let graph_one = choose|graph: Seq<Seq<Candidate>>|
            {
                &&& #[trigger] crate::layer0_model::refined_graph(
                    alive,
                    s,
                    rounds,
                    passes,
                    cap,
                    seed,
                    num_threads,
                    score,
                    graph,
                )
                &&& crate::layer0_model::listed(one, alive_flags, graph)
            };
        let graph_two = choose|graph: Seq<Seq<Candidate>>|
            {
                &&& #[trigger] crate::layer0_model::refined_graph(
                    alive,
                    s,
                    rounds,
                    passes,
                    cap,
                    seed,
                    num_threads,
                    score,
                    graph,
                )
                &&& crate::layer0_model::listed(two, alive_flags, graph)
            };
        let between = crate::layer0_model::scores_between(alive, score);
        let workers = crate::layer0_model::worker_count(num_threads, n);
        let initial_one = choose|initial: Seq<Seq<Candidate>>|
            {
                &&& #[trigger] crate::layer0_model::initializes(
                    crate::layer0_model::bare_graph(n),
                    initial,
                    s,
                    seed,
                    workers,
                    between,
                )
                &&& crate::layer0_model::rounds_refine(
                    initial,
                    rounds,
                    rounds,
                    passes,
                    cap,
                    between,
                    graph_one,
                )
            };
        let initial_two = choose|initial: Seq<Seq<Candidate>>|
            {
                &&& #[trigger] crate::layer0_model::initializes(
                    crate::layer0_model::bare_graph(n),
                    initial,
                    s,
                    seed,
                    workers,
                    between,
                )
                &&& crate::layer0_model::rounds_refine(
                    initial,
                    rounds,
                    rounds,
                    passes,
                    cap,
                    between,
                    graph_two,
                )
            };
        law_initial_graph_is_determined(initial_one, initial_two, n, s, seed, workers, between);
        crate::layer0_laws::lemma_initial_holds(
            initial_one,
            n,
            s,
            seed,
            workers,
            between,
            is_new(),
        );
        lemma_new_is_calm(initial_one, between);
        lemma_rounds_alike(
            initial_one,
            initial_two,
            rounds,
            rounds,
            passes,
            cap,
            n,
            between,
            graph_one,
            graph_two,
        );
        assert forall|p: int| 0 <= p < alive_flags.len() implies one[p] == two[p] by {
            if alive_flags[p] {
                let k = crate::layer0_structure::lemma_place_of(alive_flags, p);
                lemma_pools_alike(graph_one, graph_two, k);
                assert(crate::layer0_model::lists(graph_one[k], k, alive, one[alive[k] as int]));
                assert(crate::layer0_model::lists(graph_two[k], k, alive, two[alive[k] as int]));
                lemma_lists_alike(graph_one[k], graph_two[k], k, alive, one[p], two[p]);
            } else {
                assert(one[p] == Seq::<ScoredPointOffset>::empty());
                assert(two[p] == Seq::<ScoredPointOffset>::empty());
            }
        }
        assert(one =~= two);
    }
}

} // verus!
