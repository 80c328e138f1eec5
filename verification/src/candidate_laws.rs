//! What sorting, cutting and merging do to pools.

use vstd::prelude::*;
use crate::candidate::{Candidate, PointOffsetType};
use crate::layer0_model::HandedOn;

verus! {

/// Candidates stand closest first. A closer one precedes, one of two with the same
/// score precedes if its id is smaller, and flags do not matter. Of two candidates that
/// differ in score or id exactly one precedes the other, and preceding is transitive.
pub proof fn law_candidates_stand_closest_first(a: Candidate, b: Candidate, c: Candidate)
    ensures
        a.score.exceeds(b.score) ==> a.precedes(b) && !b.precedes(a),
        a.score.rank() > b.score.rank() ==> a.precedes(b),
        a.score == b.score ==> (a.precedes(b) <==> a.idx < b.idx),
        !(a.precedes(b) && b.precedes(a)),
        !a.precedes(b) && !b.precedes(a) ==> a.score == b.score && a.idx == b.idx,
        a.precedes(b) && b.precedes(c) ==> a.precedes(c),
{
    crate::score::law_rank_refines_comparison(a.score, b.score);
    crate::score::law_rank_refines_comparison(b.score, a.score);
}

/// Cutting keeps the first candidates, as many as there is room for.
pub proof fn law_cap_keeps_what_fits(pool: Seq<Candidate>, cap: nat)
    ensures
        crate::candidate::capped(pool, cap).is_prefix_of(pool),
        crate::candidate::capped(pool, cap).len() <= cap,
        crate::candidate::capped(pool, cap).len() == pool.len() || crate::candidate::capped(
            pool,
            cap,
        ).len() == cap,
{
}

/// Setting flags changes nothing but flags.
pub proof fn law_flags_are_all_that_is_set(pool: Seq<Candidate>, new_flag: bool, i: int)
    requires
        0 <= i < pool.len(),
    ensures
        crate::candidate::flagged(pool, new_flag).len() == pool.len(),
        crate::candidate::flagged(pool, new_flag)[i].new_flag == new_flag,
        crate::candidate::flagged(pool, new_flag)[i].idx == pool[i].idx,
        crate::candidate::flagged(pool, new_flag)[i].score == pool[i].score,
{
}

/// Where neighbors name different points, cutting runs changes nothing.
pub proof fn law_runs_of_one_stay(pool: Seq<Candidate>)
    requires
        forall|i: int|
            0 < i < pool.len() ==> (#[trigger] pool[i]).idx != pool[i - 1].idx,
    ensures
        crate::candidate::deduped(pool) == pool,
    decreases pool.len(),
{
    if pool.len() > 0 {
        let shorter = pool.drop_last();
        assert forall|i: int| 0 < i < shorter.len() implies (#[trigger] shorter[i]).idx != shorter[i
            - 1].idx by {
            assert(pool[i].idx != pool[i - 1].idx);
        }
        law_runs_of_one_stay(shorter);
        if shorter.len() > 0 {
            assert(pool[pool.len() - 1].idx != pool[pool.len() - 2].idx);
        }
        assert(shorter.push(pool.last()) =~= pool);
    }
}

/// The last candidate that is left names the last point.
proof fn lemma_deduped_last(pool: Seq<Candidate>)
    requires
        pool.len() > 0,
    ensures
        crate::candidate::deduped(pool).len() > 0,
        crate::candidate::deduped(pool).last().idx == pool.last().idx,
    decreases pool.len(),
{
}

/// A candidate right behind one of the same point is cut, and its removal changes
/// nothing else.
pub proof fn law_repeats_are_cut(pool: Seq<Candidate>, i: int, repeat: Candidate)
    requires
        0 <= i < pool.len(),
        repeat.idx == pool[i].idx,
    ensures
        crate::candidate::deduped(pool.insert(i + 1, repeat)) == crate::candidate::deduped(pool),
    decreases pool.len(),
{
    let longer = pool.insert(i + 1, repeat);
    if i == pool.len() - 1 {
        assert(longer.drop_last() =~= pool);
        assert(longer.last() == repeat);
        lemma_deduped_last(pool);
    } else {
        let shorter = pool.drop_last();
        law_repeats_are_cut(shorter, i, repeat);
        assert(longer.drop_last() =~= shorter.insert(i + 1, repeat));
        assert(longer.last() == pool.last());
    }
}

/// For each candidate of a sorted pool, one of the same point that is as close is left
/// where runs are cut.
pub proof fn lemma_deduped_covers(sorted: Seq<Candidate>, k: int) -> (j: int)
    requires
        crate::candidate::in_order(sorted),
        0 <= k < sorted.len(),
    ensures
        0 <= j < crate::candidate::deduped(sorted).len(),
        crate::candidate::deduped(sorted)[j].idx == sorted[k].idx,
        !sorted[k].precedes(crate::candidate::deduped(sorted)[j]),
    decreases sorted.len(),
{
    let shorter = sorted.drop_last();
    assert forall|i: int, j: int| 0 <= i < j < shorter.len() implies !(
    #[trigger] shorter[j]).precedes(#[trigger] shorter[i]) by {
        assert(!sorted[j].precedes(sorted[i]));
    }
    if k < shorter.len() {
        lemma_deduped_covers(shorter, k)
    } else {
        let before = crate::candidate::deduped(shorter);
        if before.len() > 0 && before.last().idx == sorted.last().idx {
            let member = |w: int, c: Candidate| shorter.contains(c);
            assert forall|i: int| 0 <= i < shorter.len() implies member(
                0,
                #[trigger] shorter[i],
            ) by {}
            crate::layer0_laws::lemma_deduped_holds(shorter, 0, member);
            assert(member(0, before[before.len() - 1]));
            let i = choose|i: int| 0 <= i < shorter.len() && shorter[i] == before.last();
            assert(!sorted[k].precedes(sorted[i]));
            before.len() - 1
        } else {
            before.len() as int
        }
    }
}

/// Whether `kept` are the closest of `all`, one for each point, as many as there is
/// room for: a candidate of `all` has one of its point among them that is as close, or
/// there is no room and none of them is farther.
pub open spec fn keeps_closest(all: Seq<Candidate>, cap: nat, kept: Seq<Candidate>) -> bool {
    &&& kept.len() <= cap
    &&& forall|i: int| 0 <= i < kept.len() ==> all.contains(#[trigger] kept[i])
    &&& forall|i: int, j: int|
        0 <= i < j < kept.len() ==> (#[trigger] kept[i]).precedes(#[trigger] kept[j])
    &&& forall|k: int| 0 <= k < all.len() ==> has_match(kept, #[trigger] all[k]) || {
        &&& kept.len() == cap
        &&& none_farther(kept, all[k])
    }
}

/// Whether a candidate of the point of `c` that is as close is in `kept`.
pub open spec fn has_match(kept: Seq<Candidate>, c: Candidate) -> bool {
    exists|i: int|
        0 <= i < kept.len() && (#[trigger] kept[i]).idx == c.idx && !c.precedes(kept[i])
}

/// Whether `c` precedes none of `kept`.
pub open spec fn none_farther(kept: Seq<Candidate>, c: Candidate) -> bool {
    forall|i: int| 0 <= i < kept.len() ==> !c.precedes(#[trigger] kept[i])
}

/// A point that merges edges keeps the closest of those that came in and its own, of
/// which the own ones count as new.
pub proof fn law_merge_keeps_closest(
    incoming: Seq<Candidate>,
    own: Seq<Candidate>,
    cap: nat,
    merged: Seq<Candidate>,
)
    requires
        crate::layer0_model::merges_to(incoming, own, cap, merged),
    ensures
        keeps_closest(
            incoming + own.map_values(|c: Candidate| Candidate { new_flag: true, ..c }),
            cap,
            merged,
        ),
{
    let fresh = own.map_values(|c: Candidate| Candidate { new_flag: true, ..c });
    let all = incoming + fresh;
    assert(crate::candidate::flagged(own, true) =~= fresh);
    let sorted = choose|sorted: Seq<Candidate>|
        {
            &&& #[trigger] crate::candidate::sorts_to(
                incoming + crate::candidate::flagged(own, true),
                sorted,
            )
            &&& merged == crate::candidate::capped(crate::candidate::deduped(sorted), cap)
        };
    let unique = crate::candidate::deduped(sorted);
    let member = |w: int, c: Candidate| all.contains(c);
    assert forall|i: int| 0 <= i < sorted.len() implies member(0, #[trigger] sorted[i]) by {
        crate::layer0_laws::lemma_sorted_member(all, sorted, i);
    }
    crate::layer0_laws::lemma_deduped_holds(sorted, 0, member);
    assert forall|i: int| 0 <= i < merged.len() implies all.contains(#[trigger] merged[i]) by {
        assert(member(0, unique[i]));
    }
    crate::layer0_determinism::lemma_deduped_in_order(sorted);
    assert forall|i: int, j: int| 0 <= i < j < merged.len() implies (
    #[trigger] merged[i]).precedes(#[trigger] merged[j]) by {
        assert(unique[i].precedes(unique[j]));
    }
    assert forall|k: int| 0 <= k < all.len() implies has_match(merged, #[trigger] all[k]) || {
        &&& merged.len() == cap
        &&& none_farther(merged, all[k])
    } by {
        let c = all[k];
        lemma_sorted_has(all, sorted, k);
        let at = choose|at: int| 0 <= at < sorted.len() && sorted[at] == c;
        let j = lemma_deduped_covers(sorted, at);
        if j < merged.len() {
            assert(merged[j] == unique[j]);
        } else {
            assert forall|i: int| 0 <= i < merged.len() implies !c.precedes(
                #[trigger] merged[i],
            ) by {
                assert(unique[i].precedes(unique[j]));
            }
        }
    }
}

/// Sorting loses no candidate.
pub proof fn lemma_sorted_has(pool: Seq<Candidate>, sorted: Seq<Candidate>, k: int)
    requires
        crate::candidate::sorts_to(pool, sorted),
        0 <= k < pool.len(),
    ensures
        sorted.contains(pool[k]),
{
    broadcast use vstd::seq_lib::group_to_multiset_ensures;

    assert(pool.contains(pool[k]));
    assert(pool.to_multiset().count(pool[k]) > 0);
    assert(sorted.to_multiset().count(pool[k]) > 0);
}

/// Whether `trimmed` are the closest candidates of `pool`, closest first: as many as
/// there are or as there is room for, and none that was left out is closer.
pub open spec fn is_closest_of(pool: Seq<Candidate>, cap: nat, trimmed: Seq<Candidate>) -> bool {
    &&& trimmed.len() <= cap
    &&& trimmed.len() == pool.len() || trimmed.len() == cap
    &&& forall|i: int| 0 <= i < trimmed.len() ==> pool.contains(#[trigger] trimmed[i])
    &&& forall|i: int, j: int|
        0 <= i < j < trimmed.len() ==> !(#[trigger] trimmed[j]).precedes(#[trigger] trimmed[i])
    &&& forall|k: int|
        0 <= k < pool.len() ==> trimmed.contains(#[trigger] pool[k]) || none_farther(
            trimmed,
            pool[k],
        )
}

/// A trimmed pool holds the closest candidates that there is room for.
pub proof fn law_trim_keeps_closest(pool: Seq<Candidate>, cap: nat, trimmed: Seq<Candidate>)
    requires
        crate::layer0_model::trims_to(pool, cap, trimmed),
    ensures
        is_closest_of(pool, cap, trimmed),
{
    let sorted = choose|sorted: Seq<Candidate>|
        {
            &&& #[trigger] crate::candidate::sorts_to(pool, sorted)
            &&& trimmed == crate::candidate::capped(sorted, cap)
        };
    crate::layer0_laws::lemma_sorted_len(pool, sorted);
    assert forall|i: int| 0 <= i < trimmed.len() implies pool.contains(#[trigger] trimmed[i]) by {
        crate::layer0_laws::lemma_sorted_member(pool, sorted, i);
    }
    assert forall|i: int, j: int| 0 <= i < j < trimmed.len() implies !(
    #[trigger] trimmed[j]).precedes(#[trigger] trimmed[i]) by {
        assert(!sorted[j].precedes(sorted[i]));
    }
    assert forall|k: int| 0 <= k < pool.len() implies trimmed.contains(#[trigger] pool[k])
        || none_farther(trimmed, pool[k]) by {
        lemma_sorted_has(pool, sorted, k);
        let at = choose|at: int| 0 <= at < sorted.len() && sorted[at] == pool[k];
        if at < trimmed.len() {
            assert(trimmed[at] == pool[k]);
        } else {
            assert forall|i: int| 0 <= i < trimmed.len() implies !pool[k].precedes(
                #[trigger] trimmed[i],
            ) by {
                assert(!sorted[at].precedes(sorted[i]));
            }
        }
    }
}

/// Adding reverse edges keeps the closest on both ways. Every point keeps the closest of
/// the edges that lead to it and of its own, which count as new, one for each point, as
/// many as there is room for. It hands them back, turned round, and the pool of a point
/// is the closest of what comes back, again as many as there is room for.
pub proof fn law_reverse_edges_keep_the_closest(
    before: Seq<Seq<Candidate>>,
    cap: nat,
    after: Seq<Seq<Candidate>>,
) -> (merged: Seq<Seq<Candidate>>)
    requires
        crate::layer0_model::reverse_adds(before, cap, after),
    ensures
        after.len() == before.len(),
        merged.len() == before.len(),
        forall|u: int|
            0 <= u < before.len() ==> keeps_closest(
                crate::layer0_model::scattered(before, before.len())[u] + before[u].map_values(
                    |c: Candidate| Candidate { new_flag: true, ..c },
                ),
                cap,
                #[trigger] merged[u],
            ),
        forall|u: int|
            0 <= u < before.len() ==> is_closest_of(
                crate::layer0_model::scattered(merged, merged.len())[u],
                cap,
                #[trigger] after[u],
            ),
{
    let merged = choose|merged: Seq<Seq<Candidate>>|
        {
            &&& #[trigger] crate::layer0_model::merges_all(before, cap, merged)
            &&& forall|u: int|
                0 <= u < before.len() ==> crate::layer0_model::trims_to(
                    crate::layer0_model::scattered(merged, merged.len())[u],
                    cap,
                    #[trigger] after[u],
                )
        };
    let incoming = crate::layer0_model::scattered(before, before.len());
    let back = crate::layer0_model::scattered(merged, merged.len());
    assert forall|u: int| 0 <= u < before.len() implies keeps_closest(
        incoming[u] + before[u].map_values(|c: Candidate| Candidate { new_flag: true, ..c }),
        cap,
        #[trigger] merged[u],
    ) by {
        assert(crate::layer0_model::merges_to(incoming[u], before[u], cap, merged[u]));
        law_merge_keeps_closest(incoming[u], before[u], cap, merged[u]);
    }
    assert forall|u: int| 0 <= u < before.len() implies is_closest_of(
        back[u],
        cap,
        #[trigger] after[u],
    ) by {
        assert(crate::layer0_model::trims_to(back[u], cap, after[u]));
        law_trim_keeps_closest(back[u], cap, after[u]);
    }
    merged
}

/// The candidates of `handed` that are for `w`, in order.
pub open spec fn meant_for(handed: Seq<HandedOn>, w: int) -> Seq<Candidate> {
    handed.filter(|moved: HandedOn| moved.to == w).map_values(|moved: HandedOn| moved.candidate)
}

/// What is handed on reaches the pools that it is for, behind what they hold, in the
/// order in which it was handed on; nothing else reaches a pool.
pub proof fn law_delivery_reaches_its_pool(
    graph: Seq<Seq<Candidate>>,
    handed: Seq<HandedOn>,
    w: int,
)
    requires
        0 <= w < graph.len(),
    ensures
        crate::layer0_model::delivered(graph, handed).len() == graph.len(),
        crate::layer0_model::delivered(graph, handed)[w] == graph[w] + meant_for(handed, w),
    decreases handed.len(),
{
    reveal(Seq::filter);
    if handed.len() == 0 {
        assert(meant_for(handed, w) =~= Seq::<Candidate>::empty());
        assert(graph[w] + meant_for(handed, w) =~= graph[w]);
    } else {
        let earlier = handed.drop_last();
        let last = handed.last();
        law_delivery_reaches_its_pool(graph, earlier, w);
        if last.to == w {
            assert(meant_for(handed, w) =~= meant_for(earlier, w).push(last.candidate));
            assert((graph[w] + meant_for(earlier, w)).push(last.candidate) =~= graph[w] + meant_for(
                handed,
                w,
            ));
        } else {
            assert(meant_for(handed, w) =~= meant_for(earlier, w));
        }
    }
}

/// Scattering turns every edge round: the pool of `w` holds `c` exactly if the point
/// that `c` names has an edge to `w` with the score and flag of `c`.
pub proof fn law_scatter_turns_edges_round(graph: Seq<Seq<Candidate>>, w: int, c: Candidate)
    requires
        graph.len() <= u32::MAX,
        0 <= w < graph.len(),
    ensures
        crate::layer0_model::scattered(graph, graph.len()).len() == graph.len(),
        crate::layer0_model::scattered(graph, graph.len())[w].contains(c) <==> c.idx < graph.len()
            && graph[c.idx as int].contains(Candidate { idx: w as PointOffsetType, ..c }),
{
    let n = graph.len();
    let turned = crate::layer0_model::scattered(graph, n);
    crate::layer0_determinism::lemma_scattered_from(graph, n);
    let from = crate::layer0_determinism::turned_from(graph);
    assert(crate::layer0_laws::pool_holds(turned[w], w, from));
    if turned[w].contains(c) {
        let i = choose|i: int| 0 <= i < turned[w].len() && turned[w][i] == c;
        assert(from(w, turned[w][i]));
    }
    let back = Candidate { idx: w as PointOffsetType, ..c };
    if c.idx < n && graph[c.idx as int].contains(back) {
        lemma_scattered_has(graph, n, c.idx as int, w, back);
    }
}

/// An edge of one of the first points is turned round.
proof fn lemma_scattered_has(
    graph: Seq<Seq<Candidate>>,
    count: nat,
    u: int,
    w: int,
    edge: Candidate,
)
    requires
        0 <= u < count <= graph.len() <= u32::MAX,
        0 <= w < graph.len(),
        graph[u].contains(edge),
        edge.idx == w,
    ensures
        crate::layer0_model::scattered(graph, count)[w].contains(
            Candidate { idx: u as PointOffsetType, ..edge },
        ),
    decreases count,
{
    reveal(Seq::filter);
    let last = count - 1;
    let before = crate::layer0_model::scattered(graph, last as nat);
    let turned = crate::layer0_model::turned(last, graph[last]);
    let c = Candidate { idx: u as PointOffsetType, ..edge };
    crate::layer0_determinism::lemma_scattered_from(graph, last as nat);
    law_delivery_reaches_its_pool(before, turned, w);
    let after = crate::layer0_model::scattered(graph, count);
    if u < last {
        lemma_scattered_has(graph, last as nat, u, w, edge);
        let i = choose|i: int| 0 <= i < before[w].len() && before[w][i] == c;
        assert(after[w][i] == c);
    } else {
        let i = choose|i: int| 0 <= i < graph[u].len() && graph[u][i] == edge;
        let moved = turned[i];
        assert(moved.to == w && moved.candidate == c);
        let picks = |m: HandedOn| m.to == w;
        let picked = turned.filter(picks);
        turned.lemma_filter_contains(picks, i);
        let k = choose|k: int| 0 <= k < picked.len() && picked[k] == moved;
        assert(meant_for(turned, w)[k] == c);
        assert(after[w][before[w].len() + k] == c);
    }
}

} // verus!
