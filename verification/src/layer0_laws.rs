//! What every step of the layer 0 refinement keeps.

use vstd::prelude::*;
use crate::candidate::{Candidate, PointOffsetType};
use crate::layer0_model::HandedOn;
use crate::score::Score;

verus! {

/// Whether `property` holds of `u` and every candidate of `pool`.
pub open spec fn pool_holds(
    pool: Seq<Candidate>,
    u: int,
    property: spec_fn(int, Candidate) -> bool,
) -> bool {
    forall|i: int| 0 <= i < pool.len() ==> property(u, #[trigger] pool[i])
}

/// Whether `property` holds of every point and every candidate of its pool.
pub open spec fn graph_holds(
    graph: Seq<Seq<Candidate>>,
    property: spec_fn(int, Candidate) -> bool,
) -> bool {
    forall|u: int|
        0 <= u < graph.len() ==> #[trigger] pool_holds(graph[u], u, property)
}

/// Whether `property` holds of everything that is on its way to a pool.
pub open spec fn handed_holds(
    handed: Seq<HandedOn>,
    property: spec_fn(int, Candidate) -> bool,
) -> bool {
    forall|i: int|
        0 <= i < handed.len() ==> property(
            (#[trigger] handed[i]).to as int,
            handed[i].candidate,
        )
}

/// Whether the steps of the refinement on `n` points keep `property`: it does not
/// look at the flag, it passes to a candidate that a blocker receives, and it
/// passes to an edge turned round.
pub open spec fn survives_refinement(
    property: spec_fn(int, Candidate) -> bool,
    n: nat,
    score: spec_fn(PointOffsetType, PointOffsetType) -> Score,
) -> bool {
    &&& forall|u: int, c: Candidate, new_flag: bool|
        #![trigger property(u, c), property(u, Candidate { new_flag, ..c })]
        property(u, c) ==> property(u, Candidate { new_flag, ..c })
    &&& forall|u: int, nn: Candidate, other: Candidate|
        #![trigger property(u, nn), property(u, other)]
        0 <= u < n && property(u, nn) && property(u, other) && nn.idx != other.idx ==> property(
            other.idx as int,
            Candidate { idx: nn.idx, score: score(nn.idx, other.idx), new_flag: true },
        )
    &&& forall|u: int, c: Candidate|
        #![trigger property(u, c)]
        0 <= u < n && property(u, c) ==> property(
            c.idx as int,
            Candidate { idx: u as PointOffsetType, score: c.score, new_flag: c.new_flag },
        )
}

/// Sorting brings no candidate in that was not there.
pub proof fn lemma_sorted_member(pool: Seq<Candidate>, sorted: Seq<Candidate>, i: int)
    requires
        crate::candidate::sorts_to(pool, sorted),
        0 <= i < sorted.len(),
    ensures
        pool.contains(sorted[i]),
{
    broadcast use vstd::seq_lib::group_to_multiset_ensures;

    assert(sorted.contains(sorted[i]));
    assert(sorted.to_multiset().count(sorted[i]) > 0);
}

/// Sorting keeps the number of candidates.
pub proof fn lemma_sorted_len(pool: Seq<Candidate>, sorted: Seq<Candidate>)
    requires
        crate::candidate::sorts_to(pool, sorted),
    ensures
        sorted.len() == pool.len(),
{
    broadcast use vstd::seq_lib::group_to_multiset_ensures;

    assert(sorted.len() == sorted.to_multiset().len());
    assert(pool.len() == pool.to_multiset().len());
}

pub proof fn lemma_sorted_holds(
    pool: Seq<Candidate>,
    sorted: Seq<Candidate>,
    u: int,
    property: spec_fn(int, Candidate) -> bool,
)
    requires
        crate::candidate::sorts_to(pool, sorted),
        pool_holds(pool, u, property),
    ensures
        pool_holds(sorted, u, property),
{
    assert forall|i: int| 0 <= i < sorted.len() implies property(u, #[trigger] sorted[i]) by {
        lemma_sorted_member(pool, sorted, i);
        let j = choose|j: int| 0 <= j < pool.len() && pool[j] == sorted[i];
        assert(property(u, pool[j]));
    }
}

pub proof fn lemma_deduped_holds(
    pool: Seq<Candidate>,
    u: int,
    property: spec_fn(int, Candidate) -> bool,
)
    requires
        pool_holds(pool, u, property),
    ensures
        pool_holds(crate::candidate::deduped(pool), u, property),
    decreases pool.len(),
{
    if pool.len() > 0 {
        let shorter = pool.drop_last();
        assert forall|i: int| 0 <= i < shorter.len() implies property(u, #[trigger] shorter[i]) by {
            assert(property(u, pool[i]));
        }
        lemma_deduped_holds(shorter, u, property);
        assert(property(u, pool[pool.len() - 1]));
    }
}

/// The blocker of a candidate is one of those kept before it, and blocks it.
pub proof fn lemma_blocker_is_kept(
    kept: Seq<Candidate>,
    nn: Candidate,
    score: spec_fn(PointOffsetType, PointOffsetType) -> Score,
)
    ensures
        match crate::layer0_model::blocker(kept, nn, score) {
            Some(other) => kept.contains(other) && crate::layer0_model::blocks(other, nn, score),
            None => forall|i: int|
                0 <= i < kept.len() ==> !crate::layer0_model::blocks(
                    #[trigger] kept[i],
                    nn,
                    score,
                ),
        },
    decreases kept.len(),
{
    if kept.len() > 0 {
        let shorter = kept.drop_last();
        lemma_blocker_is_kept(shorter, nn, score);
        match crate::layer0_model::blocker(shorter, nn, score) {
            Some(other) => {
                let i = choose|i: int| 0 <= i < shorter.len() && shorter[i] == other;
                assert(kept[i] == other);
            },
            None => {
                assert forall|i: int| 0 <= i < kept.len() - 1 implies !crate::layer0_model::blocks(
                    #[trigger] kept[i],
                    nn,
                    score,
                ) by {
                    assert(shorter[i] == kept[i]);
                }
                assert(kept[kept.len() - 1] == kept.last());
            },
        }
    }
}

pub proof fn lemma_refined_holds(
    pool: Seq<Candidate>,
    u: int,
    n: nat,
    score: spec_fn(PointOffsetType, PointOffsetType) -> Score,
    property: spec_fn(int, Candidate) -> bool,
)
    requires
        0 <= u < n,
        survives_refinement(property, n, score),
        pool_holds(pool, u, property),
    ensures
        pool_holds(
            crate::layer0_model::refined(pool, u, score).kept,
            u,
            property,
        ),
        handed_holds(crate::layer0_model::refined(pool, u, score).handed, property),
    decreases pool.len(),
{
    if pool.len() > 0 {
        let shorter = pool.drop_last();
        assert forall|i: int| 0 <= i < shorter.len() implies property(u, #[trigger] shorter[i]) by {
            assert(property(u, pool[i]));
        }
        lemma_refined_holds(shorter, u, n, score, property);
        let before = crate::layer0_model::refined(shorter, u, score);
        let nn = pool.last();
        assert(property(u, pool[pool.len() - 1]));
        lemma_blocker_is_kept(before.kept, nn, score);
        if let Some(other) = crate::layer0_model::blocker(before.kept, nn, score) {
            let i = choose|i: int| 0 <= i < before.kept.len() && before.kept[i] == other;
            assert(property(u, before.kept[i]));
            assert(property(u, other));
            assert(property(u, nn));
        }
    }
}

/// Delivery keeps the number of pools.
pub proof fn lemma_delivered_len(graph: Seq<Seq<Candidate>>, handed: Seq<HandedOn>)
    ensures
        crate::layer0_model::delivered(graph, handed).len() == graph.len(),
    decreases handed.len(),
{
    if handed.len() > 0 {
        lemma_delivered_len(graph, handed.drop_last());
    }
}

pub proof fn lemma_delivered_holds(
    graph: Seq<Seq<Candidate>>,
    handed: Seq<HandedOn>,
    property: spec_fn(int, Candidate) -> bool,
)
    requires
        graph_holds(graph, property),
        handed_holds(handed, property),
    ensures
        graph_holds(crate::layer0_model::delivered(graph, handed), property),
        crate::layer0_model::delivered(graph, handed).len() == graph.len(),
    decreases handed.len(),
{
    if handed.len() > 0 {
        let earlier = handed.drop_last();
        assert forall|i: int| 0 <= i < earlier.len() implies property(
            (#[trigger] earlier[i]).to as int,
            earlier[i].candidate,
        ) by {
            assert(property(handed[i].to as int, handed[i].candidate));
        }
        lemma_delivered_holds(graph, earlier, property);
        let before = crate::layer0_model::delivered(graph, earlier);
        let last = handed[handed.len() - 1];
        assert(property(last.to as int, last.candidate));
        let after = crate::layer0_model::received(before, last);
        assert forall|u: int| 0 <= u < after.len() implies #[trigger] pool_holds(
            after[u],
            u,
            property,
        ) by {
            assert(pool_holds(before[u], u, property));
        }
    }
}

pub proof fn lemma_flagged_holds(
    pool: Seq<Candidate>,
    u: int,
    n: nat,
    score: spec_fn(PointOffsetType, PointOffsetType) -> Score,
    property: spec_fn(int, Candidate) -> bool,
    new_flag: bool,
)
    requires
        survives_refinement(property, n, score),
        pool_holds(pool, u, property),
    ensures
        pool_holds(
            crate::candidate::flagged(pool, new_flag),
            u,
            property,
        ),
{
    let after = crate::candidate::flagged(pool, new_flag);
    assert forall|i: int| 0 <= i < after.len() implies property(u, #[trigger] after[i]) by {
        assert(property(u, pool[i]));
        assert(after[i] == Candidate { new_flag, ..pool[i] });
        assert(property(u, Candidate { new_flag, ..pool[i] }));
    }
}

pub proof fn lemma_vertex_update_holds(
    before: Seq<Seq<Candidate>>,
    u: int,
    score: spec_fn(PointOffsetType, PointOffsetType) -> Score,
    after: Seq<Seq<Candidate>>,
    property: spec_fn(int, Candidate) -> bool,
)
    requires
        0 <= u < before.len(),
        survives_refinement(property, before.len(), score),
        graph_holds(before, property),
        crate::layer0_model::vertex_updates(before, u, score, after),
    ensures
        graph_holds(after, property),
        after.len() == before.len(),
{
    let (kept, handed) = choose|kept: Seq<Candidate>, handed: Seq<HandedOn>|
        {
            &&& #[trigger] crate::layer0_model::refines_to(before[u], u, score, kept, handed)
            &&& after == crate::layer0_model::vertex_updated(before, u, kept, handed)
        };
    let sorted = choose|sorted: Seq<Candidate>|
        {
            &&& #[trigger] crate::candidate::sorts_to(before[u], sorted)
            &&& crate::layer0_model::refined(crate::candidate::deduped(sorted), u, score)
                == (crate::layer0_model::Refined { kept, handed })
        };
    assert(pool_holds(before[u], u, property));
    lemma_sorted_holds(before[u], sorted, u, property);
    lemma_deduped_holds(sorted, u, property);
    lemma_refined_holds(crate::candidate::deduped(sorted), u, before.len(), score, property);
    lemma_flagged_holds(kept, u, before.len(), score, property, false);
    lemma_delivered_holds(before, handed, property);
    let middle = crate::layer0_model::delivered(before, handed);
    assert forall|v: int| 0 <= v < after.len() implies #[trigger] pool_holds(
        after[v],
        v,
        property,
    ) by {
        if v != u {
            assert(pool_holds(middle[v], v, property));
        }
    }
}

pub proof fn lemma_prefix_update_holds(
    before: Seq<Seq<Candidate>>,
    count: nat,
    score: spec_fn(PointOffsetType, PointOffsetType) -> Score,
    after: Seq<Seq<Candidate>>,
    property: spec_fn(int, Candidate) -> bool,
)
    requires
        count <= before.len(),
        survives_refinement(property, before.len(), score),
        graph_holds(before, property),
        crate::layer0_model::prefix_updates(before, count, score, after),
    ensures
        graph_holds(after, property),
        after.len() == before.len(),
    decreases count,
{
    if count > 0 {
        let middle = choose|middle: Seq<Seq<Candidate>>|
            {
                &&& crate::layer0_model::prefix_updates(
                    before,
                    (count - 1) as nat,
                    score,
                    middle,
                )
                &&& #[trigger] crate::layer0_model::vertex_updates(middle, count - 1, score, after)
            };
        lemma_prefix_update_holds(before, (count - 1) as nat, score, middle, property);
        lemma_vertex_update_holds(middle, count - 1, score, after, property);
    }
}

pub proof fn lemma_passes_update_holds(
    before: Seq<Seq<Candidate>>,
    passes: nat,
    score: spec_fn(PointOffsetType, PointOffsetType) -> Score,
    after: Seq<Seq<Candidate>>,
    property: spec_fn(int, Candidate) -> bool,
)
    requires
        survives_refinement(property, before.len(), score),
        graph_holds(before, property),
        crate::layer0_model::passes_update(before, passes, score, after),
    ensures
        graph_holds(after, property),
        after.len() == before.len(),
    decreases passes,
{
    if passes > 0 {
        let middle = choose|middle: Seq<Seq<Candidate>>|
            {
                &&& crate::layer0_model::passes_update(
                    before,
                    (passes - 1) as nat,
                    score,
                    middle,
                )
                &&& #[trigger] crate::layer0_model::round_updates(middle, score, after)
            };
        lemma_passes_update_holds(before, (passes - 1) as nat, score, middle, property);
        lemma_prefix_update_holds(middle, middle.len(), score, after, property);
    }
}

pub proof fn lemma_turned_holds(
    u: int,
    pool: Seq<Candidate>,
    n: nat,
    score: spec_fn(PointOffsetType, PointOffsetType) -> Score,
    property: spec_fn(int, Candidate) -> bool,
)
    requires
        0 <= u < n,
        survives_refinement(property, n, score),
        pool_holds(pool, u, property),
    ensures
        handed_holds(crate::layer0_model::turned(u, pool), property),
{
    let handed = crate::layer0_model::turned(u, pool);
    assert forall|i: int| 0 <= i < handed.len() implies property(
        (#[trigger] handed[i]).to as int,
        handed[i].candidate,
    ) by {
        assert(property(u, pool[i]));
    }
}

pub proof fn lemma_scattered_holds(
    graph: Seq<Seq<Candidate>>,
    count: nat,
    score: spec_fn(PointOffsetType, PointOffsetType) -> Score,
    property: spec_fn(int, Candidate) -> bool,
)
    requires
        count <= graph.len(),
        survives_refinement(property, graph.len(), score),
        graph_holds(graph, property),
    ensures
        graph_holds(crate::layer0_model::scattered(graph, count), property),
        crate::layer0_model::scattered(graph, count).len() == graph.len(),
    decreases count,
{
    if count > 0 {
        let u = count - 1;
        lemma_scattered_holds(graph, u as nat, score, property);
        assert(pool_holds(graph[u], u, property));
        lemma_turned_holds(u, graph[u], graph.len(), score, property);
        lemma_delivered_holds(
            crate::layer0_model::scattered(graph, u as nat),
            crate::layer0_model::turned(u, graph[u]),
            property,
        );
    }
}

pub proof fn lemma_merges_hold(
    before: Seq<Seq<Candidate>>,
    cap: nat,
    merged: Seq<Seq<Candidate>>,
    score: spec_fn(PointOffsetType, PointOffsetType) -> Score,
    property: spec_fn(int, Candidate) -> bool,
)
    requires
        survives_refinement(property, before.len(), score),
        graph_holds(before, property),
        crate::layer0_model::merges_all(before, cap, merged),
    ensures
        graph_holds(merged, property),
{
    let n = before.len();
    let incoming = crate::layer0_model::scattered(before, n);
    lemma_scattered_holds(before, n, score, property);
    assert forall|u: int| 0 <= u < n implies #[trigger] pool_holds(
        merged[u],
        u,
        property,
    ) by {
        assert(crate::layer0_model::merges_to(incoming[u], before[u], cap, merged[u]));
        let own = crate::candidate::flagged(before[u], true);
        let sorted = choose|sorted: Seq<Candidate>|
            {
                &&& #[trigger] crate::candidate::sorts_to(incoming[u] + own, sorted)
                &&& merged[u] == crate::candidate::capped(crate::candidate::deduped(sorted), cap)
            };
        assert(pool_holds(incoming[u], u, property));
        assert(pool_holds(before[u], u, property));
        lemma_flagged_holds(before[u], u, n, score, property, true);
        let all = incoming[u] + own;
        assert forall|i: int| 0 <= i < all.len() implies property(u, #[trigger] all[i]) by {
            if i < incoming[u].len() {
                assert(property(u, incoming[u][i]));
            } else {
                assert(property(u, own[i - incoming[u].len()]));
            }
        }
        lemma_sorted_holds(all, sorted, u, property);
        lemma_deduped_holds(sorted, u, property);
    }
}

pub proof fn lemma_reverse_holds(
    before: Seq<Seq<Candidate>>,
    cap: nat,
    after: Seq<Seq<Candidate>>,
    score: spec_fn(PointOffsetType, PointOffsetType) -> Score,
    property: spec_fn(int, Candidate) -> bool,
)
    requires
        survives_refinement(property, before.len(), score),
        graph_holds(before, property),
        crate::layer0_model::reverse_adds(before, cap, after),
    ensures
        graph_holds(after, property),
        after.len() == before.len(),
{
    let n = before.len();
    let merged = choose|merged: Seq<Seq<Candidate>>|
        {
            &&& #[trigger] crate::layer0_model::merges_all(before, cap, merged)
            &&& forall|u: int|
                0 <= u < before.len() ==> crate::layer0_model::trims_to(
                    crate::layer0_model::scattered(merged, merged.len())[u],
                    cap,
                    #[trigger] after[u],
                )
        };
    lemma_merges_hold(before, cap, merged, score, property);
    lemma_scattered_holds(merged, n, score, property);
    let back = crate::layer0_model::scattered(merged, n);
    assert forall|u: int| 0 <= u < n implies #[trigger] pool_holds(
        after[u],
        u,
        property,
    ) by {
        assert(crate::layer0_model::trims_to(back[u], cap, after[u]));
        let sorted = choose|sorted: Seq<Candidate>|
            {
                &&& #[trigger] crate::candidate::sorts_to(back[u], sorted)
                &&& after[u] == crate::candidate::capped(sorted, cap)
            };
        assert(pool_holds(back[u], u, property));
        lemma_sorted_holds(back[u], sorted, u, property);
    }
}

pub proof fn lemma_round_holds(
    before: Seq<Seq<Candidate>>,
    round: nat,
    rounds: nat,
    passes: nat,
    cap: nat,
    score: spec_fn(PointOffsetType, PointOffsetType) -> Score,
    after: Seq<Seq<Candidate>>,
    property: spec_fn(int, Candidate) -> bool,
)
    requires
        survives_refinement(property, before.len(), score),
        graph_holds(before, property),
        crate::layer0_model::round_refines(before, round, rounds, passes, cap, score, after),
    ensures
        graph_holds(after, property),
        after.len() == before.len(),
{
    if round + 1 < rounds {
        let middle = choose|middle: Seq<Seq<Candidate>>|
            {
                &&& #[trigger] crate::layer0_model::passes_update(before, passes, score, middle)
                &&& crate::layer0_model::reverse_adds(middle, cap, after)
            };
        lemma_passes_update_holds(before, passes, score, middle, property);
        lemma_reverse_holds(middle, cap, after, score, property);
    } else {
        lemma_passes_update_holds(before, passes, score, after, property);
    }
}

pub proof fn lemma_rounds_hold(
    before: Seq<Seq<Candidate>>,
    count: nat,
    rounds: nat,
    passes: nat,
    cap: nat,
    score: spec_fn(PointOffsetType, PointOffsetType) -> Score,
    after: Seq<Seq<Candidate>>,
    property: spec_fn(int, Candidate) -> bool,
)
    requires
        survives_refinement(property, before.len(), score),
        graph_holds(before, property),
        crate::layer0_model::rounds_refine(before, count, rounds, passes, cap, score, after),
    ensures
        graph_holds(after, property),
        after.len() == before.len(),
    decreases count,
{
    if count > 0 {
        let middle = choose|middle: Seq<Seq<Candidate>>|
            {
                &&& crate::layer0_model::rounds_refine(
                    before,
                    (count - 1) as nat,
                    rounds,
                    passes,
                    cap,
                    score,
                    middle,
                )
                &&& #[trigger] crate::layer0_model::round_refines(
                    middle,
                    (count - 1) as nat,
                    rounds,
                    passes,
                    cap,
                    score,
                    after,
                )
            };
        lemma_rounds_hold(before, (count - 1) as nat, rounds, passes, cap, score, middle, property);
        lemma_round_holds(
            middle,
            (count - 1) as nat,
            rounds,
            passes,
            cap,
            score,
            after,
            property,
        );
    }
}

/// Every point belongs to the chunk of a worker.
pub proof fn lemma_chunk_of(u: nat, upto: nat, workers: nat, len: nat) -> (t: nat)
    requires
        upto <= workers,
        workers > 0,
        u < crate::layer0_model::chunk_start(upto, workers, len),
    ensures
        t < upto,
        crate::layer0_model::chunk_start(t, workers, len) <= u
            < crate::layer0_model::chunk_start(t + 1, workers, len),
    decreases upto,
{
    if upto == 0 {
        crate::layer0_model::law_chunks_partition(0, workers, len);
        0
    } else if crate::layer0_model::chunk_start((upto - 1) as nat, workers, len) <= u {
        (upto - 1) as nat
    } else {
        lemma_chunk_of(u, (upto - 1) as nat, workers, len)
    }
}

/// Whether `property` holds of every edge between two of `n` points that has its
/// score and is new.
pub open spec fn holds_at_start(
    property: spec_fn(int, Candidate) -> bool,
    n: nat,
    score: spec_fn(PointOffsetType, PointOffsetType) -> Score,
) -> bool {
    forall|u: int, at: int|
        0 <= u < n && 0 <= at < n && u != at ==> #[trigger] property(
            u,
            fresh_edge(u, at, score),
        )
}

/// The new edge from `u` to `at`.
pub open spec fn fresh_edge(
    u: int,
    at: int,
    score: spec_fn(PointOffsetType, PointOffsetType) -> Score,
) -> Candidate {
    Candidate {
        idx: at as PointOffsetType,
        score: score(u as PointOffsetType, at as PointOffsetType),
        new_flag: true,
    }
}

/// The proposals for `u` are new edges to the positions other than `u`.
pub proof fn lemma_proposals_hold(
    u: int,
    positions: Seq<int>,
    n: nat,
    score: spec_fn(PointOffsetType, PointOffsetType) -> Score,
    property: spec_fn(int, Candidate) -> bool,
)
    requires
        0 <= u < n,
        holds_at_start(property, n, score),
        forall|i: int| 0 <= i < positions.len() ==> 0 <= #[trigger] positions[i] < n,
    ensures
        pool_holds(crate::layer0_model::proposals(u, positions, score), u, property),
    decreases positions.len(),
{
    if positions.len() > 0 {
        let shorter = positions.drop_last();
        assert forall|i: int| 0 <= i < shorter.len() implies 0 <= #[trigger] shorter[i] < n by {
            assert(shorter[i] == positions[i]);
        }
        lemma_proposals_hold(u, shorter, n, score, property);
        let at = positions[positions.len() - 1];
        if at != u {
            assert(property(u, fresh_edge(u, at, score)));
        }
    }
}

/// The positions that an initial pool proposes are below `n`.
pub proof fn lemma_start_positions(draw: spec_fn(nat) -> u32, s: nat, n: nat)
    ensures
        n > s ==> forall|i: int|
            0 <= i < crate::layer0_model::sample(draw, s, n).len() ==> 0
                <= #[trigger] crate::layer0_model::sample(draw, s, n)[i] < n,
        forall|i: int|
            0 <= i < n ==> 0 <= #[trigger] crate::layer0_model::all_positions(n)[i] < n,
{
    if n > s {
        crate::layer0_model::law_sample_is_distinct(draw, s, n);
    }
}

pub proof fn lemma_initial_holds(
    initial: Seq<Seq<Candidate>>,
    n: nat,
    s: nat,
    seed: u64,
    workers: nat,
    score: spec_fn(PointOffsetType, PointOffsetType) -> Score,
    property: spec_fn(int, Candidate) -> bool,
)
    requires
        0 < workers <= u64::MAX,
        holds_at_start(property, n, score),
        crate::layer0_model::initializes(
            crate::layer0_model::bare_graph(n),
            initial,
            s,
            seed,
            workers,
            score,
        ),
    ensures
        initial.len() == n,
        graph_holds(initial, property),
{
    if n > 1 {
        assert forall|u: int| 0 <= u < n implies #[trigger] pool_holds(
            initial[u],
            u,
            property,
        ) by {
            crate::layer0_model::law_chunks_partition(0, workers, n);
            let t = lemma_chunk_of(u as nat, workers, workers, n) as u64;
            let from = crate::layer0_model::chunk_start(t as nat, workers, n);
            let to = crate::layer0_model::chunk_start((t + 1) as nat, workers, n);
            assert(crate::layer0_model::chunk_starts_as(initial, s, seed, t, from, to, score));
            let place = (u - from) as nat;
            let draw = crate::layer0_model::vertex_draw(seed, t, place, s);
            lemma_start_positions(draw, s, n);
            let positions = if n > s {
                crate::layer0_model::sample(draw, s, n)
            } else {
                crate::layer0_model::all_positions(n)
            };
            lemma_proposals_hold(u, positions, n, score, property);
            lemma_sorted_holds(
                crate::layer0_model::proposals(u, positions, score),
                initial[u],
                u,
                property,
            );
        }
    }
}

} // verus!
