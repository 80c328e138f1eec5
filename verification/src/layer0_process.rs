//! How the refinement of layer 0 goes, step by step.

use vstd::prelude::*;
use crate::candidate::{Candidate, PointOffsetType, ScoredPointOffset};
use crate::layer0_model::{HandedOn, RefinementStep};
use crate::score::Score;

verus! {

// ---------------------------------------------------------------------------
// The initial graph
// ---------------------------------------------------------------------------

/// With more points than `s`, the initial pool of a point names exactly the points that
/// its worker draws for it, except the point itself: each with the score between the
/// two, as new, and closest first. The worker is the one whose chunk the point is in.
pub proof fn law_initial_pool_names_its_sample(
    initial: Seq<Seq<Candidate>>,
    n: nat,
    s: nat,
    seed: u64,
    workers: nat,
    score: spec_fn(PointOffsetType, PointOffsetType) -> Score,
    t: u64,
    place: nat,
    v: PointOffsetType,
)
    requires
        s < n,
        1 < n <= u32::MAX,
        t < workers,
        crate::layer0_model::initializes(
            crate::layer0_model::bare_graph(n),
            initial,
            s,
            seed,
            workers,
            score,
        ),
        crate::layer0_model::chunk_start(t as nat, workers, n) + place
            < crate::layer0_model::chunk_start((t + 1) as nat, workers, n),
    ensures
        ({
            let u = crate::layer0_model::chunk_start(t as nat, workers, n) + place;
            let drawn = crate::layer0_model::sample(
                crate::layer0_model::vertex_draw(seed, t, place, s),
                s,
                n,
            );
            &&& u < n
            &&& (exists|i: int| 0 <= i < initial[u as int].len() && (
            #[trigger] initial[u as int][i]).idx == v) <==> v != u && drawn.contains(v as int)
            &&& forall|i: int|
                0 <= i < initial[u as int].len() ==> {
                    &&& (#[trigger] initial[u as int][i]).new_flag
                    &&& initial[u as int][i].score == score(
                        u as PointOffsetType,
                        initial[u as int][i].idx,
                    )
                }
            &&& crate::candidate::in_order(initial[u as int])
        }),
{
    let from = crate::layer0_model::chunk_start(t as nat, workers, n);
    let to = crate::layer0_model::chunk_start((t + 1) as nat, workers, n);
    let u = (from + place) as int;
    crate::layer0_model::law_chunks_partition(t as nat, workers, n);
    assert(crate::layer0_model::chunk_starts_as(initial, s, seed, t, from, to, score));
    let draw = crate::layer0_model::vertex_draw(seed, t, place, s);
    let drawn = crate::layer0_model::sample(draw, s, n);
    crate::layer0_model::law_sample_is_distinct(draw, s, n);
    let proposed = crate::layer0_model::proposals(u, drawn, score);
    assert((u - from) as nat == place);
    assert(crate::candidate::sorts_to(proposed, initial[u]));
    crate::layer0_structure::lemma_proposals_name(u, drawn, score, v);
    crate::layer0_structure::lemma_sorted_links(proposed, initial[u], v);
    let fresh = |w: int, c: Candidate| c.new_flag && c.score == score(w as PointOffsetType, c.idx);
    assert(crate::layer0_laws::holds_at_start(fresh, n, score));
    crate::layer0_laws::lemma_proposals_hold(u, drawn, n, score, fresh);
    crate::layer0_laws::lemma_sorted_holds(proposed, initial[u], u, fresh);
    assert forall|i: int| 0 <= i < initial[u].len() implies {
        &&& (#[trigger] initial[u][i]).new_flag
        &&& initial[u][i].score == score(u as PointOffsetType, initial[u][i].idx)
    } by {
        assert(fresh(u, initial[u][i]));
    }
}

/// Every initial pool stands closest first, and its candidates are new and have the
/// scores between their point and the owner of the pool.
pub proof fn law_initial_pools_are_new(
    initial: Seq<Seq<Candidate>>,
    n: nat,
    s: nat,
    seed: u64,
    workers: nat,
    score: spec_fn(PointOffsetType, PointOffsetType) -> Score,
    u: int,
)
    requires
        0 < workers <= u64::MAX,
        crate::layer0_model::initializes(
            crate::layer0_model::bare_graph(n),
            initial,
            s,
            seed,
            workers,
            score,
        ),
        0 <= u < n,
    ensures
        initial.len() == n,
        crate::candidate::in_order(initial[u]),
        forall|i: int|
            0 <= i < initial[u].len() ==> {
                &&& (#[trigger] initial[u][i]).new_flag
                &&& initial[u][i].score == score(u as PointOffsetType, initial[u][i].idx)
            },
{
    let fresh = |w: int, c: Candidate| c.new_flag && c.score == score(w as PointOffsetType, c.idx);
    crate::layer0_laws::lemma_initial_holds(initial, n, s, seed, workers, score, fresh);
    assert(crate::layer0_laws::pool_holds(initial[u], u, fresh));
    assert forall|i: int| 0 <= i < initial[u].len() implies {
        &&& (#[trigger] initial[u][i]).new_flag
        &&& initial[u][i].score == score(u as PointOffsetType, initial[u][i].idx)
    } by {
        assert(fresh(u, initial[u][i]));
    }
    if n > 1 {
        crate::layer0_model::law_chunks_partition(0, workers, n);
        let t = crate::layer0_laws::lemma_chunk_of(u as nat, workers, workers, n) as u64;
        let from = crate::layer0_model::chunk_start(t as nat, workers, n);
        let to = crate::layer0_model::chunk_start((t + 1) as nat, workers, n);
        assert(crate::layer0_model::chunk_starts_as(initial, s, seed, t, from, to, score));
    }
}

/// The score between two live points is that of the points themselves.
pub proof fn law_scores_are_between_the_points(
    alive: Seq<PointOffsetType>,
    score: spec_fn(PointOffsetType, PointOffsetType) -> Score,
    a: PointOffsetType,
    b: PointOffsetType,
)
    requires
        a < alive.len(),
        b < alive.len(),
        a != b,
    ensures
        crate::layer0_model::scores_between(alive, score)(a, b) == score(
            alive[a as int],
            alive[b as int],
        ),
{
}

// ---------------------------------------------------------------------------
// Refinement of a pool
// ---------------------------------------------------------------------------

/// Whether a kept candidate stops `nn`, unless both are settled: it is the same point,
/// or `nn` is closer to it than to the owner of the pool.
pub open spec fn stops(
    kept: Candidate,
    nn: Candidate,
    score: spec_fn(PointOffsetType, PointOffsetType) -> Score,
) -> bool {
    &&& nn.new_flag || kept.new_flag
    &&& nn.idx == kept.idx || score(nn.idx, kept.idx).exceeds(nn.score)
}

/// The refinement of a pool is greedy. It goes through the pool in order: a candidate
/// that no kept one stops is kept. One that is stopped goes to the first kept one that
/// stops it, with the score between the two and as new, unless that is the same point.
/// The owner of the pool is passed over.
pub proof fn law_refinement_is_greedy(
    pool: Seq<Candidate>,
    k: int,
    u: int,
    score: spec_fn(PointOffsetType, PointOffsetType) -> Score,
)
    requires
        0 <= k < pool.len(),
    ensures
        ({
            let before = crate::layer0_model::refined(pool.take(k), u, score);
            let after = crate::layer0_model::refined(pool.take(k + 1), u, score);
            let nn = pool[k];
            &&& nn.idx == u ==> after == before
            &&& nn.idx != u && (forall|i: int|
                0 <= i < before.kept.len() ==> !stops(#[trigger] before.kept[i], nn, score))
                ==> after.kept == before.kept.push(nn) && after.handed == before.handed
            &&& forall|i: int|
                nn.idx != u && 0 <= i < before.kept.len() && stops(
                    #[trigger] before.kept[i],
                    nn,
                    score,
                ) && (forall|j: int|
                    0 <= j < i ==> !stops(#[trigger] before.kept[j], nn, score)) ==> {
                    &&& after.kept == before.kept
                    &&& after.handed == if before.kept[i].idx == nn.idx {
                        before.handed
                    } else {
                        before.handed.push(
                            HandedOn {
                                to: before.kept[i].idx,
                                candidate: Candidate {
                                    idx: nn.idx,
                                    score: score(nn.idx, before.kept[i].idx),
                                    new_flag: true,
                                },
                            },
                        )
                    }
                }
        }),
        crate::layer0_model::refined(pool.take(0), u, score).kept.len() == 0,
        crate::layer0_model::refined(pool.take(0), u, score).handed.len() == 0,
        pool.take(pool.len() as int) == pool,
{
    let before = crate::layer0_model::refined(pool.take(k), u, score);
    let nn = pool[k];
    assert(pool.take(k + 1).drop_last() =~= pool.take(k));
    assert(pool.take(k + 1).last() == nn);
    lemma_first_blocker(before.kept, nn, score);
    assert(pool.take(pool.len() as int) =~= pool);
}

/// The blocker is the first kept candidate that stops.
proof fn lemma_first_blocker(
    kept: Seq<Candidate>,
    nn: Candidate,
    score: spec_fn(PointOffsetType, PointOffsetType) -> Score,
)
    ensures
        (forall|i: int| 0 <= i < kept.len() ==> !stops(#[trigger] kept[i], nn, score))
            ==> crate::layer0_model::blocker(kept, nn, score) is None,
        forall|i: int|
            0 <= i < kept.len() && stops(#[trigger] kept[i], nn, score) && (forall|j: int|
                0 <= j < i ==> !stops(#[trigger] kept[j], nn, score))
                ==> crate::layer0_model::blocker(kept, nn, score) == Some(kept[i]),
    decreases kept.len(),
{
    if kept.len() > 0 {
        let shorter = kept.drop_last();
        lemma_first_blocker(shorter, nn, score);
        assert forall|i: int| 0 <= i < shorter.len() implies #[trigger] shorter[i] == kept[i] by {}
        if forall|i: int| 0 <= i < kept.len() ==> !stops(#[trigger] kept[i], nn, score) {
            assert forall|i: int| 0 <= i < shorter.len() implies !stops(
                #[trigger] shorter[i],
                nn,
                score,
            ) by {
                assert(!stops(kept[i], nn, score));
            }
            assert(!stops(kept[kept.len() - 1], nn, score));
        }
        assert forall|i: int|
            0 <= i < kept.len() && stops(#[trigger] kept[i], nn, score) && (forall|j: int|
                0 <= j < i ==> !stops(
                    #[trigger] kept[j],
                    nn,
                    score,
                )) implies crate::layer0_model::blocker(kept, nn, score) == Some(kept[i]) by {
            assert forall|j: int| 0 <= j < i implies !stops(
                #[trigger] shorter[j],
                nn,
                score,
            ) by {
                assert(!stops(kept[j], nn, score));
            }
            if i < shorter.len() {
                assert(stops(shorter[i], nn, score));
            }
        }
    }
}

/// Refining a pool settles it and changes no other but by what it hands on: all that is
/// left in it was there and is settled, it stands closest first, and another pool keeps
/// what it holds, with new candidates behind it.
pub proof fn law_update_settles_one_pool(
    before: Seq<Seq<Candidate>>,
    u: int,
    score: spec_fn(PointOffsetType, PointOffsetType) -> Score,
    after: Seq<Seq<Candidate>>,
    w: int,
)
    requires
        0 <= u < before.len(),
        0 <= w < before.len(),
        crate::layer0_model::vertex_updates(before, u, score, after),
    ensures
        after.len() == before.len(),
        crate::candidate::in_order(after[u]),
        forall|i: int|
            0 <= i < after[u].len() ==> {
                &&& !(#[trigger] after[u][i]).new_flag
                &&& after[u][i].idx != u
                &&& exists|j: int|
                    0 <= j < before[u].len() && (#[trigger] before[u][j]).idx == after[u][i].idx
                        && before[u][j].score == after[u][i].score
            },
        w != u ==> before[w].is_prefix_of(after[w]),
        w != u ==> forall|i: int|
            before[w].len() <= i < after[w].len() ==> (#[trigger] after[w][i]).new_flag,
{
    let (kept, handed) = choose|kept: Seq<Candidate>, handed: Seq<HandedOn>|
        {
            &&& #[trigger] crate::layer0_model::refines_to(before[u], u, score, kept, handed)
            &&& after == crate::layer0_model::vertex_updated(before, u, kept, handed)
        };
    let sorted = choose|sorted: Seq<Candidate>|
        {
            &&& #[trigger] crate::candidate::sorts_to(before[u], sorted)
            &&& crate::layer0_model::refined(crate::candidate::deduped(sorted), u, score)
                == (crate::layer0_model::Refined { kept, handed })
        };
    let unique = crate::candidate::deduped(sorted);
    crate::candidate_laws::law_delivery_reaches_its_pool(before, handed, w);
    crate::candidate_laws::law_delivery_reaches_its_pool(before, handed, u);
    crate::layer0_determinism::lemma_deduped_in_order(sorted);
    crate::layer0_determinism::lemma_kept_in_order(unique, u, score);
    crate::layer0_determinism::lemma_refined_members(unique, u, score);
    lemma_owner_is_not_kept(unique, u, score);
    let member = |x: int, c: Candidate| before[u].contains(c);
    assert forall|i: int| 0 <= i < sorted.len() implies member(0, #[trigger] sorted[i]) by {
        crate::layer0_laws::lemma_sorted_member(before[u], sorted, i);
    }
    crate::layer0_laws::lemma_deduped_holds(sorted, 0, member);
    assert forall|i: int, j: int| 0 <= i < j < after[u].len() implies !(
    #[trigger] after[u][j]).precedes(#[trigger] after[u][i]) by {
        assert(!kept[j].precedes(kept[i]));
    }
    assert forall|i: int| 0 <= i < after[u].len() implies {
        &&& !(#[trigger] after[u][i]).new_flag
        &&& after[u][i].idx != u
        &&& exists|j: int|
            0 <= j < before[u].len() && (#[trigger] before[u][j]).idx == after[u][i].idx
                && before[u][j].score == after[u][i].score
    } by {
        assert(unique.contains(kept[i]));
        let k = choose|k: int| 0 <= k < unique.len() && unique[k] == kept[i];
        assert(member(0, unique[k]));
        let j = choose|j: int| 0 <= j < before[u].len() && before[u][j] == kept[i];
        assert(before[u][j].idx == after[u][i].idx);
    }
    if w != u {
        let arrived = crate::candidate_laws::meant_for(handed, w);
        assert(after[w] == before[w] + arrived);
        let picks = |m: HandedOn| m.to == w;
        assert forall|i: int| before[w].len() <= i < after[w].len() implies (
        #[trigger] after[w][i]).new_flag by {
            let k = i - before[w].len();
            let moved = handed.filter(picks)[k];
            assert(handed.filter(picks).contains(moved));
            handed.lemma_filter_contains_rev(picks, moved);
            let at = choose|at: int| 0 <= at < handed.len() && handed[at] == moved;
            assert(crate::layer0_determinism::unflagged_handed(handed)[at] == handed[at]);
        }
    }
}

/// No candidate is lost: for each that names another point, the pool holds one of that
/// point that is as close, which is kept, or is farther from the owner than from a kept
/// point, whose pool receives it with the score between the two.
pub proof fn law_update_keeps_or_hands_on(
    before: Seq<Seq<Candidate>>,
    u: int,
    score: spec_fn(PointOffsetType, PointOffsetType) -> Score,
    after: Seq<Seq<Candidate>>,
    k: int,
)
    requires
        0 <= u < before.len(),
        crate::layer0_model::vertex_updates(before, u, score, after),
        0 <= k < before[u].len(),
        before[u][k].idx != u,
    ensures
        exists|j: int| 0 <= j < before[u].len() && is_as_close(#[trigger] before[u][j], before[u][k])
            && is_kept_or_handed_on(before[u][j], u, score, after),
{
    let c = before[u][k];
    let (kept, handed) = choose|kept: Seq<Candidate>, handed: Seq<HandedOn>|
        {
            &&& #[trigger] crate::layer0_model::refines_to(before[u], u, score, kept, handed)
            &&& after == crate::layer0_model::vertex_updated(before, u, kept, handed)
        };
    let sorted = choose|sorted: Seq<Candidate>|
        {
            &&& #[trigger] crate::candidate::sorts_to(before[u], sorted)
            &&& crate::layer0_model::refined(crate::candidate::deduped(sorted), u, score)
                == (crate::layer0_model::Refined { kept, handed })
        };
    let unique = crate::candidate::deduped(sorted);
    crate::candidate_laws::lemma_sorted_has(before[u], sorted, k);
    let at = choose|at: int| 0 <= at < sorted.len() && sorted[at] == c;
    let i = crate::candidate_laws::lemma_deduped_covers(sorted, at);
    let head = unique[i];
    let member = |x: int, y: Candidate| before[u].contains(y);
    assert forall|x: int| 0 <= x < sorted.len() implies member(0, #[trigger] sorted[x]) by {
        crate::layer0_laws::lemma_sorted_member(before[u], sorted, x);
    }
    crate::layer0_laws::lemma_deduped_holds(sorted, 0, member);
    assert(member(0, unique[i]));
    let j = choose|j: int| 0 <= j < before[u].len() && before[u][j] == head;
    crate::layer0_structure::law_refinement_prunes_longest_edges(unique, u, score);
    lemma_owner_is_not_kept(unique, u, score);
    crate::candidate_laws::law_delivery_reaches_its_pool(before, handed, u);
    if kept.contains(unique[i]) {
        let at = choose|at: int| 0 <= at < kept.len() && kept[at] == head;
        assert(after[u][at].idx == head.idx && after[u][at].score == head.score);
    } else {
        let at = choose|at: int|
            0 <= at < kept.len() && #[trigger] crate::layer0_structure::gives_way(
                unique[i],
                kept[at],
                score,
                handed,
            );
        let other = kept[at];
        assert(after[u][at].idx == other.idx);
        if other.idx != head.idx && other.idx < before.len() {
            let w = other.idx as int;
            let moved = crate::layer0_structure::moved(head, other, score);
            assert(handed.contains(moved));
            let m = choose|m: int| 0 <= m < handed.len() && handed[m] == moved;
            let picks = |x: HandedOn| x.to == w;
            handed.lemma_filter_contains(picks, m);
            let picked = handed.filter(picks);
            let q = choose|q: int| 0 <= q < picked.len() && picked[q] == moved;
            crate::candidate_laws::law_delivery_reaches_its_pool(before, handed, w);
            assert(crate::candidate_laws::meant_for(handed, w)[q] == moved.candidate);
            assert(after[w][before[w].len() + q] == moved.candidate);
            assert(after[w].contains(handed_candidate(head, other.idx, score)));
        }
    }
    assert(is_kept_or_handed_on(head, u, score, after));
    assert(is_as_close(before[u][j], c));
}

/// Whether `one` is a candidate of the same point as `two` and as close.
pub open spec fn is_as_close(one: Candidate, two: Candidate) -> bool {
    one.idx == two.idx && one.score.rank() >= two.score.rank()
}

/// The candidate that the pool of `to` receives for `c`.
pub open spec fn handed_candidate(
    c: Candidate,
    to: PointOffsetType,
    score: spec_fn(PointOffsetType, PointOffsetType) -> Score,
) -> Candidate {
    Candidate { idx: c.idx, score: score(c.idx, to), new_flag: true }
}

/// Whether the pool of `u` holds the point of `c`, or a point that `c` is closer to and
/// was handed to.
pub open spec fn is_kept_or_handed_on(
    c: Candidate,
    u: int,
    score: spec_fn(PointOffsetType, PointOffsetType) -> Score,
    after: Seq<Seq<Candidate>>,
) -> bool {
    exists|i: int|
        0 <= i < after[u].len() && {
            let m = #[trigger] after[u][i];
            ||| m.idx == c.idx
            ||| {
                &&& score(c.idx, m.idx).exceeds(c.score)
                &&& m.idx < after.len() ==> after[m.idx as int].contains(
                    handed_candidate(c, m.idx, score),
                )
            }
        }
}

/// The owner of a pool is not kept in it.
pub proof fn lemma_owner_is_not_kept(
    pool: Seq<Candidate>,
    u: int,
    score: spec_fn(PointOffsetType, PointOffsetType) -> Score,
)
    ensures
        forall|i: int|
            0 <= i < crate::layer0_model::refined(pool, u, score).kept.len() ==> (
            #[trigger] crate::layer0_model::refined(pool, u, score).kept[i]).idx != u,
    decreases pool.len(),
{
    if pool.len() > 0 {
        let before = crate::layer0_model::refined(pool.drop_last(), u, score).kept;
        let after = crate::layer0_model::refined(pool, u, score).kept;
        lemma_owner_is_not_kept(pool.drop_last(), u, score);
        assert forall|i: int| 0 <= i < after.len() implies (#[trigger] after[i]).idx != u by {
            if i < before.len() {
                assert(after[i] == before[i]);
            }
        }
    }
}

// ---------------------------------------------------------------------------
// Passes and rounds
// ---------------------------------------------------------------------------

/// Whether each graph of `trace` follows from the one before by refining the pool of the
/// next point.
pub open spec fn refines_each_in_turn(
    trace: Seq<Seq<Seq<Candidate>>>,
    score: spec_fn(PointOffsetType, PointOffsetType) -> Score,
) -> bool {
    forall|u: int|
        0 <= u < trace.len() - 1 ==> #[trigger] crate::layer0_model::vertex_updates(
            trace[u],
            u,
            score,
            trace[u + 1],
        )
}

/// An update pass refines the pool of every point, each once, in the order of the
/// points.
pub proof fn law_pass_refines_every_pool_once(
    before: Seq<Seq<Candidate>>,
    score: spec_fn(PointOffsetType, PointOffsetType) -> Score,
    after: Seq<Seq<Candidate>>,
) -> (trace: Seq<Seq<Seq<Candidate>>>)
    requires
        crate::layer0_model::round_updates(before, score, after),
    ensures
        trace.len() == before.len() + 1,
        trace.first() == before,
        trace.last() == after,
        refines_each_in_turn(trace, score),
{
    lemma_prefix_trace(before, before.len(), score, after)
}

proof fn lemma_prefix_trace(
    before: Seq<Seq<Candidate>>,
    count: nat,
    score: spec_fn(PointOffsetType, PointOffsetType) -> Score,
    after: Seq<Seq<Candidate>>,
) -> (trace: Seq<Seq<Seq<Candidate>>>)
    requires
        crate::layer0_model::prefix_updates(before, count, score, after),
    ensures
        trace.len() == count + 1,
        trace.first() == before,
        trace.last() == after,
        refines_each_in_turn(trace, score),
    decreases count,
{
    if count == 0 {
        seq![before]
    } else {
        let middle = choose|middle: Seq<Seq<Candidate>>|
            {
                &&& crate::layer0_model::prefix_updates(before, (count - 1) as nat, score, middle)
                &&& #[trigger] crate::layer0_model::vertex_updates(
                    middle,
                    count - 1,
                    score,
                    after,
                )
            };
        let earlier = lemma_prefix_trace(before, (count - 1) as nat, score, middle);
        let trace = earlier.push(after);
        assert forall|u: int| 0 <= u < trace.len() - 1 implies
            #[trigger] crate::layer0_model::vertex_updates(
            trace[u],
            u,
            score,
            trace[u + 1],
        ) by {
            if u < earlier.len() - 1 {
                assert(crate::layer0_model::vertex_updates(
                    earlier[u],
                    u,
                    score,
                    earlier[u + 1],
                ));
            }
        }
        trace
    }
}

/// Whether each graph of `trace` follows from the one before by an update pass.
pub open spec fn passes_in_turn(
    trace: Seq<Seq<Seq<Candidate>>>,
    score: spec_fn(PointOffsetType, PointOffsetType) -> Score,
) -> bool {
    forall|i: int|
        0 <= i < trace.len() - 1 ==> #[trigger] crate::layer0_model::round_updates(
            trace[i],
            score,
            trace[i + 1],
        )
}

proof fn lemma_passes_trace(
    before: Seq<Seq<Candidate>>,
    passes: nat,
    score: spec_fn(PointOffsetType, PointOffsetType) -> Score,
    after: Seq<Seq<Candidate>>,
) -> (trace: Seq<Seq<Seq<Candidate>>>)
    requires
        crate::layer0_model::passes_update(before, passes, score, after),
    ensures
        trace.len() == passes + 1,
        trace.first() == before,
        trace.last() == after,
        passes_in_turn(trace, score),
    decreases passes,
{
    if passes == 0 {
        seq![before]
    } else {
        let middle = choose|middle: Seq<Seq<Candidate>>|
            {
                &&& crate::layer0_model::passes_update(before, (passes - 1) as nat, score, middle)
                &&& #[trigger] crate::layer0_model::round_updates(middle, score, after)
            };
        let earlier = lemma_passes_trace(before, (passes - 1) as nat, score, middle);
        let trace = earlier.push(after);
        assert forall|i: int| 0 <= i < trace.len() - 1 implies
            #[trigger] crate::layer0_model::round_updates(trace[i], score, trace[i + 1]) by {
            if i < earlier.len() - 1 {
                assert(crate::layer0_model::round_updates(earlier[i], score, earlier[i + 1]));
            }
        }
        trace
    }
}

/// Whether `rounds` tells how `passes` update passes a round went: each round starts
/// where the one before has ended, after reverse edges were added.
pub open spec fn rounds_in_turn(
    rounds: Seq<Seq<Seq<Seq<Candidate>>>>,
    passes: nat,
    cap: nat,
    score: spec_fn(PointOffsetType, PointOffsetType) -> Score,
) -> bool {
    &&& forall|i: int|
        0 <= i < rounds.len() ==> (#[trigger] rounds[i]).len() == passes + 1 && passes_in_turn(
            rounds[i],
            score,
        )
    &&& forall|i: int|
        0 < i < rounds.len() ==> crate::layer0_model::reverse_adds(
            rounds[i - 1].last(),
            cap,
            (#[trigger] rounds[i]).first(),
        )
}

/// The refinement takes as many rounds as it is asked for, each of as many update passes
/// as it is asked for, with reverse edges between two rounds and none after the last. It
/// starts from the initial graph.
pub proof fn law_refinement_takes_all_rounds(
    alive: Seq<PointOffsetType>,
    s: nat,
    rounds: nat,
    passes: nat,
    cap: nat,
    seed: u64,
    num_threads: nat,
    score: spec_fn(PointOffsetType, PointOffsetType) -> Score,
    graph: Seq<Seq<Candidate>>,
) -> (history: Seq<Seq<Seq<Seq<Candidate>>>>)
    requires
        rounds > 0,
        crate::layer0_model::refined_graph(
            alive,
            s,
            rounds,
            passes,
            cap,
            seed,
            num_threads,
            score,
            graph,
        ),
    ensures
        history.len() == rounds,
        ({
            let between = crate::layer0_model::scores_between(alive, score);
            &&& rounds_in_turn(history, passes, cap, between)
            &&& crate::layer0_model::initializes(
                crate::layer0_model::bare_graph(alive.len()),
                history.first().first(),
                s,
                seed,
                crate::layer0_model::worker_count(num_threads, alive.len()),
                between,
            )
        }),
        history.last().last() == graph,
{
    let n = alive.len();
    let between = crate::layer0_model::scores_between(alive, score);
    let initial = choose|initial: Seq<Seq<Candidate>>|
        {
            &&& #[trigger] crate::layer0_model::initializes(
                crate::layer0_model::bare_graph(n),
                initial,
                s,
                seed,
                crate::layer0_model::worker_count(num_threads, n),
                between,
            )
            &&& crate::layer0_model::rounds_refine(
                initial,
                rounds,
                rounds,
                passes,
                cap,
                between,
                graph,
            )
        };
    let middle = choose|middle: Seq<Seq<Candidate>>|
        {
            &&& crate::layer0_model::rounds_refine(
                initial,
                (rounds - 1) as nat,
                rounds,
                passes,
                cap,
                between,
                middle,
            )
            &&& #[trigger] crate::layer0_model::round_refines(
                middle,
                (rounds - 1) as nat,
                rounds,
                passes,
                cap,
                between,
                graph,
            )
        };
    let earlier = lemma_rounds_history(
        initial,
        (rounds - 1) as nat,
        rounds,
        passes,
        cap,
        between,
        middle,
    );
    let last = lemma_passes_trace(middle, passes, between, graph);
    let history = earlier.push(last);
    assert forall|i: int| 0 <= i < history.len() implies (#[trigger] history[i]).len() == passes
        + 1 && passes_in_turn(history[i], between) by {
        if i < earlier.len() {
            assert(earlier[i].len() == passes + 1);
        }
    }
    assert forall|i: int| 0 < i < history.len() implies crate::layer0_model::reverse_adds(
        history[i - 1].last(),
        cap,
        (#[trigger] history[i]).first(),
    ) by {
        if i < earlier.len() {
            assert(history[i] == earlier[i] && history[i - 1] == earlier[i - 1]);
        } else {
            assert(history[i - 1] == earlier.last());
        }
    }
    assert(earlier.len() > 0 ==> history.first() == earlier.first());
    history
}

/// The history of rounds that others follow.
proof fn lemma_rounds_history(
    initial: Seq<Seq<Candidate>>,
    count: nat,
    rounds: nat,
    passes: nat,
    cap: nat,
    score: spec_fn(PointOffsetType, PointOffsetType) -> Score,
    after: Seq<Seq<Candidate>>,
) -> (history: Seq<Seq<Seq<Seq<Candidate>>>>)
    requires
        count < rounds,
        crate::layer0_model::rounds_refine(initial, count, rounds, passes, cap, score, after),
    ensures
        history.len() == count,
        rounds_in_turn(history, passes, cap, score),
        count == 0 ==> after == initial,
        count > 0 ==> history.first().first() == initial,
        count > 0 ==> crate::layer0_model::reverse_adds(history.last().last(), cap, after),
    decreases count,
{
    if count == 0 {
        Seq::empty()
    } else {
        let middle = choose|middle: Seq<Seq<Candidate>>|
            {
                &&& crate::layer0_model::rounds_refine(
                    initial,
                    (count - 1) as nat,
                    rounds,
                    passes,
                    cap,
                    score,
                    middle,
                )
                &&& #[trigger] crate::layer0_model::round_refines(
                    middle,
                    (count - 1) as nat,
                    rounds,
                    passes,
                    cap,
                    score,
                    after,
                )
            };
        let closed = choose|closed: Seq<Seq<Candidate>>|
            {
                &&& #[trigger] crate::layer0_model::passes_update(middle, passes, score, closed)
                &&& crate::layer0_model::reverse_adds(closed, cap, after)
            };
        let earlier = lemma_rounds_history(
            initial,
            (count - 1) as nat,
            rounds,
            passes,
            cap,
            score,
            middle,
        );
        let last = lemma_passes_trace(middle, passes, score, closed);
        let history = earlier.push(last);
        assert forall|i: int| 0 <= i < history.len() implies (#[trigger] history[i]).len() == passes
            + 1 && passes_in_turn(history[i], score) by {
            if i < earlier.len() {
                assert(earlier[i].len() == passes + 1);
            }
        }
        assert forall|i: int| 0 < i < history.len() implies crate::layer0_model::reverse_adds(
            history[i - 1].last(),
            cap,
            (#[trigger] history[i]).first(),
        ) by {
            if i < earlier.len() {
                assert(history[i] == earlier[i] && history[i - 1] == earlier[i - 1]);
            } else {
                assert(history[i - 1] == earlier.last());
            }
        }
        assert(earlier.len() > 0 ==> history.first() == earlier.first());
        history
    }
}

/// How many steps come before `step`, where there are `rounds` rounds of `passes` passes.
pub open spec fn steps_before(step: RefinementStep, rounds: nat, passes: nat) -> int {
    match step {
        RefinementStep::Initialize => 0,
        RefinementStep::Update { round, pass } => 1 + round * (passes + 1) + pass,
        RefinementStep::AddReverseEdges { round } => 1 + round * (passes + 1) + passes,
        RefinementStep::Finalize => (rounds * (passes + 1)) as int,
    }
}

/// No step is left out or repeated: each is followed by the one with the next number.
pub proof fn law_steps_follow_one_another(step: RefinementStep, rounds: nat, passes: nat)
    requires
        0 < rounds <= usize::MAX,
        0 < passes <= usize::MAX,
        step != RefinementStep::Finalize,
        step matches RefinementStep::Update { round, pass } ==> round < rounds && pass < passes,
        step matches RefinementStep::AddReverseEdges { round } ==> round + 1 < rounds,
    ensures
        steps_before(crate::layer0_model::step_after(step, rounds, passes), rounds, passes)
            == steps_before(step, rounds, passes) + 1,
        crate::layer0_model::step_after(step, rounds, passes) matches RefinementStep::Update {
            round,
            pass,
        } ==> round < rounds && pass < passes,
        crate::layer0_model::step_after(
            step,
            rounds,
            passes,
        ) matches RefinementStep::AddReverseEdges { round } ==> round + 1 < rounds,
{
    let size = passes + 1;
    match step {
        RefinementStep::Initialize => {
            assert(0 * size == 0);
        },
        RefinementStep::Update { round, pass } => {
            if pass + 1 >= passes && round + 1 >= rounds {
                assert(rounds * size == (rounds - 1) * size + size) by (nonlinear_arith);
            }
        },
        RefinementStep::AddReverseEdges { round } => {
            assert((round + 1) * size == round * size + size) by (nonlinear_arith);
        },
        RefinementStep::Finalize => {},
    }
}

// ---------------------------------------------------------------------------
// The lists
// ---------------------------------------------------------------------------

/// Whether `entry` is a candidate of `pool` that names another point than `u`, under the
/// id of that point.
pub open spec fn comes_from(
    entry: ScoredPointOffset,
    pool: Seq<Candidate>,
    u: int,
    alive: Seq<PointOffsetType>,
) -> bool {
    exists|j: int|
        {
            &&& 0 <= j < pool.len()
            &&& (#[trigger] pool[j]).idx != u
            &&& pool[j].idx < alive.len()
            &&& entry.idx == alive[pool[j].idx as int]
            &&& entry.score == pool[j].score
        }
}

/// The final list of a point names all that its pool does: every entry is a candidate of
/// the pool that names another point, under the id of that point and with its score, and
/// every candidate that names another point has an entry that is as close.
pub proof fn law_list_names_the_pool(
    pool: Seq<Candidate>,
    u: int,
    alive: Seq<PointOffsetType>,
    list: Seq<ScoredPointOffset>,
    k: int,
)
    requires
        crate::layer0_model::lists(pool, u, alive, list),
        0 <= k < pool.len(),
    ensures
        forall|i: int|
            0 <= i < list.len() ==> comes_from(#[trigger] list[i], pool, u, alive),
        pool[k].idx != u && pool[k].idx < alive.len() ==> exists|i: int|
            0 <= i < list.len() && (#[trigger] list[i]).idx == alive[pool[k].idx as int]
                && list[i].score.rank() >= pool[k].score.rank(),
{
    let n = alive.len();
    let sorted = choose|sorted: Seq<Candidate>|
        {
            &&& #[trigger] crate::candidate::sorts_to(pool, sorted)
            &&& list == crate::layer0_model::named(
                crate::layer0_model::chosen(sorted, u, alive.len()),
                alive,
            )
        };
    let chosen = crate::layer0_model::chosen(sorted, u, n);
    lemma_chosen_members(sorted, u, n);
    assert forall|i: int| 0 <= i < list.len() implies comes_from(
        #[trigger] list[i],
        pool,
        u,
        alive,
    ) by {
        assert(sorted.contains(chosen[i]));
        let at = choose|at: int| 0 <= at < sorted.len() && sorted[at] == chosen[i];
        crate::layer0_laws::lemma_sorted_member(pool, sorted, at);
        let j = choose|j: int| 0 <= j < pool.len() && pool[j] == chosen[i];
        assert(pool[j].idx != u);
    }
    if pool[k].idx != u && pool[k].idx < n {
        crate::candidate_laws::lemma_sorted_has(pool, sorted, k);
        let at = choose|at: int| 0 <= at < sorted.len() && sorted[at] == pool[k];
        let i = lemma_chosen_covers(sorted, u, n, at);
        assert(list[i].idx == alive[pool[k].idx as int]);
    }
}

/// The layer 0 of live points comes from a refined graph, and leaves nothing of it out:
/// every candidate of the pool of a live point that names another has an entry in the
/// list of the point that is as close.
pub proof fn law_layer0_lists_whole_pools(
    alive_flags: Seq<bool>,
    s: nat,
    rounds: nat,
    passes: nat,
    cap: nat,
    seed: u64,
    num_threads: nat,
    score: spec_fn(PointOffsetType, PointOffsetType) -> Score,
    lists: Seq<Seq<ScoredPointOffset>>,
) -> (graph: Seq<Seq<Candidate>>)
    requires
        alive_flags.len() <= u32::MAX,
        crate::layer0_model::layer0_of(
            alive_flags,
            s,
            rounds,
            passes,
            cap,
            seed,
            num_threads,
            score,
            lists,
        ),
        crate::layer0_model::alive_points(alive_flags).len() > 0,
    ensures
        crate::layer0_model::refined_graph(
            crate::layer0_model::alive_points(alive_flags),
            s,
            rounds,
            passes,
            cap,
            seed,
            num_threads,
            score,
            graph,
        ),
        graph.len() == crate::layer0_model::alive_points(alive_flags).len(),
        forall|u: int, k: int|
            0 <= u < graph.len() && 0 <= k < graph[u].len() && graph[u][k].idx != u
                && graph[u][k].idx < graph.len() ==> #[trigger] is_listed(
                lists,
                crate::layer0_model::alive_points(alive_flags),
                u,
                graph[u][k],
            ),
{
    let alive = crate::layer0_model::alive_points(alive_flags);
    let graph = choose|graph: Seq<Seq<Candidate>>|
        {
            &&& #[trigger] crate::layer0_model::refined_graph(
                alive,
                s,
                rounds,
                passes,
                cap,
                seed,
                num_threads,
                score,
                graph,
            )
            &&& crate::layer0_model::listed(lists, alive_flags, graph)
        };
    assert forall|u: int, k: int|
        0 <= u < graph.len() && 0 <= k < graph[u].len() && graph[u][k].idx != u && graph[u][k].idx
            < graph.len() implies #[trigger] is_listed(lists, alive, u, graph[u][k]) by {
        assert(crate::layer0_model::lists(graph[u], u, alive, lists[alive[u] as int]));
        law_list_names_the_pool(graph[u], u, alive, lists[alive[u] as int], k);
    }
    graph
}

/// Whether the list of the point at `u` has an entry for `c` that is as close.
pub open spec fn is_listed(
    lists: Seq<Seq<ScoredPointOffset>>,
    alive: Seq<PointOffsetType>,
    u: int,
    c: Candidate,
) -> bool {
    let list = lists[alive[u] as int];
    exists|i: int|
        0 <= i < list.len() && (#[trigger] list[i]).idx == alive[c.idx as int]
            && list[i].score.rank() >= c.score.rank()
}

/// A final list stands closest first.
pub proof fn lemma_list_in_order(
    pool: Seq<Candidate>,
    u: int,
    alive: Seq<PointOffsetType>,
    list: Seq<ScoredPointOffset>,
)
    requires
        crate::layer0_model::lists(pool, u, alive, list),
    ensures
        forall|i: int, j: int|
            0 <= i < j < list.len() ==> (#[trigger] list[i]).score.rank() >= (
            #[trigger] list[j]).score.rank(),
{
    let sorted = choose|sorted: Seq<Candidate>|
        {
            &&& #[trigger] crate::candidate::sorts_to(pool, sorted)
            &&& list == crate::layer0_model::named(
                crate::layer0_model::chosen(sorted, u, alive.len()),
                alive,
            )
        };
    lemma_chosen_in_order(sorted, u, alive.len());
    let chosen = crate::layer0_model::chosen(sorted, u, alive.len());
    assert forall|i: int, j: int| 0 <= i < j < list.len() implies (
    #[trigger] list[i]).score.rank() >= (#[trigger] list[j]).score.rank() by {
        assert(!chosen[j].precedes(chosen[i]));
    }
}

proof fn lemma_chosen_in_order(sorted: Seq<Candidate>, u: int, n: nat)
    requires
        crate::candidate::in_order(sorted),
    ensures
        crate::candidate::in_order(crate::layer0_model::chosen(sorted, u, n)),
    decreases sorted.len(),
{
    if sorted.len() > 0 {
        let shorter = sorted.drop_last();
        assert forall|i: int, j: int| 0 <= i < j < shorter.len() implies !(
        #[trigger] shorter[j]).precedes(#[trigger] shorter[i]) by {
            assert(!sorted[j].precedes(sorted[i]));
        }
        lemma_chosen_in_order(shorter, u, n);
        lemma_chosen_members(shorter, u, n);
        let before = crate::layer0_model::chosen(shorter, u, n);
        let after = crate::layer0_model::chosen(sorted, u, n);
        assert forall|i: int, j: int| 0 <= i < j < after.len() implies !(
        #[trigger] after[j]).precedes(#[trigger] after[i]) by {
            assert(after[i] == before[i]);
            if j < before.len() {
                assert(after[j] == before[j]);
            } else {
                assert(shorter.contains(before[i]));
                let at = choose|at: int| 0 <= at < shorter.len() && shorter[at] == before[i];
                assert(sorted[at] == before[i]);
                assert(!sorted[sorted.len() - 1].precedes(sorted[at]));
            }
        }
    }
}

proof fn lemma_chosen_members(sorted: Seq<Candidate>, u: int, n: nat)
    ensures
        forall|i: int|
            0 <= i < crate::layer0_model::chosen(sorted, u, n).len() ==> {
                let c = #[trigger] crate::layer0_model::chosen(sorted, u, n)[i];
                sorted.contains(c) && c.idx != u && c.idx < n
            },
    decreases sorted.len(),
{
    if sorted.len() > 0 {
        let shorter = sorted.drop_last();
        lemma_chosen_members(shorter, u, n);
        let before = crate::layer0_model::chosen(shorter, u, n);
        let after = crate::layer0_model::chosen(sorted, u, n);
        assert forall|i: int| 0 <= i < after.len() implies {
            let c = #[trigger] after[i];
            sorted.contains(c) && c.idx != u && c.idx < n
        } by {
            if i < before.len() {
                let c = before[i];
                assert(shorter.contains(c));
                let at = choose|at: int| 0 <= at < shorter.len() && shorter[at] == c;
                assert(sorted[at] == c);
            } else {
                assert(sorted[sorted.len() - 1] == after[i]);
            }
        }
    }
}

proof fn lemma_chosen_covers(sorted: Seq<Candidate>, u: int, n: nat, k: int) -> (i: int)
    requires
        crate::candidate::in_order(sorted),
        0 <= k < sorted.len(),
        sorted[k].idx != u,
        sorted[k].idx < n,
    ensures
        0 <= i < crate::layer0_model::chosen(sorted, u, n).len(),
        crate::layer0_model::chosen(sorted, u, n)[i].idx == sorted[k].idx,
        crate::layer0_model::chosen(sorted, u, n)[i].score.rank() >= sorted[k].score.rank(),
    decreases sorted.len(),
{
    let shorter = sorted.drop_last();
    assert forall|i: int, j: int| 0 <= i < j < shorter.len() implies !(
    #[trigger] shorter[j]).precedes(#[trigger] shorter[i]) by {
        assert(!sorted[j].precedes(sorted[i]));
    }
    if k < shorter.len() {
        lemma_chosen_covers(shorter, u, n, k)
    } else {
        let before = crate::layer0_model::chosen(shorter, u, n);
        if before.len() > 0 && before.last().idx == sorted.last().idx {
            lemma_chosen_members(shorter, u, n);
            assert(shorter.contains(before[before.len() - 1]));
            let at = choose|at: int| 0 <= at < shorter.len() && shorter[at] == before.last();
            assert(!sorted[k].precedes(sorted[at]));
            before.len() - 1
        } else {
            before.len() as int
        }
    }
}

} // verus!
