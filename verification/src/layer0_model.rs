//! Mathematical model of the layer 0 refinement.
//!
//! A graph is the sequence of its pools, one for each live point, and points are
//! named by their place among the live ones. Each step of the construction is a
//! relation between graphs: a step is a function of the graph once it is known
//! how its pools were sorted, and the order of candidates that differ in nothing
//! but their flag is left open.

use vstd::prelude::*;
use crate::candidate::{
    Candidate, PointOffsetType, ScoredPointOffset,
};
use crate::score::Score;

verus! {

/// A candidate on its way to the pool of another point.
#[derive(Clone, Copy, Debug, PartialEq, Eq, Structural)]
pub struct HandedOn {
    /// The point whose pool receives the candidate.
    pub to: PointOffsetType,
    pub candidate: Candidate,
}

/// The graph of `n` points without a candidate.
pub open spec fn bare_graph(n: nat) -> Seq<Seq<Candidate>> {
    Seq::new(n, |u: int| Seq::<Candidate>::empty())
}

/// `graph` after one candidate has reached the pool it was handed to.
pub open spec fn received(graph: Seq<Seq<Candidate>>, handed: HandedOn) -> Seq<Seq<Candidate>> {
    if handed.to < graph.len() {
        graph.update(handed.to as int, graph[handed.to as int].push(handed.candidate))
    } else {
        graph
    }
}

/// `graph` after all of `handed` has been received, in order.
pub open spec fn delivered(graph: Seq<Seq<Candidate>>, handed: Seq<HandedOn>) -> Seq<Seq<Candidate>>
    decreases handed.len(),
{
    if handed.len() == 0 {
        graph
    } else {
        received(delivered(graph, handed.drop_last()), handed.last())
    }
}

// ---------------------------------------------------------------------------
// Work split
// ---------------------------------------------------------------------------

/// How many workers share `len` points when `num_threads` threads are there.
pub open spec fn worker_count(num_threads: nat, len: nat) -> nat {
    let wanted = if num_threads == 0 { 1 } else { num_threads };
    let most = if len == 0 { 1 } else { len };
    if wanted < most { wanted } else { most }
}

/// The first point of the chunk of worker `t`: chunks differ by at most one
/// point, and the larger ones come first.
pub open spec fn chunk_start(t: nat, workers: nat, len: nat) -> nat {
    let rest = len % workers;
    t * (len / workers) + if t < rest { t } else { rest }
}

/// The chunks of the workers follow one another without gap or overlap, from the
/// first point to the last, and differ in size by at most one.
pub proof fn law_chunks_partition(t: nat, workers: nat, len: nat)
    requires
        t < workers,
    ensures
        chunk_start(0, workers, len) == 0,
        chunk_start(workers, workers, len) == len,
        chunk_start(t, workers, len) <= chunk_start(t + 1, workers, len) <= len,
        len / workers <= chunk_start(t + 1, workers, len) - chunk_start(t, workers, len) <= len
            / workers + 1,
{
    let base = len / workers;
    let rest = len % workers;
    vstd::arithmetic::div_mod::lemma_fundamental_div_mod(len as int, workers as int);
    assert(0 * base == 0);
    assert(workers * base + rest == len);
    assert((t + 1) * base == t * base + base) by (nonlinear_arith);
    assert((t + 1) * base <= workers * base) by (nonlinear_arith)
        requires
            t + 1 <= workers,
    ;
    assert(rest < workers);
}

/// A later chunk starts no earlier.
pub proof fn lemma_chunk_start_monotonic(a: nat, b: nat, workers: nat, len: nat)
    requires
        a <= b,
        workers > 0,
    ensures
        chunk_start(a, workers, len) <= chunk_start(b, workers, len),
{
    assert(a * (len / workers) <= b * (len / workers)) by (nonlinear_arith)
        requires
            a <= b,
            0 <= len / workers,
    ;
}

/// The seed of the generator of worker `t`.
pub open spec fn worker_seed(seed: u64, t: u64) -> u32 {
    #[verifier::truncate] (seed.wrapping_mul(7741).wrapping_add(t) as u32)
}

// ---------------------------------------------------------------------------
// Random sampling
// ---------------------------------------------------------------------------

/// The ascending sequence `values` with every value that does not pass the one
/// before it raised to the next.
pub open spec fn spread(values: Seq<int>) -> Seq<int>
    decreases values.len(),
{
    if values.len() <= 1 {
        values
    } else {
        let before = spread(values.drop_last());
        if values.last() <= before.last() {
            before.push(before.last() + 1)
        } else {
            before.push(values.last())
        }
    }
}

/// The values that a sample of `size` out of `n` starts from.
pub open spec fn picks(draw: spec_fn(nat) -> u32, size: nat, n: nat) -> Seq<int> {
    Seq::new(size, |i: int| draw(i as nat) as int % (n - size))
}

/// The `size` positions below `n` that the values of `draw` select: picks below
/// `n - size`, put in ascending order, spread to be distinct, and rotated.
pub open spec fn sample(draw: spec_fn(nat) -> u32, size: nat, n: nat) -> Seq<int> {
    if size == 0 || n == 0 {
        Seq::empty()
    } else {
        let distinct = spread(picks(draw, size, n).sort());
        let offset = draw(size) as int % n as int;
        distinct.map_values(|value: int| (value + offset) % n as int)
    }
}

/// The spread of a longer prefix keeps that of a shorter one.
pub proof fn lemma_spread_prefix(values: Seq<int>, i: int)
    requires
        0 < i < values.len(),
    ensures
        spread(values.take(i)).len() == i,
        spread(values.take(i + 1)) == spread(values.take(i)).push(
            if values[i] <= spread(values.take(i)).last() {
                spread(values.take(i)).last() + 1
            } else {
                values[i]
            },
        ),
    decreases i,
{
    assert(values.take(i + 1).drop_last() =~= values.take(i));
    if i > 1 {
        lemma_spread_prefix(values, i - 1);
    }
}

/// Spreading ascending values below `bound` makes them strictly ascending, and
/// raises the `i`-th by at most `i`.
pub proof fn lemma_spread(values: Seq<int>, bound: int)
    requires
        forall|i: int| 0 <= i < values.len() ==> 0 <= #[trigger] values[i] < bound,
        forall|i: int, j: int| 0 <= i <= j < values.len() ==> values[i] <= values[j],
    ensures
        spread(values).len() == values.len(),
        forall|i: int|
            0 <= i < values.len() ==> values[i] <= #[trigger] spread(values)[i] < bound + i,
        forall|i: int, j: int|
            0 <= i < j < values.len() ==> spread(values)[i] < spread(values)[j],
    decreases values.len(),
{
    if values.len() > 1 {
        let shorter = values.drop_last();
        lemma_spread(shorter, bound);
        let before = spread(shorter);
        assert(spread(values).drop_last() =~= before);
        assert forall|i: int| 0 <= i < values.len() implies values[i] <= #[trigger] spread(
            values,
        )[i] < bound + i by {
            if i < shorter.len() {
                assert(spread(values)[i] == before[i]);
                assert(shorter[i] == values[i]);
            }
        }
        assert forall|i: int, j: int| 0 <= i < j < values.len() implies spread(values)[i] < spread(
            values,
        )[j] by {
            assert(spread(values)[i] == before[i]);
            if j < shorter.len() {
                assert(spread(values)[j] == before[j]);
            } else {
                assert(before[i] <= before[shorter.len() - 1]);
            }
        }
    }
}

/// The sorted picks of a sample are ascending and below `n - size`.
pub proof fn lemma_sorted_picks(draw: spec_fn(nat) -> u32, size: nat, n: nat)
    requires
        size < n,
    ensures
        picks(draw, size, n).sort().len() == size,
        forall|i: int|
            0 <= i < size ==> 0 <= #[trigger] picks(draw, size, n).sort()[i] < n - size,
        forall|i: int, j: int|
            0 <= i <= j < size ==> picks(draw, size, n).sort()[i] <= picks(
                draw,
                size,
                n,
            ).sort()[j],
{
    broadcast use vstd::seq_lib::group_to_multiset_ensures;

    let raw = picks(draw, size, n);
    let sorted = raw.sort();
    raw.lemma_sort_ensures();
    assert(sorted.len() == sorted.to_multiset().len());
    assert forall|i: int| 0 <= i < size implies 0 <= #[trigger] sorted[i] < n - size by {
        assert(sorted.to_multiset().count(sorted[i]) > 0);
        assert(raw.contains(sorted[i]));
    }
    let leq = |x: int, y: int| x <= y;
    assert forall|i: int, j: int| 0 <= i <= j < size implies sorted[i] <= sorted[j] by {
        if i < j {
            assert(leq(sorted[i], sorted[j]));
        }
    }
}

/// A sample out of more points than it takes has the size asked for, stays below
/// `n`, and takes no position twice.
pub proof fn law_sample_is_distinct(draw: spec_fn(nat) -> u32, size: nat, n: nat)
    requires
        size < n,
    ensures
        sample(draw, size, n).len() == size,
        forall|i: int| 0 <= i < size ==> 0 <= #[trigger] sample(draw, size, n)[i] < n,
        sample(draw, size, n).no_duplicates(),
{
    if size > 0 {
        let sorted = picks(draw, size, n).sort();
        lemma_sorted_picks(draw, size, n);
        lemma_spread(sorted, n - size);
        let distinct = spread(sorted);
        let offset = draw(size) as int % n as int;
        let result = sample(draw, size, n);
        assert forall|i: int, j: int|
            0 <= i < result.len() && 0 <= j < result.len() && i != j implies result[i]
            != result[j] by {
            let a = distinct[i];
            let b = distinct[j];
            assert(0 <= a < n && 0 <= b < n && a != b);
            assert(result[i] == (a + offset) % n as int);
            assert(result[j] == (b + offset) % n as int);
            lemma_rotation(a, offset, n as int);
            lemma_rotation(b, offset, n as int);
        }
        assert forall|i: int| 0 <= i < size implies 0 <= #[trigger] result[i] < n by {
            assert(result[i] == (distinct[i] + offset) % n as int);
        }
    }
}

/// Rotating a value below `n` by an offset below `n` wraps round at most once.
pub proof fn lemma_rotation(value: int, offset: int, n: int)
    requires
        0 <= value < n,
        0 <= offset < n,
    ensures
        (value + offset) % n == if value + offset < n {
            value + offset
        } else {
            value + offset - n
        },
{
    if value + offset < n {
        vstd::arithmetic::div_mod::lemma_small_mod((value + offset) as nat, n as nat);
    } else {
        vstd::arithmetic::div_mod::lemma_small_mod((value + offset - n) as nat, n as nat);
        vstd::arithmetic::div_mod::lemma_mod_add_multiples_vanish(value + offset - n, n);
    }
}

/// The values that worker `t` draws for the `place`-th point of its chunk.
pub open spec fn vertex_draw(seed: u64, t: u64, place: nat, s: nat) -> spec_fn(nat) -> u32 {
    |k: nat| crate::faiss_random::mt19937_output(worker_seed(seed, t), place * (s + 1) + k)
}

// ---------------------------------------------------------------------------
// Initial graph
// ---------------------------------------------------------------------------

/// The scores between live points, by their places. Only the scores of two different
/// places count.
pub open spec fn scores_between(
    alive: Seq<PointOffsetType>,
    score: spec_fn(PointOffsetType, PointOffsetType) -> Score,
) -> spec_fn(PointOffsetType, PointOffsetType) -> Score {
    |a: PointOffsetType, b: PointOffsetType|
        if a != b && a < alive.len() && b < alive.len() {
            score(alive[a as int], alive[b as int])
        } else {
            Score { bits: 0 }
        }
}

/// The pool of `u` that proposes the points at `positions`, but never `u` itself.
pub open spec fn proposals(
    u: int,
    positions: Seq<int>,
    score: spec_fn(PointOffsetType, PointOffsetType) -> Score,
) -> Seq<Candidate>
    decreases positions.len(),
{
    if positions.len() == 0 {
        Seq::empty()
    } else {
        let before = proposals(u, positions.drop_last(), score);
        let at = positions.last();
        if at == u {
            before
        } else {
            before.push(
                Candidate {
                    idx: at as PointOffsetType,
                    score: score(u as PointOffsetType, at as PointOffsetType),
                    new_flag: true,
                },
            )
        }
    }
}

/// The places `0..n`.
pub open spec fn all_positions(n: nat) -> Seq<int> {
    Seq::new(n, |i: int| i)
}

/// Whether `pool` may be the initial pool of `u`, the `place`-th point of the
/// chunk of worker `t`.
pub open spec fn starts_as(
    n: nat,
    s: nat,
    seed: u64,
    t: u64,
    place: nat,
    u: int,
    score: spec_fn(PointOffsetType, PointOffsetType) -> Score,
    pool: Seq<Candidate>,
) -> bool {
    let positions = if n > s {
        sample(vertex_draw(seed, t, place, s), s, n)
    } else {
        all_positions(n)
    };
    crate::candidate::sorts_to(proposals(u, positions, score), pool)
}

/// Whether the pools of the points `from..to` of worker `t`'s chunk are initial.
pub open spec fn chunk_starts_as(
    graph: Seq<Seq<Candidate>>,
    s: nat,
    seed: u64,
    t: u64,
    from: nat,
    to: nat,
    score: spec_fn(PointOffsetType, PointOffsetType) -> Score,
) -> bool {
    forall|u: int|
        from <= u < to ==> starts_as(
            graph.len(),
            s,
            seed,
            t,
            (u - from) as nat,
            u,
            score,
            #[trigger] graph[u],
        )
}

/// Whether `after` is what the initialization makes of `before`. With more live
/// points than `s` each gets a random sample, otherwise all others; one point
/// alone has nothing to connect to.
pub open spec fn initializes(
    before: Seq<Seq<Candidate>>,
    after: Seq<Seq<Candidate>>,
    s: nat,
    seed: u64,
    workers: nat,
    score: spec_fn(PointOffsetType, PointOffsetType) -> Score,
) -> bool {
    let n = before.len();
    &&& after.len() == n
    &&& if n <= 1 {
        after == before
    } else {
        forall|t: u64|
            t < workers ==> #[trigger] chunk_starts_as(
                after,
                s,
                seed,
                t,
                chunk_start(t as nat, workers, n),
                chunk_start((t + 1) as nat, workers, n),
                score,
            )
    }
}

// ---------------------------------------------------------------------------
// Refinement update
// ---------------------------------------------------------------------------

/// Whether the kept candidate `other` stops `nn` from being kept: the two are
/// one point, or they are closer to each other than `nn` is to the pool's
/// owner. Two candidates that earlier passes kept are not compared again.
pub open spec fn blocks(
    other: Candidate,
    nn: Candidate,
    score: spec_fn(PointOffsetType, PointOffsetType) -> Score,
) -> bool {
    &&& nn.new_flag || other.new_flag
    &&& other.idx == nn.idx || score(nn.idx, other.idx).exceeds(nn.score)
}

/// The first candidate of `kept` that stops `nn`.
pub open spec fn blocker(
    kept: Seq<Candidate>,
    nn: Candidate,
    score: spec_fn(PointOffsetType, PointOffsetType) -> Score,
) -> Option<Candidate>
    decreases kept.len(),
{
    if kept.len() == 0 {
        None
    } else {
        match blocker(kept.drop_last(), nn, score) {
            Some(other) => Some(other),
            None => if blocks(kept.last(), nn, score) {
                Some(kept.last())
            } else {
                None
            },
        }
    }
}

/// What the refinement of a pool yields.
#[verifier::ext_equal]
pub struct Refined {
    /// The candidates that stay.
    pub kept: Seq<Candidate>,
    /// The candidates that other pools receive.
    pub handed: Seq<HandedOn>,
}

/// The refinement of the pool of `u`, candidate by candidate: one that nothing
/// stops is kept, and one that a closer point stops is handed to that point.
pub open spec fn refined(
    pool: Seq<Candidate>,
    u: int,
    score: spec_fn(PointOffsetType, PointOffsetType) -> Score,
) -> Refined
    decreases pool.len(),
{
    if pool.len() == 0 {
        Refined { kept: Seq::empty(), handed: Seq::empty() }
    } else {
        let before = refined(pool.drop_last(), u, score);
        let nn = pool.last();
        if nn.idx == u {
            before
        } else {
            match blocker(before.kept, nn, score) {
                None => Refined { kept: before.kept.push(nn), handed: before.handed },
                Some(other) => if other.idx == nn.idx {
                    before
                } else {
                    Refined {
                        kept: before.kept,
                        handed: before.handed.push(
                            HandedOn {
                                to: other.idx,
                                candidate: Candidate {
                                    idx: nn.idx,
                                    score: score(nn.idx, other.idx),
                                    new_flag: true,
                                },
                            },
                        ),
                    }
                },
            }
        }
    }
}

/// Whether refining `pool`, the pool of `u`, may keep `kept` and hand on `handed`.
pub open spec fn refines_to(
    pool: Seq<Candidate>,
    u: int,
    score: spec_fn(PointOffsetType, PointOffsetType) -> Score,
    kept: Seq<Candidate>,
    handed: Seq<HandedOn>,
) -> bool {
    exists|sorted: Seq<Candidate>|
        {
            &&& #[trigger] crate::candidate::sorts_to(pool, sorted)
            &&& refined(crate::candidate::deduped(sorted), u, score) == (Refined { kept, handed })
        }
}

/// `graph` after the refinement of the pool of `u`, which keeps `kept` as settled.
pub open spec fn vertex_updated(
    graph: Seq<Seq<Candidate>>,
    u: int,
    kept: Seq<Candidate>,
    handed: Seq<HandedOn>,
) -> Seq<Seq<Candidate>> {
    delivered(graph, handed).update(u, crate::candidate::flagged(kept, false))
}

/// Whether refining the pool of `u` may turn `before` into `after`.
pub open spec fn vertex_updates(
    before: Seq<Seq<Candidate>>,
    u: int,
    score: spec_fn(PointOffsetType, PointOffsetType) -> Score,
    after: Seq<Seq<Candidate>>,
) -> bool {
    exists|kept: Seq<Candidate>, handed: Seq<HandedOn>|
        {
            &&& #[trigger] refines_to(before[u], u, score, kept, handed)
            &&& after == vertex_updated(before, u, kept, handed)
        }
}

/// Whether refining the pools of the points below `count` in turn may turn
/// `before` into `after`.
pub open spec fn prefix_updates(
    before: Seq<Seq<Candidate>>,
    count: nat,
    score: spec_fn(PointOffsetType, PointOffsetType) -> Score,
    after: Seq<Seq<Candidate>>,
) -> bool
    decreases count,
{
    if count == 0 {
        after == before
    } else {
        exists|middle: Seq<Seq<Candidate>>|
            {
                &&& prefix_updates(before, (count - 1) as nat, score, middle)
                &&& #[trigger] vertex_updates(middle, count - 1, score, after)
            }
    }
}

/// Refining one more pool extends the refined prefix.
pub proof fn lemma_prefix_extends(
    before: Seq<Seq<Candidate>>,
    count: nat,
    score: spec_fn(PointOffsetType, PointOffsetType) -> Score,
    middle: Seq<Seq<Candidate>>,
    after: Seq<Seq<Candidate>>,
)
    requires
        prefix_updates(before, count, score, middle),
        vertex_updates(middle, count as int, score, after),
    ensures
        prefix_updates(before, count + 1, score, after),
{
    let next = count + 1;
    assert(prefix_updates(before, (next - 1) as nat, score, middle));
    assert(vertex_updates(middle, next - 1, score, after));
}

/// Whether one update pass over all pools may turn `before` into `after`.
pub open spec fn round_updates(
    before: Seq<Seq<Candidate>>,
    score: spec_fn(PointOffsetType, PointOffsetType) -> Score,
    after: Seq<Seq<Candidate>>,
) -> bool {
    prefix_updates(before, before.len(), score, after)
}

/// Whether `passes` update passes may turn `before` into `after`.
pub open spec fn passes_update(
    before: Seq<Seq<Candidate>>,
    passes: nat,
    score: spec_fn(PointOffsetType, PointOffsetType) -> Score,
    after: Seq<Seq<Candidate>>,
) -> bool
    decreases passes,
{
    if passes == 0 {
        after == before
    } else {
        exists|middle: Seq<Seq<Candidate>>|
            {
                &&& passes_update(before, (passes - 1) as nat, score, middle)
                &&& #[trigger] round_updates(middle, score, after)
            }
    }
}

/// One more pass extends the passes.
pub proof fn lemma_passes_extend(
    before: Seq<Seq<Candidate>>,
    passes: nat,
    score: spec_fn(PointOffsetType, PointOffsetType) -> Score,
    middle: Seq<Seq<Candidate>>,
    after: Seq<Seq<Candidate>>,
)
    requires
        passes_update(before, passes, score, middle),
        round_updates(middle, score, after),
    ensures
        passes_update(before, passes + 1, score, after),
{
    let next = passes + 1;
    assert(passes_update(before, (next - 1) as nat, score, middle));
}

// ---------------------------------------------------------------------------
// Reverse edges
// ---------------------------------------------------------------------------

/// The edges of `u` turned round: each candidate's pool is to receive `u`, with
/// the score and flag of the edge.
pub open spec fn turned(u: int, pool: Seq<Candidate>) -> Seq<HandedOn> {
    pool.map_values(
        |nn: Candidate|
            HandedOn {
                to: nn.idx,
                candidate: Candidate {
                    idx: u as PointOffsetType,
                    score: nn.score,
                    new_flag: nn.new_flag,
                },
            },
    )
}

/// The graph that holds the edges of the first `count` points turned round.
pub open spec fn scattered(graph: Seq<Seq<Candidate>>, count: nat) -> Seq<Seq<Candidate>>
    decreases count,
{
    if count == 0 {
        bare_graph(graph.len())
    } else {
        delivered(
            scattered(graph, (count - 1) as nat),
            turned(count - 1, graph[count - 1]),
        )
    }
}

/// Whether `merged` may be what a point keeps of its `incoming` edges and its own
/// pool: the closest `cap` of them, one for each point.
pub open spec fn merges_to(
    incoming: Seq<Candidate>,
    own: Seq<Candidate>,
    cap: nat,
    merged: Seq<Candidate>,
) -> bool {
    exists|sorted: Seq<Candidate>|
        {
            &&& #[trigger] crate::candidate::sorts_to(
                incoming + crate::candidate::flagged(own, true),
                sorted,
            )
            &&& merged == crate::candidate::capped(crate::candidate::deduped(sorted), cap)
        }
}

/// Whether `trimmed` may be the closest `cap` candidates of `pool`.
pub open spec fn trims_to(pool: Seq<Candidate>, cap: nat, trimmed: Seq<Candidate>) -> bool {
    exists|sorted: Seq<Candidate>|
        {
            &&& #[trigger] crate::candidate::sorts_to(pool, sorted)
            &&& trimmed == crate::candidate::capped(sorted, cap)
        }
}

/// Whether `merged` holds, for each point of `before`, what it keeps of the edges
/// that lead to it and of its own.
pub open spec fn merges_all(
    before: Seq<Seq<Candidate>>,
    cap: nat,
    merged: Seq<Seq<Candidate>>,
) -> bool {
    let incoming = scattered(before, before.len());
    &&& merged.len() == before.len()
    &&& forall|u: int|
        0 <= u < before.len() ==> merges_to(incoming[u], before[u], cap, #[trigger] merged[u])
}

/// Whether adding reverse edges may turn `before` into `after`: every point
/// merges the edges that lead to it with its own, and hands the merged edges
/// back, turned round; each pool keeps the closest `cap` of what it receives.
pub open spec fn reverse_adds(
    before: Seq<Seq<Candidate>>,
    cap: nat,
    after: Seq<Seq<Candidate>>,
) -> bool {
    &&& after.len() == before.len()
    &&& exists|merged: Seq<Seq<Candidate>>|
        {
            &&& #[trigger] merges_all(before, cap, merged)
            &&& forall|u: int|
                0 <= u < before.len() ==> trims_to(
                    scattered(merged, merged.len())[u],
                    cap,
                    #[trigger] after[u],
                )
        }
}

// ---------------------------------------------------------------------------
// Rounds and result
// ---------------------------------------------------------------------------

/// Whether round number `round` of `rounds`, counted from 0, may turn `before`
/// into `after`: `passes` update passes, then reverse edges, which the last
/// round leaves out.
pub open spec fn round_refines(
    before: Seq<Seq<Candidate>>,
    round: nat,
    rounds: nat,
    passes: nat,
    cap: nat,
    score: spec_fn(PointOffsetType, PointOffsetType) -> Score,
    after: Seq<Seq<Candidate>>,
) -> bool {
    if round + 1 < rounds {
        exists|middle: Seq<Seq<Candidate>>|
            {
                &&& #[trigger] passes_update(before, passes, score, middle)
                &&& reverse_adds(middle, cap, after)
            }
    } else {
        passes_update(before, passes, score, after)
    }
}

/// Whether the first `count` rounds of `rounds` may turn `before` into `after`.
pub open spec fn rounds_refine(
    before: Seq<Seq<Candidate>>,
    count: nat,
    rounds: nat,
    passes: nat,
    cap: nat,
    score: spec_fn(PointOffsetType, PointOffsetType) -> Score,
    after: Seq<Seq<Candidate>>,
) -> bool
    decreases count,
{
    if count == 0 {
        after == before
    } else {
        exists|middle: Seq<Seq<Candidate>>|
            {
                &&& rounds_refine(
                    before,
                    (count - 1) as nat,
                    rounds,
                    passes,
                    cap,
                    score,
                    middle,
                )
                &&& #[trigger] round_refines(middle, (count - 1) as nat, rounds, passes, cap, score, after)
            }
    }
}

/// One more round extends the rounds.
pub proof fn lemma_rounds_extend(
    before: Seq<Seq<Candidate>>,
    count: nat,
    rounds: nat,
    passes: nat,
    cap: nat,
    score: spec_fn(PointOffsetType, PointOffsetType) -> Score,
    middle: Seq<Seq<Candidate>>,
    after: Seq<Seq<Candidate>>,
)
    requires
        rounds_refine(before, count, rounds, passes, cap, score, middle),
        round_refines(middle, count, rounds, passes, cap, score, after),
    ensures
        rounds_refine(before, count + 1, rounds, passes, cap, score, after),
{
    let next = count + 1;
    assert(rounds_refine(before, (next - 1) as nat, rounds, passes, cap, score, middle));
    assert(round_refines(middle, (next - 1) as nat, rounds, passes, cap, score, after));
}

/// The candidates of the sorted pool of `u` that name another of the `n` points,
/// without those that repeat the one before.
pub open spec fn chosen(sorted: Seq<Candidate>, u: int, n: nat) -> Seq<Candidate>
    decreases sorted.len(),
{
    if sorted.len() == 0 {
        sorted
    } else {
        let before = chosen(sorted.drop_last(), u, n);
        let c = sorted.last();
        if c.idx == u || c.idx >= n || (before.len() > 0 && before.last().idx == c.idx) {
            before
        } else {
            before.push(c)
        }
    }
}

/// The candidates of `pool` under the ids of the points that they name.
pub open spec fn named(pool: Seq<Candidate>, alive: Seq<PointOffsetType>) -> Seq<ScoredPointOffset> {
    pool.map_values(
        |c: Candidate| ScoredPointOffset { idx: alive[c.idx as int], score: c.score },
    )
}

/// Whether `list` may be the final neighbor list of `u`, whose pool is `pool`.
pub open spec fn lists(
    pool: Seq<Candidate>,
    u: int,
    alive: Seq<PointOffsetType>,
    list: Seq<ScoredPointOffset>,
) -> bool {
    exists|sorted: Seq<Candidate>|
        {
            &&& #[trigger] crate::candidate::sorts_to(pool, sorted)
            &&& list == named(chosen(sorted, u, alive.len()), alive)
        }
}

/// The points below `alive_flags.len()` that are alive, in ascending order.
pub open spec fn alive_points(alive_flags: Seq<bool>) -> Seq<PointOffsetType>
    decreases alive_flags.len(),
{
    if alive_flags.len() == 0 {
        Seq::empty()
    } else {
        let before = alive_points(alive_flags.drop_last());
        if alive_flags.last() {
            before.push((alive_flags.len() - 1) as PointOffsetType)
        } else {
            before
        }
    }
}

/// Whether `graph` may be the refined graph of `alive`.
pub open spec fn refined_graph(
    alive: Seq<PointOffsetType>,
    s: nat,
    rounds: nat,
    passes: nat,
    cap: nat,
    seed: u64,
    num_threads: nat,
    score: spec_fn(PointOffsetType, PointOffsetType) -> Score,
    graph: Seq<Seq<Candidate>>,
) -> bool {
    let n = alive.len();
    exists|initial: Seq<Seq<Candidate>>|
        {
            &&& #[trigger] initializes(
                bare_graph(n),
                initial,
                s,
                seed,
                worker_count(num_threads, n),
                scores_between(alive, score),
            )
            &&& rounds_refine(
                initial,
                rounds,
                rounds,
                passes,
                cap,
                scores_between(alive, score),
                graph,
            )
        }
}

/// The live points ascend, are those that are flagged, and are all of those.
pub proof fn law_alive_points(alive_flags: Seq<bool>)
    requires
        alive_flags.len() <= u32::MAX,
    ensures
        alive_points(alive_flags).len() <= alive_flags.len(),
        forall|k: int|
            0 <= k < alive_points(alive_flags).len() ==> {
                &&& (#[trigger] alive_points(alive_flags)[k]) < alive_flags.len()
                &&& alive_flags[alive_points(alive_flags)[k] as int]
            },
        forall|j: int, k: int|
            0 <= j < k < alive_points(alive_flags).len() ==> alive_points(alive_flags)[j]
                < alive_points(alive_flags)[k],
        forall|p: PointOffsetType|
            p < alive_flags.len() && alive_flags[p as int] ==> #[trigger] alive_points(
                alive_flags,
            ).contains(p),
    decreases alive_flags.len(),
{
    if alive_flags.len() > 0 {
        let shorter = alive_flags.drop_last();
        law_alive_points(shorter);
        let before = alive_points(shorter);
        let all = alive_points(alive_flags);
        let last = (alive_flags.len() - 1) as PointOffsetType;
        assert forall|k: int| 0 <= k < all.len() implies {
            &&& (#[trigger] all[k]) < alive_flags.len()
            &&& alive_flags[all[k] as int]
        } by {
            if k < before.len() {
                assert(all[k] == before[k]);
                assert(shorter[before[k] as int]);
            }
        }
        assert forall|p: PointOffsetType|
            p < alive_flags.len() && alive_flags[p as int] implies #[trigger] all.contains(p) by {
            if p < shorter.len() {
                assert(shorter[p as int]);
                assert(before.contains(p));
                let k = choose|k: int| 0 <= k < before.len() && before[k] == p;
                assert(all[k] == p);
            } else {
                assert(all[all.len() - 1] == last);
            }
        }
    }
}

// ---------------------------------------------------------------------------
// Schedule
// ---------------------------------------------------------------------------

/// A step of the refinement. Rounds, and the update passes of a round, are
/// counted from 0.
#[derive(Clone, Copy, Debug, PartialEq, Eq, Structural)]
pub enum RefinementStep {
    /// The initial graph is made.
    Initialize,
    /// All pools are refined.
    Update { round: usize, pass: usize },
    /// Reverse edges are added.
    AddReverseEdges { round: usize },
    /// The neighbor lists are made.
    Finalize,
}

/// The step that follows `step` in `rounds` rounds of `passes` update passes:
/// reverse edges come between two rounds.
pub open spec fn step_after(step: RefinementStep, rounds: nat, passes: nat) -> RefinementStep {
    match step {
        RefinementStep::Initialize => if rounds > 0 && passes > 0 {
            RefinementStep::Update { round: 0, pass: 0 }
        } else {
            RefinementStep::Finalize
        },
        RefinementStep::Update { round, pass } => if pass + 1 < passes {
            RefinementStep::Update { round, pass: (pass + 1) as usize }
        } else if round + 1 < rounds {
            RefinementStep::AddReverseEdges { round }
        } else {
            RefinementStep::Finalize
        },
        RefinementStep::AddReverseEdges { round } => if round + 1 < rounds {
            RefinementStep::Update { round: (round + 1) as usize, pass: 0 }
        } else {
            RefinementStep::Finalize
        },
        RefinementStep::Finalize => RefinementStep::Finalize,
    }
}

/// Whether `graph` may be at hand before `step`: `initial` was the initial graph,
/// and `opening` the graph that the current round began with.
pub open spec fn stands_at(
    step: RefinementStep,
    n: nat,
    s: nat,
    rounds: nat,
    passes: nat,
    cap: nat,
    seed: u64,
    workers: nat,
    score: spec_fn(PointOffsetType, PointOffsetType) -> Score,
    initial: Seq<Seq<Candidate>>,
    opening: Seq<Seq<Candidate>>,
    graph: Seq<Seq<Candidate>>,
) -> bool {
    match step {
        RefinementStep::Initialize => graph == bare_graph(n),
        RefinementStep::Update { round, pass } => {
            &&& round < rounds
            &&& pass < passes
            &&& initializes(bare_graph(n), initial, s, seed, workers, score)
            &&& rounds_refine(initial, round as nat, rounds, passes, cap, score, opening)
            &&& passes_update(opening, pass as nat, score, graph)
        },
        RefinementStep::AddReverseEdges { round } => {
            &&& round + 1 < rounds
            &&& initializes(bare_graph(n), initial, s, seed, workers, score)
            &&& rounds_refine(initial, round as nat, rounds, passes, cap, score, opening)
            &&& passes_update(opening, passes, score, graph)
        },
        RefinementStep::Finalize => {
            &&& initializes(bare_graph(n), initial, s, seed, workers, score)
            &&& rounds_refine(initial, rounds, rounds, passes, cap, score, graph)
        },
    }
}

/// Whether `lists` are neighbor lists of the points flagged alive, made out of
/// `graph`; all others have none.
pub open spec fn listed(
    lists: Seq<Seq<ScoredPointOffset>>,
    alive_flags: Seq<bool>,
    graph: Seq<Seq<Candidate>>,
) -> bool {
    let alive = alive_points(alive_flags);
    &&& lists.len() == alive_flags.len()
    &&& graph.len() == alive.len()
    &&& forall|k: int|
        0 <= k < alive.len() ==> crate::layer0_model::lists(
            #[trigger] graph[k],
            k,
            alive,
            lists[alive[k] as int],
        )
    &&& forall|p: int|
        0 <= p < lists.len() && !alive_flags[p] ==> #[trigger] lists[p] == Seq::<
            ScoredPointOffset,
        >::empty()
}

/// Whether `lists` may be the layer 0 of the points flagged alive.
pub open spec fn layer0_of(
    alive_flags: Seq<bool>,
    s: nat,
    rounds: nat,
    passes: nat,
    cap: nat,
    seed: u64,
    num_threads: nat,
    score: spec_fn(PointOffsetType, PointOffsetType) -> Score,
    lists: Seq<Seq<ScoredPointOffset>>,
) -> bool {
    let alive = alive_points(alive_flags);
    if alive.len() == 0 {
        lists == Seq::new(alive_flags.len(), |p: int| Seq::<ScoredPointOffset>::empty())
    } else {
        exists|graph: Seq<Seq<Candidate>>|
            {
                &&& #[trigger] refined_graph(
                    alive,
                    s,
                    rounds,
                    passes,
                    cap,
                    seed,
                    num_threads,
                    score,
                    graph,
                )
                &&& listed(lists, alive_flags, graph)
            }
    }
}

} // verus!
