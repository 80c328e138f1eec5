//! What the operations of the library do, in terms of what goes in and what comes out.

use vstd::prelude::*;
use crate::candidate::{Candidate, PointOffsetType, ScoredPointOffset};
use crate::config::{HnswGraphConfig, MirageGraphConfig};
use crate::config_mismatch_optimizer::{
    ConfigMismatchOptimizer, DenseVectorOptimizerConfig, Indexes, OptimizerThresholds,
    RebuildRules, RemainingSegment, SegmentId, SegmentInfo, SegmentOptimizerConfig, SizedSegment,
    VectorDataConfig,
};
use crate::faiss_random::{faiss_random_level, faiss_shuffle, FaissMt19937, LevelTable};
use crate::layer0_model::HandedOn;
use crate::main_graph::{mark_live, MainGraph};
use crate::mirage::{
    BuildAction, BuildReport, ExistingFiles, HnswConfig, MirageBuild, MirageBuildTimings,
    MirageConfig, MirageIndex, MirageIndexOpenArgs, OpenPlan, VectorStorageInfo,
};
use crate::named_map::NamedMap;
use crate::operation_error::{
    check_process_stopped, stop_result, OperationError, OperationResult, StopSignal,
};
use crate::refinement_builder::{
    build_layer0, final_list, gen_random_mirage_style, merge_edges, recall_acceptance_eligible,
    refine_vertex, trim_pool, turned_edges, PairScorer, RefinementParams,
};
use crate::score::Score;

verus! {

// ---------------------------------------------------------------------------
// Scores and draws
// ---------------------------------------------------------------------------

/// A score is greater than another exactly if both are numbers and it is the greater one.
pub proof fn law_greater_is_the_greater_number(a: &Score, b: &Score, greater: bool)
    requires
        call_ensures(Score::is_greater, (a, b), greater),
    ensures
        greater <==> !(crate::score::exponent(*a) == 255 && crate::score::fraction(*a) != 0)
            && !(crate::score::exponent(*b) == 255 && crate::score::fraction(*b) != 0)
            && crate::score::number(*a) > crate::score::number(*b),
{
    crate::score::law_comparison_is_of_numbers(*a, *b);
    crate::score::law_comparison_is_of_numbers(*b, *a);
}

/// Drawn positions come from the whole range. The values of the generator lead to their
/// remainders by `n - size`, which in ascending order and raised to be distinct are
/// rotated by the remainder by `n` of the value after them.
pub proof fn law_drawn_positions_come_from_remainders(
    rng: &mut FaissMt19937,
    size: usize,
    n: usize,
    positions: Vec<usize>,
) -> (found: (Seq<int>, Seq<int>))
    requires
        0 < size < n,
        call_ensures(gen_random_mirage_style, (rng, size, n), positions),
    ensures
        positions@.len() == size,
        found.0.to_multiset() == Seq::new(
            size as nat,
            |i: int| old(rng).stream(i as nat) as int % (n - size),
        ).to_multiset(),
        forall|i: int, j: int| 0 <= i <= j < found.0.len() ==> found.0[i] <= found.0[j],
        crate::random_laws::raised_past(found.0, found.1),
        forall|i: int|
            0 <= i < size ==> #[trigger] positions@[i] == (found.1[i] + old(rng).stream(
                size as nat,
            ) as int % n as int) % n as int,
{
    let draw = |k: nat| old(rng).stream(k);
    let found = crate::random_laws::law_sample_comes_from_remainders(draw, size as nat, n as nat);
    let sample = crate::layer0_model::sample(draw, size as nat, n as nat);
    let ints = crate::refinement_builder::as_ints(positions@);
    assert(crate::random_laws::remainders(draw, size as nat, n as nat) =~= Seq::new(
        size as nat,
        |i: int| old(rng).stream(i as nat) as int % (n - size),
    ));
    assert(ints == sample);
    assert forall|i: int| 0 <= i < size implies #[trigger] positions@[i] == (found.1[i] + old(
        rng,
    ).stream(size as nat) as int % n as int) % n as int by {
        assert(ints[i] == sample[i]);
    }
    found
}

/// A single drawn position is the remainder of the first value by `n - 1`, rotated by that
/// of the second by `n`.
pub proof fn law_one_drawn_position(rng: &mut FaissMt19937, n: usize, positions: Vec<usize>)
    requires
        n > 1,
        call_ensures(gen_random_mirage_style, (rng, 1, n), positions),
    ensures
        positions@.len() == 1,
        positions@[0] == (old(rng).stream(0) as int % (n - 1) + old(rng).stream(1) as int
            % n as int) % n as int,
{
    let draw = |k: nat| old(rng).stream(k);
    crate::random_laws::law_sample_of_one(draw, n as nat);
    let ints = crate::refinement_builder::as_ints(positions@);
    assert(ints == crate::layer0_model::sample(draw, 1, n as nat));
    assert(ints.len() == 1);
    assert(ints[0] == positions@[0]);
}

/// Generators that stand at the same value draw the same level, for graphs with up to two
/// links per point, and each takes one value.
pub proof fn law_few_links_give_the_same_level(
    m: usize,
    n: usize,
    table: &LevelTable,
    one: &mut FaissMt19937,
    two: &mut FaissMt19937,
    level: usize,
    other: usize,
)
    requires
        m <= 2,
        n <= 2,
        old(one).stream(0) == old(two).stream(0),
        call_ensures(faiss_random_level, (m, table, one), level),
        call_ensures(faiss_random_level, (n, table, two), other),
    ensures
        level == other,
        final(one).stream(0) == old(one).stream(1),
        final(two).stream(0) == old(two).stream(1),
{
    assert(final(one).stream(0) == old(one).stream(0 + 1));
    assert(final(two).stream(0) == old(two).stream(0 + 1));
}

/// A shuffle puts first the item that the first value selects, by its remainder by the
/// number of items, and keeps all items.
pub proof fn law_shuffle_selects_the_first<T>(values: &mut [T], rng: &mut FaissMt19937)
    requires
        old(values)@.len() > 0,
        call_ensures(faiss_shuffle::<T>, (values, rng), ()),
    ensures
        final(values)@.len() == old(values)@.len(),
        final(values)@.to_multiset() == old(values)@.to_multiset(),
        final(values)@[0] == old(values)@[old(rng).stream(0) as int % old(values)@.len() as int],
{
    let before = old(values)@;
    let draw = |k: nat| old(rng).stream(k);
    crate::faiss_random::law_shuffle_rearranges(before, draw, before.len());
    crate::random_laws::law_shuffle_draws_from_the_rest(before, draw, before.len());
}

// ---------------------------------------------------------------------------
// Pools
// ---------------------------------------------------------------------------

/// Refining a pool of new candidates leaves edges that follow the pruning rule: they
/// stand closest first, and none is closer to an earlier one than to the owner. The owner
/// is not among them, and all are settled.
pub proof fn law_refined_pool_follows_the_rule<S: PairScorer>(
    u: usize,
    pool: Vec<Candidate>,
    alive: &[PointOffsetType],
    scorer: &mut S,
    result: (Vec<Candidate>, Vec<HandedOn>),
)
    requires
        u < alive@.len() <= u32::MAX,
        forall|i: int| 0 <= i < pool@.len() ==> (#[trigger] pool@[i]).idx < alive@.len(),
        forall|i: int| 0 <= i < pool@.len() ==> (#[trigger] pool@[i]).new_flag,
        call_ensures(refine_vertex::<S>, (u, pool, alive, scorer), result),
    ensures
        crate::candidate::in_order(result.0@),
        forall|i: int|
            0 <= i < result.0@.len() ==> !(#[trigger] result.0@[i]).new_flag && result.0@[i].idx
                != u && result.0@[i].idx < alive@.len(),
        forall|i: int, j: int|
            0 <= i < j < result.0@.len() ==> {
                let near = #[trigger] result.0@[i];
                let far = #[trigger] result.0@[j];
                &&& near.idx != far.idx
                &&& !old(scorer).pair_score(alive@[far.idx as int], alive@[near.idx as int]).exceeds(
                    far.score,
                )
            },
{
    let score = crate::refinement_builder::place_scores(*old(scorer), alive@);
    let (kept, sorted) = lemma_refined_parts(
        pool@,
        u as int,
        score,
        result.0@,
        result.1@,
    );
    let unique = crate::candidate::deduped(sorted);
    crate::layer0_determinism::lemma_deduped_in_order(sorted);
    crate::layer0_determinism::lemma_kept_in_order(unique, u as int, score);
    crate::layer0_determinism::lemma_refined_members(unique, u as int, score);
    crate::layer0_structure::law_refinement_prunes_longest_edges(unique, u as int, score);
    crate::layer0_process::lemma_owner_is_not_kept(unique, u as int, score);
    let fits = |w: int, c: Candidate| c.new_flag && c.idx < alive@.len();
    assert forall|i: int| 0 <= i < pool@.len() implies fits(0, #[trigger] pool@[i]) by {}
    crate::layer0_laws::lemma_sorted_holds(pool@, sorted, 0, fits);
    crate::layer0_laws::lemma_deduped_holds(sorted, 0, fits);
    assert forall|i: int| 0 <= i < kept.len() implies (#[trigger] kept[i]).new_flag && kept[i].idx
        < alive@.len() by {
        assert(unique.contains(kept[i]));
        let k = choose|k: int| 0 <= k < unique.len() && unique[k] == kept[i];
        assert(fits(0, unique[k]));
    }
    let settled = result.0@;
    assert forall|i: int, j: int| 0 <= i < j < settled.len() implies !(
    #[trigger] settled[j]).precedes(#[trigger] settled[i]) by {
        assert(!kept[j].precedes(kept[i]));
    }
    assert forall|i: int| 0 <= i < settled.len() implies !(#[trigger] settled[i]).new_flag
        && settled[i].idx != u && settled[i].idx < alive@.len() by {
        assert(kept[i].idx == settled[i].idx);
    }
    assert forall|i: int, j: int| 0 <= i < j < settled.len() implies {
        let near = #[trigger] settled[i];
        let far = #[trigger] settled[j];
        &&& near.idx != far.idx
        &&& !old(scorer).pair_score(alive@[far.idx as int], alive@[near.idx as int]).exceeds(
            far.score,
        )
    } by {
        assert(kept[i].new_flag && kept[j].new_flag);
        assert(kept[i].idx != kept[j].idx && !score(kept[j].idx, kept[i].idx).exceeds(
            kept[j].score,
        ));
    }
}

/// What a refined pool was made of.
proof fn lemma_refined_parts(
    pool: Seq<Candidate>,
    u: int,
    score: spec_fn(PointOffsetType, PointOffsetType) -> Score,
    settled: Seq<Candidate>,
    handed: Seq<HandedOn>,
) -> (parts: (Seq<Candidate>, Seq<Candidate>))
    requires
        crate::refinement_builder::settles_to(pool, u, score, settled, handed),
    ensures
        settled == crate::candidate::flagged(parts.0, false),
        crate::candidate::sorts_to(pool, parts.1),
        crate::layer0_model::refined(crate::candidate::deduped(parts.1), u, score).kept == parts.0,
        crate::layer0_model::refined(crate::candidate::deduped(parts.1), u, score).handed == handed,
{
    let kept = choose|kept: Seq<Candidate>|
        {
            &&& #[trigger] crate::layer0_model::refines_to(pool, u, score, kept, handed)
            &&& settled == crate::candidate::flagged(kept, false)
        };
    let sorted = choose|sorted: Seq<Candidate>|
        {
            &&& #[trigger] crate::candidate::sorts_to(pool, sorted)
            &&& crate::layer0_model::refined(crate::candidate::deduped(sorted), u, score) == (
            crate::layer0_model::Refined { kept, handed })
        };
    (kept, sorted)
}

/// Refining a pool of new candidates loses none of another point. For each the pool held
/// one of its point that is as close and either stays or is handed on: to a point that
/// stays and that it is closer to than to the owner, with the score between the two.
pub proof fn law_refined_pool_loses_nothing<S: PairScorer>(
    u: usize,
    pool: Vec<Candidate>,
    alive: &[PointOffsetType],
    scorer: &mut S,
    result: (Vec<Candidate>, Vec<HandedOn>),
    k: int,
)
    requires
        u < alive@.len() <= u32::MAX,
        forall|i: int| 0 <= i < pool@.len() ==> (#[trigger] pool@[i]).idx < alive@.len(),
        call_ensures(refine_vertex::<S>, (u, pool, alive, scorer), result),
        0 <= k < pool@.len(),
        pool@[k].idx != u,
    ensures
        exists|j: int, i: int|
            0 <= j < pool@.len() && 0 <= i < result.0@.len()
                && crate::layer0_process::is_as_close(pool@[j], pool@[k]) && stays_or_moves(
                *old(scorer),
                alive@,
                #[trigger] pool@[j],
                #[trigger] result.0@[i],
                result.1@,
            ),
{
    let score = crate::refinement_builder::place_scores(*old(scorer), alive@);
    let (kept, sorted) = lemma_refined_parts(pool@, u as int, score, result.0@, result.1@);
    let unique = crate::candidate::deduped(sorted);
    crate::candidate_laws::lemma_sorted_has(pool@, sorted, k);
    let at = choose|at: int| 0 <= at < sorted.len() && sorted[at] == pool@[k];
    let top = crate::candidate_laws::lemma_deduped_covers(sorted, at);
    let head = unique[top];
    let member = |x: int, y: Candidate| pool@.contains(y);
    assert forall|x: int| 0 <= x < sorted.len() implies member(0, #[trigger] sorted[x]) by {
        crate::layer0_laws::lemma_sorted_member(pool@, sorted, x);
    }
    crate::layer0_laws::lemma_deduped_holds(sorted, 0, member);
    assert(member(0, unique[top]));
    let j = choose|j: int| 0 <= j < pool@.len() && pool@[j] == head;
    crate::layer0_structure::law_refinement_prunes_longest_edges(unique, u as int, score);
    let i = if kept.contains(unique[top]) {
        choose|i: int| 0 <= i < kept.len() && kept[i] == head
    } else {
        choose|i: int|
            0 <= i < kept.len() && #[trigger] crate::layer0_structure::gives_way(
                unique[top],
                kept[i],
                score,
                result.1@,
            )
    };
    crate::layer0_determinism::lemma_refined_members(unique, u as int, score);
    assert(unique.contains(kept[i]));
    let q = choose|q: int| 0 <= q < unique.len() && unique[q] == kept[i];
    assert(member(0, unique[q]));
    let w = choose|w: int| 0 <= w < pool@.len() && pool@[w] == kept[i];
    assert(pool@[w].idx < alive@.len() && pool@[j].idx < alive@.len());
    assert(result.0@[i].idx == kept[i].idx);
    if kept[i].idx != head.idx {
        assert(result.1@.contains(crate::layer0_structure::moved(head, kept[i], score)));
    }
    assert(stays_or_moves(*old(scorer), alive@, pool@[j], result.0@[i], result.1@));
}

/// Whether `kept` is of the point of `c`, or a point that `c` is closer to than to its
/// owner and that `handed` hands it to.
pub open spec fn stays_or_moves<S: PairScorer>(
    scorer: S,
    alive: Seq<PointOffsetType>,
    c: Candidate,
    kept: Candidate,
    handed: Seq<HandedOn>,
) -> bool {
    let between = scorer.pair_score(alive[c.idx as int], alive[kept.idx as int]);
    ||| kept.idx == c.idx
    ||| {
        &&& between.exceeds(c.score)
        &&& handed.contains(
            HandedOn {
                to: kept.idx,
                candidate: Candidate { idx: c.idx, score: between, new_flag: true },
            },
        )
    }
}

/// Merged edges are the closest of those that came in and the own ones, as new.
pub proof fn law_merged_edges_are_the_closest(
    incoming: Vec<Candidate>,
    own: Vec<Candidate>,
    cap: usize,
    merged: Vec<Candidate>,
)
    requires
        call_ensures(merge_edges, (incoming, own, cap), merged),
    ensures
        crate::candidate_laws::keeps_closest(
            incoming@ + own@.map_values(|c: Candidate| Candidate { new_flag: true, ..c }),
            cap as nat,
            merged@,
        ),
{
    crate::candidate_laws::law_merge_keeps_closest(incoming@, own@, cap as nat, merged@);
}

/// A trimmed pool is the closest of the pool that there is room for.
pub proof fn law_trimmed_pool_is_the_closest(
    pool: Vec<Candidate>,
    cap: usize,
    trimmed: Vec<Candidate>,
)
    requires
        call_ensures(trim_pool, (pool, cap), trimmed),
    ensures
        crate::candidate_laws::is_closest_of(pool@, cap as nat, trimmed@),
{
    crate::candidate_laws::law_trim_keeps_closest(pool@, cap as nat, trimmed@);
}

/// Turned edges lead back: each to the owner, from the point that it named, with the same
/// score and flag.
pub proof fn law_turned_edges_lead_back(u: usize, pool: &Vec<Candidate>, handed: Vec<HandedOn>)
    requires
        u <= u32::MAX,
        call_ensures(turned_edges, (u, pool), handed),
    ensures
        handed@.len() == pool@.len(),
        forall|i: int|
            0 <= i < pool@.len() ==> {
                let back = #[trigger] handed@[i];
                &&& back.to == pool@[i].idx
                &&& back.candidate.idx == u
                &&& back.candidate.score == pool@[i].score
                &&& back.candidate.new_flag == pool@[i].new_flag
            },
{
}

/// A final list names all that its pool does, under the ids of the points and closest
/// first, and nothing else.
pub proof fn law_final_list_names_the_pool(
    u: usize,
    pool: Vec<Candidate>,
    alive: &[PointOffsetType],
    list: Vec<ScoredPointOffset>,
    k: int,
)
    requires
        call_ensures(final_list, (u, pool, alive), list),
        0 <= k < pool@.len(),
    ensures
        forall|i: int|
            0 <= i < list@.len() ==> crate::layer0_process::comes_from(
                #[trigger] list@[i],
                pool@,
                u as int,
                alive@,
            ),
        pool@[k].idx != u && pool@[k].idx < alive@.len() ==> exists|i: int|
            0 <= i < list@.len() && (#[trigger] list@[i]).idx == alive@[pool@[k].idx as int]
                && list@[i].score.rank() >= pool@[k].score.rank(),
        forall|i: int, j: int|
            0 <= i < j < list@.len() ==> (#[trigger] list@[i]).score.rank() >= (
            #[trigger] list@[j]).score.rank(),
{
    crate::layer0_process::law_list_names_the_pool(pool@, u as int, alive@, list@, k);
    crate::layer0_process::lemma_list_in_order(pool@, u as int, alive@, list@);
}

// ---------------------------------------------------------------------------
// Layer 0 and the main graph
// ---------------------------------------------------------------------------

/// A layer 0 that is built is the refined one of the points that are alive, with the
/// parameters that were given. Each list stands closest first and names other live
/// points; a point that is not alive has an empty one.
pub proof fn law_built_layer0_is_refined<MakeScorer, Scorer, G, Stop>(
    num_points: usize,
    params: &RefinementParams,
    num_threads: usize,
    is_alive: G,
    make_scorer: MakeScorer,
    stopped: &Stop,
    lists: Vec<Vec<ScoredPointOffset>>,
    p: int,
) -> (flags: Seq<bool>) where
    MakeScorer: Fn() -> OperationResult<Scorer>,
    Scorer: PairScorer,
    G: Fn(PointOffsetType) -> bool,
    Stop: StopSignal,

    requires
        call_ensures(
            build_layer0::<MakeScorer, Scorer, G, Stop>,
            (num_points, params, num_threads, is_alive, make_scorer, stopped),
            Ok(lists),
        ),
        0 <= p < num_points,
    ensures
        num_points <= 0xFFFF_FFFF,
        params.s > 0,
        params.r > 0,
        params.iter > 0,
        flags.len() == num_points,
        forall|q: PointOffsetType|
            q < num_points ==> call_ensures(is_alive, (q,), #[trigger] flags[q as int]),
        crate::layer0_model::layer0_of(
            flags,
            params.s as nat,
            params.r as nat,
            params.iter as nat,
            params.num_reverse_edges as nat,
            params.seed,
            num_threads as nat,
            crate::refinement_builder::made_score::<MakeScorer, Scorer>(make_scorer),
            crate::refinement_builder::lists_of(lists@),
        ),
        lists@.len() == num_points,
        !flags[p] ==> lists@[p]@.len() == 0,
        forall|i: int|
            0 <= i < lists@[p]@.len() ==> {
                &&& (#[trigger] lists@[p]@[i]).idx < num_points
                &&& lists@[p]@[i].idx != p
                &&& flags[lists@[p]@[i].idx as int]
            },
        forall|i: int, j: int|
            0 <= i < j < lists@[p]@.len() ==> (#[trigger] lists@[p]@[i]).score.rank() >= (
            #[trigger] lists@[p]@[j]).score.rank(),
{
    let score = crate::refinement_builder::made_score::<MakeScorer, Scorer>(make_scorer);
    let said = crate::refinement_builder::lists_of(lists@);
    crate::config_laws::law_exactly_the_possible_is_refined(num_points, *params);
    let flags = choose|flags: Seq<bool>|
        {
            &&& flags.len() == num_points
            &&& #[trigger] crate::refinement_builder::flags_from(is_alive, flags)
            &&& crate::layer0_model::layer0_of(
                flags,
                params.s as nat,
                params.r as nat,
                params.iter as nat,
                params.num_reverse_edges as nat,
                params.seed,
                num_threads as nat,
                score,
                said,
            )
            &&& crate::layer0_model::alive_points(flags).len() > 0 ==> exists|scorer: Scorer|
                crate::refinement_builder::makes(make_scorer, scorer)
            &&& crate::layer0_model::alive_points(flags).len() > 0 ==> stopped.may_answer(false)
        };
    crate::layer0_structure::law_lists_are_ordered_and_live(
        flags,
        params.s as nat,
        params.r as nat,
        params.iter as nat,
        params.num_reverse_edges as nat,
        params.seed,
        num_threads as nat,
        score,
        said,
        p,
    );
    assert(said.len() == lists@.len());
    assert(said[p] == lists@[p]@);
    flags
}

/// A main graph that is built is that of the points that were given, for all vectors and
/// with the links and the thoroughness of the config. The `k`-th point has the level that
/// the `k`-th value of the level seed leads to. Layer 0 is refined for the points with the
/// parameters of the config, and each point is injected the first `s` of its neighbors.
/// The generator of the caller is left as it is.
pub proof fn law_built_graph_follows_its_config<Random, MakeScorer, Scorer, Stop>(
    config: &MirageGraphConfig,
    total: usize,
    points: Vec<PointOffsetType>,
    table: &LevelTable,
    num_threads: usize,
    make_scorer: MakeScorer,
    stopped: &Stop,
    rng: &mut Random,
    graph: MainGraph,
) -> (lists: Seq<Seq<ScoredPointOffset>>) where
    MakeScorer: Fn() -> OperationResult<Scorer>,
    Scorer: PairScorer,
    Stop: StopSignal,

    requires
        call_ensures(
            MirageIndex::build_main_graph::<Random, MakeScorer, Scorer, Stop>,
            (config, total, points, table, num_threads, make_scorer, stopped, rng),
            Ok(graph),
        ),
    ensures
        *final(rng) == *old(rng),
        graph.builder.num_vectors == total,
        graph.builder.hnsw_m.m == config.m,
        graph.builder.hnsw_m.m0 == config.m0,
        graph.builder.ef_construct == config.ef_construct,
        graph.builder.use_heuristic,
        graph.builder.entry_points_num == crate::main_graph::entry_points_of(
            total,
            config.full_scan_threshold,
        ),
        graph.points@ == points@,
        graph.levels@.len() == points@.len(),
        forall|k: int|
            0 <= k < points@.len() ==> #[trigger] graph.levels@[k]
                == crate::faiss_random::level_from(
                table@,
                0,
                crate::faiss_random::draw_units(
                    crate::faiss_random::mt19937_output(12345, k as nat),
                ),
            ),
        crate::main_graph::step_views(graph.steps@) == crate::main_graph::steps_of(
            points@,
            graph.levels@,
        ),
        points@.len() > 0 ==> crate::layer0_model::layer0_of(
            Seq::new(total as nat, |p: int| points@.contains(p as PointOffsetType)),
            config.s as nat,
            config.r as nat,
            config.iter as nat,
            config.num_reverse_edges as nat,
            2021,
            num_threads as nat,
            crate::refinement_builder::made_score::<MakeScorer, Scorer>(make_scorer),
            lists,
        ),
        crate::graph_plan_laws::injected_points(
            crate::main_graph::injection_views(graph.injections@),
        ) == points@.filter(|point: PointOffsetType| lists[point as int].len() > 0),
        forall|i: int|
            0 <= i < graph.injections@.len() ==> {
                let injection = #[trigger] graph.injections@[i];
                let list = lists[injection.point as int];
                &&& injection.candidates@.is_prefix_of(list)
                &&& injection.candidates@.len() <= config.s
                &&& injection.candidates@.len() == config.s || injection.candidates@.len()
                    == list.len()
            },
{
    let score = crate::refinement_builder::made_score::<MakeScorer, Scorer>(make_scorer);
    let lists = choose|lists: Seq<Seq<ScoredPointOffset>>|
        {
            &&& #[trigger] crate::main_graph::is_main_graph(
                graph,
                *config,
                total,
                points@,
                table@,
                lists,
            )
            &&& crate::main_graph::is_layer0_for(
                lists,
                *config,
                total,
                points@,
                num_threads as nat,
                score,
            )
        };
    crate::graph_plan_laws::law_first_neighbors_are_injected(points@, lists, config.s as nat);
    let views = crate::main_graph::injection_views(graph.injections@);
    lemma_entry_points_fit(total, config.full_scan_threshold);
    assert(crate::main_graph::membership(total as nat, points@) =~= Seq::new(
        total as nat,
        |p: int| points@.contains(p as PointOffsetType),
    ));
    assert forall|i: int| 0 <= i < graph.injections@.len() implies {
        let injection = #[trigger] graph.injections@[i];
        let list = lists[injection.point as int];
        &&& injection.candidates@.is_prefix_of(list)
        &&& injection.candidates@.len() <= config.s
        &&& injection.candidates@.len() == config.s || injection.candidates@.len() == list.len()
    } by {
        assert(views[i] == graph.injections@[i]@);
    }
    lists
}

/// A number of entry points is a number.
proof fn lemma_entry_points_fit(total: usize, threshold: usize)
    ensures
        0 <= crate::main_graph::entry_points_of(total, threshold) <= usize::MAX,
{
}

/// A layer 0 is refused only for points that cannot be refined. Otherwise it fails only
/// where some point may be alive, if it is stopped or a scorer cannot be made.
pub proof fn law_layer0_fails_for_a_reason<MakeScorer, Scorer, G, Stop>(
    num_points: usize,
    params: &RefinementParams,
    num_threads: usize,
    is_alive: G,
    make_scorer: MakeScorer,
    stopped: &Stop,
    error: OperationError,
) where
    MakeScorer: Fn() -> OperationResult<Scorer>,
    Scorer: PairScorer,
    G: Fn(PointOffsetType) -> bool,
    Stop: StopSignal,

    requires
        call_ensures(
            build_layer0::<MakeScorer, Scorer, G, Stop>,
            (num_points, params, num_threads, is_alive, make_scorer, stopped),
            Err(error),
        ),
    ensures
        num_points > 0,
        num_points > 0xFFFF_FFFF || params.s == 0 || params.r == 0 || params.iter == 0
            ==> error is ServiceError,
        num_points <= 0xFFFF_FFFF && params.s > 0 && params.r > 0 && params.iter > 0 ==> {
            &&& {
                ||| error is Cancelled && stopped.may_answer(true)
                ||| call_ensures(make_scorer, (), Err::<Scorer, OperationError>(error))
            }
            &&& exists|p: PointOffsetType|
                p < num_points && #[trigger] call_ensures(is_alive, (p,), true)
        },
{
}

/// Exactly the points that are given are marked.
pub proof fn law_given_points_are_marked(
    total: usize,
    points: &Vec<PointOffsetType>,
    flags: Vec<bool>,
)
    requires
        total <= u32::MAX,
        call_ensures(mark_live, (total, points), flags),
    ensures
        flags@.len() == total,
        forall|p: PointOffsetType|
            p < total ==> (#[trigger] flags@[p as int] <==> points@.contains(p)),
{
}

// ---------------------------------------------------------------------------
// Opening and building
// ---------------------------------------------------------------------------

/// An index opens exactly if all that it is opened over is supported and its config, where
/// there is one, could be read. It has that config, or one that follows what is asked for,
/// and the runtime over it is asked for the same links.
pub proof fn law_index_opens_over_the_supported<Quantized>(
    args: MirageIndexOpenArgs<'_, Quantized>,
    persisted: Option<OperationResult<MirageGraphConfig>>,
    result: OperationResult<OpenPlan>,
)
    requires
        call_ensures(MirageIndex::open::<Quantized>, (args, persisted), result),
    ensures
        result is Ok <==> {
            &&& is_supported(
                args.mirage_config,
                args.vector_storage,
                args.quantized_vectors is Some,
            )
            &&& persisted matches Some(read) ==> read is Ok
        },
        forall|plan: OpenPlan| #[trigger]
            opened(result, plan) ==> {
                &&& plan.index.spec_path() == args.path@
                &&& plan.hnsw_config.m == args.mirage_config.m
                &&& plan.hnsw_config.ef_construct >= 1024
                &&& plan.hnsw_config.ef_construct >= args.mirage_config.ef_construct
                &&& plan.hnsw_config.full_scan_threshold == args.mirage_config.full_scan_threshold
                &&& plan.hnsw_config.max_indexing_threads == args.mirage_config.max_indexing_threads
                &&& plan.hnsw_config.on_disk == args.mirage_config.on_disk
                &&& plan.hnsw_config.payload_m == args.mirage_config.payload_m
                &&& match persisted {
                    Some(read) => read == OperationResult::<MirageGraphConfig>::Ok(
                        plan.index.spec_config(),
                    ),
                    None => crate::config_laws::follows(
                        plan.index.spec_config(),
                        args.mirage_config,
                        args.vector_storage.available_vector_count,
                    ),
                }
            },
        !is_supported(
            args.mirage_config,
            args.vector_storage,
            args.quantized_vectors is Some,
        ) ==> (result matches Err(error) && error is ValidationError),
        forall|failure: OperationError|
            is_supported(
                args.mirage_config,
                args.vector_storage,
                args.quantized_vectors is Some,
            ) && #[trigger] failed(persisted, failure) ==> result == OperationResult::<
                OpenPlan,
            >::Err(failure),
{
    crate::config_laws::law_exactly_the_supported_is_accepted(
        args.mirage_config,
        args.vector_storage,
        args.quantized_vectors is Some,
    );
    crate::config_laws::law_user_config_is_viewed_straight(args.mirage_config);
    crate::config_laws::law_graph_config_follows_the_user(
        args.mirage_config,
        args.vector_storage.size_of_available_vectors_in_bytes,
        args.vector_storage.available_vector_count,
    );
}

/// Whether `result` is the plan `plan`.
pub open spec fn opened(result: OperationResult<OpenPlan>, plan: OpenPlan) -> bool {
    result == OperationResult::<OpenPlan>::Ok(plan)
}

/// Whether reading a config has failed with `failure`.
pub open spec fn failed(
    persisted: Option<OperationResult<MirageGraphConfig>>,
    failure: OperationError,
) -> bool {
    persisted == Some(OperationResult::<MirageGraphConfig>::Err(failure))
}

/// Whether an index is supported over a storage.
pub open spec fn is_supported(
    config: MirageConfig,
    storage: VectorStorageInfo,
    quantized: bool,
) -> bool {
    &&& config.on_disk != Some(true)
    &&& config.payload_m is None
    &&& !quantized
    &&& !storage.multi_vector
    &&& !storage.on_disk
    &&& storage.datatype is Float32
    &&& storage.kind is DenseSimple || storage.kind is DenseVolatile
        || storage.kind is DenseAppendableMemmap
}

/// Validation accepts exactly what is supported, and refuses all else as invalid.
pub proof fn law_validation_accepts_the_supported<Quantized>(
    config: &MirageConfig,
    storage: &VectorStorageInfo,
    quantized: &Option<Quantized>,
    result: OperationResult<()>,
    config_result: OperationResult<()>,
)
    requires
        call_ensures(
            MirageIndex::validate_p0_runtime::<Quantized>,
            (config, storage, quantized),
            result,
        ),
        call_ensures(MirageIndex::validate_p0_config, (config,), config_result),
    ensures
        result is Ok <==> is_supported(*config, *storage, *quantized is Some),
        result matches Err(error) ==> error is ValidationError,
        config_result is Ok <==> config.on_disk != Some(true) && config.payload_m is None,
        config_result matches Err(error) ==> error is ValidationError,
{
    crate::config_laws::law_exactly_the_supported_is_accepted(
        *config,
        *storage,
        *quantized is Some,
    );
}

/// Arguments are accepted as what they hold is.
pub proof fn law_arguments_are_validated<Quantized>(
    args: &MirageIndexOpenArgs<'_, Quantized>,
    result: OperationResult<()>,
)
    requires
        call_ensures(MirageIndex::validate_p0_open_args::<Quantized>, (args,), result),
    ensures
        result is Ok <==> is_supported(
            args.mirage_config,
            args.vector_storage,
            args.quantized_vectors is Some,
        ),
{
    crate::config_laws::law_exactly_the_supported_is_accepted(
        args.mirage_config,
        args.vector_storage,
        args.quantized_vectors is Some,
    );
}

/// A build starts exactly if all is supported. It builds nothing over files that are
/// there, and its config follows what is asked for.
pub proof fn law_build_starts_over_the_supported<Quantized>(
    args: &MirageIndexOpenArgs<'_, Quantized>,
    existing: ExistingFiles,
    result: OperationResult<MirageBuild>,
)
    requires
        call_ensures(MirageIndex::build::<Quantized>, (args, existing), result),
    ensures
        result is Ok <==> is_supported(
            args.mirage_config,
            args.vector_storage,
            args.quantized_vectors is Some,
        ),
        result matches Ok(build) ==> {
            &&& build@.path == args.path@
            &&& build@.mirage_config == args.mirage_config
            &&& build@.total_vector_count == args.vector_storage.total_vector_count
            &&& crate::config_laws::follows(
                build@.config,
                args.mirage_config,
                args.vector_storage.total_vector_count,
            )
            &&& build@.action == if existing.mirage_config || existing.hnsw_config
                || existing.graph {
                BuildAction::OpenExisting
            } else {
                BuildAction::CreateDirectory
            }
        },
{
    crate::config_laws::law_exactly_the_supported_is_accepted(
        args.mirage_config,
        args.vector_storage,
        args.quantized_vectors is Some,
    );
    crate::config_laws::law_build_starts_from_the_user(
        args.mirage_config,
        args.vector_storage,
        args.path@,
        existing,
    );
}

/// A build goes on only where its action has succeeded. Its order is fixed: the directory,
/// the graph, its files, the config of the runtime, that of the index, and the runtime.
/// What it is asked for and where it is do not change, and its config changes in how many
/// vectors are indexed alone, which the graph decides.
pub proof fn law_build_goes_on_after_success(
    build: &mut MirageBuild,
    outcome: OperationResult<usize>,
    result: OperationResult<()>,
)
    requires
        call_ensures(MirageBuild::proceed, (build, outcome), result),
    ensures
        outcome is Err ==> final(build)@ == old(build)@ && result is Err,
        outcome is Ok ==> result is Ok,
        final(build)@.mirage_config == old(build)@.mirage_config,
        final(build)@.path == old(build)@.path,
        final(build)@.total_vector_count == old(build)@.total_vector_count,
        final(build)@.config == (MirageGraphConfig {
            indexed_vector_count: final(build)@.config.indexed_vector_count,
            ..old(build)@.config
        }),
        outcome matches Ok(indexed) ==> final(build)@.config.indexed_vector_count == match old(
            build,
        )@.action {
            BuildAction::BuildMainGraph { .. } => Some(indexed),
            BuildAction::MakeEmptyGraph { .. } => Some(0),
            _ => old(build)@.config.indexed_vector_count,
        },
        outcome is Ok ==> match old(build)@.action {
            BuildAction::OpenExisting => final(build)@.action is Finished,
            BuildAction::CreateDirectory => if old(build)@.config.m > 0 {
                final(build)@.action == (BuildAction::BuildMainGraph { config: old(build)@.config })
            } else {
                final(build)@.action is MakeEmptyGraph
            },
            BuildAction::BuildMainGraph { .. } => final(build)@.action is PersistGraph,
            BuildAction::MakeEmptyGraph { .. } => final(build)@.action is PersistGraph,
            BuildAction::PersistGraph => final(build)@.action matches BuildAction::SaveHnswConfig {
                graph_config,
            } && {
                &&& graph_config.m == old(build)@.config.m
                &&& graph_config.m0 == old(build)@.config.m0
                &&& graph_config.ef_construct == old(build)@.config.ef_construct
                &&& graph_config.indexed_vector_count == old(build)@.config.indexed_vector_count
            },
            BuildAction::SaveHnswConfig { .. } => final(build)@.action == (
            BuildAction::SaveMirageConfig { config: old(build)@.config }),
            BuildAction::SaveMirageConfig { .. } => final(build)@.action is OpenRuntime,
            BuildAction::OpenRuntime { .. } => final(build)@.action is Finished,
            BuildAction::Finished => final(build)@.action is Finished,
        },
{
}

/// A persisted config that is made new has twice the links at layer 0, and considers as
/// many neighbors in search as while it is built.
pub proof fn law_new_config(
    m: usize,
    ef_construct: usize,
    full_scan_threshold: usize,
    s: usize,
    r: usize,
    iter: usize,
    num_reverse_edges: usize,
    max_indexing_threads: usize,
    payload_m: Option<usize>,
    indexed_vector_count: usize,
    config: MirageGraphConfig,
)
    requires
        call_ensures(
            MirageGraphConfig::new,
            (
                m,
                ef_construct,
                full_scan_threshold,
                s,
                r,
                iter,
                num_reverse_edges,
                max_indexing_threads,
                payload_m,
                indexed_vector_count,
            ),
            config,
        ),
    ensures
        config.m == m,
        2 * m <= usize::MAX ==> config.m0 == 2 * m,
        2 * m > usize::MAX ==> config.m0 == usize::MAX,
        config.ef_construct == ef_construct,
        config.ef == ef_construct,
        config.full_scan_threshold == full_scan_threshold,
        config.s == s,
        config.r == r,
        config.iter == iter,
        config.num_reverse_edges == num_reverse_edges,
        config.max_indexing_threads == max_indexing_threads,
        config.payload_m == payload_m,
        config.payload_m0 is Some <==> payload_m is Some,
        config.indexed_vector_count == Some(indexed_vector_count),
{
}

/// The HNSW view of a persisted config has the same fields.
pub proof fn law_hnsw_view_of_a_graph_config(config: &MirageGraphConfig, view: HnswGraphConfig)
    requires
        call_ensures(MirageGraphConfig::to_hnsw_compat, (config,), view),
    ensures
        view.m == config.m,
        view.m0 == config.m0,
        view.ef_construct == config.ef_construct,
        view.ef == config.ef,
        view.full_scan_threshold == config.full_scan_threshold,
        view.max_indexing_threads == config.max_indexing_threads,
        view.payload_m == config.payload_m,
        view.payload_m0 == config.payload_m0,
        view.indexed_vector_count == config.indexed_vector_count,
{
}

/// The HNSW view of a user config has the same fields, with at least a thousand and
/// twenty-four neighbors considered.
pub proof fn law_hnsw_view_of_a_user_config(config: &MirageConfig, view: HnswConfig)
    requires
        call_ensures(MirageConfig::to_hnsw_compat, (config,), view),
    ensures
        view.m == config.m,
        view.ef_construct >= 1024,
        view.ef_construct >= config.ef_construct,
        view.ef_construct == 1024 || view.ef_construct == config.ef_construct,
        view.full_scan_threshold == config.full_scan_threshold,
        view.max_indexing_threads == config.max_indexing_threads,
        view.on_disk == config.on_disk,
        view.payload_m == config.payload_m,
        view.inline_storage is None,
{
}

/// The number of indexed vectors is the recorded one, and that of the runtime only where
/// none is recorded.
pub proof fn law_recorded_count_goes_first(index: &MirageIndex, inner_count: usize, count: usize)
    requires
        call_ensures(MirageIndex::indexed_vector_count, (index, inner_count), count),
    ensures
        index.spec_config().indexed_vector_count is Some ==> Some(count)
            == index.spec_config().indexed_vector_count,
        index.spec_config().indexed_vector_count is None ==> count == inner_count,
{
}

/// The files of an index are those of the runtime, with its own config behind them exactly
/// if that is there.
pub proof fn law_files_end_with_the_config(
    index: &MirageIndex,
    inner_files: Vec<String>,
    config_exists: bool,
    files: Vec<String>,
)
    requires
        call_ensures(MirageIndex::files, (index, inner_files, config_exists), files),
    ensures
        inner_files@.is_prefix_of(files@),
        !config_exists ==> files@ == inner_files@,
        config_exists ==> files@.len() == inner_files@.len() + 1,
        config_exists ==> index.spec_path().is_prefix_of(files@.last()@),
        config_exists ==> files@.last()@ == crate::config::path_within(
            index.spec_path(),
            crate::config::MIRAGE_INDEX_CONFIG_FILE@,
        ),
{
    assert forall|i: int| 0 <= i < inner_files@.len() implies files@[i] == inner_files@[i] by {
        assert(files@.take(inner_files@.len() as int)[i] == inner_files@[i]);
    }
    crate::config_laws::law_path_joins_directory_and_file(
        index.spec_path(),
        crate::config::MIRAGE_INDEX_CONFIG_FILE@,
    );
}

/// The index that a build ends with has the config and the place of the build.
pub proof fn law_finished_index_is_the_built_one(build: MirageBuild, index: MirageIndex)
    requires
        call_ensures(MirageBuild::finish, (build,), index),
    ensures
        index.spec_config() == build@.config,
        index.spec_path() == build@.path,
{
}

/// What is reported of a build follows from how many vectors were indexed and how many
/// initial neighbors a point has.
pub proof fn law_report_follows_from_the_counts(build: &MirageBuild, report: BuildReport)
    requires
        call_ensures(MirageBuild::report, (build,), report),
    ensures
        report.s == build@.config.s,
        build@.config.indexed_vector_count matches Some(count) ==> report.indexed_vectors == count,
        report.cpp_parity_eligible <==> report.indexed_vectors > report.s,
        report.recall_acceptance_eligible <==> report.s > 0 && report.indexed_vectors >= 10
            * report.s,
        report.boundary_behavior@ == if report.indexed_vectors > report.s {
            "mirage_cpp_random_graph"@
        } else {
            "qdrant_complete_graph"@
        },
        report.metric_scope@ == if report.recall_acceptance_eligible {
            "recall_build"@
        } else {
            "correctness_only"@
        },
{
    crate::config_laws::law_report_tells_the_size(build@.config);
    assert(report@ == crate::mirage::report_of(build@.config));
}

/// A search is refused exactly if it has a filter, whatever the filter is.
pub proof fn law_filters_are_refused<Filter>(
    filter: Option<&Filter>,
    result: OperationResult<()>,
)
    requires
        call_ensures(MirageIndex::validate_p0_search::<Filter>, (filter,), result),
    ensures
        result is Err <==> filter is Some,
        result matches Err(error) ==> error is ValidationError,
{
}

/// The time of the algorithm is that of its three steps, and the time until the graph is
/// there adds that of making it.
pub proof fn law_times_add_up(timings: &MirageBuildTimings, algorithm: u128, runtime: u128)
    requires
        call_ensures(MirageBuildTimings::algorithm_build, (timings,), algorithm),
        call_ensures(MirageBuildTimings::runtime_build, (timings,), runtime),
    ensures
        algorithm == timings.refine_layer0 + timings.build_upper_layers + timings.inject_layer0,
        runtime == algorithm + timings.materialize_graph,
{
}

/// A value that is put under a name is found there, and under no other name does anything
/// change.
pub proof fn law_named_values_are_found<T>(
    map: &mut NamedMap<T>,
    name: &str,
    value: T,
    other: Seq<char>,
)
    requires
        call_ensures(NamedMap::<T>::insert, (map, name, value), ()),
    ensures
        final(map)@.contains_key(name@),
        final(map)@[name@] == value,
        other != name@ ==> final(map)@.contains_key(other) == old(map)@.contains_key(other),
        other != name@ && old(map)@.contains_key(other) ==> final(map)@[other]
            == old(map)@[other],
{
}

/// What is found under a name is what is there, and nothing is found only where nothing is.
pub proof fn law_nothing_else_is_found<T>(map: &NamedMap<T>, name: &str, value: Option<&T>)
    requires
        call_ensures(NamedMap::<T>::get, (map, name), value),
    ensures
        value is Some <==> map@.contains_key(name@),
        value matches Some(found) ==> *found == map@[name@],
{
}

/// The config of an index lies in its directory, under a name of its own.
pub proof fn law_config_lies_in_the_directory(dir: &str, path: String)
    requires
        call_ensures(MirageGraphConfig::get_config_path, (dir,), path),
    ensures
        path@ == crate::config::path_within(dir@, "mirage_config.json"@),
        dir@.is_prefix_of(path@),
{
    crate::config_laws::law_path_joins_directory_and_file(dir@, "mirage_config.json"@);
}

/// A signal is asked once, and what follows is what it answered.
pub proof fn law_signal_decides<Stop: StopSignal>(stopped: &Stop, result: OperationResult<()>)
    requires
        call_ensures(check_process_stopped::<Stop>, (stopped,), result),
    ensures
        result is Ok ==> stopped.may_answer(false),
        result is Err ==> stopped.may_answer(true),
        result matches Err(error) ==> error is Cancelled,
{
}

/// A drawn value is the next of the generator, and a bounded one its remainder. Each takes
/// one value.
pub proof fn law_values_are_drawn_in_turn(
    one: &mut FaissMt19937,
    two: &mut FaissMt19937,
    max: usize,
    value: u32,
    bounded: usize,
    k: nat,
)
    requires
        max > 0,
        call_ensures(FaissMt19937::next_u32, (one,), value),
        call_ensures(FaissMt19937::rand_int, (two, max), bounded),
    ensures
        value == old(one).stream(0),
        bounded == old(two).stream(0) as int % max as int,
        final(one).stream(k) == old(one).stream(k + 1),
        final(two).stream(k) == old(two).stream(k + 1),
{
}

/// A new generator draws the tempered words that follow those of its seed.
pub proof fn law_new_generator_draws_its_words(seed: u32, rng: FaissMt19937, k: nat)
    requires
        call_ensures(FaissMt19937::new, (seed,), rng),
    ensures
        rng.stream(k) == crate::faiss_random::temper(
            crate::faiss_random::word(
                Seq::new(624, |i: int| crate::faiss_random::seed_word(seed, i as nat)),
                k + 624,
            ),
        ),
{
    assert(crate::faiss_random::seed_state(seed) =~= Seq::new(
        624,
        |i: int| crate::faiss_random::seed_word(seed, i as nat),
    ));
}

/// An operation that is asked whether it is stopped is cancelled exactly if it is.
pub proof fn law_stopped_is_cancelled(stopped: bool, result: OperationResult<()>)
    requires
        call_ensures(stop_result, (stopped,), result),
    ensures
        result is Err <==> stopped,
        result matches Err(error) ==> error is Cancelled,
{
}

/// The recall of a data set counts exactly if it has at least ten times as many points as
/// a point has initial neighbors, and at least one.
pub proof fn law_recall_counts_from_ten_times(n_alive: usize, s: usize, eligible: bool)
    requires
        call_ensures(recall_acceptance_eligible, (n_alive, s), eligible),
    ensures
        eligible <==> s > 0 && n_alive >= 10 * s,
{
}

// ---------------------------------------------------------------------------
// Mismatches
// ---------------------------------------------------------------------------

/// A segment is rebuilt if its payloads are not where they are asked to be, if its size is
/// not known, or if it is large enough for an index and some of its indexed vectors have a
/// quantization that is not asked for, or the other way round. The answer is the same
/// verdict on all other accounts.
pub proof fn law_mismatches_are_found<
    Quant,
    Details,
    Global,
    Policy,
    Resolve,
    HnswDiff,
    MirageDiff,
    QuantDiff,
    Appendable,
>(
    optimizer: &ConfigMismatchOptimizer<Quant, Details, Global>,
    segment: &SegmentInfo<Quant, Details>,
    rules: &RebuildRules<Policy, Resolve, HnswDiff, MirageDiff, QuantDiff, Appendable>,
    rebuild: bool,
) where
    Quant: Copy,
    Details: Copy,
    Policy: Fn(
        VectorDataConfig<Quant, Details>,
        DenseVectorOptimizerConfig<Quant>,
        bool,
        bool,
    ) -> VectorDataConfig<Quant, Details>,
    Resolve: Fn(
        VectorDataConfig<Quant, Details>,
        DenseVectorOptimizerConfig<Quant>,
        bool,
        bool,
    ) -> Indexes,
    HnswDiff: Fn(HnswConfig, HnswConfig) -> bool,
    MirageDiff: Fn(MirageConfig, MirageConfig) -> bool,
    QuantDiff: Fn(Quant, Quant) -> bool,
    Appendable: Fn(Quant) -> bool,

    requires
        call_ensures(
            ConfigMismatchOptimizer::<Quant, Details, Global>::has_config_mismatch::<
                Policy,
                Resolve,
                HnswDiff,
                MirageDiff,
                QuantDiff,
                Appendable,
            >,
            (optimizer, segment, rules),
            rebuild,
        ),
    ensures
        optimizer@.segment_optimizer_config.payload_on_disk != segment.payload_on_disk ==> rebuild,
        segment.max_available_vectors_size_in_bytes is Err ==> rebuild,
        forall|i: int|
            0 <= i < segment.sparse_vector_data@.len()
                && crate::mismatch_laws::sparse_is_misplaced(
                optimizer@,
                #[trigger] segment.sparse_vector_data@[i],
            ) ==> rebuild,
        forall|i: int|
            0 <= i < segment.vector_data@.len() && is_switched(
                optimizer@,
                *segment,
                #[trigger] segment.vector_data@[i],
            ) ==> rebuild,
        crate::config_mismatch_optimizer::segment_verdict(*rules, optimizer@, *segment, rebuild),
{
    crate::mismatch_laws::law_segment_is_rebuilt_for_a_reason(
        *rules,
        optimizer@,
        *segment,
        rebuild,
    );
    assert forall|i: int|
        0 <= i < segment.vector_data@.len() && is_switched(
            optimizer@,
            *segment,
            #[trigger] segment.vector_data@[i],
        ) implies rebuild by {
        crate::mismatch_laws::law_segment_follows_the_switch_of_quantization(
            *rules,
            optimizer@,
            *segment,
            rebuild,
            i,
        );
    }
}

/// Whether the quantization of indexed vectors of a segment that is large enough for an
/// index is to be turned on or off.
pub open spec fn is_switched<Quant, Details, Global>(
    settings: crate::config_mismatch_optimizer::OptimizerSettings<Quant, Details, Global>,
    segment: SegmentInfo<Quant, Details>,
    vectors: crate::config_mismatch_optimizer::DenseVectors<Quant, Details>,
) -> bool {
    let asked = settings.segment_optimizer_config.dense_vector@;
    let wants = asked.contains_key(vectors.name@) && asked[vectors.name@].quantization_config
        is Some;
    &&& segment.max_available_vectors_size_in_bytes matches Ok(size)
    &&& crate::mismatch_laws::is_as_large(size, settings.thresholds_config.indexing_threshold_kb)
    &&& !(vectors.config.index is Plain)
    &&& (vectors.config.quantization_config is Some) != wants
}

/// An optimizer has the settings that it is made with.
pub proof fn law_optimizer_keeps_its_settings<Quant: Copy, Details: Copy, Global>(
    thresholds: OptimizerThresholds,
    segments_path: String,
    temp_path: String,
    segment_config: SegmentOptimizerConfig<Quant, Details>,
    global_hnsw_config: HnswConfig,
    hnsw_global_config: Global,
    optimizer: ConfigMismatchOptimizer<Quant, Details, Global>,
)
    requires
        call_ensures(
            ConfigMismatchOptimizer::<Quant, Details, Global>::new,
            (
                thresholds,
                segments_path,
                temp_path,
                segment_config,
                global_hnsw_config,
                hnsw_global_config,
            ),
            optimizer,
        ),
    ensures
        optimizer@.thresholds_config.indexing_threshold_kb == thresholds.indexing_threshold_kb,
        optimizer@.thresholds_config.memmap_threshold_kb == thresholds.memmap_threshold_kb,
        optimizer@.segments_path == segments_path@,
        optimizer@.temp_path == temp_path@,
        optimizer@.segment_optimizer_config == segment_config,
        optimizer@.global_hnsw_config == global_hnsw_config,
        optimizer@.hnsw_global_config == hnsw_global_config,
{
}

/// The plan of a collection has each segment with a mismatch by itself, larger ones first.
pub proof fn law_mismatches_are_planned<
    Quant,
    Details,
    Global,
    Policy,
    Resolve,
    HnswDiff,
    MirageDiff,
    QuantDiff,
    Appendable,
>(
    optimizer: &ConfigMismatchOptimizer<Quant, Details, Global>,
    remaining: &Vec<RemainingSegment<Quant, Details>>,
    rules: &RebuildRules<Policy, Resolve, HnswDiff, MirageDiff, QuantDiff, Appendable>,
    plan: Vec<Vec<SegmentId>>,
) -> (found: (Seq<bool>, Seq<SizedSegment>)) where
    Quant: Copy,
    Details: Copy,
    Policy: Fn(
        VectorDataConfig<Quant, Details>,
        DenseVectorOptimizerConfig<Quant>,
        bool,
        bool,
    ) -> VectorDataConfig<Quant, Details>,
    Resolve: Fn(
        VectorDataConfig<Quant, Details>,
        DenseVectorOptimizerConfig<Quant>,
        bool,
        bool,
    ) -> Indexes,
    HnswDiff: Fn(HnswConfig, HnswConfig) -> bool,
    MirageDiff: Fn(MirageConfig, MirageConfig) -> bool,
    QuantDiff: Fn(Quant, Quant) -> bool,
    Appendable: Fn(Quant) -> bool,

    requires
        call_ensures(
            ConfigMismatchOptimizer::<Quant, Details, Global>::plan_optimizations::<
                Policy,
                Resolve,
                HnswDiff,
                MirageDiff,
                QuantDiff,
                Appendable,
            >,
            (optimizer, remaining, rules),
            plan,
        ),
    ensures
        found.0.len() == remaining@.len(),
        forall|i: int|
            0 <= i < remaining@.len() ==> crate::config_mismatch_optimizer::segment_verdict(
                *rules,
                optimizer@,
                (#[trigger] remaining@[i]).info,
                found.0[i],
            ),
        plan@.len() == found.1.len(),
        forall|i: int| 0 <= i < plan@.len() ==> (#[trigger] plan@[i])@ == seq![found.1[i].id],
        forall|i: int, j: int|
            0 <= i < j < found.1.len() ==> found.1[i].size >= found.1[j].size,
        found.1.to_multiset() == crate::mismatch_laws::to_rebuild(
            remaining@,
            found.0,
        ).to_multiset(),
{
    let verdicts = choose|verdicts: Seq<bool>|
        {
            &&& #[trigger] crate::config_mismatch_optimizer::verdicts_on(
                *rules,
                optimizer@,
                remaining@,
                verdicts,
            )
            &&& crate::config_mismatch_optimizer::plan_for(remaining@, verdicts, plan@)
        };
    let order = crate::mismatch_laws::law_plan_has_the_largest_first(
        remaining@,
        verdicts,
        plan@,
    );
    (verdicts, order)
}

} // verus!
