//! What a plan of a main graph tells a graph builder.

use vstd::prelude::*;
use crate::candidate::{PointOffsetType, ScoredPointOffset};
use crate::config::MirageGraphConfig;
use crate::faiss_random::LevelTable;
use crate::main_graph::{InjectionView, MainGraph, StepView};
use crate::mirage::MirageIndex;
use crate::score::Score;

verus! {

// ---------------------------------------------------------------------------
// Injections
// ---------------------------------------------------------------------------

/// The points that `injections` are for.
pub open spec fn injected_points(injections: Seq<InjectionView>) -> Seq<PointOffsetType> {
    injections.map_values(|injection: InjectionView| injection.point)
}

/// Every live point with neighbors is injected, each once and in order, and no other.
/// It gets the first of its neighbors: `s` of them, or all if there are no more.
pub proof fn law_first_neighbors_are_injected(
    points: Seq<PointOffsetType>,
    lists: Seq<Seq<ScoredPointOffset>>,
    s: nat,
)
    ensures
        injected_points(crate::main_graph::injections_of(points, lists, s)) == points.filter(
            |point: PointOffsetType| lists[point as int].len() > 0,
        ),
        forall|i: int|
            0 <= i < crate::main_graph::injections_of(points, lists, s).len() ==> {
                let injection = #[trigger] crate::main_graph::injections_of(points, lists, s)[i];
                let list = lists[injection.point as int];
                &&& injection.candidates.is_prefix_of(list)
                &&& injection.candidates.len() <= s
                &&& injection.candidates.len() == s || injection.candidates.len() == list.len()
            },
    decreases points.len(),
{
    reveal(Seq::filter);
    let listed = |point: PointOffsetType| lists[point as int].len() > 0;
    let all = crate::main_graph::injections_of(points, lists, s);
    if points.len() == 0 {
        assert(injected_points(all) =~= points.filter(listed));
    } else {
        let earlier = points.drop_last();
        let before = crate::main_graph::injections_of(earlier, lists, s);
        law_first_neighbors_are_injected(earlier, lists, s);
        assert(injected_points(all) =~= points.filter(listed));
        assert forall|i: int| 0 <= i < all.len() implies {
            let injection = #[trigger] all[i];
            let list = lists[injection.point as int];
            &&& injection.candidates.is_prefix_of(list)
            &&& injection.candidates.len() <= s
            &&& injection.candidates.len() == s || injection.candidates.len() == list.len()
        } by {
            if i < before.len() {
                assert(all[i] == before[i]);
            }
        }
    }
}

// ---------------------------------------------------------------------------
// Levels
// ---------------------------------------------------------------------------

/// The places below `count`, in order.
pub open spec fn places(count: nat) -> Seq<int> {
    Seq::new(count, |k: int| k)
}

/// The bucket of a level holds the points of that level, in the order of the points.
pub proof fn law_bucket_holds_its_level(
    points: Seq<PointOffsetType>,
    levels: Seq<usize>,
    level: nat,
)
    requires
        points.len() == levels.len(),
    ensures
        crate::main_graph::bucket(points, levels, level) == places(points.len()).filter(
            |k: int| levels[k] == level,
        ).map_values(|k: int| points[k]),
    decreases points.len(),
{
    reveal(Seq::filter);
    let at_level = |k: int| levels[k] == level;
    let point_at = |k: int| points[k];
    let all = places(points.len());
    if points.len() == 0 {
        assert(all.filter(at_level).map_values(point_at) =~= points);
    } else {
        let fewer = points.drop_last();
        let lower = levels.drop_last();
        let earlier = places(fewer.len());
        law_bucket_holds_its_level(fewer, lower, level);
        assert(all.drop_last() =~= earlier);
        lemma_filter_alike(earlier, |k: int| lower[k] == level, at_level);
        let picked = earlier.filter(at_level);
        assert forall|i: int| 0 <= i < picked.len() implies 0 <= #[trigger] picked[i]
            < fewer.len() by {
            assert(picked.contains(picked[i]));
            earlier.lemma_filter_contains_rev(at_level, picked[i]);
        }
        assert(picked.map_values(|k: int| fewer[k]) =~= picked.map_values(point_at));
        if levels.last() == level {
            assert(all.filter(at_level) == picked.push(points.len() - 1));
            assert(all.filter(at_level).map_values(point_at) =~= picked.map_values(point_at).push(
                points.last(),
            ));
        }
    }
}

/// Conditions that agree on the items of a sequence select the same.
pub proof fn lemma_filter_alike(items: Seq<int>, one: spec_fn(int) -> bool, two: spec_fn(int) -> bool)
    requires
        forall|i: int| 0 <= i < items.len() ==> one(#[trigger] items[i]) == two(items[i]),
    ensures
        items.filter(one) == items.filter(two),
    decreases items.len(),
{
    reveal(Seq::filter);
    if items.len() > 0 {
        let shorter = items.drop_last();
        assert forall|i: int| 0 <= i < shorter.len() implies one(#[trigger] shorter[i]) == two(
            shorter[i],
        ) by {
            assert(items[i] == shorter[i]);
        }
        lemma_filter_alike(shorter, one, two);
        assert(one(items[items.len() - 1]) == two(items[items.len() - 1]));
    }
}

/// How many of `levels` are above `level`.
pub open spec fn above(levels: Seq<usize>, level: nat) -> nat {
    levels.filter(|other: usize| other > level).len()
}

/// How many of `levels` are `level`.
proof fn lemma_bucket_len(points: Seq<PointOffsetType>, levels: Seq<usize>, level: nat)
    requires
        points.len() == levels.len(),
    ensures
        above(levels, level) == above(levels, level + 1) + crate::main_graph::bucket(
            points,
            levels,
            level + 1,
        ).len(),
    decreases points.len(),
{
    reveal(Seq::filter);
    if points.len() > 0 {
        lemma_bucket_len(points.drop_last(), levels.drop_last(), level);
    }
}

/// There are levels up to the highest that a point has, and no more.
pub proof fn law_levels_end_at_the_highest(levels: Seq<usize>)
    ensures
        forall|k: int|
            0 <= k < levels.len() ==> (#[trigger] levels[k]) < crate::main_graph::level_count(
                levels,
            ),
        crate::main_graph::level_count(levels) == 1 || exists|k: int|
            0 <= k < levels.len() && (#[trigger] levels[k]) + 1 == crate::main_graph::level_count(
                levels,
            ),
    decreases levels.len(),
{
    if levels.len() > 0 {
        let lower = levels.drop_last();
        law_levels_end_at_the_highest(lower);
        let count = crate::main_graph::level_count(levels);
        assert forall|k: int| 0 <= k < levels.len() implies (#[trigger] levels[k]) < count by {
            if k < lower.len() {
                assert(lower[k] == levels[k]);
            }
        }
        if crate::main_graph::level_count(lower) <= levels.last() {
            assert(levels[levels.len() - 1] + 1 == count);
        } else if count != 1 {
            let k = choose|k: int| 0 <= k < lower.len() && (#[trigger] lower[k]) + 1 == count;
            assert(levels[k] + 1 == count);
        }
    }
}

proof fn lemma_none_above(levels: Seq<usize>, level: nat)
    requires
        forall|k: int| 0 <= k < levels.len() ==> (#[trigger] levels[k]) <= level,
    ensures
        above(levels, level) == 0,
    decreases levels.len(),
{
    reveal(Seq::filter);
    if levels.len() > 0 {
        let lower = levels.drop_last();
        assert forall|k: int| 0 <= k < lower.len() implies (#[trigger] lower[k]) <= level by {
            assert(lower[k] == levels[k]);
        }
        lemma_none_above(lower, level);
        assert(levels[levels.len() - 1] <= level);
    }
}

proof fn lemma_points_above_count(
    points: Seq<PointOffsetType>,
    levels: Seq<usize>,
    level: nat,
)
    requires
        points.len() == levels.len(),
    ensures
        crate::main_graph::points_above(points, levels, level) == above(levels, level),
    decreases crate::main_graph::level_count(levels) - level,
{
    law_levels_end_at_the_highest(levels);
    if level + 1 >= crate::main_graph::level_count(levels) {
        lemma_none_above(levels, level);
    } else {
        lemma_points_above_count(points, levels, level + 1);
        lemma_bucket_len(points, levels, level);
    }
}

/// The points of a level are put in order by a shuffle. All shuffles draw from one
/// sequence, the highest level first, so that the draws of a level follow one for each
/// point above it. Where that leaves no choice the order is that of the points.
pub proof fn law_link_order_is_a_shuffle(
    points: Seq<PointOffsetType>,
    levels: Seq<usize>,
    level: nat,
)
    requires
        points.len() == levels.len(),
    ensures
        ({
            let members = crate::main_graph::bucket(points, levels, level);
            &&& crate::main_graph::link_order(points, levels, level)
                == crate::faiss_random::shuffled(
                members,
                |k: nat| crate::faiss_random::mt19937_output(789, above(levels, level) + k),
                members.len(),
            )
            &&& crate::main_graph::link_order(points, levels, level).to_multiset()
                == members.to_multiset()
            &&& members.len() == 1 ==> crate::main_graph::link_order(points, levels, level)
                == members
        }),
{
    let members = crate::main_graph::bucket(points, levels, level);
    let draw = |k: nat| crate::faiss_random::mt19937_output(789, above(levels, level) + k);
    lemma_points_above_count(points, levels, level);
    assert(crate::main_graph::level_draw(points, levels, level) =~= draw);
    crate::faiss_random::law_shuffle_rearranges(members, draw, members.len());
    if members.len() == 1 {
        crate::random_laws::law_shuffle_draws_from_the_rest(members, draw, 1);
        let rest = members.update(0, members[0]).skip(1);
        let later = |k: nat| draw(k + 1);
        assert(crate::faiss_random::shuffled(rest, later, 0) == rest);
        assert(crate::main_graph::link_order(points, levels, level) =~= members);
    }
}

// ---------------------------------------------------------------------------
// Steps
// ---------------------------------------------------------------------------

/// The points that `steps` link into upper layers, in order.
pub open spec fn linked(steps: Seq<StepView>) -> Seq<PointOffsetType>
    decreases steps.len(),
{
    if steps.len() == 0 {
        Seq::empty()
    } else {
        linked(steps.drop_last()) + match steps.last() {
            StepView::LinkUpper { points, .. } => points,
            _ => Seq::empty(),
        }
    }
}

/// The points from `level` down to 1: those of each level after all of higher ones.
pub open spec fn highest_first(
    points: Seq<PointOffsetType>,
    levels: Seq<usize>,
    level: nat,
) -> Seq<PointOffsetType>
    decreases level,
{
    if level == 0 {
        Seq::empty()
    } else {
        crate::main_graph::link_order(points, levels, level) + highest_first(
            points,
            levels,
            (level - 1) as nat,
        )
    }
}

proof fn lemma_linked_concat(one: Seq<StepView>, two: Seq<StepView>)
    ensures
        linked(one + two) == linked(one) + linked(two),
    decreases two.len(),
{
    if two.len() == 0 {
        assert(one + two =~= one);
        assert(linked(one) + linked(two) =~= linked(one));
    } else {
        lemma_linked_concat(one, two.drop_last());
        assert((one + two).drop_last() =~= one + two.drop_last());
        assert(linked(one + two) =~= linked(one) + linked(two));
    }
}

/// Whether a step links points into upper layers.
pub open spec fn is_link(step: StepView) -> bool {
    step is LinkUpper
}

/// Whether a step that may go on in parallel does so exactly for more than a hundred
/// points.
pub open spec fn parallel_for_many(step: StepView) -> bool {
    match step {
        StepView::LinkUpper { points, parallel } => parallel == (points.len() > 100),
        StepView::MarkReady { points, parallel } => parallel == (points.len() > 100),
        StepView::MarkEntryPoint { .. } => true,
    }
}

proof fn lemma_upper_steps(points: Seq<PointOffsetType>, levels: Seq<usize>, level: nat)
    requires
        points.len() == levels.len(),
    ensures
        linked(crate::main_graph::upper_steps(points, levels, level)) == highest_first(
            points,
            levels,
            level,
        ),
        forall|i: int|
            0 <= i < crate::main_graph::upper_steps(points, levels, level).len() ==> {
                let step = #[trigger] crate::main_graph::upper_steps(points, levels, level)[i];
                is_link(step) && parallel_for_many(step)
            },
    decreases level,
{
    if level > 0 {
        lemma_upper_steps(points, levels, (level - 1) as nat);
        let own = crate::main_graph::level_steps(points, levels, level);
        let rest = crate::main_graph::upper_steps(points, levels, (level - 1) as nat);
        let all = crate::main_graph::upper_steps(points, levels, level);
        let order = crate::main_graph::link_order(points, levels, level);
        let members = crate::main_graph::bucket(points, levels, level);
        crate::faiss_random::law_shuffle_rearranges(
            members,
            crate::main_graph::level_draw(points, levels, level),
            members.len(),
        );
        lemma_linked_concat(own, rest);
        reveal_with_fuel(linked, 3);
        if members.len() == 0 {
            assert(order =~= Seq::<PointOffsetType>::empty());
            assert(linked(own) =~= order);
        } else if crate::main_graph::points_above(points, levels, level) > 0 {
            assert(own.drop_last() =~= Seq::<StepView>::empty());
            assert(linked(own) =~= order);
        } else {
            assert(own.drop_last().drop_last() =~= Seq::<StepView>::empty());
            assert(own.drop_last().last() == crate::main_graph::link_step(order.take(1)));
            assert(linked(own) =~= order);
        }
        assert forall|i: int| 0 <= i < all.len() implies {
            let step = #[trigger] all[i];
            is_link(step) && parallel_for_many(step)
        } by {
            if i < own.len() {
                assert(all[i] == own[i]);
            } else {
                assert(all[i] == rest[i - own.len()]);
            }
        }
    }
}

/// The points that reach upper layers are linked there level by level, the highest first,
/// each level in its own order. Only then the points of level 0 are marked ready, in
/// their order. Points are handled in parallel exactly if they are more than a hundred.
pub proof fn law_upper_points_come_first(points: Seq<PointOffsetType>, levels: Seq<usize>)
    requires
        points.len() == levels.len(),
        exists|k: int| 0 <= k < levels.len() && #[trigger] levels[k] > 0,
    ensures
        ({
            let steps = crate::main_graph::steps_of(points, levels);
            let base = crate::main_graph::bucket(points, levels, 0);
            let top = (crate::main_graph::level_count(levels) - 1) as nat;
            &&& steps.len() > 0
            &&& linked(steps) == highest_first(points, levels, top)
            &&& forall|i: int| 0 <= i < steps.len() - 1 ==> is_link(#[trigger] steps[i])
            &&& forall|i: int| 0 <= i < steps.len() ==> parallel_for_many(#[trigger] steps[i])
            &&& steps.last() matches StepView::MarkReady { points: ready, .. } && ready == base
        }),
{
    let steps = crate::main_graph::steps_of(points, levels);
    let base = crate::main_graph::bucket(points, levels, 0);
    let top = (crate::main_graph::level_count(levels) - 1) as nat;
    let upper = crate::main_graph::upper_steps(points, levels, top);
    law_levels_end_at_the_highest(levels);
    lemma_upper_steps(points, levels, top);
    lemma_points_above_count(points, levels, 0);
    let k = choose|k: int| 0 <= k < levels.len() && #[trigger] levels[k] > 0;
    let is_upper = |other: usize| other > 0;
    levels.lemma_filter_contains(is_upper, k);
    assert(levels.filter(is_upper).len() > 0);
    assert(levels.filter(is_upper) == levels.filter(|other: usize| other > 0nat)) by {
        assert(is_upper =~= (|other: usize| other > 0nat));
    }
    let last = seq![crate::main_graph::ready_step(base)];
    assert(crate::main_graph::base_steps(points, levels) == last);
    lemma_linked_concat(upper, last);
    reveal_with_fuel(linked, 2);
    assert(last.drop_last() =~= Seq::<StepView>::empty());
    assert(linked(last) =~= Seq::<PointOffsetType>::empty());
    assert(linked(steps) =~= highest_first(points, levels, top));
    assert forall|i: int| 0 <= i < steps.len() - 1 implies is_link(#[trigger] steps[i]) by {
        assert(steps[i] == upper[i]);
    }
    assert forall|i: int| 0 <= i < steps.len() implies parallel_for_many(#[trigger] steps[i]) by {
        if i < upper.len() {
            assert(steps[i] == upper[i]);
        }
    }
}

/// Where no point reaches an upper layer, there are two steps: the first point is marked
/// as the entry point, and the others are marked ready, in parallel if they are more than
/// a hundred.
pub proof fn law_base_points_need_two_steps(points: Seq<PointOffsetType>, levels: Seq<usize>)
    requires
        points.len() == levels.len(),
        points.len() > 0,
        forall|k: int| 0 <= k < levels.len() ==> #[trigger] levels[k] == 0,
    ensures
        crate::main_graph::steps_of(points, levels).len() == 2,
        crate::main_graph::steps_of(points, levels)[0] == (StepView::MarkEntryPoint {
            point: points[0],
        }),
        crate::main_graph::steps_of(points, levels)[1] == (StepView::MarkReady {
            points: points.skip(1),
            parallel: points.len() > 101,
        }),
{
    crate::main_graph_laws::law_single_entry_point(points, levels);
}

// ---------------------------------------------------------------------------
// The whole plan
// ---------------------------------------------------------------------------

/// A graph keeps ten entry points for every full scan threshold of vectors that it has
/// in full, or the greatest number where that does not fit, and at least one.
pub proof fn law_ten_entry_points_for_each_threshold(total: usize, threshold: usize) -> (full: int)
    requires
        threshold > 0,
    ensures
        full * threshold <= total < (full + 1) * threshold,
        crate::main_graph::entry_points_of(total, threshold) == if full == 0 {
            1
        } else if 10 * full > usize::MAX {
            usize::MAX as int
        } else {
            10 * full
        },
        crate::main_graph::entry_points_of(total, 0) == crate::main_graph::entry_points_of(
            total,
            1,
        ),
{
    let full = total as int / threshold as int;
    vstd::arithmetic::div_mod::lemma_fundamental_div_mod(total as int, threshold as int);
    assert(threshold * full == full * threshold) by (nonlinear_arith);
    assert((full + 1) * threshold == full * threshold + threshold) by (nonlinear_arith);
    full
}

/// What assembling a main graph comes to. The builder is made for all vectors with the
/// links and the thoroughness of the config, and selects neighbors by the heuristic. The
/// points are those that are given, the `k`-th with the level that the `k`-th value of
/// the level seed leads to. The steps are those of the points and levels, and every point
/// with neighbors is injected the first of them.
pub proof fn law_assembled_graph(
    config: &MirageGraphConfig,
    total: usize,
    points: Vec<PointOffsetType>,
    table: &LevelTable,
    layer0: &Vec<Vec<ScoredPointOffset>>,
    graph: MainGraph,
)
    requires
        table.for_links() == crate::faiss_random::level_links(config.m),
        forall|k: int| 0 <= k < points@.len() ==> #[trigger] points@[k] < layer0@.len(),
        call_ensures(
            MirageIndex::assemble_main_graph,
            (config, total, points, table, layer0),
            graph,
        ),
    ensures
        graph.builder.num_vectors == total,
        graph.builder.hnsw_m.m == config.m,
        graph.builder.hnsw_m.m0 == config.m0,
        graph.builder.ef_construct == config.ef_construct,
        graph.builder.use_heuristic,
        graph.builder.entry_points_num == crate::main_graph::entry_points_of(total, config.full_scan_threshold),
        config.full_scan_threshold > 0 && total < config.full_scan_threshold
            ==> graph.builder.entry_points_num == 1,
        graph.points@ == points@,
        graph.levels@.len() == points@.len(),
        forall|k: int|
            0 <= k < points@.len() ==> #[trigger] graph.levels@[k]
                == crate::faiss_random::level_from(
                table@,
                0,
                crate::faiss_random::draw_units(
                    crate::faiss_random::mt19937_output(12345, k as nat),
                ),
            ),
        crate::main_graph::step_views(graph.steps@) == crate::main_graph::steps_of(
            points@,
            graph.levels@,
        ),
        injected_points(crate::main_graph::injection_views(graph.injections@)) == points@.filter(
            |point: PointOffsetType| layer0@[point as int]@.len() > 0,
        ),
        forall|i: int|
            0 <= i < graph.injections@.len() ==> {
                let injection = #[trigger] graph.injections@[i];
                let list = layer0@[injection.point as int]@;
                &&& injection.candidates@.is_prefix_of(list)
                &&& injection.candidates@.len() <= config.s
                &&& injection.candidates@.len() == config.s || injection.candidates@.len()
                    == list.len()
            },
{
    let lists = crate::refinement_builder::lists_of(layer0@);
    let views = crate::main_graph::injection_views(graph.injections@);
    law_first_neighbors_are_injected(points@, lists, config.s as nat);
    if config.full_scan_threshold > 0 && total < config.full_scan_threshold {
        let full = law_ten_entry_points_for_each_threshold(total, config.full_scan_threshold);
        let threshold = config.full_scan_threshold as int;
        assert(full == 0) by (nonlinear_arith)
            requires
                full * threshold <= total,
                total < (full + 1) * threshold,
                total < threshold,
                threshold > 0,
                total >= 0,
        ;
    }
    let by_list = |point: PointOffsetType| lists[point as int].len() > 0;
    let by_vec = |point: PointOffsetType| layer0@[point as int]@.len() > 0;
    lemma_listed_alike(points@, lists, layer0@);
    assert forall|i: int| 0 <= i < graph.injections@.len() implies {
        let injection = #[trigger] graph.injections@[i];
        let list = layer0@[injection.point as int]@;
        &&& injection.candidates@.is_prefix_of(list)
        &&& injection.candidates@.len() <= config.s
        &&& injection.candidates@.len() == config.s || injection.candidates@.len() == list.len()
    } by {
        let injection = graph.injections@[i];
        assert(views[i] == injection@);
        assert(injected_points(views)[i] == injection.point);
        assert(points@.filter(by_list).contains(injection.point));
        points@.lemma_filter_contains_rev(by_list, injection.point);
        let k = choose|k: int| 0 <= k < points@.len() && points@[k] == injection.point;
        assert(points@[k] < layer0@.len());
        assert(lists[injection.point as int] == layer0@[injection.point as int]@);
    }
}

proof fn lemma_listed_alike(
    points: Seq<PointOffsetType>,
    lists: Seq<Seq<ScoredPointOffset>>,
    layer0: Seq<Vec<ScoredPointOffset>>,
)
    requires
        lists == crate::refinement_builder::lists_of(layer0),
        forall|k: int| 0 <= k < points.len() ==> #[trigger] points[k] < layer0.len(),
    ensures
        points.filter(|point: PointOffsetType| lists[point as int].len() > 0) == points.filter(
            |point: PointOffsetType| layer0[point as int]@.len() > 0,
        ),
    decreases points.len(),
{
    reveal(Seq::filter);
    if points.len() > 0 {
        let fewer = points.drop_last();
        assert forall|k: int| 0 <= k < fewer.len() implies #[trigger] fewer[k] < layer0.len() by {
            assert(points[k] == fewer[k]);
        }
        lemma_listed_alike(fewer, lists, layer0);
        let last = points[points.len() - 1];
        assert(last < layer0.len());
        assert(lists[last as int] == layer0[last as int]@);
    }
}

/// The layer 0 of a main graph is refined for its points alone, with the parameters of
/// the config and the seed of the refinement, and what is injected comes from it.
pub proof fn law_layer0_is_refined_for_the_points(
    graph: MainGraph,
    config: MirageGraphConfig,
    total: usize,
    points: Seq<PointOffsetType>,
    table: Seq<u64>,
    num_threads: nat,
    score: spec_fn(PointOffsetType, PointOffsetType) -> Score,
) -> (found: (Seq<bool>, Seq<Seq<ScoredPointOffset>>))
    requires
        points.len() > 0,
        crate::main_graph::may_be_main_graph(
            graph,
            config,
            total,
            points,
            table,
            num_threads,
            score,
        ),
    ensures
        found.0.len() == total,
        forall|p: int|
            0 <= p < total ==> (#[trigger] found.0[p] <==> points.contains(p as PointOffsetType)),
        crate::layer0_model::layer0_of(
            found.0,
            config.s as nat,
            config.r as nat,
            config.iter as nat,
            config.num_reverse_edges as nat,
            2021,
            num_threads,
            score,
            found.1,
        ),
        injected_points(crate::main_graph::injection_views(graph.injections@)) == points.filter(
            |point: PointOffsetType| found.1[point as int].len() > 0,
        ),
{
    let lists = choose|lists: Seq<Seq<ScoredPointOffset>>|
        {
            &&& #[trigger] crate::main_graph::is_main_graph(
                graph,
                config,
                total,
                points,
                table,
                lists,
            )
            &&& crate::main_graph::is_layer0_for(lists, config, total, points, num_threads, score)
        };
    law_first_neighbors_are_injected(points, lists, config.s as nat);
    (crate::main_graph::membership(total as nat, points), lists)
}

/// The parameters of the refinement are those of the config, with a seed of their own.
pub proof fn law_refinement_follows_the_config(config: MirageGraphConfig)
    ensures
        crate::main_graph::params_of(config).s == config.s,
        crate::main_graph::params_of(config).r == config.r,
        crate::main_graph::params_of(config).iter == config.iter,
        crate::main_graph::params_of(config).num_reverse_edges == config.num_reverse_edges,
        crate::main_graph::params_of(config).seed == 2021,
{
}

} // verus!
