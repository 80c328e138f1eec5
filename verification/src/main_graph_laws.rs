//! What holds of the steps that build a main graph.

use vstd::prelude::*;
use vstd::multiset::Multiset;
use crate::candidate::{PointOffsetType, ScoredPointOffset};
use crate::config::MirageGraphConfig;
use crate::faiss_random::LevelTable;
use crate::main_graph::{MainGraph, StepView, LEVEL_SEED, REFINEMENT_SEED};
use crate::score::Score;

verus! {

/// The points that a step handles.
pub open spec fn points_of(step: StepView) -> Seq<PointOffsetType> {
    match step {
        StepView::LinkUpper { points, .. } => points,
        StepView::MarkEntryPoint { point } => seq![point],
        StepView::MarkReady { points, .. } => points,
    }
}

/// The points that steps handle, each as often as it is handled.
pub open spec fn handled(steps: Seq<StepView>) -> Multiset<PointOffsetType>
    decreases steps.len(),
{
    if steps.len() == 0 {
        Multiset::empty()
    } else {
        handled(steps.drop_last()).add(points_of(steps.last()).to_multiset())
    }
}

/// The points of the levels up to `level`.
pub open spec fn up_to_level(
    points: Seq<PointOffsetType>,
    levels: Seq<usize>,
    level: nat,
) -> Multiset<PointOffsetType>
    decreases level,
{
    let own = crate::main_graph::bucket(points, levels, level).to_multiset();
    if level == 0 {
        own
    } else {
        up_to_level(points, levels, (level - 1) as nat).add(own)
    }
}

/// Steps in a row handle what each handles.
proof fn lemma_handled_concat(one: Seq<StepView>, two: Seq<StepView>)
    ensures
        handled(one + two) == handled(one).add(handled(two)),
    decreases two.len(),
{
    if two.len() == 0 {
        assert(one + two =~= one);
        assert(handled(one).add(handled(two)) =~= handled(one));
    } else {
        assert((one + two).drop_last() =~= one + two.drop_last());
        lemma_handled_concat(one, two.drop_last());
        assert(handled(one + two) =~= handled(one).add(handled(two)));
    }
}

/// One step handles its points.
proof fn lemma_handled_one(step: StepView)
    ensures
        handled(seq![step]) == points_of(step).to_multiset(),
{
    let none = seq![step].drop_last();
    assert(handled(none) == Multiset::<PointOffsetType>::empty());
    assert(handled(seq![step]) =~= points_of(step).to_multiset());
}

/// Two steps handle the points of both.
proof fn lemma_handled_two(one: StepView, two: StepView)
    ensures
        handled(seq![one, two]) == (points_of(one) + points_of(two)).to_multiset(),
{
    vstd::seq_lib::lemma_multiset_commutative(points_of(one), points_of(two));
    lemma_handled_one(one);
    assert(seq![one, two].drop_last() =~= seq![one]);
}

/// The steps of an upper level handle its points.
proof fn lemma_level_handled(points: Seq<PointOffsetType>, levels: Seq<usize>, level: nat)
    ensures
        handled(crate::main_graph::level_steps(points, levels, level)) == crate::main_graph::bucket(
            points,
            levels,
            level,
        ).to_multiset(),
{
    let unordered = crate::main_graph::bucket(points, levels, level);
    let order = crate::main_graph::link_order(points, levels, level);
    crate::faiss_random::law_shuffle_rearranges(
        unordered,
        crate::main_graph::level_draw(points, levels, level),
        unordered.len(),
    );
    if unordered.len() == 0 {
        broadcast use vstd::seq_lib::group_to_multiset_ensures;

        assert(unordered.to_multiset() =~= Multiset::empty());
    } else if crate::main_graph::points_above(points, levels, level) > 0 {
        lemma_handled_one(crate::main_graph::link_step(order));
    } else {
        lemma_handled_two(
            crate::main_graph::link_step(order.take(1)),
            crate::main_graph::link_step(order.skip(1)),
        );
        assert(order.take(1) + order.skip(1) =~= order);
    }
}

/// The steps of the upper levels and those of level 0 handle the points of the
/// levels up to the highest of them.
proof fn lemma_levels_handled(points: Seq<PointOffsetType>, levels: Seq<usize>, level: nat)
    ensures
        handled(crate::main_graph::upper_steps(points, levels, level)).add(
            crate::main_graph::bucket(points, levels, 0).to_multiset(),
        ) == up_to_level(points, levels, level),
    decreases level,
{
    let base = crate::main_graph::bucket(points, levels, 0).to_multiset();
    let steps = crate::main_graph::upper_steps(points, levels, level);
    if level == 0 {
        assert(handled(steps).add(base) =~= base);
    } else {
        let rest = crate::main_graph::upper_steps(points, levels, (level - 1) as nat);
        let own = crate::main_graph::level_steps(points, levels, level);
        lemma_levels_handled(points, levels, (level - 1) as nat);
        lemma_level_handled(points, levels, level);
        lemma_handled_concat(own, rest);
        assert(handled(steps).add(base) =~= handled(rest).add(base).add(handled(own)));
    }
}

/// A point belongs to the levels from its own up.
proof fn lemma_up_to_level_push(points: Seq<PointOffsetType>, levels: Seq<usize>, level: nat)
    requires
        points.len() == levels.len(),
        points.len() > 0,
    ensures
        up_to_level(points, levels, level) == if levels.last() <= level {
            up_to_level(points.drop_last(), levels.drop_last(), level).insert(points.last())
        } else {
            up_to_level(points.drop_last(), levels.drop_last(), level)
        },
    decreases level,
{
    broadcast use vstd::seq_lib::group_to_multiset_ensures;

    let fewer = points.drop_last();
    let lower = levels.drop_last();
    if level > 0 {
        lemma_up_to_level_push(points, levels, (level - 1) as nat);
    }
    let own = crate::main_graph::bucket(points, levels, level);
    let before = crate::main_graph::bucket(fewer, lower, level);
    if levels.last() == level {
        assert(own == before.push(points.last()));
        assert(own.to_multiset() =~= before.to_multiset().insert(points.last()));
    }
    assert(up_to_level(points, levels, level) =~= if levels.last() <= level {
        up_to_level(fewer, lower, level).insert(points.last())
    } else {
        up_to_level(fewer, lower, level)
    });
}

/// All points belong to the levels up to the highest.
proof fn lemma_all_levels(points: Seq<PointOffsetType>, levels: Seq<usize>, level: nat)
    requires
        points.len() == levels.len(),
        crate::main_graph::level_count(levels) <= level + 1,
    ensures
        up_to_level(points, levels, level) == points.to_multiset(),
    decreases points.len(),
{
    broadcast use vstd::seq_lib::group_to_multiset_ensures;

    if points.len() == 0 {
        lemma_no_points(points, levels, level);
        assert(points.to_multiset() =~= Multiset::empty());
    } else {
        lemma_up_to_level_push(points, levels, level);
        lemma_all_levels(points.drop_last(), levels.drop_last(), level);
        assert(points =~= points.drop_last().push(points.last()));
        assert(points.to_multiset() =~= points.drop_last().to_multiset().insert(points.last()));
    }
}

/// No points belong to no level.
proof fn lemma_no_points(points: Seq<PointOffsetType>, levels: Seq<usize>, level: nat)
    requires
        points.len() == 0,
    ensures
        up_to_level(points, levels, level) == Multiset::<PointOffsetType>::empty(),
    decreases level,
{
    broadcast use vstd::seq_lib::group_to_multiset_ensures;

    if level > 0 {
        lemma_no_points(points, levels, (level - 1) as nat);
    }
    assert(points.to_multiset() =~= Multiset::empty());
    assert(up_to_level(points, levels, level) =~= Multiset::empty());
}

/// The steps handle every live point, and each once.
pub proof fn law_every_point_is_handled_once(points: Seq<PointOffsetType>, levels: Seq<usize>)
    requires
        points.len() == levels.len(),
    ensures
        handled(crate::main_graph::steps_of(points, levels)) == points.to_multiset(),
{
    let top = (crate::main_graph::level_count(levels) - 1) as nat;
    let base = crate::main_graph::bucket(points, levels, 0);
    let base_steps = crate::main_graph::base_steps(points, levels);
    lemma_levels_handled(points, levels, top);
    lemma_handled_concat(crate::main_graph::upper_steps(points, levels, top), base_steps);
    lemma_all_levels(points, levels, top);
    if crate::main_graph::points_above(points, levels, 0) > 0 {
        lemma_handled_one(crate::main_graph::ready_step(base));
    } else if base.len() > 0 {
        let first = StepView::MarkEntryPoint { point: base[0] };
        lemma_handled_two(first, crate::main_graph::ready_step(base.skip(1)));
        assert(seq![base[0]] + base.skip(1) =~= base);
    } else {
        broadcast use vstd::seq_lib::group_to_multiset_ensures;

        assert(base.to_multiset() =~= Multiset::empty());
    }
}

/// Where no point is above `level` but some point reaches an upper layer, the
/// first step from there down links a single point.
proof fn lemma_first_upper_step(points: Seq<PointOffsetType>, levels: Seq<usize>, level: nat)
    requires
        level < crate::main_graph::level_count(levels),
        crate::main_graph::points_above(points, levels, level) == 0,
        crate::main_graph::points_above(points, levels, 0) > 0,
    ensures
        crate::main_graph::upper_steps(points, levels, level).len() > 0,
        crate::main_graph::upper_steps(points, levels, level)[0] matches StepView::LinkUpper {
            points: first,
            parallel,
        } && first.len() == 1 && !parallel,
    decreases level,
{
    let own = crate::main_graph::bucket(points, levels, level);
    let order = crate::main_graph::link_order(points, levels, level);
    assert(level > 0);
    if own.len() == 0 {
        lemma_first_upper_step(points, levels, (level - 1) as nat);
        assert(crate::main_graph::upper_steps(points, levels, level)
            =~= crate::main_graph::upper_steps(points, levels, (level - 1) as nat));
    } else {
        crate::faiss_random::law_shuffle_rearranges(
            own,
            crate::main_graph::level_draw(points, levels, level),
            own.len(),
        );
        assert(crate::main_graph::upper_steps(points, levels, level)[0]
            == crate::main_graph::link_step(order.take(1)));
    }
}

/// Where no point reaches an upper layer, there are no steps for upper layers.
proof fn lemma_no_upper_steps(points: Seq<PointOffsetType>, levels: Seq<usize>, level: nat)
    requires
        level < crate::main_graph::level_count(levels),
        crate::main_graph::points_above(points, levels, 0) == 0,
    ensures
        crate::main_graph::upper_steps(points, levels, level).len() == 0,
        crate::main_graph::points_above(points, levels, level) == 0,
    decreases level,
{
    if level > 0 {
        lemma_no_upper_steps(points, levels, (level - 1) as nat);
    }
}

/// The points above a level are those not up to it.
proof fn lemma_points_above(points: Seq<PointOffsetType>, levels: Seq<usize>, level: nat)
    requires
        points.len() == levels.len(),
        level < crate::main_graph::level_count(levels),
    ensures
        up_to_level(points, levels, level).len() + crate::main_graph::points_above(
            points,
            levels,
            level,
        ) == points.len(),
    decreases crate::main_graph::level_count(levels) - level,
{
    broadcast use vstd::seq_lib::group_to_multiset_ensures;

    if level + 1 >= crate::main_graph::level_count(levels) {
        lemma_all_levels(points, levels, level);
    } else {
        lemma_points_above(points, levels, level + 1);
        let next = crate::main_graph::bucket(points, levels, level + 1);
        assert(up_to_level(points, levels, level + 1) == up_to_level(points, levels, level).add(
            next.to_multiset(),
        ));
    }
}

/// The points of level 0 are all points, in order, where there are as many.
proof fn lemma_whole_bucket(points: Seq<PointOffsetType>, levels: Seq<usize>, level: nat)
    requires
        points.len() == levels.len(),
    ensures
        crate::main_graph::bucket(points, levels, level).len() <= points.len(),
        crate::main_graph::bucket(points, levels, level).len() == points.len()
            ==> crate::main_graph::bucket(points, levels, level) == points,
    decreases points.len(),
{
    if points.len() > 0 {
        lemma_whole_bucket(points.drop_last(), levels.drop_last(), level);
        assert(points =~= points.drop_last().push(points.last()));
    }
}

/// The graph of live points gets an entry point before anything else: if some
/// point reaches an upper layer, one such point is linked alone first; otherwise
/// the first live point is marked as the entry point.
pub proof fn law_entry_point_comes_first(points: Seq<PointOffsetType>, levels: Seq<usize>)
    requires
        points.len() == levels.len(),
        points.len() > 0,
    ensures
        crate::main_graph::steps_of(points, levels).len() > 0,
        if exists|k: int| 0 <= k < levels.len() && #[trigger] levels[k] > 0 {
            crate::main_graph::steps_of(points, levels)[0] matches StepView::LinkUpper {
                points: first,
                parallel,
            } && first.len() == 1 && !parallel
        } else {
            crate::main_graph::steps_of(points, levels)[0] == (StepView::MarkEntryPoint {
                point: points[0],
            })
        },
{
    broadcast use vstd::seq_lib::group_to_multiset_ensures;

    let top = (crate::main_graph::level_count(levels) - 1) as nat;
    let base = crate::main_graph::bucket(points, levels, 0);
    lemma_level_count_covers(levels);
    lemma_points_above(points, levels, 0);
    lemma_base_len(points, levels);
    if crate::main_graph::points_above(points, levels, 0) > 0 {
        lemma_first_upper_step(points, levels, top);
    } else {
        lemma_no_upper_steps(points, levels, top);
        lemma_whole_bucket(points, levels, 0);
        assert(base == points);
    }
}

/// Every level is counted.
proof fn lemma_level_count_covers(levels: Seq<usize>)
    ensures
        crate::main_graph::level_count(levels) >= 1,
        forall|k: int|
            0 <= k < levels.len() ==> (#[trigger] levels[k]) < crate::main_graph::level_count(
                levels,
            ),
    decreases levels.len(),
{
    if levels.len() > 0 {
        let lower = levels.drop_last();
        lemma_level_count_covers(lower);
        assert forall|k: int| 0 <= k < levels.len() implies (#[trigger] levels[k])
            < crate::main_graph::level_count(levels) by {
            if k < lower.len() {
                assert(lower[k] == levels[k]);
            }
        }
    }
}

/// All points are at level 0 exactly if none is at a higher one.
proof fn lemma_base_len(points: Seq<PointOffsetType>, levels: Seq<usize>)
    requires
        points.len() == levels.len(),
    ensures
        (crate::main_graph::bucket(points, levels, 0).len() == points.len()) == !(exists|k: int|
            0 <= k < levels.len() && #[trigger] levels[k] > 0),
        crate::main_graph::bucket(points, levels, 0).len() <= points.len(),
    decreases points.len(),
{
    if points.len() > 0 {
        let lower = levels.drop_last();
        lemma_base_len(points.drop_last(), lower);
        if exists|k: int| 0 <= k < lower.len() && #[trigger] lower[k] > 0 {
            let k = choose|k: int| 0 <= k < lower.len() && #[trigger] lower[k] > 0;
            assert(levels[k] > 0);
        }
        if levels.last() > 0 {
            assert(levels[levels.len() - 1] > 0);
        }
        if exists|k: int| 0 <= k < levels.len() && #[trigger] levels[k] > 0 {
            let k = choose|k: int| 0 <= k < levels.len() && #[trigger] levels[k] > 0;
            if k < lower.len() {
                assert(lower[k] > 0);
            }
        }
    }
}

/// A point is injected at most its `s` closest neighbors, which are the first of
/// its list, and only a live point with neighbors is injected any.
pub proof fn law_injections_are_closest(
    points: Seq<PointOffsetType>,
    lists: Seq<Seq<ScoredPointOffset>>,
    s: nat,
    i: int,
)
    requires
        0 <= i < crate::main_graph::injections_of(points, lists, s).len(),
    ensures
        ({
            let injection = crate::main_graph::injections_of(points, lists, s)[i];
            let list = lists[injection.point as int];
            &&& points.contains(injection.point)
            &&& list.len() > 0
            &&& injection.candidates.len() <= s
            &&& injection.candidates.is_prefix_of(list)
        }),
    decreases points.len(),
{
    let before = crate::main_graph::injections_of(points.drop_last(), lists, s);
    let injection = crate::main_graph::injections_of(points, lists, s)[i];
    if i < before.len() {
        law_injections_are_closest(points.drop_last(), lists, s, i);
        let k = choose|k: int|
            0 <= k < points.drop_last().len() && points.drop_last()[k] == injection.point;
        assert(points[k] == injection.point);
    } else {
        assert(points[points.len() - 1] == injection.point);
        assert(injection.candidates.is_prefix_of(lists[injection.point as int]));
    }
}

/// The `k`-th live point has the level that the `k`-th value drawn from the level seed
/// leads to with the number of links of the graph.
pub proof fn law_levels_are_drawn_in_order(
    graph: MainGraph,
    config: MirageGraphConfig,
    total: usize,
    points: Seq<PointOffsetType>,
    table: LevelTable,
    lists: Seq<Seq<ScoredPointOffset>>,
    k: int,
)
    requires
        table.for_links() == crate::faiss_random::level_links(config.m),
        crate::main_graph::is_main_graph(graph, config, total, points, table@, lists),
        0 <= k < points.len(),
    ensures
        crate::faiss_random::reaches(
            config.m,
            table,
            crate::faiss_random::mt19937_output(LEVEL_SEED, k as nat),
            graph.levels@[k] as nat,
        ),
{
    assert(graph.levels@[k] == crate::main_graph::drawn_level(table@, k as nat));
}

/// Where no live point reaches an upper layer, the first one is marked as the entry
/// point, the others are marked ready, and nothing else is done: there is a single
/// entry point.
pub proof fn law_single_entry_point(points: Seq<PointOffsetType>, levels: Seq<usize>)
    requires
        points.len() == levels.len(),
        points.len() > 0,
        forall|k: int| 0 <= k < levels.len() ==> #[trigger] levels[k] == 0,
    ensures
        crate::main_graph::steps_of(points, levels) == seq![
            StepView::MarkEntryPoint { point: points[0] },
            crate::main_graph::ready_step(points.skip(1)),
        ],
{
    broadcast use vstd::seq_lib::group_to_multiset_ensures;

    let top = (crate::main_graph::level_count(levels) - 1) as nat;
    lemma_level_count_covers(levels);
    lemma_points_above(points, levels, 0);
    lemma_base_len(points, levels);
    lemma_no_upper_steps(points, levels, top);
    lemma_whole_bucket(points, levels, 0);
}

/// Whether two graphs are the same in all that they tell.
pub open spec fn same_graph(one: MainGraph, two: MainGraph) -> bool {
    &&& one.builder == two.builder
    &&& one.points@ == two.points@
    &&& one.levels@ == two.levels@
    &&& crate::main_graph::step_views(one.steps@) == crate::main_graph::step_views(two.steps@)
    &&& crate::main_graph::injection_views(one.injections@)
        == crate::main_graph::injection_views(two.injections@)
}

/// Building the main graph has one result: two builds from the same configuration,
/// points, scores, level probabilities and number of threads give the same graph.
pub proof fn law_main_graph_is_determined(
    one: MainGraph,
    two: MainGraph,
    config: MirageGraphConfig,
    total: usize,
    points: Seq<PointOffsetType>,
    table: Seq<u64>,
    num_threads: nat,
    score: spec_fn(PointOffsetType, PointOffsetType) -> Score,
)
    requires
        points.len() > 0 ==> total <= u32::MAX,
        crate::main_graph::may_be_main_graph(one, config, total, points, table, num_threads, score),
        crate::main_graph::may_be_main_graph(two, config, total, points, table, num_threads, score),
    ensures
        same_graph(one, two),
{
    let lists_one = choose|lists: Seq<Seq<ScoredPointOffset>>|
        {
            &&& #[trigger] crate::main_graph::is_main_graph(
                one,
                config,
                total,
                points,
                table,
                lists,
            )
            &&& crate::main_graph::is_layer0_for(lists, config, total, points, num_threads, score)
        };
    let lists_two = choose|lists: Seq<Seq<ScoredPointOffset>>|
        {
            &&& #[trigger] crate::main_graph::is_main_graph(
                two,
                config,
                total,
                points,
                table,
                lists,
            )
            &&& crate::main_graph::is_layer0_for(lists, config, total, points, num_threads, score)
        };
    assert(one.levels@ =~= two.levels@);
    if points.len() > 0 {
        crate::layer0_determinism::law_layer0_is_determined(
            crate::main_graph::membership(total as nat, points),
            config.s as nat,
            config.r as nat,
            config.iter as nat,
            config.num_reverse_edges as nat,
            REFINEMENT_SEED,
            num_threads,
            score,
            lists_one,
            lists_two,
        );
    }
}

} // verus!
