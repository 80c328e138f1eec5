//! The main graph of a MIRAGE index: what a graph builder is told to do.
//!
//! Layer 0 comes from refinement. The upper layers are linked by the builder,
//! one level after the other from the highest down, and the points that reach
//! no upper layer are marked ready afterwards.

use vstd::prelude::*;
use crate::arithmetic::saturating_mul;
use crate::candidate::{PointOffsetType, ScoredPointOffset};
use crate::config::MirageGraphConfig;
use crate::faiss_random::{faiss_random_level, faiss_shuffle, FaissMt19937, LevelTable};
use crate::mirage::{GraphBuilderArgs, HnswM, MirageIndex};
use crate::operation_error::{check_process_stopped, OperationResult, StopSignal};
use crate::refinement_builder::{build_layer0, PairScorer, RefinementParams};

verus! {

/// Seed of the refinement.
pub const REFINEMENT_SEED: u64 = 2021;

/// Seed of the level draws.
pub const LEVEL_SEED: u32 = 12345;

/// Seed of the shuffles of points of one level.
pub const SHUFFLE_SEED: u32 = 789;

/// Number of points up to which they are handled one after the other.
pub const SEQUENTIAL_POINTS: usize = 100;

/// Something to tell a graph builder. Points that are handled in parallel may be
/// handled in any order.
#[derive(Debug)]
pub enum GraphStep {
    /// Link points into the layers from 1 up.
    LinkUpper { points: Vec<PointOffsetType>, parallel: bool },
    /// Mark a point ready, and register it as an entry point.
    MarkEntryPoint { point: PointOffsetType },
    /// Mark points ready, without registering them as entry points.
    MarkReady { points: Vec<PointOffsetType>, parallel: bool },
}

/// What a [`GraphStep`] says.
pub enum StepView {
    LinkUpper { points: Seq<PointOffsetType>, parallel: bool },
    MarkEntryPoint { point: PointOffsetType },
    MarkReady { points: Seq<PointOffsetType>, parallel: bool },
}

impl View for GraphStep {
    type V = StepView;

    open spec fn view(&self) -> StepView {
        match *self {
            GraphStep::LinkUpper { points, parallel } => StepView::LinkUpper {
                points: points@,
                parallel,
            },
            GraphStep::MarkEntryPoint { point } => StepView::MarkEntryPoint { point },
            GraphStep::MarkReady { points, parallel } => StepView::MarkReady {
                points: points@,
                parallel,
            },
        }
    }
}

/// Candidates for the layer 0 links of a point, closest first.
#[derive(Debug)]
pub struct Injection {
    pub point: PointOffsetType,
    pub candidates: Vec<ScoredPointOffset>,
}

/// What an [`Injection`] says.
pub struct InjectionView {
    pub point: PointOffsetType,
    pub candidates: Seq<ScoredPointOffset>,
}

impl View for Injection {
    type V = InjectionView;

    open spec fn view(&self) -> InjectionView {
        InjectionView { point: self.point, candidates: self.candidates@ }
    }
}

/// All that a graph builder is told. First the level of every point is set, then
/// the steps are taken in order, and then the candidates for layer 0 are injected.
#[derive(Debug)]
pub struct MainGraph {
    /// What the builder is made with.
    pub builder: GraphBuilderArgs,
    /// The live points, and so the indexed ones.
    pub points: Vec<PointOffsetType>,
    /// The level of each.
    pub levels: Vec<usize>,
    pub steps: Vec<GraphStep>,
    pub injections: Vec<Injection>,
}

// ---------------------------------------------------------------------------
// Builder and parameters
// ---------------------------------------------------------------------------

/// How many entry points the graph of `total` vectors keeps.
pub open spec fn entry_points_of(total: usize, full_scan_threshold: usize) -> int {
    let divisor: usize = if full_scan_threshold == 0 {
        1
    } else {
        full_scan_threshold
    };
    let wanted = crate::arithmetic::saturating_product(total / divisor, 10);
    if wanted < 1 {
        1
    } else {
        wanted
    }
}

/// The builder of the graph of `total` vectors under `config`.
pub open spec fn builder_of(config: MirageGraphConfig, total: usize) -> GraphBuilderArgs {
    GraphBuilderArgs {
        num_vectors: total,
        hnsw_m: HnswM { m: config.m, m0: config.m0 },
        ef_construct: config.ef_construct,
        entry_points_num: entry_points_of(total, config.full_scan_threshold) as usize,
        use_heuristic: true,
    }
}

/// The arguments of the builder of the graph of `total` vectors.
fn make_builder(config: &MirageGraphConfig, total: usize) -> (builder: GraphBuilderArgs)
    ensures
        builder == builder_of(*config, total),
{
    let divisor: usize = if config.full_scan_threshold == 0 {
        1
    } else {
        config.full_scan_threshold
    };
    let wanted: usize = saturating_mul(total / divisor, 10);
    GraphBuilderArgs {
        num_vectors: total,
        hnsw_m: HnswM { m: config.m, m0: config.m0 },
        ef_construct: config.ef_construct,
        entry_points_num: if wanted < 1 {
            1
        } else {
            wanted
        },
        use_heuristic: true,
    }
}

/// The parameters of the refinement under `config`.
pub open spec fn params_of(config: MirageGraphConfig) -> RefinementParams {
    RefinementParams {
        s: config.s,
        r: config.r,
        iter: config.iter,
        num_reverse_edges: config.num_reverse_edges,
        seed: REFINEMENT_SEED,
    }
}

/// The parameters of the refinement under `config`.
pub fn refinement_params(config: &MirageGraphConfig) -> (params: RefinementParams)
    ensures
        params == params_of(*config),
{
    RefinementParams {
        s: config.s,
        r: config.r,
        iter: config.iter,
        num_reverse_edges: config.num_reverse_edges,
        seed: REFINEMENT_SEED,
    }
}

// ---------------------------------------------------------------------------
// Levels
// ---------------------------------------------------------------------------

/// The level that the `k`-th live point draws.
pub open spec fn drawn_level(table: Seq<u64>, k: nat) -> nat {
    crate::faiss_random::level_from(
        table,
        0,
        crate::faiss_random::draw_units(crate::faiss_random::mt19937_output(LEVEL_SEED, k)),
    )
}

/// Draws the levels of `count` points of a graph with `m` links per point.
fn draw_levels(count: usize, m: usize, table: &LevelTable) -> (levels: Vec<usize>)
    requires
        table.for_links() == crate::faiss_random::level_links(m),
    ensures
        levels@.len() == count,
        forall|k: int| 0 <= k < count ==> #[trigger] levels@[k] == drawn_level(table@, k as nat),
        forall|k: int| 0 <= k < count ==> #[trigger] levels@[k] < usize::MAX,
{
    let mut rng: FaissMt19937 = FaissMt19937::new(LEVEL_SEED);
    let mut levels: Vec<usize> = Vec::new();
    while levels.len() < count
        invariant
            levels@.len() <= count,
            table.for_links() == crate::faiss_random::level_links(m),
            forall|k: nat| #[trigger]
                rng.stream(k) == crate::faiss_random::mt19937_output(LEVEL_SEED, levels@.len() + k),
            forall|k: int|
                0 <= k < levels@.len() ==> #[trigger] levels@[k] == drawn_level(table@, k as nat),
            forall|k: int| 0 <= k < levels@.len() ==> #[trigger] levels@[k] < usize::MAX,
        decreases count - levels@.len(),
    {
        let ghost before = rng;
        let ghost drawn = levels@.len();
        assert(rng.stream(0) == crate::faiss_random::mt19937_output(LEVEL_SEED, drawn + 0));
        let level: usize = faiss_random_level(m, table, &mut rng);
        levels.push(level);
        proof {
            assert forall|k: nat| #[trigger] rng.stream(k) == crate::faiss_random::mt19937_output(
                LEVEL_SEED,
                (drawn + 1) as nat + k,
            ) by {
                assert(rng.stream(k) == before.stream(k + 1));
                assert(drawn + (k + 1) == (drawn + 1) as nat + k);
            }
        }
    }
    levels
}

/// The points of a level, in the order of `points`.
pub open spec fn bucket(
    points: Seq<PointOffsetType>,
    levels: Seq<usize>,
    level: nat,
) -> Seq<PointOffsetType>
    decreases points.len(),
{
    if points.len() == 0 {
        points
    } else {
        let before = bucket(points.drop_last(), levels.drop_last(), level);
        if levels.last() == level {
            before.push(points.last())
        } else {
            before
        }
    }
}

/// One more than the highest level, level 0 being always there.
pub open spec fn level_count(levels: Seq<usize>) -> nat
    decreases levels.len(),
{
    if levels.len() == 0 {
        1
    } else {
        let before = level_count(levels.drop_last());
        if before <= levels.last() {
            levels.last() as nat + 1
        } else {
            before
        }
    }
}

/// Sorts points into buckets by their levels.
fn fill_buckets(points: &Vec<PointOffsetType>, levels: &Vec<usize>) -> (buckets: Vec<
    Vec<PointOffsetType>,
>)
    requires
        points@.len() == levels@.len(),
        forall|k: int| 0 <= k < levels@.len() ==> #[trigger] levels@[k] < usize::MAX,
    ensures
        buckets@.len() == level_count(levels@),
        forall|level: int|
            0 <= level < buckets@.len() ==> (#[trigger] buckets@[level])@ == bucket(
                points@,
                levels@,
                level as nat,
            ),
{
    let mut buckets: Vec<Vec<PointOffsetType>> = Vec::new();
    buckets.push(Vec::new());
    let mut k: usize = 0;
    assert(points@.take(0) =~= Seq::<PointOffsetType>::empty());
    assert(levels@.take(0) =~= Seq::<usize>::empty());
    while k < points.len()
        invariant
            k <= points@.len(),
            points@.len() == levels@.len(),
            forall|j: int| 0 <= j < levels@.len() ==> #[trigger] levels@[j] < usize::MAX,
            buckets@.len() == level_count(levels@.take(k as int)),
            forall|level: int|
                0 <= level < buckets@.len() ==> (#[trigger] buckets@[level])@ == bucket(
                    points@.take(k as int),
                    levels@.take(k as int),
                    level as nat,
                ),
        decreases points@.len() - k,
    {
        let level: usize = levels[k];
        let ghost before_points = points@.take(k as int);
        let ghost before_levels = levels@.take(k as int);
        while buckets.len() <= level
            invariant
                level < usize::MAX,
                level_count(before_levels) <= buckets@.len(),
                buckets@.len() <= level_count(before_levels) || buckets@.len() <= level + 1,
                before_points.len() == before_levels.len(),
                forall|at: int|
                    0 <= at < buckets@.len() ==> (#[trigger] buckets@[at])@ == bucket(
                        before_points,
                        before_levels,
                        at as nat,
                    ),
            decreases level + 1 - buckets@.len(),
        {
            proof {
                lemma_bucket_beyond(before_points, before_levels, buckets@.len());
            }
            buckets.push(Vec::new());
        }
        let ghost grown = buckets@;
        buckets[level].push(points[k]);
        k = k + 1;
        proof {
            assert(points@.take(k as int).drop_last() =~= before_points);
            assert(levels@.take(k as int).drop_last() =~= before_levels);
            assert forall|at: int| 0 <= at < buckets@.len() implies (#[trigger] buckets@[at])@
                == bucket(points@.take(k as int), levels@.take(k as int), at as nat) by {
                assert(grown[at]@ == bucket(before_points, before_levels, at as nat));
            }
        }
    }
    assert(points@.take(k as int) =~= points@);
    assert(levels@.take(k as int) =~= levels@);
    buckets
}

/// No point is at a level above the highest.
proof fn lemma_bucket_beyond(points: Seq<PointOffsetType>, levels: Seq<usize>, level: nat)
    requires
        points.len() == levels.len(),
        level >= level_count(levels),
    ensures
        bucket(points, levels, level) == Seq::<PointOffsetType>::empty(),
    decreases points.len(),
{
    if points.len() > 0 {
        lemma_bucket_beyond(points.drop_last(), levels.drop_last(), level);
    }
}

// ---------------------------------------------------------------------------
// Steps
// ---------------------------------------------------------------------------

/// How many points are above `level`.
pub open spec fn points_above(
    points: Seq<PointOffsetType>,
    levels: Seq<usize>,
    level: nat,
) -> nat
    decreases level_count(levels) - level,
{
    if level + 1 >= level_count(levels) {
        0
    } else {
        bucket(points, levels, level + 1).len() + points_above(points, levels, level + 1)
    }
}

/// The values that the shuffle of a level draws: those that follow the ones of
/// the levels above, of which each point took one.
pub open spec fn level_draw(
    points: Seq<PointOffsetType>,
    levels: Seq<usize>,
    level: nat,
) -> spec_fn(nat) -> u32 {
    |k: nat|
        crate::faiss_random::mt19937_output(SHUFFLE_SEED, points_above(points, levels, level) + k)
}

/// The points of a level in the order in which they are linked.
pub open spec fn link_order(
    points: Seq<PointOffsetType>,
    levels: Seq<usize>,
    level: nat,
) -> Seq<PointOffsetType> {
    let unordered = bucket(points, levels, level);
    crate::faiss_random::shuffled(unordered, level_draw(points, levels, level), unordered.len())
}

/// How points are linked into the upper layers.
pub open spec fn link_step(points: Seq<PointOffsetType>) -> StepView {
    StepView::LinkUpper { points, parallel: points.len() > SEQUENTIAL_POINTS }
}

/// How points are marked ready.
pub open spec fn ready_step(points: Seq<PointOffsetType>) -> StepView {
    StepView::MarkReady { points, parallel: points.len() > SEQUENTIAL_POINTS }
}

/// The steps for one upper level. The very first point of all is linked alone, so
/// that there is an entry point for the others.
pub open spec fn level_steps(
    points: Seq<PointOffsetType>,
    levels: Seq<usize>,
    level: nat,
) -> Seq<StepView> {
    let order = link_order(points, levels, level);
    if bucket(points, levels, level).len() == 0 {
        Seq::empty()
    } else if points_above(points, levels, level) > 0 {
        seq![link_step(order)]
    } else {
        seq![link_step(order.take(1)), link_step(order.skip(1))]
    }
}

/// The steps for the upper levels from `level` down to 1.
pub open spec fn upper_steps(
    points: Seq<PointOffsetType>,
    levels: Seq<usize>,
    level: nat,
) -> Seq<StepView>
    decreases level,
{
    if level == 0 {
        Seq::empty()
    } else {
        level_steps(points, levels, level) + upper_steps(points, levels, (level - 1) as nat)
    }
}

/// The steps for the points of level 0. If no point reaches an upper layer, the
/// first of them is the entry point.
pub open spec fn base_steps(points: Seq<PointOffsetType>, levels: Seq<usize>) -> Seq<StepView> {
    let base = bucket(points, levels, 0);
    if points_above(points, levels, 0) > 0 {
        seq![ready_step(base)]
    } else if base.len() > 0 {
        seq![StepView::MarkEntryPoint { point: base[0] }, ready_step(base.skip(1))]
    } else {
        Seq::empty()
    }
}

/// All steps for `points`.
pub open spec fn steps_of(points: Seq<PointOffsetType>, levels: Seq<usize>) -> Seq<StepView> {
    upper_steps(points, levels, (level_count(levels) - 1) as nat) + base_steps(points, levels)
}

/// What `steps` say.
pub open spec fn step_views(steps: Seq<GraphStep>) -> Seq<StepView> {
    steps.map_values(|step: GraphStep| step@)
}

/// Adds a step.
fn push_step(steps: &mut Vec<GraphStep>, step: GraphStep)
    ensures
        step_views(final(steps)@) == step_views(old(steps)@).push(step@),
{
    let ghost before = steps@;
    steps.push(step);
    assert(step_views(steps@) =~= step_views(before).push(step@));
}

/// The step that links `points`.
fn link_points(points: Vec<PointOffsetType>) -> (step: GraphStep)
    ensures
        step@ == link_step(points@),
{
    let parallel: bool = points.len() > SEQUENTIAL_POINTS;
    GraphStep::LinkUpper { points, parallel }
}

/// The step that marks `points` ready.
fn mark_ready(points: Vec<PointOffsetType>) -> (step: GraphStep)
    ensures
        step@ == ready_step(points@),
{
    let parallel: bool = points.len() > SEQUENTIAL_POINTS;
    GraphStep::MarkReady { points, parallel }
}

/// Plans the steps for `points`, whose levels are `levels`.
fn plan_steps(points: &Vec<PointOffsetType>, levels: &Vec<usize>) -> (steps: Vec<GraphStep>)
    requires
        points@.len() == levels@.len(),
        forall|k: int| 0 <= k < levels@.len() ==> #[trigger] levels@[k] < usize::MAX,
    ensures
        step_views(steps@) == steps_of(points@, levels@),
{
    let mut buckets: Vec<Vec<PointOffsetType>> = fill_buckets(points, levels);
    let mut steps: Vec<GraphStep> = Vec::new();
    let mut rng: FaissMt19937 = FaissMt19937::new(SHUFFLE_SEED);
    let mut has_entry_point: bool = false;
    let ghost top = (level_count(levels@) - 1) as nat;
    proof {
        lemma_level_count(levels@);
        assert(step_views(steps@) =~= Seq::<StepView>::empty());
        assert(step_views(steps@) + upper_steps(points@, levels@, top) =~= upper_steps(
            points@,
            levels@,
            top,
        ));
    }
    let mut level: usize = buckets.len() - 1;
    while level > 0
        invariant
            level < buckets@.len(),
            points@.len() == levels@.len(),
            buckets@.len() == level_count(levels@),
            top == level_count(levels@) - 1,
            forall|at: int|
                0 <= at <= level ==> (#[trigger] buckets@[at])@ == bucket(
                    points@,
                    levels@,
                    at as nat,
                ),
            has_entry_point == (points_above(points@, levels@, level as nat) > 0),
            forall|k: nat| #[trigger]
                rng.stream(k) == crate::faiss_random::mt19937_output(
                    SHUFFLE_SEED,
                    points_above(points@, levels@, level as nat) + k,
                ),
            step_views(steps@) + upper_steps(points@, levels@, level as nat) == upper_steps(
                points@,
                levels@,
                top,
            ),
        decreases level,
    {
        let ghost before = step_views(steps@);
        let ghost at = level as nat;
        let ghost unordered = bucket(points@, levels@, at);
        let ghost above = points_above(points@, levels@, at);
        let ghost rng_before = rng;
        let mut order: Vec<PointOffsetType> = Vec::new();
        core::mem::swap(&mut order, &mut buckets[level]);
        assert(order@ == unordered);
        faiss_shuffle(order.as_mut_slice(), &mut rng);
        proof {
            let draw = |k: nat| rng_before.stream(k);
            assert(draw =~= level_draw(points@, levels@, at));
            crate::faiss_random::law_shuffle_rearranges(unordered, draw, unordered.len());
            assert(order@ == link_order(points@, levels@, at));
            assert(points_above(points@, levels@, (at - 1) as nat) == unordered.len() + above);
            assert forall|k: nat| #[trigger] rng.stream(k) == crate::faiss_random::mt19937_output(
                SHUFFLE_SEED,
                points_above(points@, levels@, (at - 1) as nat) + k,
            ) by {
                assert(rng.stream(k) == rng_before.stream(k + unordered.len()));
                assert(above + (k + unordered.len()) == (unordered.len() + above) + k);
            }
        }
        if order.len() > 0 {
            let ghost ordered = order@;
            if has_entry_point {
                push_step(&mut steps, link_points(order));
                assert(step_views(steps@) =~= before + level_steps(points@, levels@, at));
            } else {
                let rest: Vec<PointOffsetType> = order.split_off(1);
                assert(order@ =~= ordered.take(1));
                assert(rest@ =~= ordered.skip(1));
                push_step(&mut steps, link_points(order));
                push_step(&mut steps, link_points(rest));
                has_entry_point = true;
                assert(step_views(steps@) =~= before + level_steps(points@, levels@, at));
            }
        } else {
            assert(step_views(steps@) =~= before + level_steps(points@, levels@, at));
        }
        level = level - 1;
        assert(step_views(steps@) + upper_steps(points@, levels@, level as nat) =~= before
            + upper_steps(points@, levels@, at));
    }
    let ghost before = step_views(steps@);
    assert(before =~= upper_steps(points@, levels@, top));
    let mut base: Vec<PointOffsetType> = Vec::new();
    core::mem::swap(&mut base, &mut buckets[0]);
    assert(base@ == bucket(points@, levels@, 0));
    if has_entry_point {
        push_step(&mut steps, mark_ready(base));
    } else if base.len() > 0 {
        let ghost all = base@;
        let rest: Vec<PointOffsetType> = base.split_off(1);
        assert(rest@ =~= all.skip(1));
        push_step(&mut steps, GraphStep::MarkEntryPoint { point: base[0] });
        push_step(&mut steps, mark_ready(rest));
    }
    assert(step_views(steps@) =~= before + base_steps(points@, levels@));
    steps
}

/// There is at least one level.
proof fn lemma_level_count(levels: Seq<usize>)
    ensures
        level_count(levels) >= 1,
    decreases levels.len(),
{
    if levels.len() > 0 {
        lemma_level_count(levels.drop_last());
    }
}

// ---------------------------------------------------------------------------
// Layer 0
// ---------------------------------------------------------------------------

/// The candidates for the layer 0 links of `points`: of each that has neighbors in
/// `lists`, the first `s`.
pub open spec fn injections_of(
    points: Seq<PointOffsetType>,
    lists: Seq<Seq<ScoredPointOffset>>,
    s: nat,
) -> Seq<InjectionView>
    decreases points.len(),
{
    if points.len() == 0 {
        Seq::empty()
    } else {
        let before = injections_of(points.drop_last(), lists, s);
        let list = lists[points.last() as int];
        if list.len() == 0 {
            before
        } else {
            before.push(
                InjectionView {
                    point: points.last(),
                    candidates: if list.len() > s {
                        list.take(s as int)
                    } else {
                        list
                    },
                },
            )
        }
    }
}

/// What `injections` say.
pub open spec fn injection_views(injections: Seq<Injection>) -> Seq<InjectionView> {
    injections.map_values(|injection: Injection| injection@)
}

/// The first `s` neighbors of `list`.
fn closest(list: &Vec<ScoredPointOffset>, s: usize) -> (candidates: Vec<ScoredPointOffset>)
    ensures
        candidates@ == if list@.len() > s {
            list@.take(s as int)
        } else {
            list@
        },
{
    let mut candidates: Vec<ScoredPointOffset> = Vec::new();
    while candidates.len() < list.len() && candidates.len() < s
        invariant
            candidates@.len() <= list@.len(),
            candidates@.len() <= s,
            candidates@ == list@.take(candidates@.len() as int),
        decreases list@.len() - candidates@.len(),
    {
        let ghost before = candidates@;
        candidates.push(list[candidates.len()]);
        assert(candidates@ =~= list@.take(before.len() as int + 1));
    }
    assert(list@.take(list@.len() as int) =~= list@);
    candidates
}

/// Plans the layer 0 links of `points`.
fn plan_injections(
    points: &Vec<PointOffsetType>,
    lists: &Vec<Vec<ScoredPointOffset>>,
    s: usize,
) -> (injections: Vec<Injection>)
    requires
        forall|k: int| 0 <= k < points@.len() ==> #[trigger] points@[k] < lists@.len(),
    ensures
        injection_views(injections@) == injections_of(
            points@,
            crate::refinement_builder::lists_of(lists@),
            s as nat,
        ),
{
    let ghost all = crate::refinement_builder::lists_of(lists@);
    let mut injections: Vec<Injection> = Vec::new();
    let mut k: usize = 0;
    assert(points@.take(0) =~= Seq::<PointOffsetType>::empty());
    assert(injection_views(injections@) =~= Seq::<InjectionView>::empty());
    while k < points.len()
        invariant
            k <= points@.len(),
            all == crate::refinement_builder::lists_of(lists@),
            forall|j: int| 0 <= j < points@.len() ==> #[trigger] points@[j] < lists@.len(),
            injection_views(injections@) == injections_of(points@.take(k as int), all, s as nat),
        decreases points@.len() - k,
    {
        let point: PointOffsetType = points[k];
        let ghost before = injection_views(injections@);
        assert(points@.take(k + 1).drop_last() =~= points@.take(k as int));
        assert(points@.take(k + 1).last() == point);
        assert(all[point as int] == lists@[point as int]@);
        if lists[point as usize].len() > 0 {
            let injection: Injection = Injection {
                point,
                candidates: closest(&lists[point as usize], s),
            };
            let ghost said = injection@;
            injections.push(injection);
            assert(injection_views(injections@) =~= before.push(said));
        }
        k = k + 1;
    }
    assert(points@.take(k as int) =~= points@);
    injections
}

/// Which of `total` points are among `points`.
pub open spec fn membership(total: nat, points: Seq<PointOffsetType>) -> Seq<bool> {
    Seq::new(total, |p: int| points.contains(p as PointOffsetType))
}

/// Marks the points of `points` among `total`.
pub fn mark_live(total: usize, points: &Vec<PointOffsetType>) -> (flags: Vec<bool>)
    requires
        total <= u32::MAX,
        forall|k: int| 0 <= k < points@.len() ==> #[trigger] points@[k] < total,
    ensures
        flags@ == membership(total as nat, points@),
{
    let mut flags: Vec<bool> = Vec::new();
    while flags.len() < total
        invariant
            flags@.len() <= total,
            forall|p: int| 0 <= p < flags@.len() ==> !#[trigger] flags@[p],
        decreases total - flags@.len(),
    {
        flags.push(false);
    }
    let mut k: usize = 0;
    while k < points.len()
        invariant
            k <= points@.len(),
            flags@.len() == total,
            total <= u32::MAX,
            forall|j: int| 0 <= j < points@.len() ==> #[trigger] points@[j] < total,
            forall|p: int|
                0 <= p < total ==> #[trigger] flags@[p] == (exists|j: int|
                    0 <= j < k && #[trigger] points@[j] == p),
        decreases points@.len() - k,
    {
        let ghost before = flags@;
        let point: usize = points[k] as usize;
        flags[point] = true;
        proof {
            assert forall|p: int| 0 <= p < total implies #[trigger] flags@[p] == (exists|j: int|
                0 <= j < k + 1 && #[trigger] points@[j] == p) by {
                assert(before[p] == (exists|j: int| 0 <= j < k && #[trigger] points@[j] == p));
                if p == point {
                    assert(points@[k as int] == p);
                }
            }
        }
        k = k + 1;
    }
    proof {
        assert forall|p: int| 0 <= p < total implies flags@[p] == membership(
            total as nat,
            points@,
        )[p] by {
            let id = p as PointOffsetType;
            if points@.contains(id) {
                let j = choose|j: int| 0 <= j < points@.len() && points@[j] == id;
                assert(points@[j] == p);
            }
        }
    }
    assert(flags@ =~= membership(total as nat, points@));
    flags
}

// ---------------------------------------------------------------------------
// The whole graph
// ---------------------------------------------------------------------------

/// Whether `graph` is the main graph of `points`, whose layer 0 is `lists`.
pub open spec fn is_main_graph(
    graph: MainGraph,
    config: MirageGraphConfig,
    total: usize,
    points: Seq<PointOffsetType>,
    table: Seq<u64>,
    lists: Seq<Seq<ScoredPointOffset>>,
) -> bool {
    &&& graph.builder == builder_of(config, total)
    &&& graph.points@ == points
    &&& graph.levels@.len() == points.len()
    &&& forall|k: int|
        0 <= k < points.len() ==> #[trigger] graph.levels@[k] == drawn_level(table, k as nat)
    &&& step_views(graph.steps@) == steps_of(points, graph.levels@)
    &&& injection_views(graph.injections@) == injections_of(points, lists, config.s as nat)
}

/// Whether `lists` may be the layer 0 of the points `points` out of `total`; it
/// does not matter where there is none.
pub open spec fn is_layer0_for(
    lists: Seq<Seq<ScoredPointOffset>>,
    config: MirageGraphConfig,
    total: usize,
    points: Seq<PointOffsetType>,
    num_threads: nat,
    score: spec_fn(PointOffsetType, PointOffsetType) -> crate::score::Score,
) -> bool {
    points.len() > 0 ==> crate::layer0_model::layer0_of(
        membership(total as nat, points),
        config.s as nat,
        config.r as nat,
        config.iter as nat,
        config.num_reverse_edges as nat,
        REFINEMENT_SEED,
        num_threads,
        score,
        lists,
    )
}

/// Whether `graph` may be the main graph of `points` out of `total`.
pub open spec fn may_be_main_graph(
    graph: MainGraph,
    config: MirageGraphConfig,
    total: usize,
    points: Seq<PointOffsetType>,
    table: Seq<u64>,
    num_threads: nat,
    score: spec_fn(PointOffsetType, PointOffsetType) -> crate::score::Score,
) -> bool {
    exists|lists: Seq<Seq<ScoredPointOffset>>|
        {
            &&& #[trigger] is_main_graph(graph, config, total, points, table, lists)
            &&& is_layer0_for(lists, config, total, points, num_threads, score)
        }
}

impl MirageIndex {
    /// Plans the main graph of the live points `points` out of `total`, over the
    /// layer 0 that was refined for them.
    pub fn assemble_main_graph(
        config: &MirageGraphConfig,
        total_vector_count: usize,
        points: Vec<PointOffsetType>,
        table: &LevelTable,
        layer0: &Vec<Vec<ScoredPointOffset>>,
    ) -> (graph: MainGraph)
        requires
            table.for_links() == crate::faiss_random::level_links(config.m),
            forall|k: int| 0 <= k < points@.len() ==> #[trigger] points@[k] < layer0@.len(),
        ensures
            is_main_graph(
                graph,
                *config,
                total_vector_count,
                points@,
                table@,
                crate::refinement_builder::lists_of(layer0@),
            ),
    {
        let levels: Vec<usize> = draw_levels(points.len(), config.m, table);
        let steps: Vec<GraphStep> = plan_steps(&points, &levels);
        let injections: Vec<Injection> = plan_injections(&points, layer0, config.s);
        let graph: MainGraph = MainGraph {
            builder: make_builder(config, total_vector_count),
            points,
            levels,
            steps,
            injections,
        };
        assert(is_main_graph(
            graph,
            *config,
            total_vector_count,
            points@,
            table@,
            crate::refinement_builder::lists_of(layer0@),
        ));
        graph
    }

    /// Heart of the build: refines layer 0 of the live points `points` out of
    /// `total_vector_count`, draws the levels of the points, and plans how the
    /// graph builder links them. Without a live point the graph is empty. All draws
    /// start from seeds of their own: `rng` is left as it is.
    pub fn build_main_graph<Random, MakeScorer, Scorer, Stop>(
        config: &MirageGraphConfig,
        total_vector_count: usize,
        points: Vec<PointOffsetType>,
        table: &LevelTable,
        num_threads: usize,
        make_scorer: MakeScorer,
        stopped: &Stop,
        rng: &mut Random,
    ) -> (result: OperationResult<MainGraph>) where
        MakeScorer: Fn() -> OperationResult<Scorer>,
        Scorer: PairScorer,
        Stop: StopSignal,

        requires
            forall|k: int| 0 <= k < points@.len() ==> #[trigger] points@[k] < total_vector_count,
            table.for_links() == crate::faiss_random::level_links(config.m),
            crate::refinement_builder::makes_scorers::<MakeScorer, Scorer>(make_scorer, points@),
        ensures
            *final(rng) == *old(rng),
            match result {
                Ok(graph) => {
                    &&& points@.len() > 0 ==> exists|scorer: Scorer|
                        crate::refinement_builder::makes(make_scorer, scorer)
                    &&& points@.len() > 0 ==> crate::refinement_builder::layer0_refusal(
                        total_vector_count,
                        params_of(*config),
                    ) is None
                    &&& points@.len() > 0 ==> stopped.may_answer(false)
                    &&& may_be_main_graph(
                        graph,
                        *config,
                        total_vector_count,
                        points@,
                        table@,
                        num_threads as nat,
                        crate::refinement_builder::made_score::<MakeScorer, Scorer>(make_scorer),
                    )
                },
                Err(error) => {
                    &&& points@.len() > 0
                    &&& match crate::refinement_builder::layer0_refusal(
                        total_vector_count,
                        params_of(*config),
                    ) {
                        Some(text) => error.is_service(text),
                        None => crate::refinement_builder::may_fail::<MakeScorer, Scorer, Stop>(
                            make_scorer,
                            *stopped,
                            error,
                        ),
                    }
                },
            },
    {
        if points.len() == 0 {
            let none: Vec<Vec<ScoredPointOffset>> = Vec::new();
            let graph: MainGraph = Self::assemble_main_graph(
                config,
                total_vector_count,
                points,
                table,
                &none,
            );
            assert(is_main_graph(
                graph,
                *config,
                total_vector_count,
                points@,
                table@,
                crate::refinement_builder::lists_of(none@),
            ));
            return Ok(graph);
        }
        let params: RefinementParams = refinement_params(config);
        crate::refinement_builder::check_layer0_request(total_vector_count, &params)?;
        let flags: Vec<bool> = mark_live(total_vector_count, &points);
        let is_alive = |p: PointOffsetType| -> (alive: bool)
            requires
                p < flags@.len(),
            ensures
                alive == flags@[p as int],
            { flags[p as usize] };
        proof {
            let n = total_vector_count as nat;
            assert forall|scorer: Scorer, a: PointOffsetType, b: PointOffsetType|
                #![trigger crate::refinement_builder::makes(make_scorer, scorer), crate::refinement_builder::is_live_pair(is_alive, n, a, b)]
                crate::refinement_builder::makes(make_scorer, scorer)
                    && crate::refinement_builder::is_live_pair(
                    is_alive,
                    n,
                    a,
                    b,
                ) implies scorer.can_score(a, b) by {
                assert(flags@[a as int] && flags@[b as int]);
                let i = choose|i: int| 0 <= i < points@.len() && points@[i] == a;
                let j = choose|j: int| 0 <= j < points@.len() && points@[j] == b;
                assert(scorer.can_score(points@[i], points@[j]));
            }
            assert forall|one: Scorer, two: Scorer, a: PointOffsetType, b: PointOffsetType|
                #![trigger crate::refinement_builder::makes(make_scorer, one), crate::refinement_builder::makes(make_scorer, two), crate::refinement_builder::is_live_pair(is_alive, n, a, b)]
                crate::refinement_builder::makes(make_scorer, one)
                    && crate::refinement_builder::makes(make_scorer, two)
                    && crate::refinement_builder::is_live_pair(
                    is_alive,
                    n,
                    a,
                    b,
                ) implies one.pair_score(a, b) == two.pair_score(a, b) by {
                assert(flags@[a as int] && flags@[b as int]);
                let i = choose|i: int| 0 <= i < points@.len() && points@[i] == a;
                let j = choose|j: int| 0 <= j < points@.len() && points@[j] == b;
                assert(crate::refinement_builder::scores_agree(one, two, points@));
                assert(one.pair_score(points@[i], points@[j]) == two.pair_score(
                    points@[i],
                    points@[j],
                ));
            }
        }
        let layer0: Vec<Vec<ScoredPointOffset>> = build_layer0(
            total_vector_count,
            &params,
            num_threads,
            is_alive,
            make_scorer,
            stopped,
        )?;
        proof {
            let said = choose|said: Seq<bool>|
                {
                    &&& said.len() == total_vector_count
                    &&& #[trigger] crate::refinement_builder::flags_from(is_alive, said)
                    &&& crate::layer0_model::layer0_of(
                        said,
                        config.s as nat,
                        config.r as nat,
                        config.iter as nat,
                        config.num_reverse_edges as nat,
                        REFINEMENT_SEED,
                        num_threads as nat,
                        crate::refinement_builder::made_score::<MakeScorer, Scorer>(make_scorer),
                        crate::refinement_builder::lists_of(layer0@),
                    )
                    &&& crate::layer0_model::alive_points(said).len() > 0 ==> exists|
                        scorer: Scorer,
                    | crate::refinement_builder::makes(make_scorer, scorer)
                };
            assert forall|p: int| 0 <= p < said.len() implies said[p] == flags@[p] by {
                let id = p as PointOffsetType;
                assert(call_ensures(is_alive, (id,), said[id as int]));
            }
            let first = points@[0] as int;
            assert(points@.contains(points@[0]));
            assert(flags@[first]);
            crate::layer0_structure::lemma_place_of(said, first);
            assert(said =~= membership(total_vector_count as nat, points@));
            lemma_layer0_len(
                said,
                config.s as nat,
                config.r as nat,
                config.iter as nat,
                config.num_reverse_edges as nat,
                REFINEMENT_SEED,
                num_threads as nat,
                crate::refinement_builder::made_score::<MakeScorer, Scorer>(make_scorer),
                crate::refinement_builder::lists_of(layer0@),
            );
            assert(layer0@.len() == crate::refinement_builder::lists_of(layer0@).len());
        }
        check_process_stopped(stopped)?;
        let graph: MainGraph = Self::assemble_main_graph(
            config,
            total_vector_count,
            points,
            table,
            &layer0,
        );
        assert(is_main_graph(
            graph,
            *config,
            total_vector_count,
            points@,
            table@,
            crate::refinement_builder::lists_of(layer0@),
        ));
        Ok(graph)
    }
}

/// A layer 0 has a list for every point.
proof fn lemma_layer0_len(
    alive_flags: Seq<bool>,
    s: nat,
    rounds: nat,
    passes: nat,
    cap: nat,
    seed: u64,
    num_threads: nat,
    score: spec_fn(PointOffsetType, PointOffsetType) -> crate::score::Score,
    lists: Seq<Seq<ScoredPointOffset>>,
)
    requires
        crate::layer0_model::layer0_of(
            alive_flags,
            s,
            rounds,
            passes,
            cap,
            seed,
            num_threads,
            score,
            lists,
        ),
    ensures
        lists.len() == alive_flags.len(),
{
}

} // verus!
