use std::sync::atomic::AtomicBool;

use mirage_index::candidate::ScoredPointOffset;
use mirage_index::config::MirageGraphConfig;
use mirage_index::faiss_random::{LevelTable, UNIT_ONE};
use mirage_index::main_graph::{mark_live, refinement_params, GraphStep, MainGraph};
use mirage_index::mirage::MirageIndex;
use mirage_index::operation_error::{NeverStopped, OperationError, OperationResult};
use mirage_index::refinement_builder::RefinementParams;
use mirage_index::score::Score;

fn config(s: usize) -> MirageGraphConfig {
    MirageGraphConfig::new(16, 1024, 50, s, 2, 2, 32, 0, None, 0)
}

fn score(value: f32) -> Score {
    Score::from_bits(value.to_bits())
}

/// Levels 0, 1 and 2 with probabilities of a half and two quarters.
fn three_levels() -> LevelTable {
    LevelTable::new(16, vec![UNIT_ONE / 2, UNIT_ONE / 4, UNIT_ONE / 4, 0]).unwrap()
}

/// Level 0 for every point.
fn one_level() -> LevelTable {
    LevelTable::new(16, vec![UNIT_ONE + 1, 0]).unwrap()
}

fn line(a: u32, b: u32) -> Score {
    score(-(a as f32 - b as f32).abs())
}

type Scorer = fn(u32, u32) -> Score;

fn make_scorer() -> OperationResult<Scorer> {
    Ok(line as Scorer)
}

fn no_scorer() -> OperationResult<Scorer> {
    Err(OperationError::service_error("no scorer"))
}

fn steps(graph: &MainGraph) -> Vec<(&'static str, Vec<u32>, bool)> {
    graph
        .steps
        .iter()
        .map(|step| match step {
            GraphStep::LinkUpper { points, parallel } => ("link", points.clone(), *parallel),
            GraphStep::MarkEntryPoint { point } => ("entry", vec![*point], false),
            GraphStep::MarkReady { points, parallel } => ("ready", points.clone(), *parallel),
        })
        .collect()
}

#[test]
fn upper_points_are_linked_from_the_highest_level_down() {
    let points: Vec<u32> = (10..20).collect();
    let lists = vec![Vec::new(); 20];
    let graph =
        MirageIndex::assemble_main_graph(&config(4), 20, points.clone(), &three_levels(), &lists);
    assert_eq!(graph.points, points);
    assert_eq!(graph.levels, [2, 2, 0, 0, 0, 0, 0, 2, 1, 1]);
    assert_eq!(
        steps(&graph),
        [
            ("link", vec![11], false),
            ("link", vec![10, 17], false),
            ("link", vec![18, 19], false),
            ("ready", vec![12, 13, 14, 15, 16], false),
        ]
    );
    assert!(graph.injections.is_empty());
}

#[test]
fn without_upper_points_the_first_is_the_entry_point() {
    let lists = vec![Vec::new(); 4];
    let graph = MirageIndex::assemble_main_graph(&config(4), 4, vec![1, 3], &one_level(), &lists);
    assert_eq!(graph.levels, [0, 0]);
    assert_eq!(
        steps(&graph),
        [("entry", vec![1], false), ("ready", vec![3], false)]
    );
}

#[test]
fn more_than_a_hundred_points_are_handled_in_parallel() {
    let lists = vec![Vec::new(); 102];
    let exactly = (0..101).collect();
    let graph = MirageIndex::assemble_main_graph(&config(4), 102, exactly, &one_level(), &lists);
    assert_eq!(steps(&graph)[1], ("ready", (1..101).collect(), false));
    let more = (0..102).collect();
    let graph = MirageIndex::assemble_main_graph(&config(4), 102, more, &one_level(), &lists);
    assert_eq!(steps(&graph)[1], ("ready", (1..102).collect(), true));
}

#[test]
fn every_point_is_handled_once() {
    let points: Vec<u32> = (0..500).collect();
    let lists = vec![Vec::new(); 500];
    let graph =
        MirageIndex::assemble_main_graph(&config(4), 500, points.clone(), &three_levels(), &lists);
    let mut handled: Vec<u32> = steps(&graph).into_iter().flat_map(|step| step.1).collect();
    handled.sort_unstable();
    assert_eq!(handled, points);
    assert_eq!(steps(&graph)[0].1.len(), 1);
}

#[test]
fn the_first_s_neighbors_are_injected() {
    let neighbor = |idx: u32| ScoredPointOffset { idx, score: score(-1.0) };
    let lists = vec![
        vec![neighbor(1), neighbor(2), neighbor(3)],
        Vec::new(),
        vec![neighbor(0)],
        Vec::new(),
    ];
    let graph =
        MirageIndex::assemble_main_graph(&config(2), 4, vec![0, 1, 2], &one_level(), &lists);
    assert_eq!(graph.injections.len(), 2);
    assert_eq!(graph.injections[0].point, 0);
    assert_eq!(graph.injections[0].candidates, [neighbor(1), neighbor(2)]);
    assert_eq!(graph.injections[1].point, 2);
    assert_eq!(graph.injections[1].candidates, [neighbor(0)]);
}

#[test]
fn builder_arguments_follow_the_config() {
    let graph = MirageIndex::assemble_main_graph(&config(2), 120, Vec::new(), &one_level(), &vec![]);
    assert_eq!(graph.builder.num_vectors, 120);
    assert_eq!(graph.builder.hnsw_m.m, 16);
    assert_eq!(graph.builder.hnsw_m.m0, 32);
    assert_eq!(graph.builder.ef_construct, 1024);
    // Ten for every full scan threshold of vectors.
    assert_eq!(graph.builder.entry_points_num, 20);
    assert!(graph.builder.use_heuristic);
    let few = MirageIndex::assemble_main_graph(&config(2), 49, Vec::new(), &one_level(), &vec![]);
    assert_eq!(few.builder.entry_points_num, 1);
    let unset = MirageGraphConfig { full_scan_threshold: 0, ..config(2) };
    let graph = MirageIndex::assemble_main_graph(&unset, 3, Vec::new(), &one_level(), &vec![]);
    assert_eq!(graph.builder.entry_points_num, 30);
}

#[test]
fn parameters_follow_the_config() {
    assert_eq!(
        refinement_params(&config(5)),
        RefinementParams { s: 5, r: 2, iter: 2, num_reverse_edges: 32, seed: 2021 }
    );
}

#[test]
fn the_whole_graph_is_built() {
    let points = vec![0, 2, 3, 5];
    let graph = MirageIndex::build_main_graph(
        &config(4),
        6,
        points.clone(),
        &three_levels(),
        2,
        make_scorer,
        &AtomicBool::new(false),
        &mut (),
    )
    .unwrap();
    assert_eq!(graph.points, points);
    assert_eq!(graph.levels, [2, 2, 0, 0]);
    let injected: Vec<(u32, Vec<u32>)> = graph
        .injections
        .iter()
        .map(|i| (i.point, i.candidates.iter().map(|c| c.idx).collect()))
        .collect();
    assert_eq!(
        injected,
        [(0, vec![2]), (2, vec![3, 0]), (3, vec![2, 5]), (5, vec![3])]
    );
}

#[test]
fn no_live_points_give_an_empty_graph() {
    let bad = MirageGraphConfig { s: 0, ..config(1) };
    let graph = MirageIndex::build_main_graph(
        &bad,
        6,
        Vec::new(),
        &three_levels(),
        2,
        no_scorer,
        &AtomicBool::new(true),
        &mut (),
    )
    .unwrap();
    assert!(graph.points.is_empty());
    assert!(graph.levels.is_empty());
    assert!(graph.steps.is_empty());
    assert!(graph.injections.is_empty());
    assert_eq!(graph.builder.num_vectors, 6);
}

#[test]
fn a_graph_fails_as_its_refinement_does() {
    let build = |config: &MirageGraphConfig, stop: bool| {
        MirageIndex::build_main_graph(
            config,
            3,
            vec![0, 1, 2],
            &three_levels(),
            1,
            make_scorer,
            &AtomicBool::new(stop),
            &mut (),
        )
        .err()
    };
    assert_eq!(build(&config(2), false), None);
    assert_eq!(build(&config(2), true), Some(OperationError::Cancelled));
    assert_eq!(
        build(&config(0), false),
        Some(OperationError::service_error(
            "MIRAGE: refinement parameter S must be > 0"
        ))
    );
    let failed = MirageIndex::build_main_graph(
        &config(2),
        3,
        vec![0, 1, 2],
        &three_levels(),
        1,
        no_scorer,
        &NeverStopped,
        &mut (),
    );
    assert_eq!(
        failed.err(),
        Some(OperationError::service_error("no scorer"))
    );
}

#[test]
fn live_points_are_marked() {
    assert_eq!(mark_live(4, &vec![3, 1]), [false, true, false, true]);
}

#[test]
fn one_point_is_marked_as_the_entry_point_where_all_are_at_the_base() {
    let points: Vec<u32> = (3..9).collect();
    let graph = MirageIndex::build_main_graph(
        &config(4),
        9,
        points.clone(),
        &one_level(),
        1,
        make_scorer,
        &NeverStopped,
        &mut (),
    )
    .unwrap();
    assert_eq!(graph.levels, [0; 6]);
    assert_eq!(
        steps(&graph),
        [("entry", vec![3], false), ("ready", points[1..].to_vec(), false)]
    );
}

#[test]
fn two_builds_give_the_same_graph() {
    let build = || {
        MirageIndex::build_main_graph(
            &config(6),
            60,
            (0..60).collect(),
            &three_levels(),
            1,
            make_scorer,
            &NeverStopped,
            &mut (),
        )
        .unwrap()
    };
    let (one, two) = (build(), build());
    assert_eq!(one.levels, two.levels);
    assert_eq!(steps(&one), steps(&two));
    let injected = |graph: &MainGraph| -> Vec<(u32, Vec<ScoredPointOffset>)> {
        graph
            .injections
            .iter()
            .map(|injection| (injection.point, injection.candidates.clone()))
            .collect()
    };
    assert_eq!(injected(&one), injected(&two));
    assert_eq!(one.injections.len(), 60);
}

#[test]
fn a_graph_with_few_links_draws_levels_as_one_with_two() {
    let table = LevelTable::new(2, vec![UNIT_ONE / 2, UNIT_ONE / 4, UNIT_ONE / 4, 0]).unwrap();
    let levels = |m: usize| {
        let config = MirageGraphConfig { m, ..config(4) };
        let lists = vec![Vec::new(); 10];
        MirageIndex::assemble_main_graph(&config, 10, (0..10).collect(), &table, &lists).levels
    };
    assert_eq!(levels(2), [2, 2, 0, 0, 0, 0, 0, 2, 1, 1]);
    assert_eq!(levels(0), levels(2));
    assert_eq!(levels(1), levels(2));
}

/// A generator that counts how often it is asked.
#[derive(Debug, PartialEq)]
struct CountedGenerator {
    draws: usize,
}

#[test]
fn the_generator_of_the_caller_is_left_alone() {
    let mut rng = CountedGenerator { draws: 7 };
    MirageIndex::build_main_graph(
        &config(4),
        6,
        vec![0, 2, 3, 5],
        &three_levels(),
        1,
        make_scorer,
        &NeverStopped,
        &mut rng,
    )
    .unwrap();
    assert_eq!(rng, CountedGenerator { draws: 7 });
}
