use std::sync::atomic::{AtomicBool, AtomicUsize, Ordering};
use std::sync::Arc;

use mirage_index::candidate::{Candidate, PointOffsetType, ScoredPointOffset};
use mirage_index::faiss_random::FaissMt19937;
use mirage_index::layer0_model::RefinementStep;
use mirage_index::operation_error::{
    check_process_stopped, stop_result, NeverStopped, OperationError, OperationResult,
};
use mirage_index::refinement_builder::{
    add_reverse_edges, build_layer0, chunk_bounds, cpp_parity_eligible, effective_workers,
    empty_pools, final_list, gen_random_mirage_style, init_random_graph, live_points, merge_edges,
    next_step, recall_acceptance_eligible, refine_vertex, trim_pool, turned_edges, update_round,
    PairScorer, Pool, RefinementParams,
};
use mirage_index::score::Score;
use rand::rngs::StdRng;
use rand::{RngExt as _, SeedableRng};

fn score(value: f32) -> Score {
    Score::from_bits(value.to_bits())
}

fn value(score: Score) -> f32 {
    f32::from_bits(score.to_bits())
}

struct NoopScorer;

impl PairScorer for NoopScorer {
    fn score_pair(&mut self, _a: PointOffsetType, _b: PointOffsetType) -> Score {
        score(0.0)
    }
}

fn failing_scorer_factory() -> OperationResult<NoopScorer> {
    Err(OperationError::service_error(
        "MIRAGE test scorer factory failed",
    ))
}

fn assert_scorer_factory_error(err: OperationError) {
    assert!(matches!(
        err,
        OperationError::ServiceError { description, .. }
            if description == "MIRAGE test scorer factory failed"
    ));
}

#[test]
fn test_gen_random_mirage_style_returns_unique_values() {
    let mut rng = FaissMt19937::new(42);
    let values = gen_random_mirage_style(&mut rng, 16, 200);

    assert_eq!(values.len(), 16);
    let mut sorted = values.clone();
    sorted.sort_unstable();
    sorted.dedup();
    assert_eq!(sorted.len(), values.len());
    assert!(values.iter().all(|&value| value < 200));
}

#[test]
fn test_cpp_parity_and_recall_acceptance_guards() {
    const S: usize = 16;

    assert!(!cpp_parity_eligible(S, S));
    assert!(cpp_parity_eligible(S + 1, S));

    assert!(!recall_acceptance_eligible(S, S));
    assert!(!recall_acceptance_eligible(S + 1, S));
    assert!(recall_acceptance_eligible(10 * S, S));
}

#[test]
fn test_build_layer0_returns_error_when_scorer_factory_fails_cpp_parity_path() {
    let stopped = AtomicBool::new(false);
    let params = RefinementParams {
        s: 4,
        r: 1,
        iter: 1,
        num_reverse_edges: 8,
        seed: 1,
    };

    let err = build_layer0(32, &params, 2, |_| true, failing_scorer_factory, &stopped).unwrap_err();

    assert_scorer_factory_error(err);
}

#[test]
fn test_build_layer0_returns_error_when_scorer_factory_fails_small_n_path() {
    const N: usize = 8;
    const S: usize = 8;

    let stopped = AtomicBool::new(false);
    let params = RefinementParams {
        s: S,
        r: 1,
        iter: 1,
        num_reverse_edges: 8,
        seed: 1,
    };

    assert!(!cpp_parity_eligible(N, S));
    let err = build_layer0(N, &params, 2, |_| true, failing_scorer_factory, &stopped).unwrap_err();

    assert_scorer_factory_error(err);
}

#[test]
fn test_qdrant_small_n_boundary_uses_complete_non_self_graph() {
    const N: usize = 8;
    const S: usize = 8;

    let alive_indices: Vec<PointOffsetType> = (0..N as PointOffsetType).collect();
    let mut pools: Vec<Pool> = (0..N).map(|_| Pool::with_capacity(S)).collect();
    let stopped = AtomicBool::new(false);
    let score_pair = |a: PointOffsetType, b: PointOffsetType| -> Score {
        score(-((a as f32) - (b as f32)).abs())
    };

    assert!(!cpp_parity_eligible(N, S));
    init_random_graph(
        &alive_indices,
        S,
        2021,
        2,
        &mut pools,
        &|| Ok(&score_pair),
        &stopped,
    )
    .expect("small-N boundary initialization should succeed");

    for (u, pool) in pools.iter().enumerate() {
        assert_eq!(
            pool.inner.len(),
            N - 1,
            "Qdrant small-N boundary behavior uses a complete non-self graph",
        );

        let mut seen = std::collections::HashSet::new();
        for candidate in &pool.inner {
            assert_ne!(
                candidate.idx as usize, u,
                "small-N boundary must not create self-loop"
            );
            assert!(
                seen.insert(candidate.idx),
                "small-N boundary must not create duplicate candidate {}",
                candidate.idx,
            );
        }
        assert_eq!(seen.len(), N - 1);
    }
}

/// On a small synthetic dataset the refinement produces a structurally valid
/// pruned layer 0 graph.
#[test]
fn test_layer0_refinement_structural_invariants() {
    const N: usize = 200;
    const D: usize = 8;

    // Generate deterministic random points.
    let mut rng = StdRng::seed_from_u64(42);
    let mut data: Vec<[f32; D]> = vec![[0.0; D]; N];
    for v in data.iter_mut() {
        for x in v.iter_mut() {
            *x = rng.random_range(-1.0_f32..1.0_f32);
        }
    }

    let score_pair = |a: PointOffsetType, b: PointOffsetType| -> Score {
        let va = &data[a as usize];
        let vb = &data[b as usize];
        let mut s = 0.0_f32;
        for k in 0..D {
            let d = va[k] - vb[k];
            s += d * d;
        }
        score(-s) // negative L2: higher = closer
    };

    let stopped = AtomicBool::new(false);

    let params = RefinementParams {
        s: 16,
        r: 3,
        iter: 8,
        num_reverse_edges: 64,
        seed: 1,
    };

    let layer0 =
        build_layer0(N, &params, 2, |_| true, || Ok(&score_pair), &stopped).expect("build ok");

    assert_eq!(layer0.len(), N);
    for (u, nbrs) in layer0.iter().enumerate() {
        assert!(!nbrs.is_empty(), "every alive point should have neighbors");
        // Ensure sorted closest-first (descending score).
        for w in nbrs.windows(2) {
            assert!(
                value(w[0].score) >= value(w[1].score),
                "expected descending score: got {:?}",
                nbrs
            );
        }
        // No self-loops, no duplicates.
        let mut seen = std::collections::HashSet::new();
        for c in nbrs {
            assert_ne!(c.idx as usize, u, "self-loop for point {u}");
            assert!(seen.insert(c.idx), "duplicate neighbor idx={}", c.idx);
            assert_eq!(c.score, score_pair(u as PointOffsetType, c.idx));
        }
    }

    let non_empty = layer0.iter().filter(|nbrs| !nbrs.is_empty()).count();
    assert!(
        non_empty > N * 9 / 10,
        "expected most alive points to have neighbors, got {non_empty}/{N}",
    );
}

#[test]
fn test_layer0_refinement_reuses_scorer_per_worker_chunk() {
    const N: usize = 96;
    const D: usize = 8;

    struct CountingScorer {
        data: Arc<Vec<[f32; D]>>,
        score_count: Arc<AtomicUsize>,
    }

    impl PairScorer for CountingScorer {
        fn score_pair(&mut self, a: PointOffsetType, b: PointOffsetType) -> Score {
            self.score_count.fetch_add(1, Ordering::Relaxed);
            let va = &self.data[a as usize];
            let vb = &self.data[b as usize];
            let mut s = 0.0_f32;
            for k in 0..D {
                let d = va[k] - vb[k];
                s += d * d;
            }
            score(-s)
        }
    }

    let data = Arc::new(
        (0..N)
            .map(|i| {
                let mut v = [0.0; D];
                for (k, value) in v.iter_mut().enumerate() {
                    *value = (i * 17 + k * 31) as f32 / 100.0;
                }
                v
            })
            .collect::<Vec<_>>(),
    );
    let scorer_init_count = Arc::new(AtomicUsize::new(0));
    let score_count = Arc::new(AtomicUsize::new(0));

    let make_scorer = || {
        scorer_init_count.fetch_add(1, Ordering::Relaxed);
        Ok(CountingScorer {
            data: Arc::clone(&data),
            score_count: Arc::clone(&score_count),
        })
    };

    let stopped = AtomicBool::new(false);
    let params = RefinementParams {
        s: 12,
        r: 2,
        iter: 4,
        num_reverse_edges: 48,
        seed: 7,
    };

    build_layer0(N, &params, 4, |_| true, make_scorer, &stopped).expect("build ok");

    let scorer_inits = scorer_init_count.load(Ordering::Relaxed);
    let scores = score_count.load(Ordering::Relaxed);
    assert!(scores > N * params.s);
    assert!(
        scorer_inits * 20 < scores,
        "expected scorer reuse per worker chunk, got {scorer_inits} scorer initializations for {scores} scores",
    );
}

/// Points on a line.
fn line_score(positions: &'static [f32]) -> impl Fn(PointOffsetType, PointOffsetType) -> Score {
    move |a, b| score(-(positions[a as usize] - positions[b as usize]).abs())
}

fn neighbors(list: &[ScoredPointOffset]) -> Vec<(u32, f32)> {
    list.iter().map(|n| (n.idx, value(n.score))).collect()
}

#[test]
fn three_points_on_a_line_become_a_path() {
    for r in [1, 2, 3] {
        let params = RefinementParams { s: 3, r, iter: 2, num_reverse_edges: 8, seed: 1 };
        let layer0 = build_layer0(
            3,
            &params,
            1,
            |_| true,
            || Ok(line_score(&[0.0, 1.0, 3.0])),
            &NeverStopped,
        )
        .unwrap();
        assert_eq!(neighbors(&layer0[0]), [(1, -1.0)]);
        assert_eq!(neighbors(&layer0[1]), [(0, -1.0), (2, -2.0)]);
        assert_eq!(neighbors(&layer0[2]), [(1, -2.0)]);
    }
}

#[test]
fn dead_points_have_no_neighbors_and_are_none() {
    let params = RefinementParams { s: 2, r: 2, iter: 2, num_reverse_edges: 8, seed: 1 };
    let layer0 = build_layer0(
        6,
        &params,
        2,
        |p| p != 1 && p != 4,
        || Ok(line_score(&[0.0, 1.0, 2.0, 3.0, 4.0, 5.0])),
        &NeverStopped,
    )
    .unwrap();
    assert_eq!(layer0.len(), 6);
    assert!(layer0[1].is_empty());
    assert!(layer0[4].is_empty());
    for list in &layer0 {
        assert!(list.iter().all(|n| n.idx != 1 && n.idx != 4));
    }
}

#[test]
fn a_single_live_point_has_no_neighbors() {
    let params = RefinementParams::default();
    let layer0 = build_layer0(
        4,
        &params,
        3,
        |p| p == 2,
        || Ok(line_score(&[0.0, 1.0, 2.0, 3.0])),
        &NeverStopped,
    )
    .unwrap();
    assert_eq!(layer0, vec![Vec::new(); 4]);
}

#[test]
fn no_live_point_needs_no_scorer() {
    let params = RefinementParams::default();
    let layer0 =
        build_layer0(3, &params, 1, |_| false, failing_scorer_factory, &NeverStopped).unwrap();
    assert_eq!(layer0, vec![Vec::new(); 3]);
    let nothing =
        build_layer0(0, &params, 1, |_| true, failing_scorer_factory, &NeverStopped).unwrap();
    assert!(nothing.is_empty());
}

fn refusal(num_points: usize, params: RefinementParams) -> String {
    match build_layer0(
        num_points,
        &params,
        1,
        |_| true,
        failing_scorer_factory,
        &NeverStopped,
    ) {
        Err(OperationError::ServiceError { description }) => description,
        other => panic!("expected a service error, got {other:?}"),
    }
}

#[test]
fn impossible_requests_are_refused() {
    let good = RefinementParams::default();
    assert_eq!(
        refusal(u32::MAX as usize + 1, RefinementParams { s: 0, ..good }),
        "MIRAGE: too many vectors for PointOffsetType"
    );
    assert_eq!(
        refusal(1, RefinementParams { s: 0, r: 0, ..good }),
        "MIRAGE: refinement parameter S must be > 0"
    );
    assert_eq!(
        refusal(1, RefinementParams { r: 0, ..good }),
        "MIRAGE: refinement parameters R and iter must both be > 0"
    );
    assert_eq!(
        refusal(1, RefinementParams { iter: 0, ..good }),
        "MIRAGE: refinement parameters R and iter must both be > 0"
    );
    // Without points the parameters do not matter.
    let none = RefinementParams { s: 0, r: 0, iter: 0, num_reverse_edges: 0, seed: 0 };
    assert!(build_layer0(0, &none, 1, |_| true, failing_scorer_factory, &NeverStopped).is_ok());
}

#[test]
fn a_raised_flag_cancels() {
    let stopped = AtomicBool::new(true);
    let params = RefinementParams::default();
    let result = build_layer0(
        4,
        &params,
        1,
        |_| true,
        || Ok(line_score(&[0.0, 1.0, 2.0, 3.0])),
        &stopped,
    );
    assert_eq!(result, Err(OperationError::Cancelled));
    assert_eq!(check_process_stopped(&stopped), Err(OperationError::Cancelled));
    stopped.store(false, Ordering::Relaxed);
    assert_eq!(check_process_stopped(&stopped), Ok(()));
    assert_eq!(check_process_stopped(&NeverStopped), Ok(()));
    assert_eq!(stop_result(true), Err(OperationError::Cancelled));
    assert_eq!(stop_result(false), Ok(()));
}

#[test]
fn default_parameters() {
    let params = RefinementParams::default();
    assert_eq!(
        params,
        RefinementParams { s: 16, r: 4, iter: 15, num_reverse_edges: 96, seed: 2021 }
    );
}

#[test]
fn recall_counts_from_ten_times_s() {
    assert!(!recall_acceptance_eligible(100, 0));
    assert!(!recall_acceptance_eligible(159, 16));
    assert!(recall_acceptance_eligible(160, 16));
    assert!(!recall_acceptance_eligible(usize::MAX, usize::MAX / 2));
}

#[test]
fn chunks_follow_one_another() {
    assert_eq!(chunk_bounds(0, 3, 10), (0, 4));
    assert_eq!(chunk_bounds(1, 3, 10), (4, 7));
    assert_eq!(chunk_bounds(2, 3, 10), (7, 10));
    assert_eq!(chunk_bounds(1, 2, 0), (0, 0));
    assert_eq!(effective_workers(0, 5), 1);
    assert_eq!(effective_workers(8, 5), 5);
    assert_eq!(effective_workers(2, 5), 2);
    assert_eq!(effective_workers(4, 0), 1);
}

#[test]
fn samples_of_nothing_are_empty_and_draw_nothing() {
    let mut rng = FaissMt19937::new(5489);
    assert!(gen_random_mirage_style(&mut rng, 0, 10).is_empty());
    assert!(gen_random_mirage_style(&mut rng, 3, 0).is_empty());
    assert_eq!(rng.next_u32(), 3_499_211_612);
}

#[test]
fn a_sample_is_sorted_spread_and_rotated() {
    // The first draws are 3499211612, 581869302 and 3890346734. With 2 out of 5,
    // they pick 2 and 0 below 3, in order 0 and 2, and rotate them by 4.
    let mut rng = FaissMt19937::new(5489);
    assert_eq!(3_499_211_612_u32 % 3, 2);
    assert_eq!(581_869_302_u32 % 3, 0);
    assert_eq!(3_890_346_734_u32 % 5, 4);
    assert_eq!(gen_random_mirage_style(&mut rng, 2, 5), [4, 1]);
    assert_eq!(rng.next_u32(), 3_586_334_585);
}

fn candidate(idx: u32, value: f32, new_flag: bool) -> Candidate {
    Candidate { idx, score: score(value), new_flag }
}

#[test]
fn refinement_hands_the_longest_edge_on() {
    // 0 and 1 are close, 2 is closer to 1 than to 0.
    let mut scorer = line_score(&[0.0, 1.0, 3.0]);
    let pool = vec![
        candidate(2, -3.0, true),
        candidate(1, -1.0, true),
        candidate(1, -1.0, true),
        candidate(0, 0.0, true),
    ];
    let (kept, handed) = refine_vertex(0, pool, &[0, 1, 2], &mut scorer);
    assert_eq!(kept, [candidate(1, -1.0, false)]);
    assert_eq!(handed.len(), 1);
    assert_eq!(handed[0].to, 1);
    assert_eq!(handed[0].candidate, candidate(2, -2.0, true));
}

#[test]
fn settled_pairs_are_not_compared_again() {
    let mut scorer = line_score(&[0.0, 1.0, 3.0]);
    let pool = vec![candidate(1, -1.0, false), candidate(2, -3.0, false)];
    let (kept, handed) = refine_vertex(0, pool, &[0, 1, 2], &mut scorer);
    assert_eq!(kept, [candidate(1, -1.0, false), candidate(2, -3.0, false)]);
    assert!(handed.is_empty());
}

#[test]
fn update_round_refines_in_turn() {
    let mut pools = empty_pools(3, 8);
    pools[0].inner = vec![candidate(1, -1.0, true), candidate(2, -3.0, true)];
    pools[1].inner = vec![candidate(0, -1.0, true), candidate(2, -2.0, true)];
    pools[2].inner = vec![candidate(1, -2.0, true), candidate(0, -3.0, true)];
    let make_scorer = || Ok(line_score(&[0.0, 1.0, 3.0]));
    update_round(1, &[0, 1, 2], &mut pools, &make_scorer, &NeverStopped).unwrap();
    assert_eq!(pools[0].inner, [candidate(1, -1.0, false)]);
    // What point 2 hands on arrives after point 1 was refined.
    assert_eq!(
        pools[1].inner,
        [
            candidate(0, -1.0, false),
            candidate(2, -2.0, false),
            candidate(0, -1.0, true)
        ]
    );
    assert_eq!(pools[2].inner, [candidate(1, -2.0, false)]);
}

#[test]
fn reverse_edges_become_mutual() {
    let mut pools = empty_pools(3, 8);
    pools[0].inner = vec![candidate(1, -1.0, false), candidate(2, -3.0, false)];
    add_reverse_edges(&mut pools, 8, &NeverStopped).unwrap();
    assert_eq!(
        pools[0].inner,
        [candidate(1, -1.0, false), candidate(2, -3.0, false)]
    );
    assert_eq!(pools[1].inner, [candidate(0, -1.0, true)]);
    assert_eq!(pools[2].inner, [candidate(0, -3.0, true)]);
}

#[test]
fn reverse_edges_are_capped() {
    let positions: [f32; 6] = [0.0, 1.0, 2.0, 3.0, 4.0, 5.0];
    let mut pools = empty_pools(6, 8);
    for u in 0..6_usize {
        for v in 0..6_usize {
            if u != v {
                let distance = (positions[u] - positions[v]).abs();
                pools[u].inner.push(candidate(v as u32, -distance, true));
            }
        }
    }
    add_reverse_edges(&mut pools, 2, &NeverStopped).unwrap();
    for pool in &pools {
        assert!(pool.inner.len() <= 2);
        assert!(pool
            .inner
            .windows(2)
            .all(|w| value(w[0].score) >= value(w[1].score)));
    }
}

#[test]
fn merging_keeps_the_closest_of_each_point() {
    let incoming = vec![candidate(3, -2.0, false), candidate(1, -1.0, false)];
    let own = vec![candidate(2, -0.5, false), candidate(4, -9.0, false)];
    assert_eq!(
        merge_edges(incoming, own, 3),
        [
            candidate(2, -0.5, true),
            candidate(1, -1.0, false),
            candidate(3, -2.0, false)
        ]
    );
}

#[test]
fn trimming_sorts_and_cuts() {
    let pool = vec![
        candidate(3, -2.0, false),
        candidate(1, -1.0, false),
        candidate(2, -1.0, true),
    ];
    assert_eq!(
        trim_pool(pool, 2),
        [candidate(1, -1.0, false), candidate(2, -1.0, true)]
    );
}

#[test]
fn edges_turn_round() {
    let handed = turned_edges(7, &vec![candidate(3, -2.0, true)]);
    assert_eq!(handed.len(), 1);
    assert_eq!(handed[0].to, 3);
    assert_eq!(handed[0].candidate, candidate(7, -2.0, true));
}

#[test]
fn final_lists_leave_out_the_point_repeats_and_strangers() {
    let pool = vec![
        candidate(2, -2.0, true),
        candidate(0, 0.0, true),
        candidate(1, -1.0, true),
        candidate(2, -2.0, false),
        candidate(9, -0.5, true),
    ];
    let list = final_list(0, pool, &[10, 11, 12]);
    assert_eq!(neighbors(&list), [(11, -1.0), (12, -2.0)]);
}

#[test]
fn live_points_are_listed_in_order() {
    let live = live_points(5, &|p| p % 2 == 1);
    assert_eq!(live.flags, [false, true, false, true, false]);
    assert_eq!(live.ids, [1, 3]);
}

#[test]
fn reverse_edges_come_between_rounds() {
    let mut steps = vec![RefinementStep::Initialize];
    while *steps.last().unwrap() != RefinementStep::Finalize {
        steps.push(next_step(*steps.last().unwrap(), 2, 2));
    }
    assert_eq!(
        steps,
        [
            RefinementStep::Initialize,
            RefinementStep::Update { round: 0, pass: 0 },
            RefinementStep::Update { round: 0, pass: 1 },
            RefinementStep::AddReverseEdges { round: 0 },
            RefinementStep::Update { round: 1, pass: 0 },
            RefinementStep::Update { round: 1, pass: 1 },
            RefinementStep::Finalize,
        ]
    );
}

#[test]
fn no_point_is_isolated_with_room_for_all() {
    const N: usize = 40;
    let data: Vec<f32> = (0..N).map(|i| ((i * 37 + 11) % 101) as f32).collect();
    let score_pair = |a: u32, b: u32| -> Score { score(-(data[a as usize] - data[b as usize]).abs()) };
    let params = RefinementParams { s: 2, r: 3, iter: 3, num_reverse_edges: N, seed: 5 };
    let layer0 =
        build_layer0(N, &params, 3, |_| true, || Ok(&score_pair), &NeverStopped).unwrap();
    assert!(layer0.iter().all(|list| !list.is_empty()));
}

#[test]
fn a_raised_flag_leaves_the_pools_without_reverse_edges() {
    let mut pools = empty_pools(3, 8);
    pools[0].inner = vec![candidate(1, -1.0, false), candidate(2, -3.0, true)];
    let before: Vec<Vec<Candidate>> = pools.iter().map(|pool| pool.inner.clone()).collect();
    let stopped = AtomicBool::new(true);
    assert_eq!(
        add_reverse_edges(&mut pools, 8, &stopped),
        Err(OperationError::Cancelled)
    );
    let after: Vec<Vec<Candidate>> = pools.iter().map(|pool| pool.inner.clone()).collect();
    assert_eq!(after, before);
    // Without a pool nothing is asked.
    assert_eq!(add_reverse_edges(&mut Vec::new(), 8, &stopped), Ok(()));
}

#[test]
fn a_raised_flag_cancels_each_step() {
    let stopped = AtomicBool::new(true);
    let make_scorer = || Ok(line_score(&[0.0, 1.0, 3.0]));
    let mut pools = empty_pools(3, 8);
    assert_eq!(
        init_random_graph(&[0, 1, 2], 8, 1, 1, &mut pools, &make_scorer, &stopped),
        Err(OperationError::Cancelled)
    );
    assert_eq!(
        update_round(1, &[0, 1, 2], &mut pools, &make_scorer, &stopped),
        Err(OperationError::Cancelled)
    );
    // One point alone has nothing to connect to, so nothing is asked.
    let mut single = empty_pools(1, 8);
    assert_eq!(
        init_random_graph(&[0], 8, 1, 1, &mut single, &make_scorer, &stopped),
        Ok(())
    );
}

#[test]
fn reverse_edges_with_room_lose_nothing_and_settle() {
    let mut pools = empty_pools(4, 8);
    // Point 2 leads to itself, and 0 and 1 lead to one another.
    pools[0].inner = vec![candidate(1, -1.0, true), candidate(3, -4.0, false)];
    pools[1].inner = vec![candidate(0, -1.0, false)];
    pools[2].inner = vec![candidate(2, 0.0, true), candidate(3, -1.0, true)];
    let lists = |pools: &Vec<Pool>| -> Vec<Vec<(u32, f32)>> {
        pools
            .iter()
            .map(|pool| pool.inner.iter().map(|c| (c.idx, value(c.score))).collect())
            .collect()
    };
    add_reverse_edges(&mut pools, 4, &NeverStopped).unwrap();
    let once = lists(&pools);
    assert_eq!(
        once,
        [
            vec![(1, -1.0), (3, -4.0)],
            vec![(0, -1.0)],
            vec![(2, 0.0), (3, -1.0)],
            vec![(2, -1.0), (0, -4.0)],
        ]
    );
    add_reverse_edges(&mut pools, 4, &NeverStopped).unwrap();
    assert_eq!(lists(&pools), once);
}

#[test]
fn two_runs_give_the_same_lists() {
    const N: usize = 120;
    // Many pairs of points have the same distance.
    let data: Vec<f32> = (0..N).map(|i| ((i * 7) % 20) as f32).collect();
    let score_pair = |a: u32, b: u32| -> Score { score(-(data[a as usize] - data[b as usize]).abs()) };
    let params = RefinementParams { s: 8, r: 3, iter: 4, num_reverse_edges: 24, seed: 2021 };
    let run = || build_layer0(N, &params, 2, |_| true, || Ok(&score_pair), &NeverStopped).unwrap();
    let first = run();
    assert_eq!(run(), first);
    assert!(first.iter().all(|list| list.len() < N));
}

/// A scorer that must not be asked.
struct MuteScorer;

impl PairScorer for MuteScorer {
    fn score_pair(&mut self, a: PointOffsetType, b: PointOffsetType) -> Score {
        panic!("asked for the score of {a} and {b}")
    }
}

#[test]
fn a_single_live_point_is_not_scored() {
    let params = RefinementParams { s: 4, r: 3, iter: 3, num_reverse_edges: 8, seed: 1 };
    let lists = build_layer0(9, &params, 2, |p| p == 3, || Ok(MuteScorer), &NeverStopped);
    assert_eq!(lists, Ok(vec![Vec::new(); 9]));
}

#[test]
fn no_point_is_scored_with_itself() {
    let score_pair = |a: u32, b: u32| -> Score {
        assert_ne!(a, b);
        score(-(a as f32 - b as f32).abs())
    };
    for s in [3, 40] {
        let params = RefinementParams { s, r: 3, iter: 3, num_reverse_edges: 8, seed: 1 };
        let lists =
            build_layer0(30, &params, 2, |_| true, || Ok(&score_pair), &NeverStopped).unwrap();
        assert_eq!(lists.len(), 30);
    }
}

#[test]
fn a_scorer_may_keep_a_state() {
    let mut asked = 0;
    let pool = vec![
        candidate(1, -1.0, true),
        candidate(2, -3.0, true),
        candidate(1, -1.0, true),
    ];
    let mut scorer = |a: u32, b: u32| -> Score {
        asked += 1;
        let positions = [0.0_f32, 1.0, 3.0];
        score(-(positions[a as usize] - positions[b as usize]).abs())
    };
    let (kept, handed) = refine_vertex(0, pool, &[0, 1, 2], &mut scorer);
    assert_eq!(kept, [candidate(1, -1.0, false)]);
    assert_eq!(handed.len(), 1);
    assert_eq!(asked, 1);
}

#[test]
fn two_runs_agree_under_a_lopsided_score() {
    // The score of a pair depends on which point comes first.
    let score_pair = |a: u32, b: u32| -> Score { score(-((a * 31 + b * 17) as f32 % 23.0)) };
    let params = RefinementParams { s: 6, r: 3, iter: 4, num_reverse_edges: 12, seed: 9 };
    let run = || build_layer0(80, &params, 3, |_| true, || Ok(&score_pair), &NeverStopped).unwrap();
    assert_eq!(run(), run());
}
