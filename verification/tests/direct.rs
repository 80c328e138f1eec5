//! The refinement against a direct one in floating point.

use mirage_index::faiss_random::FaissMt19937;
use mirage_index::operation_error::NeverStopped;
use mirage_index::refinement_builder::{
    add_reverse_edges, build_layer0, chunk_bounds, empty_pools, gen_random_mirage_style,
    init_random_graph, update_round, RefinementParams,
};
use mirage_index::score::Score;

#[derive(Clone, Copy)]
struct Near {
    idx: usize,
    score: f32,
    new: bool,
}

fn sort(pool: &mut [Near]) {
    pool.sort_by(|a, b| b.score.total_cmp(&a.score).then(a.idx.cmp(&b.idx)));
}

fn vectors(n: usize, dim: usize) -> Vec<Vec<f32>> {
    (0..n)
        .map(|i| {
            (0..dim)
                .map(|d| {
                    let raw = ((i + 1) * 37 + (d + 3) * 17 + (i * d) * 13) % 1009;
                    (raw as f32 - 504.0) / 100.0
                })
                .collect()
        })
        .collect()
}

fn l2_score(vectors: &[Vec<f32>], a: usize, b: usize) -> f32 {
    -vectors[a]
        .iter()
        .zip(&vectors[b])
        .map(|(left, right)| {
            let diff = left - right;
            diff * diff
        })
        .sum::<f32>()
}

/// The initial graph, drawn chunk by chunk.
fn start(vectors: &[Vec<f32>], params: &RefinementParams, threads: usize) -> Vec<Vec<Near>> {
    let n = vectors.len();
    let mut pools: Vec<Vec<Near>> = vec![Vec::new(); n];
    for t in 0..threads {
        let (from, to) = chunk_bounds(t, threads, n);
        let seed = params.seed.wrapping_mul(7741).wrapping_add(t as u64) as u32;
        let mut rng = FaissMt19937::new(seed);
        for u in from..to {
            for v in gen_random_mirage_style(&mut rng, params.s, n) {
                if v != u {
                    let score = l2_score(vectors, u, v);
                    pools[u].push(Near { idx: v, score, new: true });
                }
            }
            sort(&mut pools[u]);
        }
    }
    pools
}

fn update(vectors: &[Vec<f32>], pools: &mut [Vec<Near>]) {
    for u in 0..pools.len() {
        let mut pool = std::mem::take(&mut pools[u]);
        sort(&mut pool);
        pool.dedup_by_key(|c| c.idx);
        let mut kept: Vec<Near> = Vec::new();
        'candidate: for nn in pool {
            if nn.idx == u {
                continue;
            }
            for other in &kept {
                if !nn.new && !other.new {
                    continue;
                }
                let score = l2_score(vectors, nn.idx, other.idx);
                if score > nn.score {
                    pools[other.idx].push(Near { idx: nn.idx, score, new: true });
                    continue 'candidate;
                }
            }
            kept.push(nn);
        }
        for c in &mut kept {
            c.new = false;
        }
        pools[u] = kept;
    }
}

fn turn(from: &[Vec<Near>]) -> Vec<Vec<Near>> {
    let mut to: Vec<Vec<Near>> = vec![Vec::new(); from.len()];
    for (u, pool) in from.iter().enumerate() {
        for nn in pool {
            to[nn.idx].push(Near { idx: u, score: nn.score, new: nn.new });
        }
    }
    to
}

fn reverse(pools: &mut Vec<Vec<Near>>, cap: usize) {
    let mut merged = turn(pools);
    for (u, pool) in merged.iter_mut().enumerate() {
        pool.extend(pools[u].iter().map(|c| Near { new: true, ..*c }));
        sort(pool);
        pool.dedup_by_key(|c| c.idx);
        pool.truncate(cap);
    }
    *pools = turn(&merged);
    for pool in pools {
        sort(pool);
        pool.truncate(cap);
    }
}

fn direct(vectors: &[Vec<f32>], params: &RefinementParams, threads: usize) -> Vec<Vec<(u32, f32)>> {
    let mut pools = start(vectors, params, threads);
    for round in 0..params.r {
        for _ in 0..params.iter {
            update(vectors, &mut pools);
        }
        if round + 1 < params.r {
            reverse(&mut pools, params.num_reverse_edges);
        }
    }
    for pool in &mut pools {
        sort(pool);
        pool.dedup_by_key(|c| c.idx);
    }
    pools
        .iter()
        .map(|pool| pool.iter().map(|c| (c.idx as u32, c.score)).collect())
        .collect()
}

#[test]
fn agrees_with_a_direct_refinement() {
    for (n, s, r, iter, cap, seed, threads) in [
        (64, 8, 3, 4, 24, 2021, 1),
        (64, 16, 2, 3, 96, 2021, 3),
        (150, 12, 4, 5, 10, 7, 4),
        (33, 2, 2, 2, 3, 1, 33),
    ] {
        let data = vectors(n, 8);
        let params = RefinementParams { s, r, iter, num_reverse_edges: cap, seed };
        let score =
            |a: u32, b: u32| Score::from_bits(l2_score(&data, a as usize, b as usize).to_bits());
        let layer0 =
            build_layer0(n, &params, threads, |_| true, || Ok(&score), &NeverStopped).unwrap();
        let actual: Vec<Vec<(u32, f32)>> = layer0
            .iter()
            .map(|list| {
                list.iter()
                    .map(|c| (c.idx, f32::from_bits(c.score.to_bits())))
                    .collect()
            })
            .collect();
        assert_eq!(actual, direct(&data, &params, threads));
    }
}

#[test]
fn random_graphs_start_regular_and_never_run_empty() {
    const N: usize = 60;
    const S: usize = 5;
    let data = vectors(N, 4);
    let score =
        |a: u32, b: u32| Score::from_bits(l2_score(&data, a as usize, b as usize).to_bits());
    let make_scorer = || Ok(&score);
    let alive: Vec<u32> = (0..N as u32).collect();
    let mut pools = empty_pools(N, S);
    init_random_graph(&alive, S, 9, 4, &mut pools, &make_scorer, &NeverStopped).unwrap();
    for (u, pool) in pools.iter().enumerate() {
        assert!(pool.inner.len() == S || pool.inner.len() == S - 1);
        assert!(pool.inner.iter().all(|c| c.idx as usize != u && c.new_flag));
    }
    for _ in 0..3 {
        update_round(2, &alive, &mut pools, &make_scorer, &NeverStopped).unwrap();
        assert!(pools.iter().all(|pool| !pool.inner.is_empty()));
    }
    add_reverse_edges(&mut pools, 6, &NeverStopped).unwrap();
    for pool in &pools {
        let mut ids: Vec<u32> = pool.inner.iter().map(|c| c.idx).collect();
        ids.sort_unstable();
        ids.dedup();
        assert_eq!(ids.len(), pool.inner.len());
        assert!(ids.len() <= 6);
    }
}
