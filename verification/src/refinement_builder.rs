//! Layer 0 refinement-based builder for MIRAGE.

use vstd::prelude::*;
use crate::candidate::{
    cap_pool, dedup_pool, flag_pool, sort_pool, Candidate, PointOffsetType, ScoredPointOffset,
};
use crate::faiss_random::FaissMt19937;
use crate::layer0_model::{HandedOn, RefinementStep};
use crate::operation_error::{check_process_stopped, OperationError, OperationResult, StopSignal};
use crate::score::Score;

verus! {

/// A source of similarity scores between points.
pub trait PairScorer {
    /// Whether the score of `a` and `b` can be asked for.
    open spec fn can_score(&self, a: PointOffsetType, b: PointOffsetType) -> bool {
        true
    }

    /// The score of `a` and `b`, the same at every call.
    open spec fn pair_score(&self, a: PointOffsetType, b: PointOffsetType) -> Score {
        arbitrary()
    }

    /// Scores the pair `a` and `b`.
    fn score_pair(&mut self, a: PointOffsetType, b: PointOffsetType) -> (score: Score)
        requires
            old(self).can_score(a, b),
        ensures
            score == old(self).pair_score(a, b),
            forall|x: PointOffsetType, y: PointOffsetType|
                #![trigger final(self).can_score(x, y)]
                final(self).can_score(x, y) == old(self).can_score(x, y),
            forall|x: PointOffsetType, y: PointOffsetType|
                #![trigger final(self).pair_score(x, y)]
                final(self).pair_score(x, y) == old(self).pair_score(x, y),
    ;
}

/// A function of two points is a scorer where it has exactly one result.
impl<F> PairScorer for F where F: FnMut(PointOffsetType, PointOffsetType) -> Score {
    open spec fn can_score(&self, a: PointOffsetType, b: PointOffsetType) -> bool {
        &&& call_requires(*self, (a, b))
        &&& forall|one: Score, two: Score|
            call_ensures(*self, (a, b), one) && call_ensures(*self, (a, b), two) ==> one == two
    }

    open spec fn pair_score(&self, a: PointOffsetType, b: PointOffsetType) -> Score {
        choose|score: Score| call_ensures(*self, (a, b), score)
    }

    fn score_pair(&mut self, a: PointOffsetType, b: PointOffsetType) -> (score: Score) {
        (*self)(a, b)
    }
}

/// Whether the initial graph is a random one: with `n_alive` points that are no
/// more than `s`, each is connected to all others instead.
pub fn cpp_parity_eligible(n_alive: usize, s: usize) -> (eligible: bool)
    ensures
        eligible == (n_alive > s),
{
    n_alive > s
}

/// Whether a data set is large enough for its recall to be reported.
pub fn recall_acceptance_eligible(n_alive: usize, s: usize) -> (eligible: bool)
    ensures
        eligible == (s > 0 && n_alive > s && n_alive >= 10 * s),
{
    s > 0 && cpp_parity_eligible(n_alive, s) && s <= n_alive / 10
}

/// The points `start..end` that worker `thread_id` of `num_threads` takes of `len`.
pub fn chunk_bounds(thread_id: usize, num_threads: usize, len: usize) -> (bounds: (usize, usize))
    requires
        thread_id < num_threads,
    ensures
        bounds.0 == crate::layer0_model::chunk_start(
            thread_id as nat,
            num_threads as nat,
            len as nat,
        ),
        bounds.1 == crate::layer0_model::chunk_start(
            (thread_id + 1) as nat,
            num_threads as nat,
            len as nat,
        ),
        bounds.0 <= bounds.1 <= len,
{
    let base: usize = len / num_threads;
    let rem: usize = len % num_threads;
    proof {
        vstd::arithmetic::div_mod::lemma_fundamental_div_mod(len as int, num_threads as int);
        assert((thread_id + 1) * base == thread_id * base + base) by (nonlinear_arith);
        assert((thread_id + 1) * base <= num_threads * base) by (nonlinear_arith)
            requires
                thread_id + 1 <= num_threads,
                0 <= base,
        ;
        assert(thread_id * base >= 0) by (nonlinear_arith)
            requires
                0 <= base,
                0 <= thread_id,
        ;
    }
    let start: usize = thread_id * base + if thread_id < rem { thread_id } else { rem };
    let end: usize = start + base + if thread_id < rem { 1 } else { 0 };
    (start, end)
}

/// Sorts by `slice::sort_unstable`, of which it claims that the values are kept and
/// ascend.
#[verifier::external_body]
fn sort_values(values: &mut Vec<usize>)
    ensures
        final(values)@.to_multiset() == old(values)@.to_multiset(),
        forall|i: int, j: int|
            0 <= i <= j < final(values)@.len() ==> final(values)@[i] <= final(values)@[j],
{
    values.sort_unstable();
}

/// The values of `values` as integers.
pub open spec fn as_ints(values: Seq<usize>) -> Seq<int> {
    values.map_values(|value: usize| value as int)
}

/// A value occurs as often among the integers as among the values.
proof fn lemma_int_counts(values: Seq<usize>, v: int)
    ensures
        as_ints(values).to_multiset().count(v) == if 0 <= v <= usize::MAX {
            values.to_multiset().count(v as usize)
        } else {
            0
        },
    decreases values.len(),
{
    broadcast use vstd::seq_lib::group_to_multiset_ensures;

    if values.len() == 0 {
        assert(as_ints(values) =~= Seq::<int>::empty());
        assert(values =~= Seq::<usize>::empty());
    } else {
        let shorter = values.drop_last();
        lemma_int_counts(shorter, v);
        assert(values =~= shorter.push(values.last()));
        assert(as_ints(values) =~= as_ints(shorter).push(values.last() as int));
    }
}

/// Putting values in ascending order has one result.
proof fn lemma_sorted_values(before: Seq<usize>, sorted: Seq<usize>)
    requires
        sorted.to_multiset() == before.to_multiset(),
        forall|i: int, j: int| 0 <= i <= j < sorted.len() ==> sorted[i] <= sorted[j],
    ensures
        as_ints(sorted) == as_ints(before).sort(),
{
    broadcast use vstd::seq_lib::group_to_multiset_ensures;

    let leq = |x: int, y: int| x <= y;
    as_ints(before).lemma_sort_ensures();
    assert forall|v: int|
        as_ints(sorted).to_multiset().count(v) == as_ints(before).to_multiset().count(v) by {
        lemma_int_counts(sorted, v);
        lemma_int_counts(before, v);
    }
    assert(as_ints(sorted).to_multiset() =~= as_ints(before).to_multiset());
    assert(vstd::relations::sorted_by(as_ints(sorted), leq));
    vstd::seq_lib::lemma_sorted_unique(as_ints(sorted), as_ints(before).sort(), leq);
}

/// Raises every value that does not pass the one before it to the next.
fn spread_values(values: &mut Vec<usize>, bound: usize)
    requires
        old(values)@.len() > 0,
        bound + old(values)@.len() <= usize::MAX,
        forall|i: int| 0 <= i < old(values)@.len() ==> #[trigger] old(values)@[i] < bound,
        forall|i: int, j: int|
            0 <= i <= j < old(values)@.len() ==> old(values)@[i] <= old(values)@[j],
    ensures
        as_ints(final(values)@) == crate::layer0_model::spread(as_ints(old(values)@)),
{
    let ghost sorted = as_ints(values@);
    proof {
        crate::layer0_model::lemma_spread(sorted, bound as int);
    }
    let mut i: usize = 1;
    assert(as_ints(values@).take(1) =~= crate::layer0_model::spread(sorted.take(1)));
    while i < values.len()
        invariant
            1 <= i <= values@.len(),
            values@.len() == sorted.len(),
            bound + sorted.len() <= usize::MAX,
            forall|j: int| 0 <= j < sorted.len() ==> 0 <= #[trigger] sorted[j] < bound,
            forall|j: int, k: int| 0 <= j <= k < sorted.len() ==> sorted[j] <= sorted[k],
            as_ints(values@).take(i as int) == crate::layer0_model::spread(sorted.take(i as int)),
            forall|j: int| i <= j < values@.len() ==> values@[j] == sorted[j],
        decreases values@.len() - i,
    {
        let ghost before = values@;
        proof {
            crate::layer0_model::lemma_spread_prefix(sorted, i as int);
            crate::layer0_model::lemma_spread(sorted.take(i as int), bound as int);
            assert(as_ints(before).take(i as int).last() == before[i - 1]);
        }
        if values[i] <= values[i - 1] {
            values[i] = values[i - 1] + 1;
        }
        i = i + 1;
        assert(as_ints(values@).take(i as int) =~= as_ints(before).take(i - 1).push(
            values@[i - 1] as int,
        ));
    }
    assert(as_ints(values@).take(i as int) =~= as_ints(values@));
    assert(sorted.take(i as int) =~= sorted);
}

/// Rotates every value below `n` by `offset`.
fn rotate_values(values: &Vec<usize>, offset: usize, n: usize) -> (rotated: Vec<usize>)
    requires
        offset < n,
        forall|i: int| 0 <= i < values@.len() ==> #[trigger] values@[i] < n,
    ensures
        as_ints(rotated@) == as_ints(values@).map_values(
            |value: int| (value + offset as int) % n as int,
        ),
{
    let mut rotated: Vec<usize> = Vec::new();
    while rotated.len() < values.len()
        invariant
            rotated@.len() <= values@.len(),
            offset < n,
            forall|i: int| 0 <= i < values@.len() ==> #[trigger] values@[i] < n,
            forall|i: int|
                0 <= i < rotated@.len() ==> rotated@[i] == (values@[i] as int + offset as int)
                    % n as int,
        decreases values@.len() - rotated@.len(),
    {
        let value: usize = values[rotated.len()];
        proof {
            crate::layer0_model::lemma_rotation(value as int, offset as int, n as int);
        }
        if value < n - offset {
            rotated.push(value + offset);
        } else {
            rotated.push(value - (n - offset));
        }
    }
    assert(as_ints(rotated@) =~= as_ints(values@).map_values(
        |value: int| (value + offset as int) % n as int,
    ));
    rotated
}

/// Draws `size` distinct positions below `n`.
pub fn gen_random_mirage_style(rng: &mut FaissMt19937, size: usize, n: usize) -> (positions: Vec<
    usize,
>)
    requires
        size == 0 || n == 0 || size < n,
    ensures
        as_ints(positions@) == crate::layer0_model::sample(
            |k: nat| old(rng).stream(k),
            size as nat,
            n as nat,
        ),
        size == 0 || n == 0 ==> *final(rng) == *old(rng),
        size > 0 && n > 0 ==> final(rng).is_ahead_of(*old(rng), size as nat + 1),
{
    if size == 0 || n == 0 {
        let none: Vec<usize> = Vec::new();
        assert(as_ints(none@) =~= Seq::<int>::empty());
        return none;
    }
    let ghost draw = |k: nat| old(rng).stream(k);
    let upper: usize = n - size;
    let mut addr: Vec<usize> = Vec::new();
    while addr.len() < size
        invariant
            addr@.len() <= size,
            upper == n - size,
            0 < size < n,
            forall|k: nat| #[trigger] draw(k) == old(rng).stream(k),
            rng.is_ahead_of(*old(rng), addr@.len()),
            forall|i: int| 0 <= i < addr@.len() ==> addr@[i] == draw(i as nat) as int % (n - size),
        decreases size - addr@.len(),
    {
        assert(rng.stream(0) == old(rng).stream(0 + addr@.len()));
        let value: usize = rng.rand_int(upper);
        addr.push(value);
    }
    let ghost raw = addr@;
    assert(as_ints(raw) =~= crate::layer0_model::picks(draw, size as nat, n as nat));
    sort_values(&mut addr);
    let ghost sorted = as_ints(addr@);
    proof {
        lemma_sorted_values(raw, addr@);
        crate::layer0_model::lemma_sorted_picks(draw, size as nat, n as nat);
        crate::layer0_model::lemma_spread(sorted, n - size);
        assert forall|i: int, j: int| 0 <= i <= j < addr@.len() implies addr@[i] <= addr@[j] by {
            assert(sorted[i] <= sorted[j]);
        }
        assert forall|i: int| 0 <= i < addr@.len() implies #[trigger] addr@[i] < upper by {
            assert(sorted[i] < n - size);
        }
    }
    spread_values(&mut addr, upper);
    proof {
        assert forall|i: int| 0 <= i < addr@.len() implies #[trigger] addr@[i] < n by {
            assert(as_ints(addr@)[i] < n - size + i);
        }
        assert(rng.stream(0) == old(rng).stream(0 + size as nat));
    }
    let offset: usize = rng.rand_int(n);
    rotate_values(&addr, offset, n)
}

/// Per-vertex state during refinement.
pub struct Pool {
    /// Candidate neighbors, closest first after an update.
    pub inner: Vec<Candidate>,
}

impl Pool {
    /// An empty pool with room for `cap` candidates.
    pub fn with_capacity(cap: usize) -> (pool: Pool)
        requires
            cap * 12 <= isize::MAX,
        ensures
            pool.inner@ == Seq::<Candidate>::empty(),
    {
        Pool { inner: Vec::with_capacity(cap) }
    }
}

/// The graph that `pools` hold.
pub open spec fn graph_of(pools: Seq<Pool>) -> Seq<Seq<Candidate>> {
    pools.map_values(|pool: Pool| pool.inner@)
}

/// The scores that a scorer gives.
pub open spec fn score_of<S: PairScorer>(scorer: S) -> spec_fn(
    PointOffsetType,
    PointOffsetType,
) -> Score {
    |a: PointOffsetType, b: PointOffsetType| scorer.pair_score(a, b)
}

/// Whether two scorers score the same pairs alike.
pub open spec fn scores_alike<S: PairScorer>(one: S, two: S) -> bool {
    &&& forall|a: PointOffsetType, b: PointOffsetType|
        #![trigger two.can_score(a, b)]
        one.can_score(a, b) == two.can_score(a, b)
    &&& forall|a: PointOffsetType, b: PointOffsetType|
        #![trigger two.pair_score(a, b)]
        one.pair_score(a, b) == two.pair_score(a, b)
}

/// Whether a scorer can score all pairs of different places of `alive`.
pub open spec fn scores_all<S: PairScorer>(scorer: S, alive: Seq<PointOffsetType>) -> bool {
    forall|i: int, j: int|
        0 <= i < alive.len() && 0 <= j < alive.len() && i != j ==> scorer.can_score(
            #[trigger] alive[i],
            #[trigger] alive[j],
        )
}

/// Whether two scorers agree on all pairs of different places of `alive`.
pub open spec fn scores_agree<S: PairScorer>(one: S, two: S, alive: Seq<PointOffsetType>) -> bool {
    forall|i: int, j: int|
        0 <= i < alive.len() && 0 <= j < alive.len() && i != j ==> one.pair_score(
            #[trigger] alive[i],
            #[trigger] alive[j],
        ) == two.pair_score(alive[i], alive[j])
}

/// The scores of `scorer` between the points of `alive`, by their places.
pub open spec fn place_scores<S: PairScorer>(
    scorer: S,
    alive: Seq<PointOffsetType>,
) -> spec_fn(PointOffsetType, PointOffsetType) -> Score {
    crate::layer0_model::scores_between(alive, score_of(scorer))
}

/// Scorers that score alike give the same scores.
proof fn lemma_scores_alike<S: PairScorer>(one: S, two: S)
    requires
        scores_alike(one, two),
    ensures
        score_of(one) == score_of(two),
{
    assert(score_of(one) =~= score_of(two));
}

/// Makes the initial pool of the point at `u`: it proposes the points at
/// `positions`, except `u` itself, closest first.
pub fn initial_pool<S: PairScorer>(
    u: usize,
    positions: &Vec<usize>,
    alive_indices: &[PointOffsetType],
    scorer: &mut S,
) -> (pool: Vec<Candidate>)
    requires
        u < alive_indices@.len() <= u32::MAX,
        forall|i: int|
            0 <= i < positions@.len() ==> #[trigger] positions@[i] < alive_indices@.len(),
        scores_all(*old(scorer), alive_indices@),
    ensures
        crate::candidate::sorts_to(
            crate::layer0_model::proposals(
                u as int,
                as_ints(positions@),
                place_scores(*old(scorer), alive_indices@),
            ),
            pool@,
        ),
        scores_alike(*old(scorer), *final(scorer)),
{
    let ghost score = place_scores(*scorer, alive_indices@);
    let actual_u: PointOffsetType = alive_indices[u];
    let mut pool: Vec<Candidate> = Vec::new();
    let mut i: usize = 0;
    assert(as_ints(positions@).take(0) =~= Seq::<int>::empty());
    while i < positions.len()
        invariant
            i <= positions@.len(),
            u < alive_indices@.len() <= u32::MAX,
            actual_u == alive_indices@[u as int],
            score == place_scores(*old(scorer), alive_indices@),
            forall|j: int|
                0 <= j < positions@.len() ==> #[trigger] positions@[j] < alive_indices@.len(),
            scores_all(*old(scorer), alive_indices@),
            scores_alike(*old(scorer), *scorer),
            pool@ == crate::layer0_model::proposals(
                u as int,
                as_ints(positions@).take(i as int),
                score,
            ),
        decreases positions@.len() - i,
    {
        let place: usize = positions[i];
        assert(as_ints(positions@).take(i + 1).drop_last() =~= as_ints(positions@).take(i as int));
        if place != u {
            let actual: PointOffsetType = alive_indices[place];
            assert(old(scorer).can_score(alive_indices@[u as int], alive_indices@[place as int]));
            assert(scorer.can_score(actual_u, actual));
            let value: Score = scorer.score_pair(actual_u, actual);
            pool.push(Candidate { idx: place as PointOffsetType, score: value, new_flag: true });
        }
        i = i + 1;
    }
    assert(as_ints(positions@).take(positions@.len() as int) =~= as_ints(positions@));
    sort_pool(&mut pool);
    pool
}

/// What becomes of a candidate under refinement.
pub enum Verdict {
    /// It stays.
    Keep,
    /// It repeats a candidate that stays.
    Drop,
    /// It moves to the pool of a point that is closer to it.
    HandOn(HandedOn),
}

/// Whether `verdict` is what `kept` decides on `nn`.
pub open spec fn decides(
    kept: Seq<Candidate>,
    nn: Candidate,
    score: spec_fn(PointOffsetType, PointOffsetType) -> Score,
    verdict: Verdict,
) -> bool {
    match crate::layer0_model::blocker(kept, nn, score) {
        None => verdict is Keep,
        Some(other) => if other.idx == nn.idx {
            verdict is Drop
        } else {
            verdict == Verdict::HandOn(
                HandedOn {
                    to: other.idx,
                    candidate: Candidate {
                        idx: nn.idx,
                        score: score(nn.idx, other.idx),
                        new_flag: true,
                    },
                },
            )
        },
    }
}

/// Decides whether `nn` joins the candidates `kept` before it.
pub fn judge<S: PairScorer>(
    kept: &Vec<Candidate>,
    nn: Candidate,
    alive_indices: &[PointOffsetType],
    scorer: &mut S,
) -> (verdict: Verdict)
    requires
        nn.idx < alive_indices@.len(),
        forall|i: int| 0 <= i < kept@.len() ==> (#[trigger] kept@[i]).idx < alive_indices@.len(),
        scores_all(*old(scorer), alive_indices@),
    ensures
        decides(kept@, nn, place_scores(*old(scorer), alive_indices@), verdict),
        scores_alike(*old(scorer), *final(scorer)),
{
    let ghost score = place_scores(*scorer, alive_indices@);
    let mut i: usize = 0;
    assert(kept@.take(0) =~= Seq::<Candidate>::empty());
    while i < kept.len()
        invariant
            i <= kept@.len(),
            nn.idx < alive_indices@.len(),
            forall|j: int|
                0 <= j < kept@.len() ==> (#[trigger] kept@[j]).idx < alive_indices@.len(),
            score == place_scores(*old(scorer), alive_indices@),
            scores_all(*old(scorer), alive_indices@),
            scores_alike(*old(scorer), *scorer),
            crate::layer0_model::blocker(kept@.take(i as int), nn, score) is None,
        decreases kept@.len() - i,
    {
        let other: Candidate = kept[i];
        assert(kept@.take(i + 1).drop_last() =~= kept@.take(i as int));
        assert(kept@.take(i + 1).last() == other);
        if nn.new_flag || other.new_flag {
            if other.idx == nn.idx {
                proof {
                    lemma_blocker_of_prefix(kept@, i + 1, nn, score);
                }
                return Verdict::Drop;
            }
            let a: PointOffsetType = alive_indices[nn.idx as usize];
            let b: PointOffsetType = alive_indices[other.idx as usize];
            assert(old(scorer).can_score(
                alive_indices@[nn.idx as int],
                alive_indices@[other.idx as int],
            ));
            assert(scorer.can_score(a, b));
            let value: Score = scorer.score_pair(a, b);
            if value.is_greater(&nn.score) {
                proof {
                    lemma_blocker_of_prefix(kept@, i + 1, nn, score);
                }
                return Verdict::HandOn(
                    HandedOn {
                        to: other.idx,
                        candidate: Candidate { idx: nn.idx, score: value, new_flag: true },
                    },
                );
            }
        }
        i = i + 1;
    }
    assert(kept@.take(kept@.len() as int) =~= kept@);
    Verdict::Keep
}

/// A blocker among the first candidates is the blocker.
proof fn lemma_blocker_of_prefix(
    kept: Seq<Candidate>,
    count: int,
    nn: Candidate,
    score: spec_fn(PointOffsetType, PointOffsetType) -> Score,
)
    requires
        0 <= count <= kept.len(),
        crate::layer0_model::blocker(kept.take(count), nn, score) is Some,
    ensures
        crate::layer0_model::blocker(kept, nn, score) == crate::layer0_model::blocker(
            kept.take(count),
            nn,
            score,
        ),
    decreases kept.len(),
{
    if count == kept.len() {
        assert(kept.take(count) =~= kept);
    } else {
        let shorter = kept.drop_last();
        assert(shorter.take(count) =~= kept.take(count));
        lemma_blocker_of_prefix(shorter, count, nn, score);
    }
}

/// Whether refining `pool` may leave `settled` and hand on `handed`.
pub open spec fn settles_to(
    pool: Seq<Candidate>,
    u: int,
    score: spec_fn(PointOffsetType, PointOffsetType) -> Score,
    settled: Seq<Candidate>,
    handed: Seq<HandedOn>,
) -> bool {
    exists|kept: Seq<Candidate>|
        {
            &&& #[trigger] crate::layer0_model::refines_to(pool, u, score, kept, handed)
            &&& settled == crate::candidate::flagged(kept, false)
        }
}

/// Refines the pool of the point at `u`: returns what stays in it, as settled, and
/// what other pools receive.
pub fn refine_vertex<S: PairScorer>(
    u: usize,
    pool: Vec<Candidate>,
    alive_indices: &[PointOffsetType],
    scorer: &mut S,
) -> (result: (Vec<Candidate>, Vec<HandedOn>))
    requires
        forall|i: int| 0 <= i < pool@.len() ==> (#[trigger] pool@[i]).idx < alive_indices@.len(),
        scores_all(*old(scorer), alive_indices@),
    ensures
        settles_to(
            pool@,
            u as int,
            place_scores(*old(scorer), alive_indices@),
            result.0@,
            result.1@,
        ),
        scores_alike(*old(scorer), *final(scorer)),
{
    let ghost score = place_scores(*scorer, alive_indices@);
    let ghost given = pool@;
    let mut pool = pool;
    sort_pool(&mut pool);
    let ghost sorted = pool@;
    let old_pool: Vec<Candidate> = dedup_pool(&pool);
    proof {
        let in_range = |v: int, c: Candidate| c.idx < alive_indices@.len();
        assert(crate::layer0_laws::pool_holds(given, u as int, in_range));
        crate::layer0_laws::lemma_sorted_holds(given, sorted, u as int, in_range);
        crate::layer0_laws::lemma_deduped_holds(sorted, u as int, in_range);
        assert forall|i: int| 0 <= i < old_pool@.len() implies (#[trigger] old_pool@[i]).idx
            < alive_indices@.len() by {
            assert(in_range(u as int, old_pool@[i]));
        }
    }
    let mut kept: Vec<Candidate> = Vec::new();
    let mut handed: Vec<HandedOn> = Vec::new();
    let mut i: usize = 0;
    assert(old_pool@.take(0) =~= Seq::<Candidate>::empty());
    while i < old_pool.len()
        invariant
            i <= old_pool@.len(),
            forall|j: int|
                0 <= j < old_pool@.len() ==> (#[trigger] old_pool@[j]).idx < alive_indices@.len(),
            forall|j: int|
                0 <= j < kept@.len() ==> (#[trigger] kept@[j]).idx < alive_indices@.len(),
            score == place_scores(*old(scorer), alive_indices@),
            scores_all(*old(scorer), alive_indices@),
            scores_alike(*old(scorer), *scorer),
            crate::layer0_model::refined(old_pool@.take(i as int), u as int, score) == (
            crate::layer0_model::Refined { kept: kept@, handed: handed@ }),
        decreases old_pool@.len() - i,
    {
        let nn: Candidate = old_pool[i];
        assert(old_pool@.take(i + 1).drop_last() =~= old_pool@.take(i as int));
        assert(old_pool@.take(i + 1).last() == nn);
        if nn.idx as usize != u {
            let ghost before = *scorer;
            proof {
                lemma_scores_alike(*old(scorer), before);
                assert(scores_all(before, alive_indices@));
            }
            match judge(&kept, nn, alive_indices, scorer) {
                Verdict::Keep => {
                    kept.push(nn);
                },
                Verdict::Drop => {},
                Verdict::HandOn(moved) => {
                    handed.push(moved);
                },
            }
        }
        i = i + 1;
    }
    assert(old_pool@.take(old_pool@.len() as int) =~= old_pool@);
    let ghost unsettled = kept@;
    flag_pool(&mut kept, false);
    proof {
        assert(crate::candidate::sorts_to(given, sorted));
        assert(crate::layer0_model::refines_to(given, u as int, score, unsettled, handed@));
    }
    (kept, handed)
}

/// Puts a candidate into the pool that it was handed to.
pub fn receive(pools: &mut Vec<Pool>, handed: HandedOn)
    ensures
        final(pools)@.len() == old(pools)@.len(),
        graph_of(final(pools)@) == crate::layer0_model::received(graph_of(old(pools)@), handed),
{
    let to: usize = handed.to as usize;
    let ghost before = graph_of(pools@);
    if to < pools.len() {
        pools[to].inner.push(handed.candidate);
        assert(graph_of(pools@) =~= crate::layer0_model::received(before, handed));
    }
}

/// Puts every candidate into the pool that it was handed to, in order.
fn deliver(pools: &mut Vec<Pool>, handed: &Vec<HandedOn>)
    ensures
        final(pools)@.len() == old(pools)@.len(),
        graph_of(final(pools)@) == crate::layer0_model::delivered(
            graph_of(old(pools)@),
            handed@,
        ),
{
    let ghost before = graph_of(pools@);
    let mut i: usize = 0;
    assert(handed@.take(0) =~= Seq::<HandedOn>::empty());
    while i < handed.len()
        invariant
            i <= handed@.len(),
            pools@.len() == old(pools)@.len(),
            graph_of(pools@) == crate::layer0_model::delivered(before, handed@.take(i as int)),
        decreases handed@.len() - i,
    {
        assert(handed@.take(i + 1).drop_last() =~= handed@.take(i as int));
        receive(pools, handed[i]);
        i = i + 1;
    }
    assert(handed@.take(handed@.len() as int) =~= handed@);
}

/// Takes the candidates out of the pool of the point at `u`.
fn take_pool(pools: &mut Vec<Pool>, u: usize) -> (taken: Vec<Candidate>)
    requires
        u < old(pools)@.len(),
    ensures
        final(pools)@.len() == old(pools)@.len(),
        taken@ == graph_of(old(pools)@)[u as int],
        graph_of(final(pools)@) == graph_of(old(pools)@).update(
            u as int,
            Seq::<Candidate>::empty(),
        ),
{
    let mut taken: Vec<Candidate> = Vec::new();
    let ghost before = graph_of(pools@);
    core::mem::swap(&mut taken, &mut pools[u].inner);
    assert(graph_of(pools@) =~= before.update(u as int, Seq::<Candidate>::empty()));
    taken
}

/// Makes `pool` the pool of the point at `u`.
fn put_pool(pools: &mut Vec<Pool>, u: usize, pool: Vec<Candidate>)
    requires
        u < old(pools)@.len(),
    ensures
        final(pools)@.len() == old(pools)@.len(),
        graph_of(final(pools)@) == graph_of(old(pools)@).update(u as int, pool@),
{
    let ghost before = graph_of(pools@);
    pools[u] = Pool { inner: pool };
    assert(graph_of(pools@) =~= before.update(u as int, pool@));
}

/// The edges of the point at `u` turned round.
pub fn turned_edges(u: usize, pool: &Vec<Candidate>) -> (handed: Vec<HandedOn>)
    requires
        u <= u32::MAX,
    ensures
        handed@ == crate::layer0_model::turned(u as int, pool@),
{
    let mut handed: Vec<HandedOn> = Vec::new();
    while handed.len() < pool.len()
        invariant
            handed@.len() <= pool@.len(),
            u <= u32::MAX,
            forall|i: int|
                0 <= i < handed@.len() ==> handed@[i] == crate::layer0_model::turned(
                    u as int,
                    pool@,
                )[i],
        decreases pool@.len() - handed@.len(),
    {
        let nn: Candidate = pool[handed.len()];
        handed.push(
            HandedOn {
                to: nn.idx,
                candidate: Candidate {
                    idx: u as PointOffsetType,
                    score: nn.score,
                    new_flag: nn.new_flag,
                },
            },
        );
    }
    assert(handed@ =~= crate::layer0_model::turned(u as int, pool@));
    handed
}

/// Merges the edges that lead to a point with its own pool, whose candidates
/// become new again, and keeps the closest `num_reverse_edges`, one for each point.
pub fn merge_edges(
    incoming: Vec<Candidate>,
    own: Vec<Candidate>,
    num_reverse_edges: usize,
) -> (merged: Vec<Candidate>)
    ensures
        crate::layer0_model::merges_to(incoming@, own@, num_reverse_edges as nat, merged@),
{
    let ghost given = incoming@ + crate::candidate::flagged(own@, true);
    let mut all: Vec<Candidate> = incoming;
    let mut own = own;
    flag_pool(&mut own, true);
    all.append(&mut own);
    assert(all@ =~= given);
    sort_pool(&mut all);
    let ghost sorted = all@;
    let mut merged: Vec<Candidate> = dedup_pool(&all);
    cap_pool(&mut merged, num_reverse_edges);
    assert(crate::candidate::sorts_to(given, sorted));
    merged
}

/// Keeps the closest `num_reverse_edges` candidates of a pool.
pub fn trim_pool(pool: Vec<Candidate>, num_reverse_edges: usize) -> (trimmed: Vec<Candidate>)
    ensures
        crate::layer0_model::trims_to(pool@, num_reverse_edges as nat, trimmed@),
{
    let ghost given = pool@;
    let mut pool = pool;
    sort_pool(&mut pool);
    assert(crate::candidate::sorts_to(given, pool@));
    cap_pool(&mut pool, num_reverse_edges);
    pool
}

/// Makes the final neighbor list of the point at `u` out of its pool.
pub fn final_list(
    u: usize,
    pool: Vec<Candidate>,
    alive_indices: &[PointOffsetType],
) -> (list: Vec<ScoredPointOffset>)
    ensures
        crate::layer0_model::lists(pool@, u as int, alive_indices@, list@),
{
    let ghost given = pool@;
    let mut pool = pool;
    sort_pool(&mut pool);
    let ghost n = alive_indices@.len();
    let mut list: Vec<ScoredPointOffset> = Vec::new();
    let mut last_idx: Option<PointOffsetType> = None;
    let ghost mut kept: Seq<Candidate> = Seq::empty();
    let mut i: usize = 0;
    assert(pool@.take(0) =~= Seq::<Candidate>::empty());
    assert(list@ =~= crate::layer0_model::named(kept, alive_indices@));
    while i < pool.len()
        invariant
            i <= pool@.len(),
            n == alive_indices@.len(),
            kept == crate::layer0_model::chosen(pool@.take(i as int), u as int, n),
            list@ == crate::layer0_model::named(kept, alive_indices@),
            last_idx == if kept.len() == 0 {
                None
            } else {
                Some(kept.last().idx)
            },
        decreases pool@.len() - i,
    {
        let c: Candidate = pool[i];
        assert(pool@.take(i + 1).drop_last() =~= pool@.take(i as int));
        assert(pool@.take(i + 1).last() == c);
        let repeats: bool = match last_idx {
            Some(idx) => idx == c.idx,
            None => false,
        };
        if c.idx as usize != u && (c.idx as usize) < alive_indices.len() && !repeats {
            last_idx = Some(c.idx);
            list.push(ScoredPointOffset { idx: alive_indices[c.idx as usize], score: c.score });
            proof {
                kept = kept.push(c);
                assert(list@ =~= crate::layer0_model::named(kept, alive_indices@));
            }
        }
        i = i + 1;
    }
    assert(pool@.take(pool@.len() as int) =~= pool@);
    assert(crate::candidate::sorts_to(given, pool@));
    list
}

/// Whether `make_scorer` can return `scorer`.
pub open spec fn makes<MakeScorer, Scorer>(make_scorer: MakeScorer, scorer: Scorer) -> bool where
    MakeScorer: Fn() -> OperationResult<Scorer>,
    Scorer: PairScorer,
 {
    call_ensures(make_scorer, (), Ok(scorer))
}

/// Whether `make_scorer` can fail with `error`.
pub open spec fn fails_with<MakeScorer, Scorer>(
    make_scorer: MakeScorer,
    error: OperationError,
) -> bool where MakeScorer: Fn() -> OperationResult<Scorer>, Scorer: PairScorer {
    call_ensures(make_scorer, (), Err::<Scorer, OperationError>(error))
}

/// Whether `make_scorer` can be called where there is a point to score, and all that it
/// makes score the pairs of different places of `alive`, and agree on them.
pub open spec fn makes_scorers<MakeScorer, Scorer>(
    make_scorer: MakeScorer,
    alive: Seq<PointOffsetType>,
) -> bool where MakeScorer: Fn() -> OperationResult<Scorer>, Scorer: PairScorer {
    &&& alive.len() > 0 ==> call_requires(make_scorer, ())
    &&& forall|scorer: Scorer|
        #[trigger] makes(make_scorer, scorer) ==> scores_all(scorer, alive)
    &&& forall|one: Scorer, two: Scorer|
        #[trigger] makes(make_scorer, one) && #[trigger] makes(make_scorer, two) ==> scores_agree(
            one,
            two,
            alive,
        )
}

/// The scores that the scorers of `make_scorer` give.
pub open spec fn made_score<MakeScorer, Scorer>(make_scorer: MakeScorer) -> spec_fn(
    PointOffsetType,
    PointOffsetType,
) -> Score where MakeScorer: Fn() -> OperationResult<Scorer>, Scorer: PairScorer {
    score_of(choose|scorer: Scorer| makes(make_scorer, scorer))
}

/// Any scorer that was made gives the scores.
proof fn lemma_made_score<MakeScorer, Scorer>(
    make_scorer: MakeScorer,
    alive: Seq<PointOffsetType>,
    scorer: Scorer,
) where MakeScorer: Fn() -> OperationResult<Scorer>, Scorer: PairScorer
    requires
        makes_scorers::<MakeScorer, Scorer>(make_scorer, alive),
        makes(make_scorer, scorer),
    ensures
        place_scores(scorer, alive) == crate::layer0_model::scores_between(
            alive,
            made_score::<MakeScorer, Scorer>(make_scorer),
        ),
        scores_all(scorer, alive),
{
    let chosen = choose|chosen: Scorer| makes(make_scorer, chosen);
    assert(scores_agree(scorer, chosen, alive));
    let one = place_scores(scorer, alive);
    let two = place_scores(chosen, alive);
    assert forall|a: PointOffsetType, b: PointOffsetType| #[trigger] one(a, b) == two(a, b) by {
        if a != b && a < alive.len() && b < alive.len() {
            assert(scorer.pair_score(alive[a as int], alive[b as int]) == chosen.pair_score(
                alive[a as int],
                alive[b as int],
            ));
        }
    }
    assert(one =~= two);
}

/// Whether an operation that makes scorers and heeds `stopped` may fail with
/// `error`: it was cancelled, or a scorer could not be made.
pub open spec fn may_fail<MakeScorer, Scorer, Stop>(
    make_scorer: MakeScorer,
    stopped: Stop,
    error: OperationError,
) -> bool where
    MakeScorer: Fn() -> OperationResult<Scorer>,
    Scorer: PairScorer,
    Stop: StopSignal,
 {
    ||| error == OperationError::Cancelled && stopped.may_answer(true)
    ||| fails_with::<MakeScorer, Scorer>(make_scorer, error)
}

/// How many workers share `len` points when `num_threads` threads are there.
pub fn effective_workers(num_threads: usize, len: usize) -> (workers: usize)
    ensures
        workers == crate::layer0_model::worker_count(num_threads as nat, len as nat),
        1 <= workers,
        len > 0 ==> workers <= len,
{
    let wanted: usize = if num_threads == 0 {
        1
    } else {
        num_threads
    };
    let most: usize = if len == 0 {
        1
    } else {
        len
    };
    if wanted < most {
        wanted
    } else {
        most
    }
}

/// The places `0..n`.
fn all_places(n: usize) -> (places: Vec<usize>)
    ensures
        as_ints(places@) == crate::layer0_model::all_positions(n as nat),
{
    let mut places: Vec<usize> = Vec::new();
    while places.len() < n
        invariant
            places@.len() <= n,
            forall|i: int| 0 <= i < places@.len() ==> places@[i] == i,
        decreases n - places@.len(),
    {
        let next: usize = places.len();
        places.push(next);
    }
    assert(as_ints(places@) =~= crate::layer0_model::all_positions(n as nat));
    places
}

/// Makes the initial pools of the chunk of worker `thread_id`.
pub fn initial_chunk<MakeScorer, Scorer, Stop>(
    thread_id: usize,
    workers: usize,
    alive_indices: &[PointOffsetType],
    s: usize,
    seed: u64,
    make_scorer: &MakeScorer,
    stopped: &Stop,
) -> (result: OperationResult<Vec<Pool>>) where
    MakeScorer: Fn() -> OperationResult<Scorer>,
    Scorer: PairScorer,
    Stop: StopSignal,

    requires
        thread_id < workers,
        alive_indices@.len() <= u32::MAX,
        call_requires(*make_scorer, ()),
        makes_scorers::<MakeScorer, Scorer>(*make_scorer, alive_indices@),
    ensures
        match result {
            Ok(pools) => {
                let n = alive_indices@.len();
                let start = crate::layer0_model::chunk_start(
                    thread_id as nat,
                    workers as nat,
                    n,
                );
                let score = crate::layer0_model::scores_between(
                    alive_indices@,
                    made_score::<MakeScorer, Scorer>(*make_scorer),
                );
                &&& start + pools@.len() == crate::layer0_model::chunk_start(
                    (thread_id + 1) as nat,
                    workers as nat,
                    n,
                )
                &&& exists|scorer: Scorer| makes(*make_scorer, scorer)
                &&& thread_id == 0 && pools@.len() > 0 ==> stopped.may_answer(false)
                &&& forall|i: int|
                    0 <= i < pools@.len() ==> crate::layer0_model::starts_as(
                        n,
                        s as nat,
                        seed,
                        thread_id as u64,
                        i as nat,
                        start + i,
                        score,
                        (#[trigger] pools@[i]).inner@,
                    )
            },
            Err(error) => may_fail::<MakeScorer, Scorer, Stop>(*make_scorer, *stopped, error),
        },
{
    let n: usize = alive_indices.len();
    let (start, end) = chunk_bounds(thread_id, workers, n);
    let mut scorer: Scorer = match make_scorer() {
        Ok(scorer) => scorer,
        Err(error) => {
            assert(fails_with::<MakeScorer, Scorer>(*make_scorer, error));
            return Err(error);
        },
    };
    let ghost made = scorer;
    let ghost score = crate::layer0_model::scores_between(
        alive_indices@,
        made_score::<MakeScorer, Scorer>(*make_scorer),
    );
    proof {
        assert(makes(*make_scorer, made));
        lemma_made_score(*make_scorer, alive_indices@, made);
        crate::layer0_model::law_chunks_partition(thread_id as nat, workers as nat, n as nat);
    }
    let sampled: bool = cpp_parity_eligible(n, s);
    let everyone: Vec<usize> = if sampled {
        Vec::new()
    } else {
        all_places(n)
    };
    let rng_seed: u32 = #[verifier::truncate] (seed.wrapping_mul(7741).wrapping_add(
        thread_id as u64,
    ) as u32);
    let mut rng: FaissMt19937 = FaissMt19937::new(rng_seed);
    let mut pools: Vec<Pool> = Vec::new();
    let mut logical_u: usize = start;
    proof {
        assert forall|k: nat| #[trigger] rng.stream(k)
            == crate::faiss_random::mt19937_output(rng_seed, 0 * (s as nat + 1) + k) by {
            assert(0 * (s as nat + 1) == 0) by (nonlinear_arith);
        }
    }
    while logical_u < end
        invariant
            start <= logical_u <= end <= n,
            n == alive_indices@.len(),
            n <= u32::MAX,
            start == 0 && logical_u > 0 ==> stopped.may_answer(false),
            pools@.len() == logical_u - start,
            sampled == (n > s),
            !sampled ==> as_ints(everyone@) == crate::layer0_model::all_positions(n as nat),
            rng_seed == crate::layer0_model::worker_seed(seed, thread_id as u64),
            scores_all(made, alive_indices@),
            scores_alike(made, scorer),
            score == place_scores(made, alive_indices@),
            sampled && s > 0 ==> forall|k: nat| #[trigger]
                rng.stream(k) == crate::faiss_random::mt19937_output(
                    rng_seed,
                    (logical_u - start) as nat * (s as nat + 1) + k,
                ),
            forall|i: int|
                0 <= i < pools@.len() ==> crate::layer0_model::starts_as(
                    n as nat,
                    s as nat,
                    seed,
                    thread_id as u64,
                    i as nat,
                    start + i,
                    score,
                    (#[trigger] pools@[i]).inner@,
                ),
        decreases end - logical_u,
    {
        if logical_u % 4096 == 0 {
            check_process_stopped(stopped)?;
        }
        let ghost place = (logical_u - start) as nat;
        proof {
            lemma_scores_alike(made, scorer);
            assert(scores_all(scorer, alive_indices@));
        }
        let pool: Vec<Candidate> = if sampled {
            let ghost draw = |k: nat| rng.stream(k);
            let ghost wanted = crate::layer0_model::vertex_draw(
                seed,
                thread_id as u64,
                place,
                s as nat,
            );
            let ghost rng_before = rng;
            let positions: Vec<usize> = gen_random_mirage_style(&mut rng, s, n);
            proof {
                if s > 0 {
                    assert(draw =~= wanted);
                    assert forall|k: nat| #[trigger] rng.stream(k)
                        == crate::faiss_random::mt19937_output(
                        rng_seed,
                        (place + 1) * (s as nat + 1) + k,
                    ) by {
                        assert(rng.stream(k) == rng_before.stream(k + (s as nat + 1)));
                        assert((place + 1) * (s as nat + 1) + k == place * (s as nat + 1) + (k + (
                        s as nat + 1))) by (nonlinear_arith);
                    }
                }
                crate::layer0_model::law_sample_is_distinct(wanted, s as nat, n as nat);
                assert forall|i: int| 0 <= i < positions@.len() implies #[trigger] positions@[i]
                    < n by {
                    assert(as_ints(positions@)[i] < n);
                }
            }
            initial_pool(logical_u, &positions, alive_indices, &mut scorer)
        } else {
            proof {
                assert forall|i: int| 0 <= i < everyone@.len() implies #[trigger] everyone@[i]
                    < n by {
                    assert(as_ints(everyone@)[i] < n);
                }
            }
            initial_pool(logical_u, &everyone, alive_indices, &mut scorer)
        };
        pools.push(Pool { inner: pool });
        logical_u = logical_u + 1;
    }
    Ok(pools)
}

/// Phase 1: assigns each alive vertex its initial neighbors.
pub fn init_random_graph<MakeScorer, Scorer, Stop>(
    alive_indices: &[PointOffsetType],
    s: usize,
    seed: u64,
    num_threads: usize,
    pools: &mut Vec<Pool>,
    make_scorer: &MakeScorer,
    stopped: &Stop,
) -> (result: OperationResult<()>) where
    MakeScorer: Fn() -> OperationResult<Scorer>,
    Scorer: PairScorer,
    Stop: StopSignal,

    requires
        old(pools)@.len() == alive_indices@.len(),
        alive_indices@.len() <= u32::MAX,
        makes_scorers::<MakeScorer, Scorer>(*make_scorer, alive_indices@),
    ensures
        final(pools)@.len() == old(pools)@.len(),
        match result {
            Ok(_) => {
                &&& crate::layer0_model::initializes(
                    graph_of(old(pools)@),
                    graph_of(final(pools)@),
                    s as nat,
                    seed,
                    crate::layer0_model::worker_count(num_threads as nat, alive_indices@.len()),
                    crate::layer0_model::scores_between(
                        alive_indices@,
                        made_score::<MakeScorer, Scorer>(*make_scorer),
                    ),
                )
                &&& alive_indices@.len() > 1 ==> exists|scorer: Scorer|
                    makes(*make_scorer, scorer)
                &&& alive_indices@.len() > 1 ==> stopped.may_answer(false)
            },
            Err(error) => may_fail::<MakeScorer, Scorer, Stop>(*make_scorer, *stopped, error),
        },
{
    let n_alive: usize = alive_indices.len();
    if n_alive <= 1 {
        // Only one alive point; nothing to connect.
        return Ok(());
    }
    let workers: usize = effective_workers(num_threads, n_alive);
    let ghost score = crate::layer0_model::scores_between(
        alive_indices@,
        made_score::<MakeScorer, Scorer>(*make_scorer),
    );
    let mut thread_id: usize = 0;
    let mut u: usize = 0;
    proof {
        crate::layer0_model::law_chunks_partition(0, workers as nat, n_alive as nat);
    }
    while thread_id < workers
        invariant
            thread_id <= workers <= n_alive,
            workers > 0,
            n_alive == alive_indices@.len(),
            n_alive <= u32::MAX,
            pools@.len() == n_alive,
            old(pools)@.len() == n_alive,
            makes_scorers::<MakeScorer, Scorer>(*make_scorer, alive_indices@),
            score == crate::layer0_model::scores_between(
                alive_indices@,
                made_score::<MakeScorer, Scorer>(*make_scorer),
            ),
            u == crate::layer0_model::chunk_start(
                thread_id as nat,
                workers as nat,
                n_alive as nat,
            ),
            forall|t: u64|
                t < thread_id ==> #[trigger] crate::layer0_model::chunk_starts_as(
                    graph_of(pools@),
                    s as nat,
                    seed,
                    t,
                    crate::layer0_model::chunk_start(t as nat, workers as nat, n_alive as nat),
                    crate::layer0_model::chunk_start(
                        (t + 1) as nat,
                        workers as nat,
                        n_alive as nat,
                    ),
                    score,
                ),
            thread_id > 0 ==> exists|scorer: Scorer| makes(*make_scorer, scorer),
            thread_id > 0 ==> stopped.may_answer(false),
        decreases workers - thread_id,
    {
        let mut chunk: Vec<Pool> = initial_chunk(
            thread_id,
            workers,
            alive_indices,
            s,
            seed,
            make_scorer,
            stopped,
        )?;
        let ghost made = chunk@;
        let ghost before = graph_of(pools@);
        let start: usize = u;
        proof {
            vstd::arithmetic::div_mod::lemma_div_non_zero(n_alive as int, workers as int);
            crate::layer0_model::law_chunks_partition(
                thread_id as nat,
                workers as nat,
                n_alive as nat,
            );
        }
        let mut place: usize = 0;
        while place < chunk.len()
            invariant
                place <= chunk@.len(),
                chunk@.len() == made.len(),
                start + made.len() <= n_alive,
                pools@.len() == n_alive,
                u == start + place,
                forall|i: int| place <= i < chunk@.len() ==> chunk@[i] == made[i],
                graph_of(pools@).len() == before.len(),
                before.len() == n_alive,
                forall|v: int| 0 <= v < start ==> graph_of(pools@)[v] == before[v],
                forall|i: int|
                    0 <= i < place ==> graph_of(pools@)[start + i] == (#[trigger] made[i]).inner@,
            decreases chunk@.len() - place,
        {
            let mut taken: Vec<Candidate> = Vec::new();
            core::mem::swap(&mut taken, &mut chunk[place].inner);
            put_pool(pools, u, taken);
            place = place + 1;
            u = u + 1;
        }
        proof {
            let after = graph_of(pools@);
            let t = thread_id as u64;
            let from = start as nat;
            let to = crate::layer0_model::chunk_start(
                (thread_id + 1) as nat,
                workers as nat,
                n_alive as nat,
            );
            assert forall|v: int| from <= v < to implies crate::layer0_model::starts_as(
                after.len(),
                s as nat,
                seed,
                t,
                (v - from) as nat,
                v,
                score,
                #[trigger] after[v],
            ) by {
                let i = v - from;
                assert(after[start + i] == made[i].inner@);
            }
            assert forall|earlier: u64| earlier < thread_id + 1 implies #[trigger]
                crate::layer0_model::chunk_starts_as(
                after,
                s as nat,
                seed,
                earlier,
                crate::layer0_model::chunk_start(earlier as nat, workers as nat, n_alive as nat),
                crate::layer0_model::chunk_start(
                    (earlier + 1) as nat,
                    workers as nat,
                    n_alive as nat,
                ),
                score,
            ) by {
                if earlier < thread_id {
                    let a = crate::layer0_model::chunk_start(
                        earlier as nat,
                        workers as nat,
                        n_alive as nat,
                    );
                    let b = crate::layer0_model::chunk_start(
                        (earlier + 1) as nat,
                        workers as nat,
                        n_alive as nat,
                    );
                    crate::layer0_model::lemma_chunk_start_monotonic(
                        (earlier + 1) as nat,
                        thread_id as nat,
                        workers as nat,
                        n_alive as nat,
                    );
                    assert(crate::layer0_model::chunk_starts_as(
                        before,
                        s as nat,
                        seed,
                        earlier,
                        a,
                        b,
                        score,
                    ));
                    assert forall|v: int| a <= v < b implies crate::layer0_model::starts_as(
                        after.len(),
                        s as nat,
                        seed,
                        earlier,
                        (v - a) as nat,
                        v,
                        score,
                        #[trigger] after[v],
                    ) by {
                        assert(after[v] == before[v]);
                    }
                }
            }
        }
        thread_id = thread_id + 1;
    }
    Ok(())
}

/// Whether every candidate of `graph` names one of its points.
pub open spec fn ids_in_range(graph: Seq<Seq<Candidate>>) -> bool {
    crate::layer0_laws::graph_holds(graph, |u: int, c: Candidate| c.idx < graph.len())
}

/// Naming a point of the graph survives every step of the refinement.
proof fn lemma_range_survives(
    n: nat,
    score: spec_fn(PointOffsetType, PointOffsetType) -> Score,
    property: spec_fn(int, Candidate) -> bool,
)
    requires
        n <= u32::MAX,
        property == (|u: int, c: Candidate| c.idx < n),
    ensures
        crate::layer0_laws::survives_refinement(property, n, score),
{
}

/// What a pool held before it is replaced does not matter to a delivery.
proof fn lemma_delivered_around(
    graph: Seq<Seq<Candidate>>,
    u: int,
    pool: Seq<Candidate>,
    handed: Seq<HandedOn>,
)
    requires
        0 <= u < graph.len(),
    ensures
        crate::layer0_model::delivered(graph.update(u, pool), handed).len() == graph.len(),
        crate::layer0_model::delivered(graph, handed).len() == graph.len(),
        forall|v: int|
            0 <= v < graph.len() && v != u ==> crate::layer0_model::delivered(
                graph.update(u, pool),
                handed,
            )[v] == #[trigger] crate::layer0_model::delivered(graph, handed)[v],
    decreases handed.len(),
{
    if handed.len() > 0 {
        lemma_delivered_around(graph, u, pool, handed.drop_last());
    }
}

/// Refines the pool of the vertex `u` and delivers what it hands on.
fn update_vertex<S: PairScorer>(
    u: usize,
    alive_indices: &[PointOffsetType],
    pools: &mut Vec<Pool>,
    scorer: &mut S,
)
    requires
        u < old(pools)@.len(),
        forall|i: int|
            0 <= i < graph_of(old(pools)@)[u as int].len() ==> (#[trigger] graph_of(
                old(pools)@,
            )[u as int][i]).idx < alive_indices@.len(),
        scores_all(*old(scorer), alive_indices@),
    ensures
        final(pools)@.len() == old(pools)@.len(),
        crate::layer0_model::vertex_updates(
            graph_of(old(pools)@),
            u as int,
            place_scores(*old(scorer), alive_indices@),
            graph_of(final(pools)@),
        ),
        scores_alike(*old(scorer), *final(scorer)),
{
    let ghost before = graph_of(pools@);
    let ghost score = place_scores(*scorer, alive_indices@);
    let old_pool: Vec<Candidate> = take_pool(pools, u);
    let ghost taken = old_pool@;
    let (new_pool, handed) = refine_vertex(u, old_pool, alive_indices, scorer);
    deliver(pools, &handed);
    let ghost settled = new_pool@;
    put_pool(pools, u, new_pool);
    proof {
        let kept = choose|kept: Seq<Candidate>|
            {
                &&& #[trigger] crate::layer0_model::refines_to(
                    taken,
                    u as int,
                    score,
                    kept,
                    handed@,
                )
                &&& settled == crate::candidate::flagged(kept, false)
            };
        lemma_delivered_around(before, u as int, Seq::<Candidate>::empty(), handed@);
        assert(graph_of(pools@) =~= crate::layer0_model::vertex_updated(
            before,
            u as int,
            kept,
            handed@,
        ));
        assert(crate::layer0_model::refines_to(before[u as int], u as int, score, kept, handed@));
    }
}

/// One refinement update pass over all pools.
///
/// For each vertex `u` in turn, its pool is sorted closest first and walked. A
/// candidate is kept unless a kept one is closer to it than `u` is; then it is
/// handed on to that point's pool.
pub fn update_round<MakeScorer, Scorer, Stop>(
    num_threads: usize,
    alive_indices: &[PointOffsetType],
    pools: &mut Vec<Pool>,
    make_scorer: &MakeScorer,
    stopped: &Stop,
) -> (result: OperationResult<()>) where
    MakeScorer: Fn() -> OperationResult<Scorer>,
    Scorer: PairScorer,
    Stop: StopSignal,

    requires
        old(pools)@.len() == alive_indices@.len(),
        alive_indices@.len() <= u32::MAX,
        ids_in_range(graph_of(old(pools)@)),
        call_requires(*make_scorer, ()),
        makes_scorers::<MakeScorer, Scorer>(*make_scorer, alive_indices@),
    ensures
        final(pools)@.len() == old(pools)@.len(),
        match result {
            Ok(_) => {
                &&& crate::layer0_model::round_updates(
                    graph_of(old(pools)@),
                    crate::layer0_model::scores_between(
                        alive_indices@,
                        made_score::<MakeScorer, Scorer>(*make_scorer),
                    ),
                    graph_of(final(pools)@),
                )
                &&& ids_in_range(graph_of(final(pools)@))
                &&& exists|scorer: Scorer| makes(*make_scorer, scorer)
                &&& alive_indices@.len() > 0 ==> stopped.may_answer(false)
            },
            Err(error) => may_fail::<MakeScorer, Scorer, Stop>(*make_scorer, *stopped, error),
        },
{
    let n: usize = pools.len();
    let workers: usize = effective_workers(num_threads, n);
    let ghost given = graph_of(pools@);
    let ghost score = crate::layer0_model::scores_between(
        alive_indices@,
        made_score::<MakeScorer, Scorer>(*make_scorer),
    );
    let ghost in_range = |u: int, c: Candidate| c.idx < n as nat;
    proof {
        lemma_range_survives(n as nat, score, in_range);
        assert(in_range =~= |u: int, c: Candidate| c.idx < given.len());
        crate::layer0_model::law_chunks_partition(0, workers as nat, n as nat);
    }
    let mut thread_id: usize = 0;
    while thread_id < workers
        invariant
            thread_id <= workers,
            n == alive_indices@.len(),
            n <= u32::MAX,
            pools@.len() == n,
            old(pools)@.len() == n,
            given.len() == n,
            call_requires(*make_scorer, ()),
            makes_scorers::<MakeScorer, Scorer>(*make_scorer, alive_indices@),
            score == crate::layer0_model::scores_between(
                alive_indices@,
                made_score::<MakeScorer, Scorer>(*make_scorer),
            ),
            in_range == (|u: int, c: Candidate| c.idx < n as nat),
            crate::layer0_laws::survives_refinement(in_range, n as nat, score),
            crate::layer0_laws::graph_holds(graph_of(pools@), in_range),
            crate::layer0_model::prefix_updates(
                given,
                crate::layer0_model::chunk_start(thread_id as nat, workers as nat, n as nat),
                score,
                graph_of(pools@),
            ),
            thread_id > 0 ==> exists|scorer: Scorer| makes(*make_scorer, scorer),
            crate::layer0_model::chunk_start(thread_id as nat, workers as nat, n as nat) > 0
                ==> stopped.may_answer(false),
        decreases workers - thread_id,
    {
        let (start, end) = chunk_bounds(thread_id, workers, n);
        let mut scorer: Scorer = match make_scorer() {
            Ok(scorer) => scorer,
            Err(error) => {
                assert(fails_with::<MakeScorer, Scorer>(*make_scorer, error));
                return Err(error);
            },
        };
        let ghost made = scorer;
        proof {
            assert(makes(*make_scorer, made));
            lemma_made_score(*make_scorer, alive_indices@, made);
        }
        let mut u: usize = start;
        while u < end
            invariant
                u <= end <= n,
                n == alive_indices@.len(),
                n <= u32::MAX,
                pools@.len() == n,
                old(pools)@.len() == n,
                given.len() == n,
                scores_all(made, alive_indices@),
                scores_alike(made, scorer),
                score == place_scores(made, alive_indices@),
                in_range == (|u: int, c: Candidate| c.idx < n as nat),
                crate::layer0_laws::survives_refinement(in_range, n as nat, score),
                crate::layer0_laws::graph_holds(graph_of(pools@), in_range),
                crate::layer0_model::prefix_updates(given, u as nat, score, graph_of(pools@)),
                u > 0 ==> stopped.may_answer(false),
            decreases end - u,
        {
            if u % 4096 == 0 {
                check_process_stopped(stopped)?;
            }
            let ghost before = graph_of(pools@);
            proof {
                lemma_scores_alike(made, scorer);
                assert(scores_all(scorer, alive_indices@));
                assert forall|i: int| 0 <= i < before[u as int].len() implies (#[trigger]
                before[u as int][i]).idx < n by {
                    assert(crate::layer0_laws::pool_holds(before[u as int], u as int, in_range));
                    assert(in_range(u as int, before[u as int][i]));
                }
            }
            update_vertex(u, alive_indices, pools, &mut scorer);
            proof {
                crate::layer0_laws::lemma_vertex_update_holds(
                    before,
                    u as int,
                    score,
                    graph_of(pools@),
                    in_range,
                );
                crate::layer0_model::lemma_prefix_extends(
                    given,
                    u as nat,
                    score,
                    before,
                    graph_of(pools@),
                );
            }
            u = u + 1;
        }
        thread_id = thread_id + 1;
    }
    proof {
        if n == 0 {
            assert(crate::layer0_model::chunk_start(workers as nat, workers as nat, 0) == 0) by {
                crate::layer0_model::law_chunks_partition(0, workers as nat, 0);
            }
        }
        assert(in_range =~= |u: int, c: Candidate| c.idx < graph_of(pools@).len());
    }
    Ok(())
}

/// `n` empty pools, each with room for `cap` candidates.
pub fn empty_pools(n: usize, cap: usize) -> (pools: Vec<Pool>)
    requires
        cap * 12 <= isize::MAX,
    ensures
        pools@.len() == n,
        graph_of(pools@) == crate::layer0_model::bare_graph(n as nat),
{
    let mut pools: Vec<Pool> = Vec::new();
    while pools.len() < n
        invariant
            pools@.len() <= n,
            cap * 12 <= isize::MAX,
            forall|i: int|
                0 <= i < pools@.len() ==> (#[trigger] pools@[i]).inner@ == Seq::<
                    Candidate,
                >::empty(),
        decreases n - pools@.len(),
    {
        pools.push(Pool::with_capacity(cap));
    }
    assert(graph_of(pools@) =~= crate::layer0_model::bare_graph(n as nat));
    pools
}

/// Hands the edges of every pool of `from` to the pools of `to`, turned round.
fn scatter<Stop: StopSignal>(
    from: &Vec<Pool>,
    to: &mut Vec<Pool>,
    stopped: &Stop,
) -> (result: OperationResult<()>)
    requires
        from@.len() <= u32::MAX,
        graph_of(old(to)@) == crate::layer0_model::bare_graph(from@.len()),
    ensures
        final(to)@.len() == from@.len(),
        match result {
            Ok(_) => graph_of(final(to)@) == crate::layer0_model::scattered(
                graph_of(from@),
                from@.len(),
            ) && (from@.len() > 0 ==> stopped.may_answer(false)),
            Err(error) => error == OperationError::Cancelled && stopped.may_answer(true),
        },
{
    let n: usize = from.len();
    let ghost graph = graph_of(from@);
    let mut u: usize = 0;
    assert(graph_of(to@).len() == n);
    while u < n
        invariant
            u <= n,
            n == from@.len(),
            n <= u32::MAX,
            to@.len() == n,
            graph == graph_of(from@),
            graph_of(to@) == crate::layer0_model::scattered(graph, u as nat),
            u > 0 ==> stopped.may_answer(false),
        decreases n - u,
    {
        if u % 4096 == 0 {
            check_process_stopped(stopped)?;
        }
        let handed: Vec<HandedOn> = turned_edges(u, &from[u].inner);
        deliver(to, &handed);
        u = u + 1;
    }
    Ok(())
}

/// Reverse-edge consolidation pass.
///
/// Every point gathers the edges that lead to it, merges them with its own, and
/// keeps the closest; the merged edges are handed back, turned round, and every
/// pool keeps the closest of what it receives. No scores are asked for: an edge
/// scores the same in both directions.
pub fn add_reverse_edges<Stop: StopSignal>(
    pools: &mut Vec<Pool>,
    num_reverse_edges: usize,
    stopped: &Stop,
) -> (result: OperationResult<()>)
    requires
        old(pools)@.len() <= u32::MAX,
    ensures
        final(pools)@.len() == old(pools)@.len(),
        match result {
            Ok(_) => crate::layer0_model::reverse_adds(
                graph_of(old(pools)@),
                num_reverse_edges as nat,
                graph_of(final(pools)@),
            ),
            Err(error) => error == OperationError::Cancelled && stopped.may_answer(true),
        },
        !stopped.may_answer(false) && old(pools)@.len() > 0 ==> {
            &&& result is Err
            &&& graph_of(final(pools)@) == graph_of(old(pools)@)
        },
{
    let n: usize = pools.len();
    let ghost given = graph_of(pools@);
    let ghost cap = num_reverse_edges as nat;
    let mut reverse: Vec<Pool> = empty_pools(n, 0);

    // Gather the edges that lead to each point.
    scatter(pools, &mut reverse, stopped)?;
    let ghost incoming = graph_of(reverse@);

    // Merge them with the point's own edges; the pools themselves are emptied.
    let mut u: usize = 0;
    while u < n
        invariant
            u <= n,
            n == given.len(),
            n == incoming.len(),
            n > 0 ==> stopped.may_answer(false),
            cap == num_reverse_edges,
            pools@.len() == n,
            old(pools)@.len() == n,
            reverse@.len() == n,
            forall|v: int| 0 <= v < u ==> graph_of(pools@)[v] == Seq::<Candidate>::empty(),
            forall|v: int| u <= v < n ==> graph_of(pools@)[v] == given[v],
            forall|v: int|
                0 <= v < u ==> crate::layer0_model::merges_to(
                    incoming[v],
                    given[v],
                    cap,
                    #[trigger] graph_of(reverse@)[v],
                ),
            forall|v: int| u <= v < n ==> graph_of(reverse@)[v] == incoming[v],
        decreases n - u,
    {
        if u % 4096 == 0 {
            check_process_stopped(stopped)?;
        }
        let current: Vec<Candidate> = take_pool(pools, u);
        let gathered: Vec<Candidate> = take_pool(&mut reverse, u);
        let merged: Vec<Candidate> = merge_edges(gathered, current, num_reverse_edges);
        put_pool(&mut reverse, u, merged);
        u = u + 1;
    }
    let ghost merged = graph_of(reverse@);
    assert(crate::layer0_model::merges_all(given, cap, merged));
    assert(graph_of(pools@) =~= crate::layer0_model::bare_graph(n as nat));

    // Hand the merged edges back.
    scatter(&reverse, pools, stopped)?;
    let ghost back = graph_of(pools@);

    // Keep the closest of what each pool received.
    let mut u: usize = 0;
    while u < n
        invariant
            u <= n,
            n == back.len(),
            n > 0 ==> stopped.may_answer(false),
            cap == num_reverse_edges,
            pools@.len() == n,
            old(pools)@.len() == n,
            forall|v: int|
                0 <= v < u ==> crate::layer0_model::trims_to(
                    back[v],
                    cap,
                    #[trigger] graph_of(pools@)[v],
                ),
            forall|v: int| u <= v < n ==> graph_of(pools@)[v] == back[v],
        decreases n - u,
    {
        if u % 4096 == 0 {
            check_process_stopped(stopped)?;
        }
        let received: Vec<Candidate> = take_pool(pools, u);
        let trimmed: Vec<Candidate> = trim_pool(received, num_reverse_edges);
        put_pool(pools, u, trimmed);
        u = u + 1;
    }
    Ok(())
}

/// Configuration for [`build_layer0`].
#[derive(Clone, Copy, Debug, PartialEq, Eq, Structural)]
pub struct RefinementParams {
    /// Initial out-degree of the random graph.
    pub s: usize,
    /// Number of refinement rounds.
    pub r: usize,
    /// Updates per round.
    pub iter: usize,
    /// Cap on the size of a pool after reverse edges were added.
    pub num_reverse_edges: usize,
    /// Random seed.
    pub seed: u64,
}

impl Default for RefinementParams {
    fn default() -> (params: Self)
        ensures
            params.s == 16,
            params.r == 4,
            params.iter == 15,
            params.num_reverse_edges == 96,
            params.seed == 2021,
    {
        RefinementParams { s: 16, r: 4, iter: 15, num_reverse_edges: 96, seed: 2021 }
    }
}

/// What is wrong with a request to build the layer 0 of `num_points` points. No
/// points are no reason to look at the parameters.
pub open spec fn layer0_refusal(num_points: usize, params: RefinementParams) -> Option<Seq<char>> {
    if num_points == 0 {
        None
    } else if num_points > u32::MAX {
        Some("MIRAGE: too many vectors for PointOffsetType"@)
    } else if params.s == 0 {
        Some("MIRAGE: refinement parameter S must be > 0"@)
    } else if params.r == 0 || params.iter == 0 {
        Some("MIRAGE: refinement parameters R and iter must both be > 0"@)
    } else {
        None
    }
}

/// Refuses a request to build a layer 0 that cannot be built.
pub fn check_layer0_request(num_points: usize, params: &RefinementParams) -> (result:
    OperationResult<()>)
    ensures
        match layer0_refusal(num_points, *params) {
            None => result is Ok,
            Some(text) => result matches Err(error) && error.is_service(text),
        },
{
    if num_points == 0 {
        return Ok(());
    }
    if num_points > PointOffsetType::MAX as usize {
        return Err(OperationError::service_error("MIRAGE: too many vectors for PointOffsetType"));
    }
    if params.s == 0 {
        return Err(OperationError::service_error("MIRAGE: refinement parameter S must be > 0"));
    }
    if params.r == 0 || params.iter == 0 {
        return Err(
            OperationError::service_error(
                "MIRAGE: refinement parameters R and iter must both be > 0",
            ),
        );
    }
    Ok(())
}

/// The step that follows `step`.
pub fn next_step(step: RefinementStep, rounds: usize, passes: usize) -> (next: RefinementStep)
    ensures
        next == crate::layer0_model::step_after(step, rounds as nat, passes as nat),
{
    match step {
        RefinementStep::Initialize => if rounds > 0 && passes > 0 {
            RefinementStep::Update { round: 0, pass: 0 }
        } else {
            RefinementStep::Finalize
        },
        RefinementStep::Update { round, pass } => if passes > 0 && pass < passes - 1 {
            RefinementStep::Update { round, pass: pass + 1 }
        } else if rounds > 0 && round < rounds - 1 {
            RefinementStep::AddReverseEdges { round }
        } else {
            RefinementStep::Finalize
        },
        RefinementStep::AddReverseEdges { round } => if rounds > 0 && round < rounds - 1 {
            RefinementStep::Update { round: round + 1, pass: 0 }
        } else {
            RefinementStep::Finalize
        },
        RefinementStep::Finalize => RefinementStep::Finalize,
    }
}

/// The liveness of a set of points.
pub struct LivePoints {
    /// For each point, whether it is alive.
    pub flags: Vec<bool>,
    /// The points that are, in ascending order.
    pub ids: Vec<PointOffsetType>,
}

/// Whether `flags` are what `is_alive` may say of the points below `flags.len()`.
pub open spec fn flags_from<G: Fn(PointOffsetType) -> bool>(is_alive: G, flags: Seq<bool>) -> bool {
    forall|p: PointOffsetType|
        p < flags.len() ==> call_ensures(is_alive, (p,), #[trigger] flags[p as int])
}

/// Asks of each of `num_points` points whether it is alive.
pub fn live_points<G: Fn(PointOffsetType) -> bool>(num_points: usize, is_alive: &G) -> (live:
    LivePoints)
    requires
        num_points <= u32::MAX,
        forall|p: PointOffsetType| p < num_points ==> #[trigger] call_requires(*is_alive, (p,)),
    ensures
        live.flags@.len() == num_points,
        flags_from(*is_alive, live.flags@),
        live.ids@ == crate::layer0_model::alive_points(live.flags@),
{
    let mut flags: Vec<bool> = Vec::new();
    let mut ids: Vec<PointOffsetType> = Vec::new();
    while flags.len() < num_points
        invariant
            flags@.len() <= num_points,
            num_points <= u32::MAX,
            forall|p: PointOffsetType| p < num_points ==> #[trigger] call_requires(*is_alive, (p,)),
            flags_from(*is_alive, flags@),
            ids@ == crate::layer0_model::alive_points(flags@),
        decreases num_points - flags@.len(),
    {
        let pid: PointOffsetType = flags.len() as PointOffsetType;
        let ghost before = flags@;
        let alive: bool = is_alive(pid);
        flags.push(alive);
        assert(flags@.drop_last() =~= before);
        if alive {
            ids.push(pid);
        }
    }
    LivePoints { flags, ids }
}

/// Whether two different points below `num_points` may both be alive.
pub open spec fn is_live_pair<G: Fn(PointOffsetType) -> bool>(
    is_alive: G,
    num_points: nat,
    a: PointOffsetType,
    b: PointOffsetType,
) -> bool {
    &&& a < num_points && b < num_points && a != b
    &&& call_ensures(is_alive, (a,), true)
    &&& call_ensures(is_alive, (b,), true)
}

/// Whether `make_scorer` can be called where `is_alive` may hold a point below
/// `num_points` alive, and all that it makes score the pairs of different points that
/// may be alive, and agree on them.
pub open spec fn scores_live<MakeScorer, Scorer, G>(
    make_scorer: MakeScorer,
    is_alive: G,
    num_points: nat,
) -> bool where
    MakeScorer: Fn() -> OperationResult<Scorer>,
    Scorer: PairScorer,
    G: Fn(PointOffsetType) -> bool,
 {
    &&& forall|p: PointOffsetType|
        p < num_points && #[trigger] call_ensures(is_alive, (p,), true) ==> call_requires(
            make_scorer,
            (),
        )
    &&& forall|scorer: Scorer, a: PointOffsetType, b: PointOffsetType|
        #![trigger makes(make_scorer, scorer), is_live_pair(is_alive, num_points, a, b)]
        makes(make_scorer, scorer) && is_live_pair(is_alive, num_points, a, b)
            ==> scorer.can_score(a, b)
    &&& forall|one: Scorer, two: Scorer, a: PointOffsetType, b: PointOffsetType|
        #![trigger makes(make_scorer, one), makes(make_scorer, two), is_live_pair(is_alive, num_points, a, b)]
        makes(make_scorer, one) && makes(make_scorer, two) && is_live_pair(
            is_alive,
            num_points,
            a,
            b,
        ) ==> one.pair_score(a, b) == two.pair_score(a, b)
}

/// The scorers of `make_scorer` score the live points.
proof fn lemma_scores_live<MakeScorer, Scorer, G>(
    make_scorer: MakeScorer,
    is_alive: G,
    flags: Seq<bool>,
) where
    MakeScorer: Fn() -> OperationResult<Scorer>,
    Scorer: PairScorer,
    G: Fn(PointOffsetType) -> bool,

    requires
        flags.len() <= u32::MAX,
        flags_from(is_alive, flags),
        scores_live::<MakeScorer, Scorer, G>(make_scorer, is_alive, flags.len()),
    ensures
        makes_scorers::<MakeScorer, Scorer>(
            make_scorer,
            crate::layer0_model::alive_points(flags),
        ),
{
    let n = flags.len();
    let alive = crate::layer0_model::alive_points(flags);
    crate::layer0_model::law_alive_points(flags);
    assert forall|i: int, j: int|
        0 <= i < alive.len() && 0 <= j < alive.len() && i != j implies is_live_pair(
        is_alive,
        n,
        #[trigger] alive[i],
        #[trigger] alive[j],
    ) by {
        assert(flags[alive[i] as int]);
        assert(flags[alive[j] as int]);
        if i < j {
            assert(alive[i] < alive[j]);
        } else {
            assert(alive[j] < alive[i]);
        }
    }
    if alive.len() > 0 {
        assert(flags[alive[0] as int]);
        assert(call_ensures(is_alive, (alive[0],), true));
    }
    assert forall|scorer: Scorer| #[trigger] makes(make_scorer, scorer) implies scores_all(
        scorer,
        alive,
    ) by {
        assert forall|i: int, j: int|
            0 <= i < alive.len() && 0 <= j < alive.len() && i != j implies scorer.can_score(
            #[trigger] alive[i],
            #[trigger] alive[j],
        ) by {
            assert(is_live_pair(is_alive, n, alive[i], alive[j]));
        }
    }
    assert forall|one: Scorer, two: Scorer|
        #[trigger] makes(make_scorer, one) && #[trigger] makes(
            make_scorer,
            two,
        ) implies scores_agree(one, two, alive) by {
        assert forall|i: int, j: int|
            0 <= i < alive.len() && 0 <= j < alive.len() && i != j implies one.pair_score(
            #[trigger] alive[i],
            #[trigger] alive[j],
        ) == two.pair_score(alive[i], alive[j]) by {
            assert(is_live_pair(is_alive, n, alive[i], alive[j]));
        }
    }
}

/// The neighbor lists that `lists` hold.
pub open spec fn lists_of(lists: Seq<Vec<ScoredPointOffset>>) -> Seq<Seq<ScoredPointOffset>> {
    lists.map_values(|list: Vec<ScoredPointOffset>| list@)
}

/// The pools start without a candidate, so every candidate of the initial graph
/// names one of its points.
proof fn lemma_initial_in_range(
    initial: Seq<Seq<Candidate>>,
    n: nat,
    s: nat,
    seed: u64,
    workers: nat,
    score: spec_fn(PointOffsetType, PointOffsetType) -> Score,
)
    requires
        n <= u32::MAX,
        0 < workers <= u64::MAX,
        crate::layer0_model::initializes(
            crate::layer0_model::bare_graph(n),
            initial,
            s,
            seed,
            workers,
            score,
        ),
    ensures
        ids_in_range(initial),
        initial.len() == n,
{
    let in_range = |u: int, c: Candidate| c.idx < n;
    crate::layer0_laws::lemma_initial_holds(initial, n, s, seed, workers, score, in_range);
    assert(in_range =~= |u: int, c: Candidate| c.idx < initial.len());
}

/// Every candidate names one of the points after reverse edges were added.
proof fn lemma_reverse_in_range(
    before: Seq<Seq<Candidate>>,
    cap: nat,
    after: Seq<Seq<Candidate>>,
    score: spec_fn(PointOffsetType, PointOffsetType) -> Score,
)
    requires
        before.len() <= u32::MAX,
        ids_in_range(before),
        crate::layer0_model::reverse_adds(before, cap, after),
    ensures
        ids_in_range(after),
{
    let in_range = |u: int, c: Candidate| c.idx < before.len();
    lemma_range_survives(before.len(), score, in_range);
    crate::layer0_laws::lemma_reverse_holds(before, cap, after, score, in_range);
    assert(in_range =~= |u: int, c: Candidate| c.idx < after.len());
}

/// Makes the refined graph of the points `alive_indices`.
fn refine_graph<MakeScorer, Scorer, Stop>(
    alive_indices: &[PointOffsetType],
    params: &RefinementParams,
    num_threads: usize,
    make_scorer: &MakeScorer,
    stopped: &Stop,
) -> (result: OperationResult<Vec<Pool>>) where
    MakeScorer: Fn() -> OperationResult<Scorer>,
    Scorer: PairScorer,
    Stop: StopSignal,

    requires
        alive_indices@.len() <= u32::MAX,
        params.r > 0,
        params.iter > 0,
        call_requires(*make_scorer, ()),
        makes_scorers::<MakeScorer, Scorer>(*make_scorer, alive_indices@),
    ensures
        match result {
            Ok(pools) => {
                &&& pools@.len() == alive_indices@.len()
                &&& crate::layer0_model::refined_graph(
                    alive_indices@,
                    params.s as nat,
                    params.r as nat,
                    params.iter as nat,
                    params.num_reverse_edges as nat,
                    params.seed,
                    num_threads as nat,
                    made_score::<MakeScorer, Scorer>(*make_scorer),
                    graph_of(pools@),
                )
                &&& exists|scorer: Scorer| makes(*make_scorer, scorer)
                &&& stopped.may_answer(false)
            },
            Err(error) => may_fail::<MakeScorer, Scorer, Stop>(*make_scorer, *stopped, error),
        },
{
    let n: usize = alive_indices.len();
    let room: usize = if params.s < 8 {
        8
    } else if params.s > 4096 {
        4096
    } else {
        params.s
    };
    let mut pools: Vec<Pool> = empty_pools(n, room);
    let ghost workers = crate::layer0_model::worker_count(num_threads as nat, n as nat);
    let ghost score = crate::layer0_model::scores_between(
        alive_indices@,
        made_score::<MakeScorer, Scorer>(*make_scorer),
    );
    let ghost mut initial: Seq<Seq<Candidate>> = graph_of(pools@);
    let ghost mut opening: Seq<Seq<Candidate>> = graph_of(pools@);
    let mut step: RefinementStep = RefinementStep::Initialize;
    while step != RefinementStep::Finalize
        invariant
            n == alive_indices@.len(),
            n <= u32::MAX,
            params.r > 0,
            params.iter > 0,
            pools@.len() == n,
            call_requires(*make_scorer, ()),
            makes_scorers::<MakeScorer, Scorer>(*make_scorer, alive_indices@),
            workers == crate::layer0_model::worker_count(num_threads as nat, n as nat),
            score == crate::layer0_model::scores_between(
                alive_indices@,
                made_score::<MakeScorer, Scorer>(*make_scorer),
            ),
            ids_in_range(graph_of(pools@)),
            crate::layer0_model::stands_at(
                step,
                n as nat,
                params.s as nat,
                params.r as nat,
                params.iter as nat,
                params.num_reverse_edges as nat,
                params.seed,
                workers,
                score,
                initial,
                opening,
                graph_of(pools@),
            ),
            match step {
                RefinementStep::Initialize => true,
                RefinementStep::Update { round, pass } => round == 0 && pass == 0 || {
                    &&& exists|scorer: Scorer| makes(*make_scorer, scorer)
                    &&& stopped.may_answer(false)
                },
                _ => {
                    &&& exists|scorer: Scorer| makes(*make_scorer, scorer)
                    &&& stopped.may_answer(false)
                },
            },
        decreases
                (match step {
                    RefinementStep::Initialize => params.r + 1,
                    RefinementStep::Update { round, .. } => params.r - round,
                    RefinementStep::AddReverseEdges { round } => params.r - round,
                    RefinementStep::Finalize => 0,
                }),
                (match step {
                    RefinementStep::Update { pass, .. } => params.iter + 1 - pass,
                    _ => 1,
                }),
    {
        let ghost before = graph_of(pools@);
        match step {
            RefinementStep::Initialize => {
                init_random_graph(
                    alive_indices,
                    params.s,
                    params.seed,
                    num_threads,
                    &mut pools,
                    make_scorer,
                    stopped,
                )?;
                proof {
                    initial = graph_of(pools@);
                    opening = graph_of(pools@);
                    lemma_initial_in_range(
                        initial,
                        n as nat,
                        params.s as nat,
                        params.seed,
                        workers,
                        score,
                    );
                }
            },
            RefinementStep::Update { round, pass } => {
                check_process_stopped(stopped)?;
                update_round(num_threads, alive_indices, &mut pools, make_scorer, stopped)?;
                proof {
                    let after = graph_of(pools@);
                    crate::layer0_model::lemma_passes_extend(
                        opening,
                        pass as nat,
                        score,
                        before,
                        after,
                    );
                    if pass + 1 == params.iter && round + 1 == params.r {
                        assert(crate::layer0_model::round_refines(
                            opening,
                            round as nat,
                            params.r as nat,
                            params.iter as nat,
                            params.num_reverse_edges as nat,
                            score,
                            after,
                        ));
                        crate::layer0_model::lemma_rounds_extend(
                            initial,
                            round as nat,
                            params.r as nat,
                            params.iter as nat,
                            params.num_reverse_edges as nat,
                            score,
                            opening,
                            after,
                        );
                    }
                }
            },
            RefinementStep::AddReverseEdges { round } => {
                add_reverse_edges(&mut pools, params.num_reverse_edges, stopped)?;
                proof {
                    let after = graph_of(pools@);
                    lemma_reverse_in_range(
                        before,
                        params.num_reverse_edges as nat,
                        after,
                        score,
                    );
                    assert(crate::layer0_model::round_refines(
                        opening,
                        round as nat,
                        params.r as nat,
                        params.iter as nat,
                        params.num_reverse_edges as nat,
                        score,
                        after,
                    ));
                    crate::layer0_model::lemma_rounds_extend(
                        initial,
                        round as nat,
                        params.r as nat,
                        params.iter as nat,
                        params.num_reverse_edges as nat,
                        score,
                        opening,
                        after,
                    );
                    opening = after;
                }
            },
            RefinementStep::Finalize => {},
        }
        step = next_step(step, params.r, params.iter);
    }
    Ok(pools)
}

/// `num_points` empty neighbor lists.
fn empty_lists(num_points: usize) -> (lists: Vec<Vec<ScoredPointOffset>>)
    ensures
        lists_of(lists@) == Seq::new(
            num_points as nat,
            |p: int| Seq::<ScoredPointOffset>::empty(),
        ),
{
    let mut lists: Vec<Vec<ScoredPointOffset>> = Vec::new();
    while lists.len() < num_points
        invariant
            lists@.len() <= num_points,
            forall|p: int|
                0 <= p < lists@.len() ==> (#[trigger] lists@[p])@ == Seq::<
                    ScoredPointOffset,
                >::empty(),
        decreases num_points - lists@.len(),
    {
        lists.push(Vec::new());
    }
    assert(lists_of(lists@) =~= Seq::new(
        num_points as nat,
        |p: int| Seq::<ScoredPointOffset>::empty(),
    ));
    lists
}

/// Makes the neighbor lists of the live points out of their pools, and puts each
/// under its point.
fn place_lists(live: &LivePoints, pools: Vec<Pool>) -> (lists: Vec<Vec<ScoredPointOffset>>)
    requires
        live.flags@.len() <= u32::MAX,
        live.ids@ == crate::layer0_model::alive_points(live.flags@),
        pools@.len() == live.ids@.len(),
    ensures
        crate::layer0_model::listed(lists_of(lists@), live.flags@, graph_of(pools@)),
{
    let ghost graph = graph_of(pools@);
    let ghost alive = live.ids@;
    let mut pools = pools;
    let mut lists: Vec<Vec<ScoredPointOffset>> = empty_lists(live.flags.len());
    proof {
        crate::layer0_model::law_alive_points(live.flags@);
        assert(lists_of(lists@).len() == lists@.len());
    }
    let mut logical: usize = 0;
    while logical < live.ids.len()
        invariant
            logical <= alive.len(),
            alive == live.ids@,
            alive == crate::layer0_model::alive_points(live.flags@),
            graph.len() == alive.len(),
            pools@.len() == alive.len(),
            lists@.len() == live.flags@.len(),
            forall|k: int|
                0 <= k < alive.len() ==> (#[trigger] alive[k]) < live.flags@.len()
                    && live.flags@[alive[k] as int],
            forall|j: int, k: int| 0 <= j < k < alive.len() ==> alive[j] < alive[k],
            forall|k: int| logical <= k < alive.len() ==> graph_of(pools@)[k] == graph[k],
            forall|k: int|
                0 <= k < logical ==> crate::layer0_model::lists(
                    #[trigger] graph[k],
                    k,
                    alive,
                    lists_of(lists@)[alive[k] as int],
                ),
            forall|p: int|
                0 <= p < lists@.len() && !live.flags@[p] ==> #[trigger] lists_of(lists@)[p]
                    == Seq::<ScoredPointOffset>::empty(),
        decreases alive.len() - logical,
    {
        let ghost before = lists_of(lists@);
        let pool: Vec<Candidate> = take_pool(&mut pools, logical);
        let list: Vec<ScoredPointOffset> = final_list(logical, pool, live.ids.as_slice());
        let actual: usize = live.ids[logical] as usize;
        let ghost listed = list@;
        lists[actual] = list;
        assert(lists_of(lists@) =~= before.update(actual as int, listed));
        logical = logical + 1;
    }
    lists
}

/// Layer 0 builder.
///
/// `make_scorer` creates a symmetric scorer. Each worker's chunk gets its own and
/// reuses it for many pairs.
///
/// `num_points` is the number of points to refine, and `is_alive` says which of
/// them are there. The others keep an empty list, and are never picked as
/// neighbors.
///
/// Returns for each point its selected neighbors, closest first.
pub fn build_layer0<MakeScorer, Scorer, G, Stop>(
    num_points: usize,
    params: &RefinementParams,
    num_threads: usize,
    is_alive: G,
    make_scorer: MakeScorer,
    stopped: &Stop,
) -> (result: OperationResult<Vec<Vec<ScoredPointOffset>>>) where
    MakeScorer: Fn() -> OperationResult<Scorer>,
    Scorer: PairScorer,
    G: Fn(PointOffsetType) -> bool,
    Stop: StopSignal,

    requires
        forall|p: PointOffsetType| p < num_points ==> #[trigger] call_requires(is_alive, (p,)),
        scores_live::<MakeScorer, Scorer, G>(make_scorer, is_alive, num_points as nat),
    ensures
        match result {
            Ok(lists) => {
                &&& layer0_refusal(num_points, *params) is None
                &&& exists|flags: Seq<bool>|
                    {
                        &&& flags.len() == num_points
                        &&& #[trigger] flags_from(is_alive, flags)
                        &&& crate::layer0_model::layer0_of(
                            flags,
                            params.s as nat,
                            params.r as nat,
                            params.iter as nat,
                            params.num_reverse_edges as nat,
                            params.seed,
                            num_threads as nat,
                            made_score::<MakeScorer, Scorer>(make_scorer),
                            lists_of(lists@),
                        )
                        &&& crate::layer0_model::alive_points(flags).len() > 0 ==> exists|
                            scorer: Scorer,
                        | makes(make_scorer, scorer)
                        &&& crate::layer0_model::alive_points(flags).len() > 0
                            ==> stopped.may_answer(false)
                    }
            },
            Err(error) => match layer0_refusal(num_points, *params) {
                Some(text) => error.is_service(text),
                None => {
                    &&& may_fail::<MakeScorer, Scorer, Stop>(make_scorer, *stopped, error)
                    &&& exists|p: PointOffsetType|
                        p < num_points && #[trigger] call_ensures(is_alive, (p,), true)
                },
            },
        },
{
    check_layer0_request(num_points, params)?;
    if num_points == 0 {
        let none: Vec<Vec<ScoredPointOffset>> = Vec::new();
        let ghost flags = Seq::<bool>::empty();
        assert(flags_from(is_alive, flags));
        assert(lists_of(none@) =~= Seq::new(
            flags.len(),
            |p: int| Seq::<ScoredPointOffset>::empty(),
        ));
        return Ok(none);
    }
    let live: LivePoints = live_points(num_points, &is_alive);
    if live.ids.len() == 0 {
        return Ok(empty_lists(num_points));
    }
    proof {
        lemma_scores_live::<MakeScorer, Scorer, G>(make_scorer, is_alive, live.flags@);
        crate::layer0_model::law_alive_points(live.flags@);
        let first = live.ids@[0];
        assert(live.flags@[first as int]);
        assert(call_ensures(is_alive, (first,), true));
    }
    let pools: Vec<Pool> = refine_graph(
        live.ids.as_slice(),
        params,
        num_threads,
        &make_scorer,
        stopped,
    )?;
    Ok(place_lists(&live, pools))
}

} // verus!
