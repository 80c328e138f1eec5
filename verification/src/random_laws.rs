//! What draws, samples and shuffles come to.

use vstd::prelude::*;

verus! {

// ---------------------------------------------------------------------------
// The generator
// ---------------------------------------------------------------------------

/// Every word of the generator but the first ones is made of three earlier ones: the
/// one 397 places on from the oldest is combined with the top bit of the oldest and the
/// low bits of the one after it, halved, and with the matrix where those are odd.
pub proof fn law_words_follow_from_earlier_ones(state: Seq<u32>, k: nat)
    ensures
        ({
            let oldest = crate::faiss_random::word(state, k);
            let next = crate::faiss_random::word(state, k + 1);
            let joined = (oldest / 0x8000_0000u32) as int * 0x8000_0000 + next as int
                % 0x8000_0000;
            let half = (joined / 2) as u32;
            crate::faiss_random::word(state, k + 624) == crate::faiss_random::word(state, k + 397)
                ^ if next % 2 == 1 {
                half ^ 0x9908_B0DFu32
            } else {
                half
            }
        }),
        k < 624 ==> crate::faiss_random::word(state, k) == state[k as int],
{
    let oldest = crate::faiss_random::word(state, k);
    let next = crate::faiss_random::word(state, k + 1);
    let x = (oldest & 0x8000_0000u32) | (next & 0x7FFF_FFFFu32);
    let joined = (oldest / 0x8000_0000u32) as int * 0x8000_0000 + next as int % 0x8000_0000;
    assert(((oldest & 0x8000_0000u32) | (next & 0x7FFF_FFFFu32)) as int == (oldest
        / 0x8000_0000u32) as int * 0x8000_0000int + next % 0x8000_0000u32) by (bit_vector);
    assert((x >> 1u32) == x / 2u32) by (bit_vector);
    assert((x & 1u32 != 0u32) == (next % 2u32 == 1u32)) by (bit_vector)
        requires
            x == (oldest & 0x8000_0000u32) | (next & 0x7FFF_FFFFu32),
    ;
}

/// The words that a seed starts: the seed itself, and from each the next, by a multiple
/// of its mixture with its two top bits, plus its place, modulo `2^32`.
pub proof fn law_seed_words(seed: u32, i: nat)
    requires
        i < 624,
    ensures
        crate::faiss_random::seed_word(seed, 0) == seed,
        ({
            let previous = crate::faiss_random::seed_word(seed, i);
            crate::faiss_random::seed_word(seed, i + 1) == (1812433253 * (previous ^ (previous
                / 0x4000_0000u32)) + (i + 1)) % 0x1_0000_0000
        }),
{
    let previous = crate::faiss_random::seed_word(seed, i);
    assert(previous >> 30u32 == previous / 0x4000_0000u32) by (bit_vector);
    let mixed = previous ^ (previous >> 30u32);
    let product = 1812433253u32.wrapping_mul(mixed);
    assert(product == (1812433253 * mixed) % 0x1_0000_0000);
    assert(crate::faiss_random::seed_word(seed, i + 1) == (product + (i + 1)) % 0x1_0000_0000);
    vstd::arithmetic::div_mod::lemma_add_mod_noop_right(
        i as int + 1,
        1812433253 * mixed,
        0x1_0000_0000,
    );
}

/// Tempering is linear over the bits of a word: it takes combined words to combined
/// outputs, and nothing to nothing. It takes no two words to one output.
pub proof fn law_tempering_is_linear(a: u32, b: u32)
    ensures
        crate::faiss_random::temper(a ^ b) == crate::faiss_random::temper(a)
            ^ crate::faiss_random::temper(b),
        crate::faiss_random::temper(0) == 0,
        crate::faiss_random::temper(a) == crate::faiss_random::temper(b) ==> a == b,
{
    assert(crate::faiss_random::temper(a ^ b) == crate::faiss_random::temper(a)
        ^ crate::faiss_random::temper(b)) by (bit_vector);
    assert(crate::faiss_random::temper(0u32) == 0u32) by (bit_vector);
    assert(crate::faiss_random::temper(a) == crate::faiss_random::temper(b) ==> a == b)
        by (bit_vector);
}

// ---------------------------------------------------------------------------
// Samples
// ---------------------------------------------------------------------------

/// The remainders of the first `size` values of `draw` by `n - size`.
pub open spec fn remainders(draw: spec_fn(nat) -> u32, size: nat, n: nat) -> Seq<int> {
    Seq::new(size, |i: int| draw(i as nat) as int % (n - size))
}

/// Whether `distinct` are the values of `ascending`, each raised past the one before it
/// as far as that is needed.
pub open spec fn raised_past(ascending: Seq<int>, distinct: Seq<int>) -> bool {
    &&& distinct.len() == ascending.len()
    &&& ascending.len() > 0 ==> distinct[0] == ascending[0]
    &&& forall|i: int|
        0 < i < distinct.len() ==> #[trigger] distinct[i] == if ascending[i] > distinct[i - 1] {
            ascending[i]
        } else {
            distinct[i - 1] + 1
        }
}

/// Spreading raises each value past the one before it.
proof fn lemma_spread_raises(values: Seq<int>)
    ensures
        raised_past(values, crate::layer0_model::spread(values)),
    decreases values.len(),
{
    if values.len() > 1 {
        let shorter = values.drop_last();
        lemma_spread_raises(shorter);
        let before = crate::layer0_model::spread(shorter);
        let after = crate::layer0_model::spread(values);
        assert forall|i: int| 0 < i < after.len() implies #[trigger] after[i] == if values[i]
            > after[i - 1] {
            values[i]
        } else {
            after[i - 1] + 1
        } by {
            assert(after[i - 1] == before[i - 1]);
            if i < before.len() {
                assert(after[i] == before[i]);
                assert(shorter[i] == values[i]);
            }
        }
        assert(after[0] == before[0] && shorter[0] == values[0]);
    }
}

/// Whether `positions` are `distinct` rotated by `offset` within `n`.
pub open spec fn rotates_to(distinct: Seq<int>, offset: int, n: nat, positions: Seq<int>) -> bool {
    &&& positions.len() == distinct.len()
    &&& forall|i: int|
        0 <= i < positions.len() ==> #[trigger] positions[i] == (distinct[i] + offset) % n as int
}

/// A sample of `size` out of `n` is drawn from the whole range: each of the first `size`
/// values leads to its remainder by `n - size`. Put in ascending order and raised to be
/// distinct, they are rotated by the remainder of the next value by `n`.
pub proof fn law_sample_comes_from_remainders(
    draw: spec_fn(nat) -> u32,
    size: nat,
    n: nat,
) -> (found: (Seq<int>, Seq<int>))
    requires
        0 < size < n,
    ensures
        found.0.to_multiset() == remainders(draw, size, n).to_multiset(),
        found.0.len() == size,
        forall|i: int, j: int| 0 <= i <= j < found.0.len() ==> found.0[i] <= found.0[j],
        raised_past(found.0, found.1),
        rotates_to(
            found.1,
            draw(size) as int % n as int,
            n,
            crate::layer0_model::sample(draw, size, n),
        ),
{
    let raw = crate::layer0_model::picks(draw, size, n);
    assert(raw =~= remainders(draw, size, n));
    let sorted = raw.sort();
    raw.lemma_sort_ensures();
    crate::layer0_model::lemma_sorted_picks(draw, size, n);
    lemma_spread_raises(sorted);
    (sorted, crate::layer0_model::spread(sorted))
}

/// A sample of one is a remainder by `n - 1`, rotated by a remainder by `n`.
pub proof fn law_sample_of_one(draw: spec_fn(nat) -> u32, n: nat)
    requires
        n > 1,
    ensures
        crate::layer0_model::sample(draw, 1, n) == seq![
            (draw(0) as int % (n - 1) + draw(1) as int % n as int) % n as int,
        ],
{
    broadcast use vstd::seq_lib::group_to_multiset_ensures;

    let (ascending, distinct) = law_sample_comes_from_remainders(draw, 1, n);
    let only = remainders(draw, 1, n);
    assert(ascending.contains(ascending[0]));
    assert(only.to_multiset().count(ascending[0]) > 0);
    assert(only.contains(ascending[0]));
    assert(ascending[0] == only[0]);
    let sample = crate::layer0_model::sample(draw, 1, n);
    assert(sample[0] == (distinct[0] + draw(1) as int % n as int) % n as int);
    assert(sample =~= seq![(draw(0) as int % (n - 1) + draw(1) as int % n as int) % n as int]);
}

/// Where all values have the remainder `v` by `n - size`, which may be any, the sample
/// is `size` positions in a row from `v` on, rotated.
pub proof fn law_sample_reaches_every_position(
    draw: spec_fn(nat) -> u32,
    size: nat,
    n: nat,
    v: int,
)
    requires
        0 < size < n,
        forall|i: nat| i < size ==> #[trigger] draw(i) as int % (n - size) == v,
    ensures
        rotates_to(
            Seq::new(size, |i: int| v + i),
            draw(size) as int % n as int,
            n,
            crate::layer0_model::sample(draw, size, n),
        ),
{
    broadcast use vstd::seq_lib::group_to_multiset_ensures;

    let (ascending, distinct) = law_sample_comes_from_remainders(draw, size, n);
    let all = remainders(draw, size, n);
    assert forall|i: int| 0 <= i < size implies #[trigger] ascending[i] == v by {
        assert(ascending.contains(ascending[i]));
        assert(all.to_multiset().count(ascending[i]) > 0);
        assert(all.contains(ascending[i]));
        let k = choose|k: int| 0 <= k < all.len() && all[k] == ascending[i];
        assert(all[k] == draw(k as nat) as int % (n - size));
    }
    lemma_row(ascending, distinct, v, size as int);
    let row = Seq::new(size, |i: int| v + i);
    let sample = crate::layer0_model::sample(draw, size, n);
    assert forall|i: int| 0 <= i < sample.len() implies #[trigger] sample[i] == (row[i] + draw(
        size,
    ) as int % n as int) % n as int by {
        assert(distinct[i] == v + i);
    }
}

/// Equal values are raised to a row.
proof fn lemma_row(ascending: Seq<int>, distinct: Seq<int>, v: int, count: int)
    requires
        raised_past(ascending, distinct),
        0 <= count <= ascending.len(),
        forall|i: int| 0 <= i < ascending.len() ==> #[trigger] ascending[i] == v,
    ensures
        forall|i: int| 0 <= i < count ==> #[trigger] distinct[i] == v + i,
    decreases count,
{
    if count > 1 {
        lemma_row(ascending, distinct, v, count - 1);
        assert(distinct[count - 2] == v + (count - 2));
        assert(distinct[count - 1] == if ascending[count - 1] > distinct[count - 2] {
            ascending[count - 1]
        } else {
            distinct[count - 2] + 1
        });
    }
}

/// The seed of a worker is a multiple of the seed plus the number of the worker, modulo
/// `2^32`, so that the workers of one seed have different ones.
pub proof fn law_workers_have_seeds_of_their_own(seed: u64, t: u64, other: u64)
    requires
        t <= u32::MAX,
        other <= u32::MAX,
    ensures
        crate::layer0_model::worker_seed(seed, t) == (seed * 7741 + t) % 0x1_0000_0000,
        t != other ==> crate::layer0_model::worker_seed(seed, t)
            != crate::layer0_model::worker_seed(seed, other),
{
    lemma_worker_seed(seed, t);
    lemma_worker_seed(seed, other);
    if crate::layer0_model::worker_seed(seed, t) == crate::layer0_model::worker_seed(seed, other) {
        let base = seed * 7741;
        let m = 0x1_0000_0000int;
        vstd::arithmetic::div_mod::lemma_fundamental_div_mod(base + t, m);
        vstd::arithmetic::div_mod::lemma_fundamental_div_mod(base + other, m);
        let p = (base + t) / m;
        let q = (base + other) / m;
        assert(t - other == m * p - m * q);
        assert(m * p - m * q == m * (p - q));
        assert(p == q);
    }
}

proof fn lemma_worker_seed(seed: u64, t: u64)
    ensures
        crate::layer0_model::worker_seed(seed, t) == (seed * 7741 + t) % 0x1_0000_0000,
{
    let product = seed.wrapping_mul(7741);
    let sum = product.wrapping_add(t);
    let m = 0x1_0000_0000_0000_0000int;
    assert(product == (seed * 7741) % m);
    assert(sum == (product + t) % m);
    assert(#[verifier::truncate] (sum as u32) == sum % 0x1_0000_0000u64) by (bit_vector);
    vstd::arithmetic::div_mod::lemma_add_mod_noop_right(t as int, seed * 7741, m);
    assert(sum == (seed * 7741 + t) % m);
    let x = seed * 7741 + t;
    vstd::arithmetic::div_mod::lemma_mod_mod(x, 0x1_0000_0000, 0x1_0000_0000);
    assert((x % m) % 0x1_0000_0000 == x % 0x1_0000_0000);
}

/// The points of a worker's chunk draw in turn: the first from the start of the worker's
/// sequence, and each from where the one before has drawn its `s` positions and its
/// rotation.
pub proof fn law_points_of_a_chunk_draw_in_turn(seed: u64, t: u64, place: nat, s: nat, k: nat)
    ensures
        crate::layer0_model::vertex_draw(seed, t, 0, s)(k) == crate::faiss_random::mt19937_output(
            crate::layer0_model::worker_seed(seed, t),
            k,
        ),
        crate::layer0_model::vertex_draw(seed, t, place + 1, s)(k)
            == crate::layer0_model::vertex_draw(seed, t, place, s)(k + (s + 1)),
{
    assert(0 * (s + 1) + k == k);
    assert((place + 1) * (s + 1) + k == place * (s + 1) + (k + (s + 1))) by (nonlinear_arith);
}

/// As many workers share the points as there are threads, but no more than there are
/// points, and at least one.
pub proof fn law_workers_are_threads_with_points(num_threads: nat, len: nat)
    ensures
        ({
            let workers = crate::layer0_model::worker_count(num_threads, len);
            &&& workers >= 1
            &&& len > 0 ==> workers <= len
            &&& num_threads > 0 ==> workers <= num_threads
            &&& workers == 1 || workers == num_threads || workers == len
            &&& num_threads > workers ==> workers == len || len == 0
            &&& len > workers ==> workers == num_threads || num_threads == 0
        }),
{
}

/// An earlier worker has no fewer points than a later one, and at most one more.
pub proof fn law_earlier_chunks_are_no_smaller(t: nat, later: nat, workers: nat, len: nat)
    requires
        t <= later < workers,
    ensures
        ({
            let size = |w: nat|
                crate::layer0_model::chunk_start(w + 1, workers, len)
                    - crate::layer0_model::chunk_start(w, workers, len);
            size(later) <= size(t) <= size(later) + 1
        }),
{
    crate::layer0_model::law_chunks_partition(t, workers, len);
    crate::layer0_model::law_chunks_partition(later, workers, len);
    let base = len / workers;
    assert((t + 1) * base == t * base + base) by (nonlinear_arith);
    assert((later + 1) * base == later * base + base) by (nonlinear_arith);
}

// ---------------------------------------------------------------------------
// Shuffles
// ---------------------------------------------------------------------------

/// A shuffle is a first draw and the shuffle of the rest: the item that comes first is
/// the one that the first value selects by its remainder by the number of items, the
/// item that was first takes its place, and the others are shuffled by the values that
/// follow.
pub proof fn law_shuffle_draws_from_the_rest<T>(
    values: Seq<T>,
    draw: spec_fn(nat) -> u32,
    count: nat,
)
    requires
        0 < count <= values.len(),
    ensures
        ({
            let first = draw(0) as int % values.len() as int;
            let rest = values.update(first, values[0]).skip(1);
            crate::faiss_random::shuffled(values, draw, count) == seq![values[first]]
                + crate::faiss_random::shuffled(
                rest,
                |k: nat| draw(k + 1),
                (count - 1) as nat,
            )
        }),
    decreases count,
{
    let first = draw(0) as int % values.len() as int;
    let rest = values.update(first, values[0]).skip(1);
    let later = |k: nat| draw(k + 1);
    let whole = crate::faiss_random::shuffled(values, draw, count);
    let part = crate::faiss_random::shuffled(rest, later, (count - 1) as nat);
    if count == 1 {
        assert(crate::faiss_random::shuffled(values, draw, 0) == values);
        assert(whole =~= seq![values[first]] + part);
    } else {
        let j = count - 1;
        law_shuffle_draws_from_the_rest(values, draw, j as nat);
        crate::faiss_random::law_shuffle_rearranges(rest, later, (j - 1) as nat);
        let offset = draw(j as nat) as int % (values.len() - j);
        assert(later((j - 1) as nat) == draw(j as nat));
        assert(rest.len() - (j - 1) == values.len() - j);
        let inner = crate::faiss_random::shuffled(rest, later, (j - 1) as nat);
        assert(whole == crate::faiss_random::swapped(seq![values[first]] + inner, j, j + offset));
        assert(part == crate::faiss_random::swapped(inner, j - 1, j - 1 + offset));
        assert(whole =~= seq![values[first]] + part);
    }
}

// ---------------------------------------------------------------------------
// Levels
// ---------------------------------------------------------------------------

/// Rounding to single precision gives the nearest number with a significand of 24 bits:
/// a multiple of the spacing, which is as fine as the significand allows, at most half a
/// spacing away, and an even multiple where two are as near.
pub proof fn law_rounding_is_to_nearest(x: nat)
    ensures
        ({
            let step = crate::faiss_random::spacing(x);
            let rounded = crate::faiss_random::round_single(x);
            &&& step >= 1
            &&& x < 0x0100_0000 * step
            &&& step == 1 || x >= 0x0080_0000 * step
            &&& rounded % step == 0
            &&& 2 * (rounded - x) <= step
            &&& 2 * (x - rounded) <= step
            &&& 2 * (rounded - x) == step || 2 * (x - rounded) == step ==> (rounded / step) % 2
                == 0
            &&& x % step == 0 ==> rounded == x
        }),
{
    let step = crate::faiss_random::spacing(x);
    lemma_spacing_fits(x);
    vstd::arithmetic::div_mod::lemma_fundamental_div_mod(x as int, step as int);
    let below = x / step;
    let rest = x % step;
    assert(step * below == below * step) by (nonlinear_arith);
    assert((below + 1) * step == below * step + step) by (nonlinear_arith);
    vstd::arithmetic::div_mod::lemma_div_multiples_vanish(below as int, step as int);
    vstd::arithmetic::div_mod::lemma_div_multiples_vanish(below as int + 1, step as int);
    assert(step * (below + 1) == (below + 1) * step) by (nonlinear_arith);
    vstd::arithmetic::div_mod::lemma_mod_multiples_basic(below as int, step as int);
    vstd::arithmetic::div_mod::lemma_mod_multiples_basic(below as int + 1, step as int);
}

/// A drawn number is the nearest single-precision number to the value over `2^32`.
pub proof fn law_draws_are_nearest_quotients(value: u32)
    ensures
        ({
            let units = crate::faiss_random::draw_units(value);
            let exact = value * 0x0040_0000;
            let step = crate::faiss_random::spacing(value as nat) * 0x0040_0000;
            &&& 2 * (units - exact) <= step
            &&& 2 * (exact - units) <= step
            &&& units % 0x0040_0000 == 0
            &&& value < 0x0100_0000 ==> units == exact
            &&& exact * 0x1_0000_0000 == value * crate::faiss_random::UNIT_ONE
        }),
{
    law_rounding_is_to_nearest(value as nat);
}

/// The spacing is a power of two, one or large enough for a full significand.
proof fn lemma_spacing_fits(x: nat)
    ensures
        crate::faiss_random::spacing(x) >= 1,
        x < 0x0100_0000 * crate::faiss_random::spacing(x),
        crate::faiss_random::spacing(x) == 1 || x >= 0x0080_0000 * crate::faiss_random::spacing(x),
    decreases x,
{
    if x >= 0x0100_0000 {
        lemma_spacing_fits(x / 2);
    }
}

/// Whether `rests` is the way of a draw down the levels: it starts with the draw, passes
/// `passed` levels that are not negligible, and gives each of them its probability.
pub open spec fn walks(
    probabilities: Seq<u64>,
    from: nat,
    drawn: nat,
    passed: nat,
    rests: Seq<nat>,
) -> bool {
    &&& rests.len() == passed + 1
    &&& rests[0] == drawn
    &&& from + passed <= probabilities.len()
    &&& forall|i: int|
        0 <= i < passed ==> {
            &&& probabilities[from + i] >= 18_014_398
            &&& #[trigger] rests[i] >= probabilities[from + i]
            &&& rests[i + 1] == crate::faiss_random::round_single(
                (rests[i] - probabilities[from + i]) as nat,
            )
        }
}

/// A draw takes the first level whose probability what is left of it does not reach. If
/// it passes all levels that are not negligible, it takes the last of them.
pub proof fn law_level_is_the_first_that_covers_the_rest(
    probabilities: Seq<u64>,
    drawn: nat,
) -> (found: (nat, Seq<nat>))
    ensures
        walks(probabilities, 0, drawn, found.0, found.1),
        ({
            let level = crate::faiss_random::level_from(probabilities, 0, drawn);
            let passed = found.0;
            if passed < probabilities.len() && probabilities[passed as int] >= 18_014_398 {
                found.1[passed as int] < probabilities[passed as int] && level == passed
            } else {
                level == if passed == 0 {
                    0
                } else {
                    passed - 1
                }
            }
        }),
{
    lemma_level_walk(probabilities, 0, drawn)
}

proof fn lemma_level_walk(probabilities: Seq<u64>, from: nat, rest: nat) -> (found: (nat, Seq<nat>))
    requires
        from <= probabilities.len(),
    ensures
        walks(probabilities, from, rest, found.0, found.1),
        ({
            let level = crate::faiss_random::level_from(probabilities, from, rest);
            let end = from + found.0;
            if end < probabilities.len() && probabilities[end as int] >= 18_014_398 {
                found.1[found.0 as int] < probabilities[end as int] && level == end
            } else {
                level == if end == 0 {
                    0
                } else {
                    end - 1
                }
            }
        }),
    decreases probabilities.len() - from,
{
    if from >= probabilities.len() || probabilities[from as int] < 18_014_398 || rest
        < probabilities[from as int] {
        (0, seq![rest])
    } else {
        let next = crate::faiss_random::round_single((rest - probabilities[from as int]) as nat);
        let (passed, rests) = lemma_level_walk(probabilities, from + 1, next);
        let all = seq![rest] + rests;
        assert forall|i: int| 0 <= i < passed + 1 implies {
            &&& probabilities[from + i] >= 18_014_398
            &&& #[trigger] all[i] >= probabilities[from + i]
            &&& all[i + 1] == crate::faiss_random::round_single(
                (all[i] - probabilities[from + i]) as nat,
            )
        } by {
            if i > 0 {
                assert(all[i] == rests[i - 1]);
                assert(rests[i - 1] >= probabilities[(from + 1) + (i - 1)]);
            }
        }
        (passed + 1, all)
    }
}

} // verus!
