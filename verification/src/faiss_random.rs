//! Random helpers of the MIRAGE build path: the 32-bit Mersenne Twister that
//! `std::mt19937` names, and the level draw and shuffle that FAISS builds on it.
//!
//! The generator is specified by its word sequence: the first words come from
//! the seed, and every later word is the twist of three earlier ones. An output
//! is a tempered word, so what a generator will still return is known from its
//! state alone.

use vstd::prelude::*;

verus! {

/// Number of words in the state of the generator.
pub const STATE_WORDS: usize = 624;

/// Distance between a word and the word that the twist combines it with.
pub const SHIFT_WORDS: usize = 397;

/// The `i`-th word of the state that `seed` starts.
pub open spec fn seed_word(seed: u32, i: nat) -> u32
    decreases i,
{
    if i == 0 {
        seed
    } else {
        let previous = seed_word(seed, (i - 1) as nat);
        1812433253u32.wrapping_mul(previous ^ (previous >> 30)).wrapping_add(i as u32)
    }
}

/// The state that `seed` starts.
pub open spec fn seed_state(seed: u32) -> Seq<u32> {
    Seq::new(STATE_WORDS as nat, |i: int| seed_word(seed, i as nat))
}

/// The twist of two neighboring words: the top bit of the first joined with the
/// low bits of the second, multiplied by the generator's matrix.
pub open spec fn twist_word(upper: u32, lower: u32) -> u32 {
    let x = (upper & 0x8000_0000u32) | (lower & 0x7FFF_FFFFu32);
    if x & 1u32 != 0u32 {
        (x >> 1) ^ 0x9908_B0DFu32
    } else {
        x >> 1
    }
}

/// The `k`-th word of the sequence whose first words are `state`.
pub open spec fn word(state: Seq<u32>, k: nat) -> u32
    decreases k,
{
    if k < STATE_WORDS {
        state[k as int]
    } else {
        word(state, (k - STATE_WORDS + SHIFT_WORDS) as nat) ^ twist_word(
            word(state, (k - STATE_WORDS) as nat),
            word(state, (k - STATE_WORDS + 1) as nat),
        )
    }
}

/// The output that the generator makes of a word.
pub open spec fn temper(word: u32) -> u32 {
    let a = word ^ (word >> 11);
    let b = a ^ ((a << 7) & 0x9D2C_5680u32);
    let c = b ^ ((b << 15) & 0xEFC6_0000u32);
    c ^ (c >> 18)
}

/// The `k`-th output of a generator that starts from `seed`.
pub open spec fn mt19937_output(seed: u32, k: nat) -> u32 {
    temper(word(seed_state(seed), k + STATE_WORDS as nat))
}

/// A state made of the words `624..1248` of another continues its sequence.
proof fn lemma_word_shift(state: Seq<u32>, twisted: Seq<u32>, k: nat)
    requires
        forall|i: int| 0 <= i < STATE_WORDS ==> twisted[i] == word(state, (i + STATE_WORDS) as nat),
    ensures
        word(twisted, k) == word(state, k + STATE_WORDS as nat),
    decreases k,
{
    if k >= STATE_WORDS {
        lemma_word_shift(state, twisted, (k - STATE_WORDS + SHIFT_WORDS) as nat);
        lemma_word_shift(state, twisted, (k - STATE_WORDS) as nat);
        lemma_word_shift(state, twisted, (k - STATE_WORDS + 1) as nat);
    }
}

/// Minimal MT19937 implementation compatible with `std::mt19937(seed)`.
pub struct FaissMt19937 {
    state: [u32; 624],
    index: usize,
}

impl Clone for FaissMt19937 {
    fn clone(&self) -> (copy: Self)
        ensures
            copy == *self,
    {
        proof {
            use_type_invariant(self);
        }
        FaissMt19937 { state: self.state, index: self.index }
    }
}

impl FaissMt19937 {
    #[verifier::type_invariant]
    spec fn index_in_state(self) -> bool {
        self.index <= STATE_WORDS
    }

    /// The `k`-th value that [`next_u32`](Self::next_u32) will return.
    pub closed spec fn stream(self, k: nat) -> u32 {
        temper(word(self.state@, self.index as nat + k))
    }

    /// Whether this is what `earlier` becomes after `n` values are drawn from it.
    pub open spec fn is_ahead_of(self, earlier: Self, n: nat) -> bool {
        forall|k: nat| #[trigger] self.stream(k) == earlier.stream(k + n)
    }

    /// A generator at the start of the sequence of `seed`.
    pub fn new(seed: u32) -> (rng: Self)
        ensures
            forall|k: nat| #[trigger] rng.stream(k) == mt19937_output(seed, k),
    {
        let mut state: [u32; 624] = [0u32; 624];
        state[0] = seed;
        let mut i: usize = 1;
        while i < STATE_WORDS
            invariant
                1 <= i <= STATE_WORDS,
                forall|j: int| 0 <= j < i ==> state@[j] == seed_word(seed, j as nat),
            decreases STATE_WORDS - i,
        {
            let previous: u32 = state[i - 1];
            state[i] = 1812433253u32.wrapping_mul(previous ^ (previous >> 30)).wrapping_add(
                i as u32,
            );
            i = i + 1;
        }
        assert(state@ =~= seed_state(seed));
        FaissMt19937 { state, index: 624 }
    }

    /// Draws the next value.
    pub fn next_u32(&mut self) -> (value: u32)
        ensures
            value == old(self).stream(0),
            final(self).is_ahead_of(*old(self), 1),
    {
        proof {
            use_type_invariant(&*self);
        }
        if self.index >= STATE_WORDS {
            self.twist();
        }
        proof {
            use_type_invariant(&*self);
        }
        let ghost drawn_from = *self;
        let mut y: u32 = self.state[self.index];
        self.index = self.index + 1;

        y = y ^ (y >> 11);
        y = y ^ ((y << 7) & 0x9D2C_5680);
        y = y ^ ((y << 15) & 0xEFC6_0000);
        y = y ^ (y >> 18);
        proof {
            assert(y == drawn_from.stream(0));
            assert forall|k: nat| #[trigger] self.stream(k) == old(self).stream(k + 1) by {
                assert(self.stream(k) == drawn_from.stream(k + 1));
            }
        }
        y
    }

    /// Draws a value below `max`.
    pub fn rand_int(&mut self, max: usize) -> (value: usize)
        requires
            max > 0,
        ensures
            value == old(self).stream(0) as int % max as int,
            value < max,
            final(self).is_ahead_of(*old(self), 1),
    {
        self.next_u32() as usize % max
    }

    /// Replaces the state by the words that follow it.
    fn twist(&mut self)
        requires
            old(self).index == STATE_WORDS,
        ensures
            final(self).index == 0,
            forall|k: nat| #[trigger] final(self).stream(k) == old(self).stream(k),
    {
        let ghost before = self.state@;
        let mut i: usize = 0;
        while i < STATE_WORDS
            invariant
                i <= STATE_WORDS,
                self.index == STATE_WORDS,
                before == old(self).state@,
                forall|j: int|
                    0 <= j < i ==> self.state@[j] == word(before, (j + STATE_WORDS) as nat),
                forall|j: int| i <= j < STATE_WORDS ==> self.state@[j] == before[j],
            decreases STATE_WORDS - i,
        {
            let x: u32 = (self.state[i] & 0x8000_0000) | (self.state[(i + 1) % STATE_WORDS]
                & 0x7FFF_FFFF);
            let mut xa: u32 = x >> 1;
            if x & 1 != 0 {
                xa = xa ^ 0x9908_B0DF;
            }
            proof {
                let next = word(before, (i + 1) as nat);
                assert(self.state@[(i + 1) % STATE_WORDS as int] == next);
                assert(xa == twist_word(word(before, i as nat), next));
                assert(self.state@[(i + SHIFT_WORDS) % STATE_WORDS as int] == word(
                    before,
                    (i + SHIFT_WORDS) as nat,
                ));
            }
            self.state[i] = self.state[(i + SHIFT_WORDS) % STATE_WORDS] ^ xa;
            i = i + 1;
        }
        self.index = 0;
        proof {
            assert forall|k: nat| #[trigger] self.stream(k) == old(self).stream(k) by {
                lemma_word_shift(before, self.state@, k);
            }
        }
    }
}

/// One in the fixed-point unit of the level draw, which is `2^-54`.
///
/// Every single-precision number that the draw compares or subtracts is a whole
/// number of these units.
pub const UNIT_ONE: u64 = 0x0040_0000_0000_0000;

/// The single-precision `1e-9` in units: a level less probable than this is not drawn.
pub const UNIT_NEGLIGIBLE: u64 = 18_014_398;

/// Number of values of a single-precision significand.
pub const SIGNIFICAND: u64 = 0x0100_0000;

/// The spacing of single-precision numbers at `x`: the least power of two that
/// brings `x` below the number of significands.
pub open spec fn spacing(x: nat) -> nat
    decreases x,
{
    if x < SIGNIFICAND {
        1
    } else {
        2 * spacing(x / 2)
    }
}

/// `x` rounded to the nearest single-precision number, ties to the even significand.
pub open spec fn round_single(x: nat) -> nat {
    let step = spacing(x);
    let below = x / step;
    let rest = x % step;
    if 2 * rest < step || (2 * rest == step && below % 2 == 0) {
        below * step
    } else {
        (below + 1) * step
    }
}

/// The single-precision quotient of a drawn value and `2^32`, in units.
pub open spec fn draw_units(value: u32) -> nat {
    round_single(value as nat) * 0x0040_0000
}

/// The level that the draw `rest` falls on, from `level` upwards: it takes a
/// level when it is below that level's probability, and gives that probability
/// away otherwise. A negligible probability ends the walk at the level before.
pub open spec fn level_from(probabilities: Seq<u64>, level: nat, rest: nat) -> nat
    decreases probabilities.len() - level,
{
    if level >= probabilities.len() || probabilities[level as int] < UNIT_NEGLIGIBLE {
        if level == 0 {
            0
        } else {
            (level - 1) as nat
        }
    } else if rest < probabilities[level as int] {
        level
    } else {
        level_from(
            probabilities,
            level + 1,
            round_single((rest - probabilities[level as int]) as nat),
        )
    }
}

/// The spacing is a positive power of two under which `x` has few enough steps.
proof fn lemma_spacing(x: nat)
    ensures
        spacing(x) >= 1,
        x / spacing(x) < SIGNIFICAND,
        x >= 1 ==> spacing(x) <= x,
    decreases x,
{
    if x >= SIGNIFICAND {
        lemma_spacing(x / 2);
        let half = spacing(x / 2);
        vstd::arithmetic::div_mod::lemma_div_denominator(x as int, 2, half as int);
    }
}

/// Rounds `x` to the nearest single-precision number.
fn round_to_single(x: u64) -> (rounded: u64)
    requires
        x <= UNIT_ONE,
    ensures
        rounded == round_single(x as nat),
{
    let mut step: u64 = 1;
    let mut scaled: u64 = x;
    proof {
        lemma_spacing(x as nat);
        assert(1 * spacing(x as nat) == spacing(x as nat));
        assert(x as nat / 1 == x);
    }
    while scaled >= SIGNIFICAND
        invariant
            step >= 1,
            x <= UNIT_ONE,
            scaled == x / step,
            step * spacing(scaled as nat) == spacing(x as nat),
            x >= 1 ==> spacing(x as nat) <= x,
        decreases scaled,
    {
        proof {
            let inner = spacing((scaled / 2) as nat);
            assert(spacing(scaled as nat) == 2 * inner);
            assert(step * (2 * inner) == (step * 2) * inner) by (nonlinear_arith);
            lemma_spacing((scaled / 2) as nat);
            assert((step * 2) * inner >= step * 2) by (nonlinear_arith)
                requires
                    inner >= 1,
            ;
            vstd::arithmetic::div_mod::lemma_div_denominator(x as int, step as int, 2);
        }
        step = step * 2;
        scaled = scaled / 2;
    }
    proof {
        assert(step * 1 == step);
        vstd::arithmetic::div_mod::lemma_fundamental_div_mod(x as int, step as int);
        assert(step * scaled == scaled * step) by (nonlinear_arith);
        assert((scaled + 1) * step == scaled * step + step) by (nonlinear_arith);
    }
    let rest: u64 = x % step;
    if 2 * rest < step || (2 * rest == step && scaled % 2 == 0) {
        scaled * step
    } else {
        (scaled + 1) * step
    }
}

/// The probabilities of the levels of a graph with a number of links per point, in
/// units, from level 0 upwards.
pub struct LevelTable {
    links: usize,
    probabilities: Vec<u64>,
}

impl LevelTable {
    #[verifier::type_invariant]
    spec fn ends_negligible(self) -> bool {
        &&& self.probabilities@.len() > 0
        &&& self.probabilities@.last() < UNIT_NEGLIGIBLE
    }

    /// The probabilities of the levels, in units.
    pub closed spec fn view(self) -> Seq<u64> {
        self.probabilities@
    }

    /// The number of links that the probabilities are for.
    pub closed spec fn for_links(self) -> usize {
        self.links
    }

    /// A table of the `probabilities` for `links` links per point, provided that the
    /// last of them is negligible.
    pub fn new(links: usize, probabilities: Vec<u64>) -> (table: Option<LevelTable>)
        ensures
            match table {
                Some(made) => {
                    &&& made.for_links() == links
                    &&& made@ == probabilities@
                    &&& probabilities@.len() > 0
                    &&& probabilities@.last() < UNIT_NEGLIGIBLE
                },
                None => probabilities@.len() == 0 || probabilities@.last() >= UNIT_NEGLIGIBLE,
            },
    {
        if probabilities.len() > 0 && probabilities[probabilities.len() - 1] < UNIT_NEGLIGIBLE {
            Some(LevelTable { links, probabilities })
        } else {
            None
        }
    }
}

impl FaissMt19937 {
    /// Draws a single-precision number from zero to one, in units.
    pub fn rand_float(&mut self) -> (units: u64)
        ensures
            units == draw_units(old(self).stream(0)),
            units <= UNIT_ONE,
            final(self).is_ahead_of(*old(self), 1),
    {
        let value: u32 = self.next_u32();
        let rounded: u64 = round_to_single(value as u64);
        proof {
            lemma_draw_at_most_one(value);
        }
        rounded * 0x0040_0000
    }
}

/// A draw is at most one.
proof fn lemma_draw_at_most_one(value: u32)
    ensures
        draw_units(value) <= UNIT_ONE,
{
    let x = value as nat;
    let step = spacing(x);
    lemma_spacing(x);
    lemma_spacing_of_draw(x);
    vstd::arithmetic::div_mod::lemma_fundamental_div_mod(x as int, step as int);
    let below = x / step;
    assert((below + 1) * step <= 0x0100_0000 * step) by (nonlinear_arith)
        requires
            below + 1 <= 0x0100_0000,
    ;
    assert(below * step <= (below + 1) * step) by (nonlinear_arith);
}

/// The spacing below `2^32` is at most `2^8`.
proof fn lemma_spacing_of_draw(x: nat)
    requires
        x < 0x1_0000_0000,
    ensures
        spacing(x) <= 256,
{
    reveal_with_fuel(spacing, 10);
}

/// The number of links that the level probabilities of a graph with `m` links per
/// point are for.
#[verifier::allow_in_spec]
pub fn level_links(m: usize) -> usize
    returns
        (if m < 2 {
            2
        } else {
            m
        }),
{
    if m < 2 {
        2
    } else {
        m
    }
}

/// Whether a point of a graph with `m` links per point reaches `level` by the drawn
/// `value`, with the probabilities of `table`.
pub open spec fn reaches(m: usize, table: LevelTable, value: u32, level: nat) -> bool {
    &&& table.for_links() == level_links(m)
    &&& level == level_from(table@, 0, draw_units(value))
}

/// Graphs with up to two links per point draw their levels alike: they share their
/// probabilities, and by them a drawn value leads to one level, whichever of these the
/// graph is.
pub proof fn law_few_links_draw_alike(
    m: usize,
    n: usize,
    table: LevelTable,
    value: u32,
    level: nat,
)
    requires
        m <= 2,
        n <= 2,
    ensures
        level_links(m) == level_links(n) == 2,
        reaches(m, table, value, level) == reaches(n, table, value, level),
        forall|other: nat| #[trigger]
            reaches(n, table, value, other) && reaches(m, table, value, level) ==> other == level,
{
}

/// Draws the level of a point of a graph with `m` links per point: how many layers of
/// the graph it reaches above layer 0. Each level has the probability that `table`
/// gives it.
pub fn faiss_random_level(m: usize, table: &LevelTable, rng: &mut FaissMt19937) -> (level: usize)
    requires
        table.for_links() == level_links(m),
    ensures
        reaches(m, *table, old(rng).stream(0), level as nat),
        level < table@.len(),
        level < usize::MAX,
        final(rng).is_ahead_of(*old(rng), 1),
{
    let mut rest: u64 = rng.rand_float();
    let ghost drawn = rest as nat;
    let mut level: usize = 0;
    proof {
        use_type_invariant(table);
    }
    while level < table.probabilities.len() && table.probabilities[level] >= UNIT_NEGLIGIBLE
        && rest >= table.probabilities[level]
        invariant
            rest <= UNIT_ONE,
            level < table.probabilities@.len(),
            table.probabilities@.last() < UNIT_NEGLIGIBLE,
            level_from(table@, 0, drawn) == level_from(table@, level as nat, rest as nat),
        decreases table.probabilities@.len() - level,
    {
        let left: u64 = rest - table.probabilities[level];
        proof {
            lemma_round_single_within(left as nat);
        }
        rest = round_to_single(left);
        level = level + 1;
    }
    if level < table.probabilities.len() && table.probabilities[level] >= UNIT_NEGLIGIBLE {
        level
    } else if level == 0 {
        0
    } else {
        level - 1
    }
}

/// Rounding does not pass one, which is itself a single-precision number.
proof fn lemma_round_single_within(x: nat)
    requires
        x <= UNIT_ONE,
    ensures
        round_single(x) <= UNIT_ONE,
{
    lemma_spacing(x);
    let step = spacing(x);
    vstd::arithmetic::div_mod::lemma_fundamental_div_mod(x as int, step as int);
    let below = x / step;
    assert(below * step == step * below) by (nonlinear_arith);
    if x == UNIT_ONE {
        assert(spacing(x) == 0x8000_0000) by {
            reveal_with_fuel(spacing, 33);
        }
        assert(x as int / 0x8000_0000 == 0x80_0000);
        assert(x as int % 0x8000_0000 == 0);
    } else {
        assert(step <= 0x4000_0000) by {
            reveal_with_fuel(spacing, 33);
        }
        assert((below + 1) * step <= 0x0100_0000 * step) by (nonlinear_arith)
            requires
                below + 1 <= 0x0100_0000,
        ;
        assert(below * step <= (below + 1) * step) by (nonlinear_arith);
    }
}

/// `s` with the items at `i` and `j` exchanged.
pub open spec fn swapped<T>(s: Seq<T>, i: int, j: int) -> Seq<T> {
    s.update(i, s[j]).update(j, s[i])
}

/// Exchanges two items by `slice::swap`, of which it claims that the items at the
/// two indices trade places and all others stay.
#[verifier::external_body]
fn swap_items<T>(values: &mut [T], a: usize, b: usize)
    requires
        a < old(values)@.len(),
        b < old(values)@.len(),
    ensures
        final(values)@ == swapped(old(values)@, a as int, b as int),
{
    values.swap(a, b);
}

/// `values` after the first `n` exchanges of a shuffle by the values of `draw`: the
/// `j`-th exchanges the item at `j` with one drawn from `j` to the end.
pub open spec fn shuffled<T>(values: Seq<T>, draw: spec_fn(nat) -> u32, n: nat) -> Seq<T>
    decreases n,
{
    if n == 0 {
        values
    } else {
        let j = n - 1;
        let offset = draw(j as nat) as int % (values.len() - j);
        swapped(shuffled(values, draw, j as nat), j, j + offset)
    }
}

/// Exchanging two items keeps the items.
proof fn lemma_swapped_multiset<T>(s: Seq<T>, i: int, j: int)
    requires
        0 <= i < s.len(),
        0 <= j < s.len(),
    ensures
        swapped(s, i, j).to_multiset() == s.to_multiset(),
{
    broadcast use vstd::seq_lib::group_to_multiset_ensures;

    let step = s.update(i, s[j]);
    assert(s.update(i, s[j]).to_multiset() =~= s.to_multiset().insert(s[j]).remove(s[i]));
    assert(step.update(j, s[i]).to_multiset() =~= step.to_multiset().insert(s[i]).remove(step[j]));
    assert(step[j] == s[j]);
    assert(swapped(s, i, j).to_multiset() =~= s.to_multiset());
}

/// A shuffle neither loses nor invents an item: its result is a rearrangement.
pub proof fn law_shuffle_rearranges<T>(values: Seq<T>, draw: spec_fn(nat) -> u32, n: nat)
    requires
        n <= values.len(),
    ensures
        shuffled(values, draw, n).len() == values.len(),
        shuffled(values, draw, n).to_multiset() == values.to_multiset(),
    decreases n,
{
    if n > 0 {
        let j = n - 1;
        law_shuffle_rearranges(values, draw, j as nat);
        let offset = draw(j as nat) as int % (values.len() - j);
        lemma_swapped_multiset(shuffled(values, draw, j as nat), j, j + offset);
    }
}

/// Shuffles `values`, with one draw for every item.
pub fn faiss_shuffle<T>(values: &mut [T], rng: &mut FaissMt19937)
    ensures
        final(values)@ == shuffled(
            old(values)@,
            |k: nat| old(rng).stream(k),
            old(values)@.len(),
        ),
        final(rng).is_ahead_of(*old(rng), old(values)@.len()),
{
    let ghost before = values@;
    let ghost draw = |k: nat| old(rng).stream(k);
    let count: usize = values.len();
    let mut j: usize = 0;
    while j < count
        invariant
            j <= count,
            count == values@.len(),
            count == before.len(),
            forall|k: nat| #[trigger] draw(k) == old(rng).stream(k),
            values@ == shuffled(before, draw, j as nat),
            rng.is_ahead_of(*old(rng), j as nat),
        decreases count - j,
    {
        assert(rng.stream(0) == old(rng).stream(0 + j as nat));
        let offset: usize = rng.rand_int(count - j);
        swap_items(values, j, j + offset);
        j = j + 1;
    }
}

} // verus!
