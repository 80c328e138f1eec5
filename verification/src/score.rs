//! Similarity scores.
//!
//! A score is a single-precision number, held as its IEEE 754 bit pattern. Both
//! orders that the index uses are read off the pattern: the total order that
//! sorts candidates, and the IEEE comparison that prunes them. The higher of
//! two scores is the closer one.

use vstd::prelude::*;

verus! {

/// A similarity score, as the bit pattern of a single-precision number.
#[derive(Clone, Copy, Debug, PartialEq, Eq, Structural)]
pub struct Score {
    pub bits: u32,
}

impl Score {
    /// The place of the score in the total order of all bit patterns: negative
    /// numbers below positive ones, and each sign's NaNs at its far end.
    pub open spec fn rank(self) -> int {
        if self.bits < 0x8000_0000 {
            self.bits as int
        } else {
            0x7FFF_FFFF - self.bits
        }
    }

    /// Whether the pattern is not a number.
    pub open spec fn is_nan(self) -> bool {
        self.bits % 0x8000_0000 > 0x7F80_0000
    }

    /// A number that orders as the scores do; both zeros have the same one.
    pub open spec fn magnitude(self) -> int {
        if self.bits < 0x8000_0000 {
            self.bits as int
        } else {
            0x8000_0000 - self.bits
        }
    }

    /// The IEEE comparison `self > other`, which is false of a NaN.
    pub open spec fn exceeds(self, other: Score) -> bool {
        &&& !self.is_nan()
        &&& !other.is_nan()
        &&& self.magnitude() > other.magnitude()
    }

    /// The score whose bit pattern is `bits`.
    pub fn from_bits(bits: u32) -> (score: Score)
        ensures
            score.bits == bits,
    {
        Score { bits }
    }

    /// The bit pattern of the score.
    pub fn to_bits(&self) -> (bits: u32)
        ensures
            bits == self.bits,
    {
        self.bits
    }

    /// The place of the score in the total order.
    pub fn total_rank(&self) -> (rank: i64)
        ensures
            rank == self.rank(),
    {
        if self.bits < 0x8000_0000 {
            self.bits as i64
        } else {
            0x7FFF_FFFF - self.bits as i64
        }
    }

    /// Whether this score is greater than `other` as a number.
    pub fn is_greater(&self, other: &Score) -> (greater: bool)
        ensures
            greater == self.exceeds(*other),
    {
        if self.bits % 0x8000_0000 > 0x7F80_0000 || other.bits % 0x8000_0000 > 0x7F80_0000 {
            return false;
        }
        let left: i64 = if self.bits < 0x8000_0000 {
            self.bits as i64
        } else {
            0x8000_0000 - self.bits as i64
        };
        let right: i64 = if other.bits < 0x8000_0000 {
            other.bits as i64
        } else {
            0x8000_0000 - other.bits as i64
        };
        left > right
    }
}

/// The total order tells any two scores apart, and refines the comparison of
/// numbers: a score that is greater than another also ranks above it.
pub proof fn law_rank_refines_comparison(a: Score, b: Score)
    ensures
        a.rank() == b.rank() ==> a == b,
        a.exceeds(b) ==> a.rank() > b.rank(),
        !a.exceeds(a),
{
}

// ---------------------------------------------------------------------------
// What the orders mean
// ---------------------------------------------------------------------------

/// Whether the sign bit of `score` is set.
pub open spec fn is_negative(score: Score) -> bool {
    score.bits / 0x8000_0000 == 1
}

/// The biased exponent of `score`.
pub open spec fn exponent(score: Score) -> nat {
    (score.bits as nat / 0x0080_0000) % 256
}

/// The fraction bits of `score`.
pub open spec fn fraction(score: Score) -> nat {
    score.bits as nat % 0x0080_0000
}

/// What exponent and fraction stand for, as a multiple of the least positive number:
/// without an exponent the fraction itself, and otherwise the fraction with its
/// leading one, shifted. Infinity comes out above all finite numbers.
pub open spec fn significance(exponent: nat, fraction: nat) -> nat {
    if exponent == 0 {
        fraction
    } else {
        (0x0080_0000 + fraction) * vstd::arithmetic::power2::pow2((exponent - 1) as nat)
    }
}

/// The number that `score` stands for, as a multiple of the least positive one.
pub open spec fn number(score: Score) -> int {
    let size = significance(exponent(score), fraction(score));
    if is_negative(score) {
        -(size as int)
    } else {
        size as int
    }
}

/// The bits of a score are its sign, exponent and fraction.
proof fn lemma_fields(score: Score)
    ensures
        exponent(score) < 256,
        fraction(score) < 0x0080_0000,
        score.bits == exponent(score) * 0x0080_0000 + fraction(score) + if is_negative(score) {
            0x8000_0000int
        } else {
            0
        },
{
}

/// Numbers grow with exponent and fraction.
proof fn lemma_significance_grows(e: nat, f: nat, d: nat, g: nat)
    requires
        f < 0x0080_0000,
        g < 0x0080_0000,
        e < d || e == d && f < g,
    ensures
        significance(e, f) < significance(d, g),
{
    use_pow2(e, d);
    if e == d {
        if e > 0 {
            let p = vstd::arithmetic::power2::pow2((e - 1) as nat);
            assert((0x0080_0000 + f) * p < (0x0080_0000 + g) * p) by (nonlinear_arith)
                requires
                    f < g,
                    p > 0,
            ;
        }
    } else {
        let q = vstd::arithmetic::power2::pow2((d - 1) as nat);
        assert((0x0080_0000 + g) * q >= 0x0080_0000 * q) by (nonlinear_arith)
            requires
                g >= 0,
                q >= 0,
        ;
        if e > 0 {
            let p = vstd::arithmetic::power2::pow2((e - 1) as nat);
            assert((0x0080_0000 + f) * p < 0x0100_0000 * p) by (nonlinear_arith)
                requires
                    f < 0x0080_0000,
                    p > 0,
            ;
        }
    }
}

/// Powers of two are positive and grow.
proof fn use_pow2(e: nat, d: nat)
    requires
        e <= d,
    ensures
        e > 0 ==> vstd::arithmetic::power2::pow2((e - 1) as nat) > 0,
        d > 0 ==> vstd::arithmetic::power2::pow2((d - 1) as nat) > 0,
        0 < e < d ==> 2 * vstd::arithmetic::power2::pow2((e - 1) as nat)
            <= vstd::arithmetic::power2::pow2((d - 1) as nat),
{
    if e > 0 {
        vstd::arithmetic::power2::lemma_pow2_pos((e - 1) as nat);
    }
    if d > 0 {
        vstd::arithmetic::power2::lemma_pow2_pos((d - 1) as nat);
    }
    if 0 < e < d {
        vstd::arithmetic::power2::lemma_pow2_unfold(e);
        if e < d - 1 {
            vstd::arithmetic::power2::lemma_pow2_strictly_increases(e, (d - 1) as nat);
        }
    }
}

/// Comparing scores compares numbers: of two scores one is greater exactly if both
/// are numbers and it stands for the greater one. A pattern is no number exactly if its
/// exponent is the greatest and its fraction is not zero.
pub proof fn law_comparison_is_of_numbers(a: Score, b: Score)
    ensures
        a.is_nan() <==> exponent(a) == 255 && fraction(a) != 0,
        a.exceeds(b) <==> !a.is_nan() && !b.is_nan() && number(a) > number(b),
{
    lemma_fields(a);
    lemma_fields(b);
    let (e, f) = (exponent(a), fraction(a));
    let (d, g) = (exponent(b), fraction(b));
    if e < d || e == d && f < g {
        lemma_significance_grows(e, f, d, g);
    } else if d < e || d == e && g < f {
        lemma_significance_grows(d, g, e, f);
    }
    lemma_significance_zero(e, f);
    lemma_significance_zero(d, g);
}

/// Only zeros have no size.
proof fn lemma_significance_zero(e: nat, f: nat)
    requires
        f < 0x0080_0000,
    ensures
        significance(e, f) == 0 <==> e == 0 && f == 0,
{
    if e > 0 {
        lemma_significance_grows(0, 0, e, f);
    }
}

/// The comparison is complete: of two scores that are numbers, one that ranks above
/// the other is greater, unless both are zeros. The rank tells the sign first; two
/// positive scores rank by exponent and then fraction, and two negative ones the other
/// way round, numbers or not.
pub proof fn law_ranks_follow_numbers(a: Score, b: Score)
    ensures
        !a.is_nan() && !b.is_nan() && a.rank() > b.rank() ==> a.exceeds(b) || number(a) == 0
            && number(b) == 0,
        !is_negative(a) && is_negative(b) ==> a.rank() > b.rank(),
        !is_negative(a) && !is_negative(b) ==> (a.rank() > b.rank() <==> exponent(a) > exponent(b)
            || exponent(a) == exponent(b) && fraction(a) > fraction(b)),
        is_negative(a) && is_negative(b) ==> (a.rank() > b.rank() <==> exponent(a) < exponent(b)
            || exponent(a) == exponent(b) && fraction(a) < fraction(b)),
{
    lemma_fields(a);
    lemma_fields(b);
    law_comparison_is_of_numbers(a, b);
    lemma_significance_zero(exponent(a), fraction(a));
    lemma_significance_zero(exponent(b), fraction(b));
}

} // verus!
