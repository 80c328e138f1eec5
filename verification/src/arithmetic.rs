//! Saturating arithmetic.

use vstd::prelude::*;

verus! {

/// `a * b`, or the greatest `usize` where that does not fit.
pub open spec fn saturating_product(a: usize, b: usize) -> int {
    if a * b > usize::MAX {
        usize::MAX as int
    } else {
        a * b
    }
}

/// Multiplies, and stays at the greatest `usize` instead of overflowing.
pub fn saturating_mul(a: usize, b: usize) -> (product: usize)
    ensures
        product == saturating_product(a, b),
{
    match a.checked_mul(b) {
        Some(product) => product,
        None => usize::MAX,
    }
}

} // verus!
