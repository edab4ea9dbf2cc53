//! Fixed-point probabilities.
//!
//! A probability is a `u64` holding its value scaled by [`PROB_ONE`]
//! (so `PROB_ONE` is 1.0 and `0` is 0.0). The largest `u64` value is
//! reserved: it marks a value that does not take part in any ordering,
//! standing in for a NaN in a caller's floating-point data. The decoders
//! reject matrices containing the marker before any work is done, so all
//! arithmetic here is over ordinary values.
//!
//! Addition saturates at [`PROB_MAX`]; multiplication rescales by
//! `PROB_ONE` (rounding down) and saturates likewise. Both have exact
//! specifications.

use vstd::prelude::*;

verus! {

/// The fixed-point representation of 1.0.
pub const PROB_ONE: u64 = 0x1_0000_0000;

/// The largest ordinary (comparable) probability value.
pub const PROB_MAX: u64 = 0xFFFF_FFFF_FFFF_FFFE;

/// The reserved marker for a value that does not compare (a NaN stand-in).
pub const INCOMPARABLE: u64 = 0xFFFF_FFFF_FFFF_FFFF;

/// Saturating fixed-point addition, as a mathematical function.
pub open spec fn spec_prob_add(a: u64, b: u64) -> u64 {
    if a + b > PROB_MAX {
        PROB_MAX
    } else {
        (a + b) as u64
    }
}

/// Fixed-point multiplication, as a mathematical function: the product is
/// rescaled by `PROB_ONE` (rounding down) and saturates at `PROB_MAX`.
pub open spec fn spec_prob_mul(a: u64, b: u64) -> u64 {
    if (a * b) / (PROB_ONE as int) > PROB_MAX {
        PROB_MAX
    } else {
        ((a * b) / (PROB_ONE as int)) as u64
    }
}

/// Saturating fixed-point addition.
pub fn prob_add(a: u64, b: u64) -> (r: u64)
    ensures
        r == spec_prob_add(a, b),
        r <= PROB_MAX,
{
    let s = a as u128 + b as u128;
    if s > PROB_MAX as u128 {
        PROB_MAX
    } else {
        s as u64
    }
}

/// Fixed-point multiplication with rescaling.
pub fn prob_mul(a: u64, b: u64) -> (r: u64)
    ensures
        r == spec_prob_mul(a, b),
        r <= PROB_MAX,
{
    proof {
        assert(a * b <= 0xFFFF_FFFF_FFFF_FFFFu64 * 0xFFFF_FFFF_FFFF_FFFFu64) by (nonlinear_arith)
            requires a <= 0xFFFF_FFFF_FFFF_FFFFu64, b <= 0xFFFF_FFFF_FFFF_FFFFu64,
        ;
    }
    let p = (a as u128 * b as u128) / (PROB_ONE as u128);
    if p > PROB_MAX as u128 {
        PROB_MAX
    } else {
        p as u64
    }
}

} // verus!
