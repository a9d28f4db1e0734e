//! Fixed-point fractions: an opacity is a value in `0 ..= UNIT`, standing for
//! the real fraction `value / UNIT` of full opacity.

use vstd::arithmetic::div_mod::{lemma_div_is_ordered, lemma_div_multiples_vanish};
use vstd::arithmetic::mul::lemma_mul_upper_bound;
use vstd::prelude::*;

verus! {

/// The fixed-point scale: this value stands for an opacity of exactly `1.0`.
pub const UNIT: u32 = 65536;

/// Product of two fractions of `UNIT`, rounded down to a multiple of
/// `1 / UNIT`. Multiplication is how opacity composes down the tree.
pub open spec fn fmul(a: int, b: int) -> int {
    (a * b) / (UNIT as int)
}

/// A product of two in-range fractions is an in-range fraction.
pub proof fn lemma_fmul_bounds(a: int, b: int)
    requires
        0 <= a <= UNIT,
        0 <= b <= UNIT,
    ensures
        0 <= fmul(a, b) <= UNIT,
{
    let u = UNIT as int;
    lemma_mul_upper_bound(a, u, b, u);
    lemma_div_is_ordered(a * b, u * u, u);
    lemma_div_multiples_vanish(u, u);
    assert(a * b >= 0) by (nonlinear_arith)
        requires
            a >= 0,
            b >= 0,
    ;
}

/// Multiplying by full opacity changes nothing: a pass-through node keeps its
/// parent's resolved value exactly.
pub proof fn lemma_fmul_unit(a: int)
    ensures
        fmul(a, UNIT as int) == a,
{
    lemma_div_multiples_vanish(a, UNIT as int);
}

/// Fixed-point product of two fractions of `UNIT`.
pub fn fixed_mul(a: u32, b: u32) -> (r: u32)
    requires
        a <= UNIT,
        b <= UNIT,
    ensures
        r as int == fmul(a as int, b as int),
        r <= UNIT,
{
    proof {
        lemma_fmul_bounds(a as int, b as int);
    }
    ((a as u64 * b as u64) / (UNIT as u64)) as u32
}

} // verus!
