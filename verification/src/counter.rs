//! Saturating arithmetic for counters.

use vstd::prelude::*;

verus! {

/// `a + b`, held at the largest 64-bit value.
pub open spec fn sum64(a: u64, b: u64) -> u64 {
    if a + b > u64::MAX {
        u64::MAX
    } else {
        (a + b) as u64
    }
}

/// `a + b`, held at the largest `usize`.
pub open spec fn sum_size(a: usize, b: usize) -> usize {
    if a + b > usize::MAX {
        usize::MAX
    } else {
        (a + b) as usize
    }
}

/// `a * b`, held at the largest 64-bit value.
pub open spec fn product64(a: u64, b: u64) -> u64 {
    if a * b > u64::MAX {
        u64::MAX
    } else {
        (a * b) as u64
    }
}

/// `a * b`, held at the largest `usize`.
pub open spec fn product_size(a: usize, b: usize) -> usize {
    if a * b > usize::MAX {
        usize::MAX
    } else {
        (a * b) as usize
    }
}

/// Multiplies, held at the largest 64-bit value.
pub fn saturating_mul64(a: u64, b: u64) -> (product: u64)
    ensures
        product == product64(a, b),
{
    match a.checked_mul(b) {
        Some(product) => product,
        None => u64::MAX,
    }
}

/// Multiplies, held at the largest `usize`.
pub fn saturating_mul_size(a: usize, b: usize) -> (product: usize)
    ensures
        product == product_size(a, b),
{
    match a.checked_mul(b) {
        Some(product) => product,
        None => usize::MAX,
    }
}

/// `value` is a multiple of `unit`; the only multiple of zero is zero.
pub open spec fn divides(unit: nat, value: nat) -> bool {
    if unit == 0 {
        value == 0
    } else {
        value % unit == 0
    }
}

/// Whether `value` is a multiple of `unit`.
pub fn is_multiple_of(value: usize, unit: usize) -> (multiple: bool)
    ensures
        multiple == divides(unit as nat, value as nat),
{
    if unit == 0 {
        value == 0
    } else {
        value % unit == 0
    }
}

/// `a / b` rounded up.
pub open spec fn ceil_div(a: nat, b: nat) -> nat {
    if a % b == 0 {
        a / b
    } else {
        a / b + 1
    }
}

/// Divides, rounding up.
pub fn div_ceil(a: usize, b: usize) -> (quotient: usize)
    requires
        b > 0,
    ensures
        quotient == ceil_div(a as nat, b as nat),
        (quotient - 1) * b < a <= quotient * b,
        quotient <= a,
{
    proof {
        vstd::arithmetic::div_mod::lemma_fundamental_div_mod(a as int, b as int);
        assert((a / b) * b == b * (a / b)) by (nonlinear_arith);
        assert((a / b) <= a) by (nonlinear_arith)
            requires
                b >= 1,
        ;
        assert(a % b != 0 ==> a / b < a) by (nonlinear_arith)
            requires
                b >= 1,
                a == b * (a / b) + a % b,
                0 <= a % b < b,
        ;
        assert((a / b - 1) * b == (a / b) * b - b) by (nonlinear_arith);
        assert((a / b + 1) * b == (a / b) * b + b) by (nonlinear_arith);
    }
    if a % b == 0 {
        a / b
    } else {
        a / b + 1
    }
}

/// The sum of three counters, held at the largest value.
pub open spec fn sum_of_three(values: Seq<usize>) -> usize {
    sum_size(sum_size(values[0], values[1]), values[2])
}

/// A saturated sum does not depend on the order of its parts.
pub proof fn law_saturating_sum_is_commutative_and_associative(a: u64, b: u64, c: u64)
    ensures
        sum64(a, b) == sum64(b, a),
        sum64(sum64(a, b), c) == sum64(a, sum64(b, c)),
{
}

} // verus!
