//! Lagrange interpolation at zero over the integers modulo `p`.
//!
//! For nodes `xs[0..t)` with values `ys[0..t)`, the interpolated value at zero
//! is the sum over `i` of `ys[i] * N_i / D_i`, where `N_i` is the product of
//! `-xs[j]` and `D_i` the product of `xs[i] - xs[j]`, both over `j != i`.
//! Division is multiplication by the inverse modulo `p`, which for a prime `p`
//! is the power with exponent `p - 2`.

use vstd::arithmetic::power::*;
use vstd::prelude::*;

verus! {

/// The product of `-xs[j]` over all `j < n` other than `i`.
pub open spec fn basis_numerator(xs: Seq<int>, i: int, n: nat) -> int
    decreases n,
{
    if n == 0 {
        1
    } else if n - 1 == i {
        basis_numerator(xs, i, (n - 1) as nat)
    } else {
        basis_numerator(xs, i, (n - 1) as nat) * (-xs[n - 1])
    }
}

/// The product of `xs[i] - xs[j]` over all `j < n` other than `i`.
pub open spec fn basis_denominator(xs: Seq<int>, i: int, n: nat) -> int
    decreases n,
{
    if n == 0 {
        1
    } else if n - 1 == i {
        basis_denominator(xs, i, (n - 1) as nat)
    } else {
        basis_denominator(xs, i, (n - 1) as nat) * (xs[i] - xs[n - 1])
    }
}

/// The candidate inverse of `d` modulo `p`: `d^(p-2) mod p`. For a prime `p`
/// and `d` not divisible by `p` this is the multiplicative inverse of `d`.
/// Modulo one every number is zero.
pub open spec fn fermat_inverse(d: int, p: int) -> int {
    if p >= 2 {
        pow(d, (p - 2) as nat) % p
    } else {
        0
    }
}

/// The contribution of node `i` to the interpolated value at zero.
pub open spec fn lagrange_term(xs: Seq<int>, ys: Seq<int>, i: int, t: nat, p: int) -> int {
    ys[i] * (basis_numerator(xs, i, t) * fermat_inverse(basis_denominator(xs, i, t), p))
}

/// The sum of the contributions of the nodes `0..upto`.
pub open spec fn lagrange_sum(xs: Seq<int>, ys: Seq<int>, t: nat, p: int, upto: nat) -> int
    decreases upto,
{
    if upto == 0 {
        0
    } else {
        lagrange_sum(xs, ys, t, p, (upto - 1) as nat) + lagrange_term(xs, ys, upto - 1, t, p)
    }
}

/// The value at zero, in `[0, p)`, of the polynomial of degree below `t` that
/// passes through the first `t` points `(xs[i], ys[i])`, modulo `p`.
pub open spec fn interpolate_at_zero(xs: Seq<int>, ys: Seq<int>, t: nat, p: int) -> int {
    lagrange_sum(xs, ys, t, p, t) % p
}

} // verus!
