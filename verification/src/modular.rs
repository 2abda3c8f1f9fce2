//! Congruences modulo a positive integer, and how Rust's truncating remainder
//! relates to the mathematical one.

use crate::bigint::truncated_rem;
use vstd::arithmetic::div_mod::*;
use vstd::arithmetic::power::*;
use vstd::prelude::*;

verus! {

/// `a` and `b` leave the same remainder modulo `m`.
pub open spec fn congruent(a: int, b: int, m: int) -> bool {
    a % m == b % m
}

/// A truncating remainder is congruent to its dividend and lies strictly
/// between `-m` and `m`.
pub proof fn lemma_truncated_rem(a: int, m: int)
    requires
        m > 0,
    ensures
        congruent(truncated_rem(a, m), a, m),
        -m < truncated_rem(a, m) < m,
        a >= 0 ==> truncated_rem(a, m) == a % m,
{
    lemma_mod_bound(a, m);
    lemma_mod_bound(-a, m);
    if a < 0 {
        let r = (-a) % m;
        // -a == m * q + r, hence a == m * (-q) - r
        lemma_fundamental_div_mod(-a, m);
        let q = (-a) / m;
        assert(a == m * (-q) + (-r)) by (nonlinear_arith)
            requires
                -a == m * q + r,
        ;
        lemma_mod_multiples_vanish(-q, -r, m);
    } else {
        lemma_mod_twice(a, m);
    }
}

/// Adding the modulus to a negative truncating remainder gives the
/// mathematical remainder.
pub proof fn lemma_normalize(r: int, a: int, m: int)
    requires
        m > 0,
        -m < r < m,
        congruent(r, a, m),
    ensures
        r < 0 ==> r + m == a % m,
        r >= 0 ==> r == a % m,
{
    if r < 0 {
        lemma_mod_multiples_vanish(1, r, m);
        assert(m * 1 + r == r + m);
        lemma_small_mod((r + m) as nat, m as nat);
    } else {
        lemma_small_mod(r as nat, m as nat);
    }
}

/// Congruent factors give congruent products.
pub proof fn lemma_congruent_mul(a: int, b: int, c: int, d: int, m: int)
    requires
        m > 0,
        congruent(a, b, m),
        congruent(c, d, m),
    ensures
        congruent(a * c, b * d, m),
{
    lemma_mul_mod_noop_general(a, c, m);
    lemma_mul_mod_noop_general(b, d, m);
}

/// Congruent summands give congruent sums.
pub proof fn lemma_congruent_add(a: int, b: int, c: int, d: int, m: int)
    requires
        m > 0,
        congruent(a, b, m),
        congruent(c, d, m),
    ensures
        congruent(a + c, b + d, m),
{
    lemma_add_mod_noop(a, c, m);
    lemma_add_mod_noop(b, d, m);
}

/// Congruent terms give congruent differences.
pub proof fn lemma_congruent_sub(a: int, b: int, c: int, d: int, m: int)
    requires
        m > 0,
        congruent(a, b, m),
        congruent(c, d, m),
    ensures
        congruent(a - c, b - d, m),
{
    lemma_sub_mod_noop(a, c, m);
    lemma_sub_mod_noop(b, d, m);
}

/// Congruent bases give congruent powers.
pub proof fn lemma_congruent_pow(a: int, b: int, e: nat, m: int)
    requires
        m > 0,
        congruent(a, b, m),
    ensures
        congruent(pow(a, e), pow(b, e), m),
{
    lemma_pow_mod_noop(a, e, m);
    lemma_pow_mod_noop(b, e, m);
}

/// A number is congruent to its remainder.
pub proof fn lemma_congruent_rem(a: int, m: int)
    requires
        m > 0,
    ensures
        congruent(a % m, a, m),
{
    lemma_mod_twice(a, m);
}

} // verus!
