//! Feldman commitments: one public value `g^a mod p` per coefficient `a` of the
//! sharing polynomial, and the check of a share against them.

use crate::modular::{congruent, lemma_congruent_mul, lemma_congruent_pow, lemma_congruent_rem};
use crate::number_theory::{is_prime, lemma_cancel, lemma_prime_divides_product};
use crate::polynomial::{lemma_poly_eval_step, poly_eval};
use vstd::arithmetic::div_mod::lemma_small_mod;
use vstd::arithmetic::power::{
    lemma0_pow, lemma_pow0, lemma_pow_adds, lemma_pow_multiplies, lemma_pow_positive, pow,
};
use vstd::prelude::*;

verus! {

/// The commitments to the non-negative coefficients `coeffs` under generator
/// `g` and modulus `p`: `g^coeffs[k] mod p` for each `k`.
pub open spec fn commitments_of(coeffs: Seq<int>, g: int, p: int) -> Seq<int> {
    coeffs.map_values(|a: int| pow(g, a as nat) % p)
}

/// The product of `cs[k]^(i^k)` over `k < n`: what the commitments predict for
/// `g` raised to the share of participant `i`.
pub open spec fn verification_product(cs: Seq<int>, i: int, n: nat) -> int
    decreases n,
{
    if n == 0 {
        1
    } else {
        verification_product(cs, i, (n - 1) as nat) * pow(
            cs[n - 1],
            pow(i, (n - 1) as nat) as nat,
        )
    }
}

/// Whether the share `(i, v)` passes the check against the commitments `cs`:
/// there are commitments, the value is non-negative, and `g^v` agrees modulo
/// `p` with the product of the commitments raised to the powers of `i`.
pub open spec fn share_accepted(cs: Seq<int>, g: int, p: int, i: int, v: int) -> bool {
    &&& cs.len() > 0
    &&& v >= 0
    &&& pow(g, v as nat) % p == verification_product(cs, i, cs.len()) % p
}


/// A power of a non-negative number is non-negative.
pub proof fn lemma_pow_nonnegative(b: int, e: nat)
    requires
        b >= 0,
    ensures
        pow(b, e) >= 0,
{
    if b > 0 {
        lemma_pow_positive(b, e);
    } else if e > 0 {
        lemma0_pow(e);
    } else {
        lemma_pow0(b);
    }
}

/// The first `n` commitments, combined for participant `i`, are congruent to
/// `g` raised to the value at `i` of the polynomial's first `n` terms.
proof fn lemma_product_commits_to_value(coeffs: Seq<int>, g: int, p: int, i: int, n: nat)
    requires
        p > 0,
        i >= 0,
        n <= coeffs.len(),
        forall|k: int| 0 <= k < coeffs.len() ==> 0 <= #[trigger] coeffs[k],
    ensures
        poly_eval(coeffs.take(n as int), i) >= 0,
        congruent(
            verification_product(commitments_of(coeffs, g, p), i, n),
            pow(g, poly_eval(coeffs.take(n as int), i) as nat),
            p,
        ),
    decreases n,
{
    if n == 0 {
        lemma_pow0(g);
    } else {
        let prev = (n - 1) as nat;
        let cs = commitments_of(coeffs, g, p);
        let a = coeffs[n - 1];
        let e = pow(i, prev);
        let sum = poly_eval(coeffs.take(prev as int), i);
        lemma_product_commits_to_value(coeffs, g, p, i, prev);
        lemma_pow_nonnegative(i, prev);
        lemma_poly_eval_step(coeffs, n - 1, i);
        assert(a * e >= 0) by (nonlinear_arith)
            requires
                a >= 0,
                e >= 0,
        ;
        // cs[n-1]^e is congruent to (g^a)^e = g^(a*e)
        lemma_congruent_rem(pow(g, a as nat), p);
        lemma_congruent_pow(cs[n - 1], pow(g, a as nat), e as nat, p);
        lemma_pow_multiplies(g, a as nat, e as nat);
        lemma_congruent_mul(
            verification_product(cs, i, prev),
            pow(g, sum as nat),
            pow(cs[n - 1], e as nat),
            pow(g, (a * e) as nat),
            p,
        );
        lemma_pow_adds(g, sum as nat, (a * e) as nat);
    }
}

/// Every share of a polynomial passes the check against the commitments to
/// that polynomial: for non-negative coefficients and any participant `i`, the
/// share `(i, f(i))` is accepted.
pub proof fn lemma_share_of_polynomial_accepted(coeffs: Seq<int>, g: int, p: int, i: int)
    requires
        p > 0,
        i >= 0,
        coeffs.len() >= 1,
        forall|k: int| 0 <= k < coeffs.len() ==> 0 <= #[trigger] coeffs[k],
    ensures
        share_accepted(commitments_of(coeffs, g, p), g, p, i, poly_eval(coeffs, i)),
{
    lemma_product_commits_to_value(coeffs, g, p, i, coeffs.len());
    assert(coeffs.take(coeffs.len() as int) =~= coeffs);
}

/// A power of a number that a prime does not divide is not divisible by it.
pub proof fn lemma_pow_coprime(g: int, e: nat, p: int)
    requires
        is_prime(p),
        g % p != 0,
    ensures
        pow(g, e) % p != 0,
    decreases e,
{
    if e == 0 {
        lemma_pow0(g);
        lemma_small_mod(1, p as nat);
    } else {
        lemma_pow_coprime(g, (e - 1) as nat, p);
        lemma_pow_adds(g, 1, (e - 1) as nat);
        vstd::arithmetic::power::lemma_pow1(g);
        if pow(g, e) % p == 0 {
            lemma_prime_divides_product(g, pow(g, (e - 1) as nat), p);
        }
    }
}

/// Altering an accepted share's value while keeping its index makes the check
/// fail, unless the generator raised to the size of the alteration is
/// congruent to one: for a prime modulus that does not divide the generator,
/// and an alteration `delta != 0` with `g^|delta|` not congruent to one, the
/// share `(i, v + delta)` is rejected.
pub proof fn lemma_altered_share_rejected(
    cs: Seq<int>,
    g: int,
    p: int,
    i: int,
    v: int,
    delta: int,
)
    requires
        is_prime(p),
        g % p != 0,
        share_accepted(cs, g, p, i, v),
        delta != 0,
        pow(g, (if delta > 0 { delta } else { -delta }) as nat) % p != 1,
    ensures
        !share_accepted(cs, g, p, i, v + delta),
{
    if share_accepted(cs, g, p, i, v + delta) {
        let size = (if delta > 0 { delta } else { -delta }) as nat;
        let low = (if delta > 0 { v } else { v + delta }) as nat;
        // g^(low + size) and g^low are both congruent to the same product
        lemma_pow_adds(g, size, low);
        lemma_pow_coprime(g, low, p);
        assert(1 * pow(g, low) == pow(g, low)) by (nonlinear_arith);
        lemma_cancel(pow(g, size), 1, pow(g, low), p);
        lemma_small_mod(1, p as nat);
        assert(false);
    }
}

} // verus!
