//! Shamir's threshold scheme: a secret is the constant term of a random
//! polynomial, the shares are its values at `1..=n`, and any `t` shares give the
//! secret back by interpolation at zero.

use crate::bigint::{
    big_add, big_clone, big_from_u64, big_lt, big_modpow, big_mul, big_random_in_range, big_rem,
    big_sub, int_value, int_values,
};
use crate::error::SharingError;
use crate::interpolation::{
    basis_denominator, basis_numerator, fermat_inverse, interpolate_at_zero, lagrange_sum,
    lagrange_term,
};
use crate::modular::{
    congruent, lemma_congruent_add, lemma_congruent_mul, lemma_congruent_pow, lemma_normalize,
    lemma_truncated_rem,
};
use crate::polynomial::{
    distinct_indices_within, is_sharing_polynomial, lemma_poly_eval_step, poly_eval, shares_of,
};
use crate::lagrange::{distinct_nodes, lemma_interpolation_recovers_constant};
use crate::number_theory::is_prime;
use num_bigint::BigInt;
use vstd::arithmetic::div_mod::{lemma_mod_multiples_vanish, lemma_small_mod};
use vstd::arithmetic::power::{lemma_pow0, lemma_pow1, lemma_pow_adds, pow};
use vstd::prelude::*;

verus! {

/// The modulus used when none is given: the Mersenne prime `2^31 - 1`.
pub const DEFAULT_PRIME: u64 = 2147483647;

/// The modulus that a constructor argument asks for.
pub open spec fn requested_modulus(prime: Option<BigInt>) -> int {
    match prime {
        Some(p) => int_value(p),
        None => DEFAULT_PRIME as int,
    }
}

/// The shares in `shares`, as pairs of mathematical integers.
pub open spec fn share_values(shares: Seq<(usize, BigInt)>) -> Seq<(int, int)> {
    shares.map_values(|s: (usize, BigInt)| (s.0 as int, int_value(s.1)))
}

/// The indices in `xs`, as mathematical integers.
pub open spec fn index_values(xs: Seq<usize>) -> Seq<int> {
    xs.map_values(|x: usize| x as int)
}

/// The indices of a sequence of shares.
pub open spec fn share_xs(shares: Seq<(int, int)>) -> Seq<int> {
    shares.map_values(|s: (int, int)| s.0)
}

/// The values of a sequence of shares.
pub open spec fn share_ys(shares: Seq<(int, int)>) -> Seq<int> {
    shares.map_values(|s: (int, int)| s.1)
}

/// What reconstruction from `shares` yields under threshold `t` and modulus
/// `p`: an error if fewer than `t` shares are offered, else the value at zero
/// interpolated from the first `t` of them.
pub open spec fn reconstruction(shares: Seq<(int, int)>, t: nat, p: int) -> Result<
    int,
    SharingError,
> {
    if shares.len() < t {
        Err(SharingError::InsufficientShares)
    } else {
        Ok(interpolate_at_zero(share_xs(shares), share_ys(shares), t, p))
    }
}

/// The integer held by a successful result, or its error.
pub open spec fn result_value(r: Result<BigInt, SharingError>) -> Result<int, SharingError> {
    match r {
        Ok(b) => Ok(int_value(b)),
        Err(e) => Err(e),
    }
}

/// A threshold scheme: its parameters and the polynomial of the most recent
/// generation.
#[derive(Debug)]
pub struct ShamirSecretSharing {
    /// How many shares reconstruct the secret.
    pub threshold: usize,
    /// How many shares are generated.
    pub total_shares: usize,
    /// The modulus of the field; the caller vouches that it is prime.
    pub prime: BigInt,
    /// The coefficients of the current polynomial, constant term first; empty
    /// until shares have been generated.
    pub coefficients: Vec<BigInt>,
}

impl ShamirSecretSharing {
    /// The modulus as a mathematical integer.
    pub open spec fn modulus(&self) -> int {
        int_value(self.prime)
    }

    /// The current polynomial as a sequence of mathematical integers.
    pub open spec fn polynomial(&self) -> Seq<int> {
        int_values(self.coefficients@)
    }

    /// The scheme's invariant: the threshold does not exceed the number of
    /// shares, the modulus is positive, and the polynomial is either absent or
    /// a sharing polynomial for these parameters with its secret below the
    /// modulus.
    pub open spec fn wf(&self) -> bool {
        &&& self.threshold <= self.total_shares
        &&& self.modulus() > 0
        &&& (self.polynomial().len() == 0 || {
            &&& is_sharing_polynomial(
                self.polynomial(),
                self.threshold as nat,
                self.modulus(),
                self.polynomial()[0],
            )
            &&& self.polynomial()[0] < self.modulus()
        })
    }

    /// Why generation for `secret` fails, if it does: the secret is not below
    /// the modulus, or no polynomial exists for the parameters (a threshold of
    /// zero leaves no constant term; a modulus of one leaves no value in
    /// `[1, p)` for a further coefficient).
    pub open spec fn generation_failure(&self, secret: int) -> Option<SharingError> {
        if secret >= self.modulus() {
            Some(SharingError::SecretOutOfRange)
        } else if self.threshold == 0 || (self.threshold >= 2 && self.modulus() < 2) {
            Some(SharingError::ConfigurationError)
        } else {
            None
        }
    }

    /// Builds a scheme. Fails with `ConfigurationError` exactly when the
    /// threshold exceeds the number of shares or the modulus is not positive.
    pub fn new(threshold: usize, total_shares: usize, prime: Option<BigInt>) -> (r: Result<
        Self,
        SharingError,
    >)
        ensures
            r is Err <==> threshold > total_shares || requested_modulus(prime) <= 0,
            r matches Err(e) ==> e == SharingError::ConfigurationError,
            r matches Ok(s) ==> {
                &&& s.wf()
                &&& s.threshold == threshold
                &&& s.total_shares == total_shares
                &&& s.modulus() == requested_modulus(prime)
                &&& s.coefficients@.len() == 0
            },
    {
        if threshold > total_shares {
            return Err(SharingError::ConfigurationError);
        }
        let prime = match prime {
            Some(p) => p,
            None => big_from_u64(DEFAULT_PRIME),
        };
        let zero = big_from_u64(0);
        if !big_lt(&zero, &prime) {
            return Err(SharingError::ConfigurationError);
        }
        Ok(Self { threshold, total_shares, prime, coefficients: Vec::new() })
    }
}


impl ShamirSecretSharing {
    /// The value at zero of the polynomial through the first `threshold`
    /// points `(xs[i], ys[i])`, computed modulo the scheme's modulus and
    /// normalised into `[0, p)`. Products are reduced as they are formed and
    /// each denominator is inverted by raising it to the power `p - 2`.
    pub fn lagrange_interpolation(&self, xs: Vec<usize>, ys: Vec<BigInt>) -> (secret: BigInt)
        requires
            self.modulus() > 0,
            xs.len() >= self.threshold,
            ys.len() >= self.threshold,
        ensures
            int_value(secret) == interpolate_at_zero(
                index_values(xs@),
                int_values(ys@),
                self.threshold as nat,
                self.modulus(),
            ),
    {
        let t = self.threshold;
        let ghost p = self.modulus();
        let ghost gx = index_values(xs@);
        let ghost gy = int_values(ys@);
        let zero = big_from_u64(0);
        let one = big_from_u64(1);
        let two = big_from_u64(2);
        let exponent = big_sub(&self.prime, &two);
        let invertible = !big_lt(&exponent, &zero);
        let mut sum = big_from_u64(0);
        let mut i: usize = 0;
        while i < t
            invariant
                i <= t,
                t == self.threshold,
                t <= xs.len(),
                t <= ys.len(),
                p == self.modulus(),
                p > 0,
                gx == index_values(xs@),
                gy == int_values(ys@),
                int_value(zero) == 0,
                int_value(one) == 1,
                int_value(exponent) == p - 2,
                invertible == (p >= 2),
                congruent(int_value(sum), lagrange_sum(gx, gy, t as nat, p, i as nat), p),
            decreases t - i,
        {
            let mut num = big_clone(&one);
            let mut denom = big_clone(&one);
            let xi = big_from_u64(xs[i] as u64);
            let mut j: usize = 0;
            while j < t
                invariant
                    j <= t,
                    i < t,
                    t <= xs.len(),
                    p == self.modulus(),
                    p > 0,
                    gx == index_values(xs@),
                    int_value(zero) == 0,
                    int_value(xi) == gx[i as int],
                    congruent(int_value(num), basis_numerator(gx, i as int, j as nat), p),
                    congruent(int_value(denom), basis_denominator(gx, i as int, j as nat), p),
                decreases t - j,
            {
                if i != j {
                    let xj = big_from_u64(xs[j] as u64);
                    // (0 - xj)
                    let neg_xj = big_sub(&zero, &xj);
                    // (xi - xj)
                    let diff = big_sub(&xi, &xj);
                    let num_next = big_rem(&big_mul(&num, &neg_xj), &self.prime);
                    let denom_next = big_rem(&big_mul(&denom, &diff), &self.prime);
                    proof {
                        let bn = basis_numerator(gx, i as int, j as nat);
                        let bd = basis_denominator(gx, i as int, j as nat);
                        lemma_truncated_rem(int_value(num) * int_value(neg_xj), p);
                        lemma_truncated_rem(int_value(denom) * int_value(diff), p);
                        lemma_congruent_mul(int_value(num), bn, -gx[j as int], -gx[j as int], p);
                        lemma_congruent_mul(
                            int_value(denom),
                            bd,
                            gx[i as int] - gx[j as int],
                            gx[i as int] - gx[j as int],
                            p,
                        );
                    }
                    num = num_next;
                    denom = denom_next;
                }
                j += 1;
            }
            let inverse = if invertible {
                big_modpow(&denom, &exponent, &self.prime)
            } else {
                big_clone(&zero)
            };
            // (-xj)/(xi-xj)
            let weight = big_rem(&big_mul(&num, &inverse), &self.prime);
            let term = big_rem(&big_mul(&weight, &ys[i]), &self.prime);
            let next = big_add(&sum, &term);
            proof {
                let bn = basis_numerator(gx, i as int, t as nat);
                let bd = basis_denominator(gx, i as int, t as nat);
                let finv = fermat_inverse(bd, p);
                let y = gy[i as int];
                if p >= 2 {
                    lemma_congruent_pow(int_value(denom), bd, (p - 2) as nat, p);
                }
                assert(int_value(inverse) == finv);
                lemma_truncated_rem(int_value(num) * finv, p);
                lemma_congruent_mul(int_value(num), bn, finv, finv, p);
                lemma_truncated_rem(int_value(weight) * y, p);
                lemma_congruent_mul(int_value(weight), bn * finv, y, y, p);
                assert((bn * finv) * y == y * (bn * finv)) by (nonlinear_arith);
                lemma_congruent_add(
                    int_value(sum),
                    lagrange_sum(gx, gy, t as nat, p, i as nat),
                    int_value(term),
                    lagrange_term(gx, gy, i as int, t as nat, p),
                    p,
                );
            }
            sum = next;
            i += 1;
        }
        let reduced = big_rem(&sum, &self.prime);
        proof {
            lemma_truncated_rem(int_value(sum), p);
            lemma_normalize(int_value(reduced), lagrange_sum(gx, gy, t as nat, p, t as nat), p);
        }
        if big_lt(&reduced, &zero) {
            big_add(&reduced, &self.prime)
        } else {
            reduced
        }
    }

    /// Recovers the secret from `shares`. Fails with `InsufficientShares`
    /// exactly when fewer than `threshold` shares are given; otherwise the
    /// first `threshold` shares are interpolated at zero and the rest ignored.
    pub fn reconstruct(&self, shares: &Vec<(usize, BigInt)>) -> (r: Result<BigInt, SharingError>)
        requires
            self.modulus() > 0,
        ensures
            result_value(r) == reconstruction(
                share_values(shares@),
                self.threshold as nat,
                self.modulus(),
            ),
            r is Err <==> shares@.len() < self.threshold,
            r matches Err(e) ==> e == SharingError::InsufficientShares,
    {
        if shares.len() < self.threshold {
            return Err(SharingError::InsufficientShares);
        }
        let mut xs: Vec<usize> = Vec::new();
        let mut ys: Vec<BigInt> = Vec::new();
        let mut k: usize = 0;
        while k < shares.len()
            invariant
                k <= shares.len(),
                xs.len() == k,
                ys.len() == k,
                forall|m: int| 0 <= m < k ==> xs@[m] == (#[trigger] shares@[m]).0,
                forall|m: int| 0 <= m < k ==> int_value(ys@[m]) == int_value((#[trigger] shares@[m]).1),
            decreases shares.len() - k,
        {
            xs.push(shares[k].0);
            ys.push(big_clone(&shares[k].1));
            k += 1;
        }
        proof {
            assert(index_values(xs@) =~= share_xs(share_values(shares@)));
            assert(int_values(ys@) =~= share_ys(share_values(shares@)));
        }
        let recovered_secret = self.lagrange_interpolation(xs, ys);
        Ok(recovered_secret)
    }
}


impl ShamirSecretSharing {
    /// Generates the shares of `secret`.
    ///
    /// Fails with `SecretOutOfRange` exactly when the secret is not below the
    /// modulus, and with `ConfigurationError` exactly when it is below the
    /// modulus but the parameters admit no polynomial. A failed call leaves
    /// the scheme as it was. Otherwise a fresh polynomial with constant term
    /// `secret` and further coefficients in `[1, p)` becomes the scheme's
    /// polynomial, and participant `i` of `1..=total_shares` receives its exact
    /// value at `i`.
    pub fn generate_shares(&mut self, secret: BigInt) -> (r: Result<
        Vec<(usize, BigInt)>,
        SharingError,
    >)
        requires
            old(self).wf(),
        ensures
            final(self).wf(),
            final(self).threshold == old(self).threshold,
            final(self).total_shares == old(self).total_shares,
            final(self).prime == old(self).prime,
            r is Err <==> old(self).generation_failure(int_value(secret)) is Some,
            r matches Err(e) ==> old(self).generation_failure(int_value(secret)) == Some(e)
                && *final(self) == *old(self),
            r matches Ok(shares) ==> {
                &&& is_sharing_polynomial(
                    final(self).polynomial(),
                    final(self).threshold as nat,
                    final(self).modulus(),
                    int_value(secret),
                )
                &&& share_values(shares@) == shares_of(
                    final(self).polynomial(),
                    final(self).total_shares as nat,
                )
                &&& shares@.len() == final(self).total_shares
                &&& distinct_indices_within(share_values(shares@), final(self).total_shares as nat)
            },
    {
        if !big_lt(&secret, &self.prime) {
            return Err(SharingError::SecretOutOfRange);
        }
        let one = big_from_u64(1);
        if self.threshold == 0 || (self.threshold >= 2 && !big_lt(&one, &self.prime)) {
            return Err(SharingError::ConfigurationError);
        }
        // update self.coefficients
        self.generate_coefficients(secret);

        let mut shares: Vec<(usize, BigInt)> = Vec::new();
        let mut i: usize = 0;
        // share = (i,v) on the polynomial
        while i < self.total_shares
            invariant
                i <= self.total_shares,
                shares@.len() == i,
                forall|k: int|
                    0 <= k < i ==> (#[trigger] shares@[k]).0 == k + 1 && int_value(shares@[k].1)
                        == poly_eval(self.polynomial(), k + 1),
            decreases self.total_shares - i,
        {
            i += 1;
            let y = self.calculate_y(i);
            shares.push((i, y));
        }
        proof {
            assert(share_values(shares@) =~= shares_of(
                self.polynomial(),
                self.total_shares as nat,
            ));
        }
        Ok(shares)
    }

    /// Draws the polynomial for `secret`: the secret as constant term, then
    /// `threshold - 1` random coefficients, each in `[1, p)`.
    fn generate_coefficients(&mut self, secret: BigInt)
        requires
            old(self).threshold >= 1,
            old(self).threshold >= 2 ==> old(self).modulus() >= 2,
        ensures
            final(self).threshold == old(self).threshold,
            final(self).total_shares == old(self).total_shares,
            final(self).prime == old(self).prime,
            is_sharing_polynomial(
                final(self).polynomial(),
                final(self).threshold as nat,
                final(self).modulus(),
                int_value(secret),
            ),
    {
        let ghost s = int_value(secret);
        // a0 = secret
        let mut coefficients: Vec<BigInt> = Vec::new();
        coefficients.push(secret);
        let one = big_from_u64(1);
        let mut k: usize = 1;
        while k < self.threshold
            invariant
                1 <= k <= self.threshold,
                self.threshold >= 2 ==> self.modulus() >= 2,
                int_value(one) == 1,
                coefficients@.len() == k,
                int_value(coefficients@[0]) == s,
                forall|m: int|
                    1 <= m < k ==> 1 <= int_value(#[trigger] coefficients@[m]) < self.modulus(),
            decreases self.threshold - k,
        {
            let new_coefficient = big_random_in_range(&one, &self.prime);
            coefficients.push(new_coefficient);
            k += 1;
        }
        self.coefficients = coefficients;
    }

    /// The exact value of the current polynomial at `x`, as a sum of
    /// coefficient times power.
    fn calculate_y(&self, x: usize) -> (y: BigInt)
        ensures
            int_value(y) == poly_eval(self.polynomial(), x as int),
    {
        let x_value = big_from_u64(x as u64);
        let mut result = big_from_u64(0);
        let mut power = big_from_u64(1);
        let mut k: usize = 0;
        proof {
            lemma_pow0(x as int);
        }
        while k < self.coefficients.len()
            invariant
                k <= self.coefficients.len(),
                int_value(x_value) == x,
                int_value(result) == poly_eval(self.polynomial().take(k as int), x as int),
                int_value(power) == pow(x as int, k as nat),
            decreases self.coefficients.len() - k,
        {
            let term = big_mul(&self.coefficients[k], &power);
            result = big_add(&result, &term);
            let next_power = big_mul(&power, &x_value);
            proof {
                lemma_poly_eval_step(self.polynomial(), k as int, x as int);
                lemma_pow_adds(x as int, k as nat, 1);
                lemma_pow1(x as int);
            }
            power = next_power;
            k += 1;
        }
        proof {
            assert(self.polynomial().take(k as int) =~= self.polynomial());
        }
        result
    }
}


/// Integers in `[1, n]` with `n` below the modulus `p` that differ, differ
/// modulo `p`.
proof fn lemma_small_indices_distinct(x: int, y: int, n: int, p: int)
    requires
        1 <= x <= n,
        1 <= y <= n,
        n < p,
        x != y,
    ensures
        (x - y) % p != 0,
{
    let d = x - y;
    if d > 0 {
        lemma_small_mod(d as nat, p as nat);
    } else {
        lemma_mod_multiples_vanish(1, d, p);
        assert(p * 1 + d == d + p);
        lemma_small_mod((d + p) as nat, p as nat);
    }
}

/// Any `t` shares give the secret back: let `p` be prime and larger than the
/// number `n` of shares, and let `coeffs` be a polynomial with `t >= 1`
/// coefficients whose constant term lies in `[0, p)`. If the first `t` of the
/// shares in `picked` are among the `n` shares of that polynomial and carry
/// pairwise different indices, whichever they are and in whatever order, then
/// reconstruction from `picked` yields the constant term.
pub proof fn lemma_reconstruction_recovers_secret(
    coeffs: Seq<int>,
    t: nat,
    n: nat,
    p: int,
    picked: Seq<(int, int)>,
)
    requires
        is_prime(p),
        n < p,
        t >= 1,
        coeffs.len() == t,
        0 <= coeffs[0] < p,
        picked.len() >= t,
        forall|k: int| 0 <= k < t ==> shares_of(coeffs, n).contains(#[trigger] picked[k]),
        forall|j: int, k: int|
            0 <= j < k < t ==> (#[trigger] picked[j]).0 != (#[trigger] picked[k]).0,
    ensures
        reconstruction(picked, t, p) == Ok::<int, SharingError>(coeffs[0]),
{
    let xs = share_xs(picked);
    let ys = share_ys(picked);
    let all = shares_of(coeffs, n);
    assert forall|k: int| 0 <= k < t implies 1 <= xs[k] <= n && #[trigger] ys[k] == poly_eval(
        coeffs,
        xs[k],
    ) by {
        assert(all.contains(picked[k]));
        let m = choose|m: int| 0 <= m < all.len() && all[m] == picked[k];
        assert(all[m] == (m + 1, poly_eval(coeffs, m + 1)));
    }
    assert(distinct_nodes(xs, p, 0, t as int)) by {
        assert forall|i: int, j: int| 0 <= i < t && 0 <= j < t && i != j implies (#[trigger] xs[i]
            - #[trigger] xs[j]) % p != 0 by {
            assert(ys[i] == poly_eval(coeffs, xs[i]) && ys[j] == poly_eval(coeffs, xs[j]));
            if i < j {
                assert(picked[i].0 != picked[j].0);
            } else {
                assert(picked[j].0 != picked[i].0);
            }
            lemma_small_indices_distinct(xs[i], xs[j], n as int, p);
        }
    }
    lemma_interpolation_recovers_constant(xs, ys, coeffs, t, p);
    lemma_small_mod(coeffs[0] as nat, p as nat);
}

} // verus!
