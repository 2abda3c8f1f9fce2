//! Feldman's verifiable secret sharing: Shamir's scheme together with public
//! commitments to the polynomial's coefficients, against which any holder can
//! check a share.

use crate::algorithms::shamir_secret_sharing::{
    reconstruction, requested_modulus, result_value, share_values, ShamirSecretSharing,
};
use crate::bigint::{
    big_clone, big_eq, big_from_u64, big_lt, big_modpow, big_mul, big_rem, int_value, int_values,
};
use crate::commitment::{
    commitments_of, lemma_share_of_polynomial_accepted, share_accepted, verification_product,
};
use crate::error::SharingError;
use crate::modular::{lemma_congruent_mul, lemma_congruent_rem, lemma_truncated_rem, congruent};
use crate::polynomial::{distinct_indices_within, is_sharing_polynomial, shares_of};
use num_bigint::BigInt;
use vstd::arithmetic::div_mod::{lemma_mod_bound, lemma_small_mod};
use vstd::arithmetic::power::{lemma_pow0, lemma_pow1, lemma_pow_adds, pow};
use vstd::prelude::*;

verus! {

/// The public generator under which coefficients are committed to.
pub const GENERATOR: u64 = 2;

/// What one generation hands out: the shares for the participants and the
/// commitments for everyone.
#[derive(Debug)]
pub struct FeldmanResponse {
    /// The shares, participant `i` first for `i = 1`.
    pub shares: Vec<(usize, BigInt)>,
    /// One commitment per coefficient of the polynomial, constant term first.
    pub committments: Vec<BigInt>,
}

/// A verifiable scheme: a threshold scheme, the generator, and the commitments
/// of the most recent generation.
pub struct FeldmanVSS {
    /// The commitments of the most recent generation; empty before the first.
    pub committments: Vec<BigInt>,
    generator: BigInt,
    shamir: ShamirSecretSharing,
    /// The polynomial of the most recent generation. It exists in proofs only:
    /// the coefficients themselves are dropped once the commitments are made.
    committed: Ghost<Seq<int>>,
}

impl FeldmanVSS {
    /// The threshold scheme inside this one.
    pub closed spec fn scheme(&self) -> ShamirSecretSharing {
        self.shamir
    }

    /// The generator as a mathematical integer.
    pub closed spec fn generator_value(&self) -> int {
        int_value(self.generator)
    }

    /// The commitments as mathematical integers.
    pub closed spec fn commitment_values(&self) -> Seq<int> {
        int_values(self.committments@)
    }

    /// The scheme's invariant: the inner scheme is valid and the generator is
    /// the fixed one.
    pub open spec fn wf(&self) -> bool {
        &&& self.scheme().wf()
        &&& self.generator_value() == GENERATOR
    }

    /// The polynomial behind the most recent generation.
    pub closed spec fn committed_polynomial(&self) -> Seq<int> {
        self.committed@
    }

    /// The commitments are those of the most recent generation's polynomial,
    /// which has `threshold` non-negative coefficients.
    pub open spec fn commits_to_polynomial(&self) -> bool {
        &&& self.committed_polynomial().len() == self.scheme().threshold
        &&& forall|k: int|
            0 <= k < self.committed_polynomial().len() ==> 0
                <= #[trigger] self.committed_polynomial()[k]
        &&& self.commitment_values() == commitments_of(
            self.committed_polynomial(),
            self.generator_value(),
            self.scheme().modulus(),
        )
    }

    /// Why generation for `secret` fails, if it does: a negative secret cannot
    /// be committed to; otherwise as for the inner scheme.
    pub open spec fn generation_failure(&self, secret: int) -> Option<SharingError> {
        if secret < 0 {
            Some(SharingError::SecretOutOfRange)
        } else {
            self.scheme().generation_failure(secret)
        }
    }

    /// Builds a verifiable scheme with generator 2 and no commitments. Fails
    /// with `ConfigurationError` exactly when the threshold exceeds the number
    /// of shares or the modulus is not positive.
    pub fn new(threshold: usize, total_shares: usize, prime: Option<BigInt>) -> (r: Result<
        Self,
        SharingError,
    >)
        ensures
            r is Err <==> threshold > total_shares || requested_modulus(prime) <= 0,
            r matches Err(e) ==> e == SharingError::ConfigurationError,
            r matches Ok(s) ==> {
                &&& s.wf()
                &&& s.scheme().threshold == threshold
                &&& s.scheme().total_shares == total_shares
                &&& s.scheme().modulus() == requested_modulus(prime)
                &&& s.scheme().coefficients@.len() == 0
                &&& s.commitment_values().len() == 0
            },
    {
        // shamir object to perform sss operations
        match ShamirSecretSharing::new(threshold, total_shares, prime) {
            Ok(shamir) => Ok(
                Self {
                    generator: big_from_u64(GENERATOR),
                    committments: Vec::new(),
                    shamir,
                    committed: Ghost(Seq::empty()),
                },
            ),
            Err(e) => Err(e),
        }
    }

    /// Checks the share `(i, v)` against the commitments: whether `g^v` equals
    /// the product of the commitments raised to the successive powers of `i`,
    /// modulo `p`. Without commitments, or for a negative value, the answer is
    /// `false`.
    pub fn validate_shares(&self, share: (usize, BigInt)) -> (valid: bool)
        requires
            self.wf(),
        ensures
            valid == share_accepted(
                self.commitment_values(),
                self.generator_value(),
                self.scheme().modulus(),
                share.0 as int,
                int_value(share.1),
            ),
    {
        let ghost cs = self.commitment_values();
        let ghost p = self.shamir.modulus();
        let ghost iv = share.0 as int;
        let zero = big_from_u64(0);
        if self.committments.len() == 0 || big_lt(&share.1, &zero) {
            return false;
        }
        // share is in the form (i,v)
        let i = big_from_u64(share.0 as u64);
        let lhs = big_modpow(&self.generator, &share.1, &self.shamir.prime);
        let mut rhs = big_from_u64(1);
        // i^k
        let mut exp_term = big_from_u64(1);
        let mut k: usize = 0;
        proof {
            lemma_pow0(iv);
        }
        while k < self.committments.len()
            invariant
                k <= self.committments.len(),
                cs == self.commitment_values(),
                p == self.shamir.modulus(),
                p > 0,
                int_value(i) == iv,
                iv >= 0,
                int_value(exp_term) == pow(iv, k as nat),
                int_value(exp_term) >= 0,
                0 <= int_value(rhs),
                k >= 1 ==> int_value(rhs) < p,
                congruent(int_value(rhs), verification_product(cs, iv, k as nat), p),
            decreases self.committments.len() - k,
        {
            // Ck^(i^k)
            let term = big_modpow(&self.committments[k], &exp_term, &self.shamir.prime);
            let product = big_mul(&rhs, &term);
            let next = big_rem(&product, &self.shamir.prime);
            let next_exp = big_mul(&exp_term, &i);
            proof {
                let e = pow(iv, k as nat);
                let full = pow(cs[k as int], e as nat);
                lemma_mod_bound(full, p);
                lemma_congruent_rem(full, p);
                lemma_congruent_mul(
                    int_value(rhs),
                    verification_product(cs, iv, k as nat),
                    int_value(term),
                    full,
                    p,
                );
                assert(int_value(rhs) * int_value(term) >= 0) by (nonlinear_arith)
                    requires
                        int_value(rhs) >= 0,
                        int_value(term) >= 0,
                ;
                lemma_truncated_rem(int_value(product), p);
                lemma_mod_bound(int_value(product), p);
                lemma_pow_adds(iv, k as nat, 1);
                lemma_pow1(iv);
                assert(int_value(exp_term) * iv >= 0) by (nonlinear_arith)
                    requires
                        int_value(exp_term) >= 0,
                        iv >= 0,
                ;
            }
            rhs = next;
            exp_term = next_exp;
            k += 1;
        }
        proof {
            lemma_small_mod(int_value(rhs) as nat, p as nat);
        }
        big_eq(&lhs, &rhs)
    }

    /// Recovers the secret from `shares` exactly as the inner scheme does,
    /// whether or not shares have been generated and whatever the commitments
    /// are. Fails with `InsufficientShares` exactly when fewer than
    /// `threshold` shares are given.
    pub fn reconstruct(&self, shares: &Vec<(usize, BigInt)>) -> (r: Result<BigInt, SharingError>)
        requires
            self.wf(),
        ensures
            result_value(r) == reconstruction(
                share_values(shares@),
                self.scheme().threshold as nat,
                self.scheme().modulus(),
            ),
            r is Err <==> shares@.len() < self.scheme().threshold,
            r matches Err(e) ==> e == SharingError::InsufficientShares,
    {
        self.shamir.reconstruct(shares)
    }
}


impl FeldmanVSS {
    /// Generates the shares of `secret` and the commitments to the polynomial
    /// behind them.
    ///
    /// Fails with `SecretOutOfRange` exactly when the secret is negative or not
    /// below the modulus, and with `ConfigurationError` exactly when the
    /// secret is in range but the parameters admit no polynomial. A failed
    /// call leaves the scheme as it was. Otherwise the shares are those of a
    /// fresh polynomial, there is one commitment `g^a mod p` per coefficient
    /// `a` of that polynomial, the scheme keeps those commitments in place of
    /// any earlier ones, and the coefficients themselves are dropped.
    pub fn generate_shares(&mut self, secret: BigInt) -> (r: Result<FeldmanResponse, SharingError>)
        requires
            old(self).wf(),
        ensures
            final(self).wf(),
            final(self).scheme().threshold == old(self).scheme().threshold,
            final(self).scheme().total_shares == old(self).scheme().total_shares,
            final(self).scheme().prime == old(self).scheme().prime,
            r is Err <==> old(self).generation_failure(int_value(secret)) is Some,
            r matches Err(e) ==> old(self).generation_failure(int_value(secret)) == Some(e)
                && *final(self) == *old(self),
            r matches Ok(response) ==> {
                &&& is_sharing_polynomial(
                    final(self).committed_polynomial(),
                    final(self).scheme().threshold as nat,
                    final(self).scheme().modulus(),
                    int_value(secret),
                )
                &&& final(self).scheme().coefficients@.len() == 0
                &&& share_values(response.shares@) == shares_of(
                    final(self).committed_polynomial(),
                    final(self).scheme().total_shares as nat,
                )
                &&& response.shares@.len() == final(self).scheme().total_shares
                &&& distinct_indices_within(
                    share_values(response.shares@),
                    final(self).scheme().total_shares as nat,
                )
                &&& final(self).commits_to_polynomial()
                &&& int_values(response.committments@) == final(self).commitment_values()
                &&& response.committments@.len() == final(self).scheme().threshold
            },
    {
        let zero = big_from_u64(0);
        if big_lt(&secret, &zero) {
            return Err(SharingError::SecretOutOfRange);
        }
        let shares = match self.shamir.generate_shares(secret) {
            Ok(shares) => shares,
            Err(e) => {
                return Err(e);
            },
        };
        self.generate_committments();
        self.committed = Ghost(self.shamir.polynomial());
        self.shamir.coefficients = Vec::new();
        let mut committments: Vec<BigInt> = Vec::new();
        let mut k: usize = 0;
        while k < self.committments.len()
            invariant
                k <= self.committments.len(),
                committments@.len() == k,
                forall|m: int|
                    0 <= m < k ==> int_value(#[trigger] committments@[m]) == int_value(
                        self.committments@[m],
                    ),
            decreases self.committments.len() - k,
        {
            committments.push(big_clone(&self.committments[k]));
            k += 1;
        }
        proof {
            assert(int_values(committments@) =~= self.commitment_values());
        }
        Ok(FeldmanResponse { shares, committments })
    }

    /// Replaces the commitments by those of the inner scheme's current
    /// polynomial: `g^a mod p` for each coefficient `a`, in order.
    fn generate_committments(&mut self)
        requires
            old(self).shamir.modulus() > 0,
            forall|k: int|
                0 <= k < old(self).shamir.polynomial().len() ==> 0
                    <= #[trigger] old(self).shamir.polynomial()[k],
        ensures
            final(self).shamir == old(self).shamir,
            final(self).generator == old(self).generator,
            final(self).committed == old(self).committed,
            final(self).commitment_values() == commitments_of(
                final(self).shamir.polynomial(),
                final(self).generator_value(),
                final(self).shamir.modulus(),
            ),
    {
        let mut committments: Vec<BigInt> = Vec::new();
        let mut k: usize = 0;
        while k < self.shamir.coefficients.len()
            invariant
                k <= self.shamir.coefficients.len(),
                self.shamir.modulus() > 0,
                forall|m: int|
                    0 <= m < self.shamir.polynomial().len() ==> 0
                        <= #[trigger] self.shamir.polynomial()[m],
                committments@.len() == k,
                forall|m: int|
                    0 <= m < k ==> int_value(#[trigger] committments@[m]) == pow(
                        self.generator_value(),
                        self.shamir.polynomial()[m] as nat,
                    ) % self.shamir.modulus(),
            decreases self.shamir.coefficients.len() - k,
        {
            assert(self.shamir.polynomial()[k as int] == int_value(self.shamir.coefficients@[k as int]));
            // g^ai
            let commitment = big_modpow(
                &self.generator,
                &self.shamir.coefficients[k],
                &self.shamir.prime,
            );
            committments.push(commitment);
            k += 1;
        }
        proof {
            assert(int_values(committments@) =~= commitments_of(
                self.shamir.polynomial(),
                self.generator_value(),
                self.shamir.modulus(),
            ));
        }
        self.committments = committments;
    }
}


impl FeldmanVSS {
    /// Every share of the most recent generation passes validation: while
    /// the commitments are those of that generation's polynomial, the share of
    /// each participant `k + 1` of `1..=total_shares` is accepted.
    pub proof fn lemma_generated_shares_accepted(&self, k: int)
        requires
            self.wf(),
            self.scheme().threshold >= 1,
            self.commits_to_polynomial(),
            0 <= k < self.scheme().total_shares,
        ensures
            share_accepted(
                self.commitment_values(),
                self.generator_value(),
                self.scheme().modulus(),
                shares_of(self.committed_polynomial(), self.scheme().total_shares as nat)[k].0,
                shares_of(self.committed_polynomial(), self.scheme().total_shares as nat)[k].1,
            ),
    {
        lemma_share_of_polynomial_accepted(
            self.committed_polynomial(),
            self.generator_value(),
            self.scheme().modulus(),
            k + 1,
        );
    }
}

} // verus!
