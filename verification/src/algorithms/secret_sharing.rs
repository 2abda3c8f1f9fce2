//! What every sharing scheme of this library offers: reconstruction of the
//! secret from shares.

use crate::algorithms::feldman_vss::FeldmanVSS;
use crate::algorithms::shamir_secret_sharing::{
    reconstruction, result_value, share_values, ShamirSecretSharing,
};
use crate::error::SharingError;
use num_bigint::BigInt;
use vstd::prelude::*;

verus! {

/// A scheme that can recover a secret from shares.
pub trait SecretSharing {
    /// The scheme is in a state in which it may be asked to reconstruct.
    spec fn usable(&self) -> bool;

    /// What reconstruction from `shares` yields in the scheme's present state.
    spec fn recovered(&self, shares: Seq<(int, int)>) -> Result<int, SharingError>;

    /// Recovers the secret from `shares`, or says why it cannot.
    fn reconstruct(&self, shares: &Vec<(usize, BigInt)>) -> (r: Result<BigInt, SharingError>)
        requires
            self.usable(),
        ensures
            result_value(r) == self.recovered(share_values(shares@)),
    ;
}

impl SecretSharing for ShamirSecretSharing {
    open spec fn usable(&self) -> bool {
        self.modulus() > 0
    }

    open spec fn recovered(&self, shares: Seq<(int, int)>) -> Result<int, SharingError> {
        reconstruction(shares, self.threshold as nat, self.modulus())
    }

    fn reconstruct(&self, shares: &Vec<(usize, BigInt)>) -> (r: Result<BigInt, SharingError>) {
        ShamirSecretSharing::reconstruct(self, shares)
    }
}

impl SecretSharing for FeldmanVSS {
    open spec fn usable(&self) -> bool {
        self.wf()
    }

    open spec fn recovered(&self, shares: Seq<(int, int)>) -> Result<int, SharingError> {
        reconstruction(shares, self.scheme().threshold as nat, self.scheme().modulus())
    }

    fn reconstruct(&self, shares: &Vec<(usize, BigInt)>) -> (r: Result<BigInt, SharingError>) {
        FeldmanVSS::reconstruct(self, shares)
    }
}

} // verus!
