//! The two sharing schemes and the interface they have in common.

pub mod shamir_secret_sharing;
pub mod feldman_vss;
pub mod secret_sharing;
