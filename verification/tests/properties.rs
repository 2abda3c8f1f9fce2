use num_bigint::BigInt;
use threshold_sharing::algorithms::feldman_vss::FeldmanVSS;
use threshold_sharing::algorithms::shamir_secret_sharing::ShamirSecretSharing;
use threshold_sharing::error::SharingError;

fn big(x: i64) -> BigInt {
    BigInt::from(x)
}

fn share(i: usize, v: i64) -> (usize, BigInt) {
    (i, BigInt::from(v))
}

// The shares of 1234 + 166 x + 94 x^2 modulo 1613.
fn textbook_shares() -> Vec<(usize, BigInt)> {
    vec![
        share(1, 1494),
        share(2, 329),
        share(3, 965),
        share(4, 176),
        share(5, 1188),
        share(6, 775),
    ]
}

#[test]
fn shares_carry_indices_one_to_n() {
    let mut shamir = ShamirSecretSharing::new(4, 9, None).unwrap();
    let shares = shamir.generate_shares(big(42)).unwrap();
    assert_eq!(shares.len(), 9);
    for (k, s) in shares.iter().enumerate() {
        assert_eq!(s.0, k + 1);
    }
}

#[test]
fn shares_are_exact_values_of_the_polynomial() {
    let mut shamir = ShamirSecretSharing::new(4, 6, None).unwrap();
    let shares = shamir.generate_shares(big(9100931)).unwrap();
    assert_eq!(shamir.coefficients.len(), 4);
    assert_eq!(shamir.coefficients[0], big(9100931));
    for c in shamir.coefficients[1..].iter() {
        assert!(*c >= big(1) && *c < shamir.prime);
    }
    for (i, y) in shares.iter() {
        let x = BigInt::from(*i);
        let mut expected = big(0);
        let mut power = big(1);
        for c in shamir.coefficients.iter() {
            expected += c * &power;
            power *= &x;
        }
        assert_eq!(*y, expected);
    }
}

#[test]
fn constant_polynomial_gives_the_secret_to_everyone() {
    let mut shamir = ShamirSecretSharing::new(1, 3, None).unwrap();
    let shares = shamir.generate_shares(big(77)).unwrap();
    assert_eq!(shares, vec![share(1, 77), share(2, 77), share(3, 77)]);
}

#[test]
fn reconstruct_textbook_example() {
    let shamir = ShamirSecretSharing::new(3, 6, Some(big(1613))).unwrap();
    let all = textbook_shares();
    assert_eq!(shamir.reconstruct(&all).unwrap(), big(1234));
    let picked = vec![all[1].clone(), all[3].clone(), all[4].clone()];
    assert_eq!(shamir.reconstruct(&picked).unwrap(), big(1234));
    let reversed = vec![all[5].clone(), all[2].clone(), all[0].clone()];
    assert_eq!(shamir.reconstruct(&reversed).unwrap(), big(1234));
}

#[test]
fn lagrange_interpolation_exact_values() {
    let shamir = ShamirSecretSharing::new(3, 6, Some(big(1613))).unwrap();
    let secret = shamir.lagrange_interpolation(vec![2, 4, 5], vec![big(329), big(176), big(1188)]);
    assert_eq!(secret, big(1234));
    // values that are not reduced modulo the prime give the same result
    let unreduced = shamir.lagrange_interpolation(
        vec![2, 4, 5],
        vec![big(329 + 1613), big(176 - 2 * 1613), big(1188)],
    );
    assert_eq!(unreduced, big(1234));
    // a line through (1, 5) and (2, 7) modulo 11 meets the axis at 3
    let line = ShamirSecretSharing::new(2, 2, Some(big(11))).unwrap();
    assert_eq!(line.lagrange_interpolation(vec![1, 2], vec![big(5), big(7)]), big(3));
}

#[test]
fn reconstruct_uses_the_first_threshold_shares_only() {
    let shamir = ShamirSecretSharing::new(3, 6, Some(big(1613))).unwrap();
    let mut shares = textbook_shares();
    shares[3] = share(4, 0);
    shares[4] = share(5, 1);
    assert_eq!(shamir.reconstruct(&shares).unwrap(), big(1234));
}

#[test]
fn any_three_of_five_reconstruct() {
    let mut shamir = ShamirSecretSharing::new(3, 5, Some(big(2147483647))).unwrap();
    let shares = shamir.generate_shares(big(1234)).unwrap();
    let mut subsets = 0;
    for a in 0..5 {
        for b in 0..5 {
            for c in 0..5 {
                if a != b && b != c && a != c {
                    let picked = vec![shares[a].clone(), shares[b].clone(), shares[c].clone()];
                    assert_eq!(shamir.reconstruct(&picked).unwrap(), big(1234));
                    subsets += 1;
                }
            }
        }
    }
    assert_eq!(subsets, 60);
}

#[test]
fn more_than_threshold_shares_reconstruct() {
    let mut shamir = ShamirSecretSharing::new(10, 15, None).unwrap();
    let shares = shamir.generate_shares(big(2147483646)).unwrap();
    assert_eq!(shamir.reconstruct(&shares).unwrap(), big(2147483646));
    let tail = shares[5..15].to_vec();
    assert_eq!(shamir.reconstruct(&tail).unwrap(), big(2147483646));
}

#[test]
fn too_few_shares_are_insufficient() {
    let mut shamir = ShamirSecretSharing::new(3, 5, None).unwrap();
    let shares = shamir.generate_shares(big(1234)).unwrap();
    assert_eq!(
        shamir.reconstruct(&shares[0..2].to_vec()),
        Err(SharingError::InsufficientShares)
    );
    assert_eq!(shamir.reconstruct(&Vec::new()), Err(SharingError::InsufficientShares));
}

#[test]
fn construction_rejects_bad_parameters() {
    assert_eq!(
        ShamirSecretSharing::new(6, 5, None).err(),
        Some(SharingError::ConfigurationError)
    );
    assert_eq!(
        ShamirSecretSharing::new(2, 5, Some(big(0))).err(),
        Some(SharingError::ConfigurationError)
    );
    assert_eq!(
        ShamirSecretSharing::new(2, 5, Some(big(-7))).err(),
        Some(SharingError::ConfigurationError)
    );
    assert_eq!(FeldmanVSS::new(6, 5, None).err(), Some(SharingError::ConfigurationError));
    assert_eq!(
        FeldmanVSS::new(2, 5, Some(big(0))).err(),
        Some(SharingError::ConfigurationError)
    );
    assert_eq!(
        FeldmanVSS::new(2, 5, Some(big(-1))).err(),
        Some(SharingError::ConfigurationError)
    );
}

#[test]
fn construction_keeps_the_parameters() {
    let shamir = ShamirSecretSharing::new(5, 5, Some(big(1613))).unwrap();
    assert_eq!(shamir.threshold, 5);
    assert_eq!(shamir.total_shares, 5);
    assert_eq!(shamir.prime, big(1613));
    assert!(shamir.coefficients.is_empty());
    let vss = FeldmanVSS::new(2, 3, None).unwrap();
    assert!(vss.committments.is_empty());
}

#[test]
fn secret_at_or_above_the_modulus_is_out_of_range() {
    let mut shamir = ShamirSecretSharing::new(2, 3, Some(big(1613))).unwrap();
    assert_eq!(shamir.generate_shares(big(1613)), Err(SharingError::SecretOutOfRange));
    assert_eq!(shamir.generate_shares(big(5000)), Err(SharingError::SecretOutOfRange));
    assert!(shamir.coefficients.is_empty());
    assert!(shamir.generate_shares(big(1612)).is_ok());

    let mut vss = FeldmanVSS::new(2, 3, Some(big(1613))).unwrap();
    assert_eq!(vss.generate_shares(big(1613)).err(), Some(SharingError::SecretOutOfRange));
    assert!(vss.committments.is_empty());
}

#[test]
fn negative_secret() {
    // the base scheme shares it; reconstruction gives its residue
    let mut shamir = ShamirSecretSharing::new(2, 3, Some(big(1613))).unwrap();
    let shares = shamir.generate_shares(big(-5)).unwrap();
    assert_eq!(shares.len(), 3);
    assert_eq!(shamir.reconstruct(&shares).unwrap(), big(1608));
    // the verifiable scheme cannot commit to it
    let mut vss = FeldmanVSS::new(2, 3, Some(big(1613))).unwrap();
    assert_eq!(vss.generate_shares(big(-5)).err(), Some(SharingError::SecretOutOfRange));
}

#[test]
fn parameters_without_a_polynomial() {
    let mut none = ShamirSecretSharing::new(0, 3, None).unwrap();
    assert_eq!(none.generate_shares(big(1)), Err(SharingError::ConfigurationError));
    assert_eq!(none.reconstruct(&Vec::new()).unwrap(), big(0));

    let mut one = ShamirSecretSharing::new(2, 2, Some(big(1))).unwrap();
    assert_eq!(one.generate_shares(big(0)), Err(SharingError::ConfigurationError));
    assert_eq!(one.generate_shares(big(1)), Err(SharingError::SecretOutOfRange));

    let mut constant = ShamirSecretSharing::new(1, 2, Some(big(1))).unwrap();
    assert_eq!(constant.generate_shares(big(0)).unwrap(), vec![share(1, 0), share(2, 0)]);

    let mut vss = FeldmanVSS::new(0, 0, None).unwrap();
    assert_eq!(vss.generate_shares(big(1)).err(), Some(SharingError::ConfigurationError));
}

#[test]
fn modulus_two() {
    let mut shamir = ShamirSecretSharing::new(2, 1, Some(big(2)));
    assert!(shamir.is_err());
    shamir = ShamirSecretSharing::new(1, 1, Some(big(2)));
    let mut scheme = shamir.unwrap();
    let shares = scheme.generate_shares(big(1)).unwrap();
    assert_eq!(scheme.reconstruct(&shares).unwrap(), big(1));
}

#[test]
fn commitment_count_equals_threshold() {
    for t in 1..6usize {
        let mut vss = FeldmanVSS::new(t, 6, None).unwrap();
        let response = vss.generate_shares(big(1234)).unwrap();
        assert_eq!(response.committments.len(), t);
        assert_eq!(vss.committments.len(), t);
        assert_eq!(vss.committments, response.committments);
    }
}

#[test]
fn first_commitment_is_generator_to_the_secret() {
    // 2^31 = 1 modulo 2^31 - 1, and 1234 = 39 * 31 + 25
    let mut vss = FeldmanVSS::new(1, 1, None).unwrap();
    let response = vss.generate_shares(big(1234)).unwrap();
    assert_eq!(response.committments, vec![big(33554432)]);
    let mut other = FeldmanVSS::new(3, 4, Some(big(1613))).unwrap();
    let response = other.generate_shares(big(10)).unwrap();
    assert_eq!(response.committments[0], big(1024));
}

#[test]
fn validate_against_published_commitments() {
    // commitments to 1234 + 5 x + 7 x^2 modulo 2^31 - 1
    let mut vss = FeldmanVSS::new(3, 5, None).unwrap();
    vss.committments = vec![big(33554432), big(32), big(128)];
    assert!(vss.validate_shares(share(1, 1246)));
    assert!(vss.validate_shares(share(2, 1272)));
    assert!(vss.validate_shares(share(5, 1434)));
    assert!(!vss.validate_shares(share(2, 1273)));
    assert!(!vss.validate_shares(share(2, 1271)));
    assert!(!vss.validate_shares(share(3, 1272)));
    assert!(!vss.validate_shares(share(2, -1272)));
    // the order of 2 modulo 2^31 - 1 is 31: such an alteration goes unnoticed
    assert!(vss.validate_shares(share(2, 1272 + 31)));
}

#[test]
fn validate_with_large_index_powers() {
    // powers of the index above the modulus: 7^2 > 11
    let mut vss = FeldmanVSS::new(3, 7, Some(big(11))).unwrap();
    // commitments to 3 + 4 x + 2 x^2 modulo 11: 2^3, 2^4 mod 11, 2^2
    vss.committments = vec![big(8), big(5), big(4)];
    for i in 1..8usize {
        let v = 3 + 4 * (i as i64) + 2 * (i as i64) * (i as i64);
        assert!(vss.validate_shares(share(i, v)));
        assert!(!vss.validate_shares(share(i, v + 1)));
    }
}

#[test]
fn validation_before_generation_is_false() {
    let vss = FeldmanVSS::new(3, 5, None).unwrap();
    assert!(!vss.validate_shares(share(1, 1234)));
}

#[test]
fn reconstruction_needs_no_generation() {
    let vss = FeldmanVSS::new(3, 6, Some(big(1613))).unwrap();
    let shamir = ShamirSecretSharing::new(3, 6, Some(big(1613))).unwrap();
    let all = textbook_shares();
    assert_eq!(vss.reconstruct(&all).unwrap(), big(1234));
    assert_eq!(vss.reconstruct(&all), shamir.reconstruct(&all));
    let picked = vec![all[5].clone(), all[1].clone(), all[3].clone()];
    assert_eq!(vss.reconstruct(&picked).unwrap(), big(1234));
    assert_eq!(vss.reconstruct(&picked), shamir.reconstruct(&picked));
    let few = all[0..2].to_vec();
    assert_eq!(vss.reconstruct(&few), Err(SharingError::InsufficientShares));
    assert_eq!(vss.reconstruct(&few), shamir.reconstruct(&few));
    assert!(vss.committments.is_empty());
}

#[test]
fn reconstruction_ignores_the_commitments() {
    let mut vss = FeldmanVSS::new(3, 6, Some(big(1613))).unwrap();
    let all = textbook_shares();
    vss.committments = vec![big(7), big(8), big(9)];
    assert_eq!(vss.reconstruct(&all).unwrap(), big(1234));
    let response = vss.generate_shares(big(99)).unwrap();
    assert_eq!(vss.reconstruct(&all).unwrap(), big(1234));
    assert_eq!(vss.reconstruct(&response.shares).unwrap(), big(99));
    assert_eq!(
        vss.reconstruct(&response.shares[0..2].to_vec()),
        Err(SharingError::InsufficientShares)
    );
}

#[test]
fn scenario_three_of_five() {
    let mut vss = FeldmanVSS::new(3, 5, Some(big(2147483647))).unwrap();
    let response = vss.generate_shares(big(1234)).unwrap();
    assert_eq!(response.shares.len(), 5);
    assert_eq!(response.committments.len(), 3);
    for a in 0..5 {
        for b in (a + 1)..5 {
            for c in (b + 1)..5 {
                let picked = vec![
                    response.shares[a].clone(),
                    response.shares[b].clone(),
                    response.shares[c].clone(),
                ];
                assert_eq!(vss.reconstruct(&picked).unwrap(), big(1234));
            }
        }
    }
    for s in response.shares.iter() {
        assert!(vss.validate_shares(s.clone()));
        let mut altered = s.clone();
        altered.1 += 1;
        assert!(!vss.validate_shares(altered));
    }
}

#[test]
fn scenario_single_share() {
    let mut vss = FeldmanVSS::new(1, 1, None).unwrap();
    let response = vss.generate_shares(big(1234)).unwrap();
    assert_eq!(response.shares, vec![share(1, 1234)]);
    assert!(vss.validate_shares(response.shares[0].clone()));
    assert_eq!(vss.reconstruct(&response.shares).unwrap(), big(1234));
}

#[test]
fn a_second_generation_replaces_the_commitments() {
    let mut vss = FeldmanVSS::new(2, 3, None).unwrap();
    let first = vss.generate_shares(big(10)).unwrap();
    assert_eq!(first.committments[0], big(1024));
    let second = vss.generate_shares(big(11)).unwrap();
    assert_eq!(vss.committments, second.committments);
    assert_eq!(second.committments[0], big(2048));
    assert_eq!(second.committments.len(), 2);
    for s in second.shares.iter() {
        assert!(vss.validate_shares(s.clone()));
    }
}

#[test]
fn a_failed_generation_keeps_the_commitments() {
    let mut vss = FeldmanVSS::new(2, 3, Some(big(1613))).unwrap();
    let first = vss.generate_shares(big(10)).unwrap();
    assert!(vss.generate_shares(big(1613)).is_err());
    assert_eq!(vss.committments, first.committments);
    assert!(vss.validate_shares(first.shares[2].clone()));
}
