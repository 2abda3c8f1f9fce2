use num_bigint::BigInt;
use threshold_sharing::algorithms::feldman_vss::FeldmanVSS;

fn create_feldman_vss(threshold: usize, total_shares: usize) -> FeldmanVSS {
    let prime = BigInt::from(2147483647); // Prime number
    FeldmanVSS::new(threshold, total_shares, Some(prime)).unwrap()
}

#[test]
fn feldman_vss_test_invalid_threshold() {
    let threshold = 6; // Threshold larger than total_shares
    let total_shares = 5;
    let prime = BigInt::from(2147483647); // default Prime number

    let result = FeldmanVSS::new(threshold, total_shares, Some(prime));
    // Expecting an error because threshold is larger than total_shares
    assert!(
        result.is_err(),
        "Expected an error due to threshold being larger than total shares"
    );
}

#[test]
fn feldman_vss_test_generate_shares() {
    let threshold = 3;
    let total_shares = 5;
    let secret = BigInt::from(1234);
    let mut vss = create_feldman_vss(threshold, total_shares);

    let response = vss.generate_shares(secret.clone()).unwrap();

    // Check that the number of shares matches the total shares requested
    assert_eq!(
        response.shares.len(),
        total_shares,
        "Number of shares should match total_shares"
    );

    // Check that the number of commitments matches the threshold
    assert_eq!(
        response.committments.len(),
        threshold,
        "Number of commitments should match threshold"
    );

    // Ensure the commitments are non-empty
    assert!(
        !response.committments.is_empty(),
        "Commitments should not be empty"
    );
}

#[test]
fn feldman_vss_test_validate_shares_valid() {
    let threshold = 3;
    let total_shares = 5;
    let secret = BigInt::from(1234);
    let mut vss = create_feldman_vss(threshold, total_shares);
    let response = vss.generate_shares(secret.clone()).unwrap();
    let share = response.shares[0].clone();

    // Validate the first share
    let is_valid = vss.validate_shares(share);
    assert!(is_valid, "The share should be valid");
}

#[test]
fn feldman_vss_test_validate_shares_invalid() {
    let threshold = 3;
    let total_shares = 5;
    let secret = BigInt::from(1234);
    let mut vss = create_feldman_vss(threshold, total_shares);
    let response = vss.generate_shares(secret.clone()).unwrap();

    // Create an invalid share by modifying the value
    let mut invalid_share = response.shares[0].clone();
    invalid_share.1 += 1; // Invalid modification to the share value

    // Validate the invalid share
    let is_valid = vss.validate_shares(invalid_share);
    assert!(!is_valid, "The modified share should be invalid");
}

#[test]
fn feldman_vss_test_reconstruct_secret() {
    let threshold = 3;
    let total_shares = 5;
    let secret = BigInt::from(1234);
    let mut vss = create_feldman_vss(threshold, total_shares);
    let response = vss.generate_shares(secret.clone()).unwrap();

    // Reconstruct the secret using the first `threshold` number of shares
    let reconstructed_secret = vss
        .reconstruct(&response.shares[0..threshold].to_vec())
        .unwrap();

    // Ensure the reconstructed secret matches the secret that was shared
    assert_eq!(
        reconstructed_secret, secret,
        "Reconstructed secret should match the original secret"
    );
}

#[test]
fn test_threshold_equals_shares() {
    let threshold = 5;
    let total_shares = 5;
    let secret = BigInt::from(1234);
    let mut vss = create_feldman_vss(threshold, total_shares);

    // Generate shares and validate that they are valid
    let response = vss.generate_shares(secret.clone()).unwrap();
    for share in response.shares {
        assert!(
            vss.validate_shares(share),
            "All shares should be valid when threshold equals total shares"
        );
    }
}

#[test]
fn test_edge_case_single_share() {
    let threshold = 1;
    let total_shares = 1;
    let secret = BigInt::from(1234);
    let mut vss = create_feldman_vss(threshold, total_shares);

    // Generate shares and validate that the single share is valid
    let response = vss.generate_shares(secret.clone()).unwrap();
    assert_eq!(
        response.shares.len(),
        total_shares,
        "Only one share should be generated"
    );

    let share = response.shares[0].clone();
    assert!(
        vss.validate_shares(share),
        "The single share should be valid"
    );
}

#[test]
fn test_invalid_reconstruction_with_fewer_shares() {
    let threshold = 3;
    let total_shares = 5;
    let secret = BigInt::from(1234);
    let mut vss = create_feldman_vss(threshold, total_shares);
    let response = vss.generate_shares(secret.clone()).unwrap();
    // Try to reconstruct the secret with fewer than the required shares
    let reconstructed_secret = vss.reconstruct(&response.shares[0..threshold - 1].to_vec());
    assert!(
        reconstructed_secret.is_err(),
        "Reconstruction should fail with fewer than `threshold` shares"
    );
}
