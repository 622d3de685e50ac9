use pqhv::encrypt::{add_ciphertexts, encrypt};
use pqhv::keygen::keygen;
use pqhv::matrix::PolyVec;
use pqhv::params::pqhv_test;
use pqhv::threshold::{
    combine_partial_decryptions, generate_threshold_keys, partial_decrypt, PartialDecryption, ThresholdParams,
};
use pqhv::threshold_error::ThresholdError;
use rand::SeedableRng;
use rand_chacha::ChaCha20Rng;

#[test]
fn test_threshold_params_valid() {
    let p = ThresholdParams::new(3, 3).unwrap();
    assert_eq!(p.t, 3);
    assert_eq!(p.n, 3);
}

#[test]
fn test_threshold_params_single_trustee() {
    let p = ThresholdParams::new(1, 1).unwrap();
    assert_eq!(p.t, 1);
    assert_eq!(p.n, 1);
}

#[test]
fn test_threshold_params_rejects_t_less_than_n() {
    assert!(ThresholdParams::new(2, 3).is_err());
}

#[test]
fn test_threshold_params_rejects_zero() {
    assert!(ThresholdParams::new(0, 3).is_err());
    assert!(ThresholdParams::new(3, 0).is_err());
}

#[test]
fn test_threshold_params_rejects_t_exceeds_n() {
    assert!(ThresholdParams::new(4, 3).is_err());
}

#[test]
fn test_keygen_produces_correct_share_count() {
    let mut rng = ChaCha20Rng::seed_from_u64(42);
    let threshold = ThresholdParams::new(3, 3).unwrap();
    let (_pk, shares) = generate_threshold_keys(&pqhv_test(), &threshold, &mut rng);
    assert_eq!(shares.len(), 3);
    for (i, s) in shares.iter().enumerate() {
        assert_eq!(s.index, i + 1);
    }
}

#[test]
fn test_shares_sum_to_secret_key() {
    let params = pqhv_test();
    let mut rng = ChaCha20Rng::seed_from_u64(42);
    let threshold = ThresholdParams::new(3, 3).unwrap();
    let (_pk, shares) = generate_threshold_keys(&params, &threshold, &mut rng);

    let mut reconstructed = PolyVec::new_zero(&params);
    for share in &shares {
        reconstructed = reconstructed.add(&share.share);
    }
    reconstructed.reduce();

    let mut rng2 = ChaCha20Rng::seed_from_u64(42);
    let (_pk2, sk2) = keygen(&params, &mut rng2);
    let mut sk_reduced = sk2.s.clone();
    sk_reduced.reduce();

    for pi in 0..params.k {
        for ci in 0..params.n {
            assert_eq!(reconstructed.polys[pi].coeffs[ci], sk_reduced.polys[pi].coeffs[ci]);
        }
    }
}

#[test]
fn test_threshold_decrypt_single_vote() {
    let mut rng = ChaCha20Rng::seed_from_u64(123);
    let threshold = ThresholdParams::new(3, 3).unwrap();
    let (pk, shares) = generate_threshold_keys(&pqhv_test(), &threshold, &mut rng);
    let ct = encrypt(&pk, 1, &pqhv_test(), &mut rng);
    let partials: Vec<_> = shares.iter().map(|s| partial_decrypt(s, &ct)).collect();
    assert_eq!(combine_partial_decryptions(&partials, &ct, &threshold, &pqhv_test()).unwrap(), 1);
}

#[test]
fn test_threshold_decrypt_zero_vote() {
    let mut rng = ChaCha20Rng::seed_from_u64(456);
    let threshold = ThresholdParams::new(2, 2).unwrap();
    let (pk, shares) = generate_threshold_keys(&pqhv_test(), &threshold, &mut rng);
    let ct = encrypt(&pk, 0, &pqhv_test(), &mut rng);
    let partials: Vec<_> = shares.iter().map(|s| partial_decrypt(s, &ct)).collect();
    assert_eq!(combine_partial_decryptions(&partials, &ct, &threshold, &pqhv_test()).unwrap(), 0);
}

#[test]
fn test_threshold_decrypt_homomorphic_tally() {
    let mut rng = ChaCha20Rng::seed_from_u64(789);
    let threshold = ThresholdParams::new(3, 3).unwrap();
    let (pk, shares) = generate_threshold_keys(&pqhv_test(), &threshold, &mut rng);
    let ct1 = encrypt(&pk, 1, &pqhv_test(), &mut rng);
    let ct2 = encrypt(&pk, 1, &pqhv_test(), &mut rng);
    let ct3 = encrypt(&pk, 1, &pqhv_test(), &mut rng);
    let ct4 = encrypt(&pk, 1, &pqhv_test(), &mut rng);
    let ct5 = encrypt(&pk, 1, &pqhv_test(), &mut rng);
    let sum = add_ciphertexts(&ct1, &ct2);
    let sum = add_ciphertexts(&sum, &ct3);
    let sum = add_ciphertexts(&sum, &ct4);
    let sum = add_ciphertexts(&sum, &ct5);
    let partials: Vec<_> = shares.iter().map(|s| partial_decrypt(s, &sum)).collect();
    assert_eq!(combine_partial_decryptions(&partials, &sum, &threshold, &pqhv_test()).unwrap(), 5);
}

#[test]
fn test_threshold_single_trustee() {
    let mut rng = ChaCha20Rng::seed_from_u64(999);
    let threshold = ThresholdParams::new(1, 1).unwrap();
    let (pk, shares) = generate_threshold_keys(&pqhv_test(), &threshold, &mut rng);
    assert_eq!(shares.len(), 1);
    let ct = encrypt(&pk, 1, &pqhv_test(), &mut rng);
    let partials = vec![partial_decrypt(&shares[0], &ct)];
    assert_eq!(combine_partial_decryptions(&partials, &ct, &threshold, &pqhv_test()).unwrap(), 1);
}

#[test]
fn test_insufficient_partials_rejected() {
    let mut rng = ChaCha20Rng::seed_from_u64(111);
    let threshold = ThresholdParams::new(3, 3).unwrap();
    let (pk, shares) = generate_threshold_keys(&pqhv_test(), &threshold, &mut rng);
    let ct = encrypt(&pk, 1, &pqhv_test(), &mut rng);
    let partials: Vec<_> = shares[0..2].iter().map(|s| partial_decrypt(s, &ct)).collect();
    assert!(combine_partial_decryptions(&partials, &ct, &threshold, &pqhv_test()).is_err());
}

#[test]
fn test_duplicate_indices_rejected() {
    let mut rng = ChaCha20Rng::seed_from_u64(222);
    let threshold = ThresholdParams::new(2, 2).unwrap();
    let (pk, shares) = generate_threshold_keys(&pqhv_test(), &threshold, &mut rng);
    let ct = encrypt(&pk, 1, &pqhv_test(), &mut rng);
    let p1 = partial_decrypt(&shares[0], &ct);
    let p2 = PartialDecryption { index: 1, value: partial_decrypt(&shares[1], &ct).value };
    assert!(combine_partial_decryptions(&[p1, p2], &ct, &threshold, &pqhv_test()).is_err());
}

#[test]
fn test_mixed_vote_tally() {
    let mut rng = ChaCha20Rng::seed_from_u64(333);
    let threshold = ThresholdParams::new(2, 2).unwrap();
    let (pk, shares) = generate_threshold_keys(&pqhv_test(), &threshold, &mut rng);
    let yes1 = encrypt(&pk, 1, &pqhv_test(), &mut rng);
    let yes2 = encrypt(&pk, 1, &pqhv_test(), &mut rng);
    let yes3 = encrypt(&pk, 1, &pqhv_test(), &mut rng);
    let no1 = encrypt(&pk, 0, &pqhv_test(), &mut rng);
    let no2 = encrypt(&pk, 0, &pqhv_test(), &mut rng);
    let sum = add_ciphertexts(&yes1, &yes2);
    let sum = add_ciphertexts(&sum, &yes3);
    let sum = add_ciphertexts(&sum, &no1);
    let sum = add_ciphertexts(&sum, &no2);
    let partials: Vec<_> = shares.iter().map(|s| partial_decrypt(s, &sum)).collect();
    assert_eq!(combine_partial_decryptions(&partials, &sum, &threshold, &pqhv_test()).unwrap(), 3);
}

#[test]
fn threshold_params_error_variants() {
    assert_eq!(ThresholdParams::new(3, 0), Err(ThresholdError::NoTrustees));
    assert_eq!(ThresholdParams::new(0, 3), Err(ThresholdError::ThresholdTooSmall { t: 0 }));
    assert_eq!(ThresholdParams::new(4, 3), Err(ThresholdError::ThresholdExceedsTrustees { t: 4, n: 3 }));
    assert_eq!(ThresholdParams::new(2, 3), Err(ThresholdError::ThresholdNotSupported { t: 2, n: 3 }));
    assert_eq!(ThresholdParams::new(2, 2), Ok(ThresholdParams { t: 2, n: 2 }));
}

#[test]
fn threshold_combine_error_variants() {
    let params = pqhv_test();
    let mut rng = ChaCha20Rng::seed_from_u64(5);
    let threshold = ThresholdParams::new(2, 2).unwrap();
    let (pk, shares) = generate_threshold_keys(&params, &threshold, &mut rng);
    let ct = encrypt(&pk, 1, &params, &mut rng);
    let p1 = partial_decrypt(&shares[0], &ct);
    let p2 = partial_decrypt(&shares[1], &ct);

    let one = vec![p1.clone()];
    assert_eq!(
        combine_partial_decryptions(&one, &ct, &threshold, &params),
        Err(ThresholdError::InsufficientShares { provided: 1, required: 2 })
    );

    let dup = vec![p1.clone(), PartialDecryption { index: 1, value: p2.value.clone() }];
    assert_eq!(
        combine_partial_decryptions(&dup, &ct, &threshold, &params),
        Err(ThresholdError::DuplicateShareIndex { index: 1 })
    );

    let zero_index = vec![PartialDecryption { index: 0, value: p1.value.clone() }, p2.clone()];
    assert_eq!(
        combine_partial_decryptions(&zero_index, &ct, &threshold, &params),
        Err(ThresholdError::InvalidShareIndex { index: 0, max: 2 })
    );

    let high_index = vec![p1.clone(), PartialDecryption { index: 3, value: p2.value.clone() }];
    assert_eq!(
        combine_partial_decryptions(&high_index, &ct, &threshold, &params),
        Err(ThresholdError::InvalidShareIndex { index: 3, max: 2 })
    );

    let reversed = vec![p2, p1];
    assert_eq!(combine_partial_decryptions(&reversed, &ct, &threshold, &params), Ok(1));
}

#[test]
fn threshold_error_messages() {
    assert_eq!(ThresholdError::ThresholdTooSmall { t: 0 }.message(), "threshold t=0 must be at least 1");
    assert_eq!(
        ThresholdError::ThresholdExceedsTrustees { t: 5, n: 3 }.message(),
        "threshold t=5 exceeds number of trustees n=3"
    );
    assert_eq!(ThresholdError::NoTrustees.message(), "number of trustees must be at least 1");
    assert_eq!(
        ThresholdError::InsufficientShares { provided: 2, required: 10 }.message(),
        "insufficient partial decryptions: 2 provided, 10 required"
    );
    assert_eq!(
        ThresholdError::DuplicateShareIndex { index: 123 }.message(),
        "duplicate trustee index 123 in partial decryptions"
    );
    assert_eq!(
        ThresholdError::InvalidShareIndex { index: 0, max: 7 }.message(),
        "trustee index 0 out of valid range [1, 7]"
    );
    assert_eq!(
        ThresholdError::ThresholdNotSupported { t: 2, n: 3 }.message(),
        "threshold t=2 of n=3 trustees is not supported: additive sharing needs t = n"
    );
}
