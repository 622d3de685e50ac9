use pqhv::decrypt::{decrypt, decrypt_tally};
use pqhv::encrypt::{encrypt, sum_ciphertexts, Ciphertext};
use pqhv::keygen::keygen;
use pqhv::noise::NoiseTracker;
use pqhv::params::{pqhv_test, pqhv_voting_128};
use rand::SeedableRng;
use rand_chacha::ChaCha20Rng;

fn test_rng() -> ChaCha20Rng {
    ChaCha20Rng::seed_from_u64(12345)
}

#[test]
fn test_single_vote_encrypt_decrypt_zero() {
    let mut rng = test_rng();
    let (pk, sk) = keygen(&pqhv_test(), &mut rng);
    let ct = encrypt(&pk, 0, &pqhv_test(), &mut rng);
    assert_eq!(decrypt(&sk, &ct, &pqhv_test()), 0);
}

#[test]
fn test_single_vote_encrypt_decrypt_one() {
    let mut rng = test_rng();
    let (pk, sk) = keygen(&pqhv_test(), &mut rng);
    let ct = encrypt(&pk, 1, &pqhv_test(), &mut rng);
    assert_eq!(decrypt(&sk, &ct, &pqhv_test()), 1);
}

#[test]
fn test_single_vote_with_voting_params() {
    let params = pqhv_voting_128();
    let mut rng = test_rng();
    let (pk, sk) = keygen(&params, &mut rng);
    let ct0 = encrypt(&pk, 0, &params, &mut rng);
    let ct1 = encrypt(&pk, 1, &params, &mut rng);
    assert_eq!(decrypt(&sk, &ct0, &params), 0);
    assert_eq!(decrypt(&sk, &ct1, &params), 1);
}

#[test]
fn test_homomorphic_tally_small() {
    let mut rng = test_rng();
    let (pk, sk) = keygen(&pqhv_test(), &mut rng);
    let votes = [1u8, 0, 1, 1, 0, 1, 1, 0, 1, 0];
    let expected = votes.iter().map(|&v| v as u64).sum::<u64>();
    let cts: Vec<Ciphertext> = votes.iter().map(|&v| encrypt(&pk, v, &pqhv_test(), &mut rng)).collect();
    let tally_ct = sum_ciphertexts(&cts);
    let result = decrypt_tally(&sk, &tally_ct, &pqhv_test());
    assert_eq!(result, expected, "10-vote tally: got {}, expected {}", result, expected);
}

#[test]
fn integration_test_homomorphic_tally_100_votes() {
    let mut rng = test_rng();
    let (pk, sk) = keygen(&pqhv_test(), &mut rng);
    let mut expected = 0u64;
    let mut cts = Vec::new();
    for i in 0u64..100 {
        let vote = (i % 3 != 0) as u8;
        expected += vote as u64;
        cts.push(encrypt(&pk, vote, &pqhv_test(), &mut rng));
    }
    let tally_ct = sum_ciphertexts(&cts);
    let result = decrypt_tally(&sk, &tally_ct, &pqhv_test());
    assert_eq!(result, expected, "100-vote tally: got {}, expected {}", result, expected);
}

#[test]
fn test_homomorphic_tally_1000_votes() {
    let params = pqhv_voting_128();
    let mut rng = test_rng();
    let (pk, sk) = keygen(&params, &mut rng);
    let mut expected = 0u64;
    let mut cts = Vec::new();
    for i in 0u64..1000 {
        let vote = (i % 2 == 0) as u8;
        expected += vote as u64;
        cts.push(encrypt(&pk, vote, &params, &mut rng));
    }
    let tally_ct = sum_ciphertexts(&cts);
    let result = decrypt_tally(&sk, &tally_ct, &params);
    assert_eq!(result, expected, "1000-vote tally: got {}, expected {}", result, expected);
}

#[test]
fn test_noise_overflow_detection() {
    let mut rng = test_rng();
    let (pk, sk) = keygen(&pqhv_test(), &mut rng);
    let budget = pqhv_test().noise_budget();
    let num_cts = (budget * 3) as usize;
    let mut expected = 0u64;
    let mut cts = Vec::new();
    for _ in 0..num_cts {
        let vote = 1u8;
        expected += 1;
        cts.push(encrypt(&pk, vote, &pqhv_test(), &mut rng));
    }
    let tally_ct = sum_ciphertexts(&cts);
    let result = decrypt_tally(&sk, &tally_ct, &pqhv_test());
    assert_ne!(
        result, expected,
        "Decryption should fail after exceeding noise budget ({} additions, budget {})",
        num_cts, budget
    );
}

#[test]
fn test_multi_candidate_election() {
    let mut rng = test_rng();
    let (pk, sk) = keygen(&pqhv_test(), &mut rng);
    let num_candidates = 3;
    let num_voters = 50;
    let mut candidate_cts: Vec<Vec<Ciphertext>> = (0..num_candidates).map(|_| Vec::new()).collect();
    let mut expected_counts = vec![0u64; num_candidates];
    for voter in 0..num_voters {
        let choice = voter % num_candidates;
        expected_counts[choice] += 1;
        for candidate in 0..num_candidates {
            let bit = if candidate == choice { 1u8 } else { 0u8 };
            candidate_cts[candidate].push(encrypt(&pk, bit, &pqhv_test(), &mut rng));
        }
    }
    let mut results = Vec::new();
    for candidate in 0..num_candidates {
        let tally_ct = sum_ciphertexts(&candidate_cts[candidate]);
        let count = decrypt_tally(&sk, &tally_ct, &pqhv_test());
        results.push(count);
    }
    for candidate in 0..num_candidates {
        assert_eq!(
            results[candidate], expected_counts[candidate],
            "Candidate {} got {} votes, expected {}",
            candidate, results[candidate], expected_counts[candidate]
        );
    }
    let total: u64 = results.iter().sum();
    assert_eq!(total, num_voters as u64);
}

#[test]
fn test_multi_candidate_5_candidates_100_voters() {
    let params = pqhv_voting_128();
    let mut rng = test_rng();
    let (pk, sk) = keygen(&params, &mut rng);
    let num_candidates = 5;
    let num_voters = 100;
    let mut candidate_cts: Vec<Vec<Ciphertext>> = (0..num_candidates).map(|_| Vec::new()).collect();
    let mut expected_counts = vec![0u64; num_candidates];
    for voter in 0..num_voters {
        let choice = match voter % 20 {
            0..=7 => 0,
            8..=12 => 1,
            13..=16 => 2,
            17..=18 => 3,
            _ => 4,
        };
        expected_counts[choice] += 1;
        for candidate in 0..num_candidates {
            let bit = if candidate == choice { 1u8 } else { 0u8 };
            candidate_cts[candidate].push(encrypt(&pk, bit, &params, &mut rng));
        }
    }
    for candidate in 0..num_candidates {
        let tally_ct = sum_ciphertexts(&candidate_cts[candidate]);
        let count = decrypt_tally(&sk, &tally_ct, &params);
        assert_eq!(
            count, expected_counts[candidate],
            "Candidate {} got {} votes, expected {}",
            candidate, count, expected_counts[candidate]
        );
    }
}

#[test]
fn test_noise_budget_computation() {
    let tracker = NoiseTracker::new_fresh(&pqhv_voting_128());
    assert!(tracker.is_safe());
    assert!(tracker.remaining() >= 100_000, "Voting params noise budget {} < 100K", tracker.remaining());
}

#[test]
fn test_parameter_validation() {
    assert!(pqhv_test().validate().is_ok());
    assert!(pqhv_voting_128().validate().is_ok());
}
