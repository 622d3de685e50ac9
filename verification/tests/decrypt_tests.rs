use pqhv::decrypt::{decrypt, decrypt_raw, decrypt_tally};
use pqhv::encrypt::{add_ciphertexts, encrypt, sum_ciphertexts, Ciphertext};
use pqhv::keygen::keygen;
use pqhv::params::{pqhv_test, pqhv_voting_128};
use rand::SeedableRng;
use rand_chacha::ChaCha20Rng;

fn test_rng() -> ChaCha20Rng {
    ChaCha20Rng::seed_from_u64(42)
}

#[test]
fn test_decrypt_zero() {
    let mut rng = test_rng();
    let (pk, sk) = keygen(&pqhv_test(), &mut rng);
    let ct = encrypt(&pk, 0, &pqhv_test(), &mut rng);
    assert_eq!(decrypt(&sk, &ct, &pqhv_test()), 0);
}

#[test]
fn test_decrypt_one() {
    let mut rng = test_rng();
    let (pk, sk) = keygen(&pqhv_test(), &mut rng);
    let ct = encrypt(&pk, 1, &pqhv_test(), &mut rng);
    assert_eq!(decrypt(&sk, &ct, &pqhv_test()), 1);
}

#[test]
fn test_decrypt_multiple_zero_and_one() {
    let mut rng = test_rng();
    let (pk, sk) = keygen(&pqhv_test(), &mut rng);
    for _ in 0..20 {
        let ct0 = encrypt(&pk, 0, &pqhv_test(), &mut rng);
        let ct1 = encrypt(&pk, 1, &pqhv_test(), &mut rng);
        assert_eq!(decrypt(&sk, &ct0, &pqhv_test()), 0);
        assert_eq!(decrypt(&sk, &ct1, &pqhv_test()), 1);
    }
}

#[test]
fn test_homomorphic_add_two() {
    let mut rng = test_rng();
    let (pk, sk) = keygen(&pqhv_test(), &mut rng);
    let ct0 = encrypt(&pk, 1, &pqhv_test(), &mut rng);
    let ct1 = encrypt(&pk, 1, &pqhv_test(), &mut rng);
    let sum = add_ciphertexts(&ct0, &ct1);
    assert_eq!(decrypt_tally(&sk, &sum, &pqhv_test()), 2);
}

#[test]
fn test_homomorphic_tally_10_votes() {
    let mut rng = test_rng();
    let (pk, sk) = keygen(&pqhv_test(), &mut rng);
    let votes = [1u8, 0, 1, 1, 0, 1, 1, 1, 0, 1];
    let expected: u64 = votes.iter().sum::<u8>() as u64;
    let ciphertexts: Vec<Ciphertext> = votes.iter().map(|&v| encrypt(&pk, v, &pqhv_test(), &mut rng)).collect();
    let tally_ct = sum_ciphertexts(&ciphertexts);
    let result = decrypt_tally(&sk, &tally_ct, &pqhv_test());
    assert_eq!(result, expected, "Tally {} != expected {}", result, expected);
}

#[test]
fn decrypt_test_homomorphic_tally_100_votes() {
    let mut rng = test_rng();
    let (pk, sk) = keygen(&pqhv_test(), &mut rng);
    let mut yes_count: u64 = 0;
    let mut ciphertexts = Vec::new();
    for i in 0..100 {
        let vote = if i % 3 == 0 { 1u8 } else { 0u8 };
        yes_count += vote as u64;
        ciphertexts.push(encrypt(&pk, vote, &pqhv_test(), &mut rng));
    }
    let tally_ct = sum_ciphertexts(&ciphertexts);
    let result = decrypt_tally(&sk, &tally_ct, &pqhv_test());
    assert_eq!(result, yes_count, "100-vote tally {} != expected {}", result, yes_count);
}

#[test]
fn test_homomorphic_tally_1000_votes_voting_params() {
    let params = pqhv_voting_128();
    let mut rng = test_rng();
    let (pk, sk) = keygen(&params, &mut rng);
    let mut yes_count: u64 = 0;
    let mut ciphertexts = Vec::new();
    for i in 0..1000 {
        let vote = if i % 2 == 0 { 1u8 } else { 0u8 };
        yes_count += vote as u64;
        ciphertexts.push(encrypt(&pk, vote, &params, &mut rng));
    }
    let tally_ct = sum_ciphertexts(&ciphertexts);
    let result = decrypt_tally(&sk, &tally_ct, &params);
    assert_eq!(result, yes_count, "1000-vote tally {} != expected {}", result, yes_count);
}

#[test]
fn test_decrypt_raw_noise_is_small() {
    let mut rng = test_rng();
    let (pk, sk) = keygen(&pqhv_test(), &mut rng);
    let ct = encrypt(&pk, 0, &pqhv_test(), &mut rng);
    let raw = decrypt_raw(&sk, &ct);
    let q = pqhv_test().q as i64;
    let centered = if raw.coeffs[0] > q / 2 { raw.coeffs[0] - q } else { raw.coeffs[0] };
    assert!(centered.abs() < q / 4, "Noise {} exceeds q/4 = {}", centered, q / 4);
}

#[test]
fn test_wrong_key_decrypts_incorrectly() {
    let mut rng = test_rng();
    let (pk1, _sk1) = keygen(&pqhv_test(), &mut rng);
    let (_pk2, sk2) = keygen(&pqhv_test(), &mut rng);
    let mut wrong_count = 0;
    for _ in 0..50 {
        let ct = encrypt(&pk1, 1, &pqhv_test(), &mut rng);
        if decrypt(&sk2, &ct, &pqhv_test()) != 1 {
            wrong_count += 1;
        }
    }
    assert!(wrong_count > 0, "All 50 decryptions with wrong key succeeded — statistically improbable");
}
