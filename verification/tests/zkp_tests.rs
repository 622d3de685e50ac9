use pqhv::checked::verify_ballot_proof_checked;
use pqhv::ballot::{encrypt_and_prove, prove_ballot_valid, verify_ballot_proof};
use pqhv::challenge::{challenge_from_hash, transcript_hash, CHALLENGE_WEIGHT};
use pqhv::disjunctive::{commit, verify_branch};
use pqhv::keygen::keygen;
use pqhv::params::pqhv_test;
use rand::SeedableRng;
use rand_chacha::ChaCha20Rng;

fn test_rng(seed: u64) -> ChaCha20Rng {
    ChaCha20Rng::seed_from_u64(seed)
}

#[test]
fn prove_and_verify_vote_zero() {
    let mut rng = test_rng(100);
    let (pk, _sk) = keygen(&pqhv_test(), &mut rng);
    let ballot = encrypt_and_prove(&pk, 0, &pqhv_test(), &mut rng);
    assert!(verify_ballot_proof(&pk, &ballot.ciphertext, &ballot.proof, &pqhv_test()));
}

#[test]
fn prove_and_verify_vote_one() {
    let mut rng = test_rng(200);
    let (pk, _sk) = keygen(&pqhv_test(), &mut rng);
    let ballot = encrypt_and_prove(&pk, 1, &pqhv_test(), &mut rng);
    assert!(verify_ballot_proof(&pk, &ballot.ciphertext, &ballot.proof, &pqhv_test()));
}

#[test]
fn different_seeds_all_verify() {
    for seed in 300..310 {
        let mut rng = test_rng(seed);
        let (pk, _sk) = keygen(&pqhv_test(), &mut rng);
        let msg = (seed % 2) as u8;
        let ballot = encrypt_and_prove(&pk, msg, &pqhv_test(), &mut rng);
        assert!(
            verify_ballot_proof(&pk, &ballot.ciphertext, &ballot.proof, &pqhv_test()),
            "Verification failed for seed={}, msg={}",
            seed,
            msg
        );
    }
}

#[test]
fn proof_fails_for_wrong_ciphertext() {
    let mut rng = test_rng(400);
    let (pk, _sk) = keygen(&pqhv_test(), &mut rng);
    let ballot1 = encrypt_and_prove(&pk, 0, &pqhv_test(), &mut rng);
    let ballot2 = encrypt_and_prove(&pk, 1, &pqhv_test(), &mut rng);
    assert!(!verify_ballot_proof(&pk, &ballot2.ciphertext, &ballot1.proof, &pqhv_test()));
}

#[test]
fn challenge_has_correct_weight() {
    let hash = [0xABu8; 32];
    let c = challenge_from_hash(&hash, &pqhv_test());
    let weight: usize = c.coeffs.iter().filter(|&&x| x != 0).count();
    assert_eq!(weight, CHALLENGE_WEIGHT.min(pqhv_test().n));
}

#[test]
fn challenge_is_ternary() {
    let hash = [0x42u8; 32];
    let c = challenge_from_hash(&hash, &pqhv_test());
    for &coeff in &c.coeffs {
        assert!((-1..=1).contains(&coeff), "Non-ternary coefficient: {}", coeff);
    }
}

#[test]
fn challenge_is_deterministic() {
    let hash = [0x13u8; 32];
    let c1 = challenge_from_hash(&hash, &pqhv_test());
    let c2 = challenge_from_hash(&hash, &pqhv_test());
    assert_eq!(c1.coeffs, c2.coeffs);
}

#[test]
fn different_hashes_give_different_challenges() {
    let h1 = [0x01u8; 32];
    let h2 = [0x02u8; 32];
    let c1 = challenge_from_hash(&h1, &pqhv_test());
    let c2 = challenge_from_hash(&h2, &pqhv_test());
    assert_ne!(c1.coeffs, c2.coeffs);
}

#[test]
fn transcript_hash_is_deterministic() {
    let data = [b"hello" as &[u8], b"world"];
    let h1 = transcript_hash(&data);
    let h2 = transcript_hash(&data);
    assert_eq!(h1, h2);
}

#[test]
fn transcript_hash_order_matters() {
    let h1 = transcript_hash(&[b"hello", b"world"]);
    let h2 = transcript_hash(&[b"world", b"hello"]);
    assert_ne!(h1, h2);
}

#[test]
fn commit_produces_correct_dimensions() {
    let mut rng = ChaCha20Rng::seed_from_u64(99);
    let (pk, _) = keygen(&pqhv_test(), &mut rng);
    let (_y, _f1, _f2, w_u, w_v) = commit(&pk, &pqhv_test(), &mut rng);
    assert_eq!(w_u.k, pqhv_test().k);
    assert_eq!(w_v.coeffs.len(), pqhv_test().n);
}

#[test]
fn transcript_hash_known_digest() {
    // SHA-256 over the length-prefixed fields "abc" and "".
    let h = transcript_hash(&[b"abc", b""]);
    assert_eq!(
        h,
        [
            0x3e, 0x2f, 0x89, 0x40, 0xc3, 0xa0, 0xe0, 0xfd, 0x6f, 0x6e, 0x07, 0xbb, 0xf0, 0x7f, 0x01, 0x5d,
            0xd7, 0xc1, 0x47, 0x43, 0x1e, 0x5f, 0xa1, 0x4b, 0xf3, 0xf2, 0x25, 0xd7, 0x82, 0x64, 0x15, 0x40
        ]
    );
}

#[test]
fn ballot_branches_verify_for_their_messages() {
    let params = pqhv_test();
    let mut rng = test_rng(700);
    let (pk, _sk) = keygen(&params, &mut rng);
    let ballot = encrypt_and_prove(&pk, 1, &params, &mut rng);
    assert!(verify_branch(&pk, &ballot.ciphertext, &ballot.proof.branch_0, 0, &params));
    assert!(verify_branch(&pk, &ballot.ciphertext, &ballot.proof.branch_1, 1, &params));
    assert!(!verify_branch(&pk, &ballot.ciphertext, &ballot.proof.branch_1, 0, &params));
}

#[test]
fn ballot_tampered_challenge_rejected() {
    let params = pqhv_test();
    let mut rng = test_rng(701);
    let (pk, _sk) = keygen(&params, &mut rng);
    let ballot = encrypt_and_prove(&pk, 0, &params, &mut rng);
    let mut proof = ballot.proof.clone();
    proof.branch_1.challenge[0] += 1;
    assert!(!verify_ballot_proof(&pk, &ballot.ciphertext, &proof, &params));
}

#[test]
fn prove_without_witness_keeps_simulated_branch_and_challenges() {
    let params = pqhv_test();
    let mut rng = test_rng(702);
    let (pk, _sk) = keygen(&params, &mut rng);
    let ballot = encrypt_and_prove(&pk, 0, &params, &mut rng);
    let proof = prove_ballot_valid(&pk, &ballot.ciphertext, 0, &params, &mut rng);
    assert!(verify_branch(&pk, &ballot.ciphertext, &proof.branch_1, 1, &params));
}

#[test]
fn branch_with_missing_u_commitment_rejected() {
    let params = pqhv_test();
    let mut rng = test_rng(702);
    let (pk, _sk) = keygen(&params, &mut rng);
    let ballot = encrypt_and_prove(&pk, 0, &params, &mut rng);
    let mut empty = ballot.proof.branch_0.clone();
    empty.commitment_u = vec![];
    assert!(!verify_branch(&pk, &ballot.ciphertext, &empty, 0, &params));
    let mut short = ballot.proof.branch_0.clone();
    short.commitment_u.pop();
    assert!(!verify_branch(&pk, &ballot.ciphertext, &short, 0, &params));
    let mut proof = ballot.proof.clone();
    proof.branch_0.commitment_u = vec![];
    assert!(!verify_ballot_proof(&pk, &ballot.ciphertext, &proof, &params));
}

#[test]
fn checked_verification_tests_shapes_first() {
    let params = pqhv_test();
    let mut rng = test_rng(703);
    let (pk, _sk) = keygen(&params, &mut rng);
    let ballot = encrypt_and_prove(&pk, 1, &params, &mut rng);
    assert_eq!(verify_ballot_proof_checked(&pk, &ballot.ciphertext, &ballot.proof, &params), Some(true));
    let mut tampered = ballot.proof.clone();
    tampered.branch_0.challenge[0] = if tampered.branch_0.challenge[0] == 0 { 1 } else { 0 };
    assert_eq!(verify_ballot_proof_checked(&pk, &ballot.ciphertext, &tampered, &params), Some(false));
    let mut short = ballot.proof.clone();
    short.branch_1.commitment_u.pop();
    assert_eq!(verify_ballot_proof_checked(&pk, &ballot.ciphertext, &short, &params), None);
    let mut huge = ballot.proof.clone();
    huge.branch_0.response_e2[0] = i64::MAX;
    assert_eq!(verify_ballot_proof_checked(&pk, &ballot.ciphertext, &huge, &params), None);
}
