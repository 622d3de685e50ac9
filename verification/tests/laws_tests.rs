use pqhv::decrypt::{decrypt, decrypt_raw, decrypt_tally};
use pqhv::encrypt::{add_ciphertexts, encrypt, sum_ciphertexts};
use pqhv::keygen::{keygen, SecretKey};
use pqhv::matrix::PolyVec;
use pqhv::params::{pqhv_test, PqhvParams};
use pqhv::poly::Poly;
use pqhv::challenge::challenge_from_hash;
use pqhv::threshold::{combine_partial_decryptions, generate_threshold_keys, partial_decrypt, ThresholdParams};
use rand::SeedableRng;
use rand_chacha::ChaCha20Rng;

#[test]
fn law_decrypt_encrypt_recovers_low_bit() {
    let params = pqhv_test();
    let mut rng = ChaCha20Rng::seed_from_u64(2024);
    let (pk, sk) = keygen(&params, &mut rng);
    for m in [0u8, 1, 2, 3, 254, 255] {
        let ct = encrypt(&pk, m, &params, &mut rng);
        assert_eq!(decrypt(&sk, &ct, &params), m & 1);
    }
}

#[test]
fn law_decrypt_add_is_sum_of_raw() {
    let params = pqhv_test();
    let q = params.q as i64;
    let mut rng = ChaCha20Rng::seed_from_u64(77);
    let (pk, sk) = keygen(&params, &mut rng);
    let a = encrypt(&pk, 1, &params, &mut rng);
    let b = encrypt(&pk, 0, &params, &mut rng);
    let s = add_ciphertexts(&a, &b);
    let ra = decrypt_raw(&sk, &a);
    let rb = decrypt_raw(&sk, &b);
    let rs = decrypt_raw(&sk, &s);
    for d in 0..params.n {
        assert_eq!(rs.coeffs[d], (ra.coeffs[d] + rb.coeffs[d]) % q);
    }
}

#[test]
fn law_tally_counts_low_bits() {
    let params = pqhv_test();
    let mut rng = ChaCha20Rng::seed_from_u64(31);
    let (pk, sk) = keygen(&params, &mut rng);
    let msgs = [1u8, 3, 0, 2, 1, 1, 5, 4];
    let cts: Vec<_> = msgs.iter().map(|&m| encrypt(&pk, m, &params, &mut rng)).collect();
    let total = sum_ciphertexts(&cts);
    assert_eq!(decrypt_tally(&sk, &total, &params), 5);
}

#[test]
fn law_threshold_combine_matches_decryption_with_summed_shares() {
    let params = pqhv_test();
    let mut rng = ChaCha20Rng::seed_from_u64(4242);
    let threshold = ThresholdParams::new(3, 3).unwrap();
    let (pk, shares) = generate_threshold_keys(&params, &threshold, &mut rng);
    let mut s = PolyVec::new_zero(&params);
    for share in &shares {
        s = s.add(&share.share);
    }
    s.reduce();
    let sk = SecretKey { s };
    let cts: Vec<_> = [1u8, 1, 0, 1].iter().map(|&m| encrypt(&pk, m, &params, &mut rng)).collect();
    let total = sum_ciphertexts(&cts);
    let partials: Vec<_> = shares.iter().map(|sh| partial_decrypt(sh, &total)).collect();
    let combined = combine_partial_decryptions(&partials, &total, &threshold, &params).unwrap();
    assert_eq!(combined, decrypt_tally(&sk, &total, &params));
    assert_eq!(combined, 3);
}

#[test]
fn law_combine_order_any_permutation_same_tally() {
    let params = pqhv_test();
    let mut rng = ChaCha20Rng::seed_from_u64(5150);
    let threshold = ThresholdParams::new(3, 3).unwrap();
    let (pk, shares) = generate_threshold_keys(&params, &threshold, &mut rng);
    let cts: Vec<_> = [1u8, 0, 1, 1, 1].iter().map(|&m| encrypt(&pk, m, &params, &mut rng)).collect();
    let total = sum_ciphertexts(&cts);
    let partials: Vec<_> = shares.iter().map(|sh| partial_decrypt(sh, &total)).collect();
    let in_order = combine_partial_decryptions(&partials, &total, &threshold, &params).unwrap();
    assert_eq!(in_order, 4);
    let orders = [[0usize, 2, 1], [1, 0, 2], [1, 2, 0], [2, 0, 1], [2, 1, 0]];
    for order in orders.iter() {
        let permuted: Vec<_> = order.iter().map(|&i| partials[i].clone()).collect();
        assert_eq!(combine_partial_decryptions(&permuted, &total, &threshold, &params).unwrap(), in_order);
    }
}

#[test]
fn law_message_roundtrip_every_byte() {
    let params = pqhv_test();
    for bit in 0u8..=255 {
        let p = Poly::from_message(bit, &params);
        assert_eq!(p.to_message(&params), bit & 1);
    }
}

#[test]
fn law_message_roundtrip_fails_without_budget() {
    // With no additions budgeted, t = 1 and Δ = q: the encoded 1 decodes to 0.
    let params = PqhvParams { n: 4, k: 1, q: 97, eta: 1, max_additions: 0, security_level: "test" };
    let p = Poly::from_message(1, &params);
    assert_eq!(p.to_message(&params), 0);
}

#[test]
fn law_mul_distributes_over_add() {
    let params = pqhv_test();
    let mut rng = ChaCha20Rng::seed_from_u64(8);
    let a = Poly::new_random(&params, &mut rng);
    let b = Poly::new_random(&params, &mut rng);
    let c = Poly::new_random(&params, &mut rng);
    let mut lhs = a.mul(&b.add(&c));
    let mut rhs = a.mul(&b).add(&a.mul(&c));
    lhs.reduce();
    rhs.reduce();
    assert_eq!(lhs, rhs);
}

#[test]
fn law_mul_associative_random() {
    let params = pqhv_test();
    let mut rng = ChaCha20Rng::seed_from_u64(9);
    let a = Poly::new_random(&params, &mut rng);
    let b = Poly::new_random(&params, &mut rng);
    let c = Poly::new_random(&params, &mut rng);
    let mut lhs = a.mul(&b).mul(&c);
    let mut rhs = a.mul(&b.mul(&c));
    lhs.reduce();
    rhs.reduce();
    assert_eq!(lhs, rhs);
}

#[test]
fn law_challenge_weight_is_min_of_weight_and_n() {
    let params = pqhv_test();
    for b in [0u8, 7, 0x55, 0xAA, 0xFF] {
        let c = challenge_from_hash(&[b; 32], &params);
        assert_eq!(c.coeffs.iter().filter(|&&x| x != 0).count(), 32);
    }
    let small = PqhvParams { n: 16, k: 1, q: 97, eta: 1, max_additions: 1, security_level: "test" };
    let c = challenge_from_hash(&[3u8; 32], &small);
    assert_eq!(c.coeffs.len(), 16);
    assert_eq!(c.coeffs.iter().filter(|&&x| x != 0).count(), 16);
}
