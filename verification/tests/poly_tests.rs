use pqhv::params::{pqhv_test, PqhvParams};
use pqhv::poly::Poly;
use rand::SeedableRng;
use rand_chacha::ChaCha20Rng;

fn test_rng() -> ChaCha20Rng {
    ChaCha20Rng::seed_from_u64(42)
}

fn small_params() -> PqhvParams {
    PqhvParams { n: 4, k: 1, q: 97, eta: 1, max_additions: 10, security_level: "test" }
}

#[test]
fn test_zero_polynomial() {
    let z = Poly::new_zero(&pqhv_test());
    assert_eq!(z.coeffs.len(), 64);
    assert!(z.coeffs.iter().all(|&c| c == 0));
}

#[test]
fn test_random_polynomial_in_range() {
    let mut rng = test_rng();
    let p = Poly::new_random(&pqhv_test(), &mut rng);
    assert_eq!(p.coeffs.len(), 64);
    for &c in &p.coeffs {
        assert!(c >= 0 && c < pqhv_test().q as i64);
    }
}

#[test]
fn test_cbd_polynomial_in_range() {
    let mut rng = test_rng();
    let p = Poly::sample_cbd(&pqhv_test(), 2, &mut rng);
    assert_eq!(p.coeffs.len(), 64);
    for &c in &p.coeffs {
        assert!(c >= 0 && c < pqhv_test().q as i64);
    }
}

#[test]
fn test_addition_commutative() {
    let mut rng = test_rng();
    let a = Poly::new_random(&pqhv_test(), &mut rng);
    let b = Poly::new_random(&pqhv_test(), &mut rng);
    assert_eq!(a.add(&b), b.add(&a));
}

#[test]
fn test_addition_associative() {
    let mut rng = test_rng();
    let a = Poly::new_random(&pqhv_test(), &mut rng);
    let b = Poly::new_random(&pqhv_test(), &mut rng);
    let c = Poly::new_random(&pqhv_test(), &mut rng);
    let mut lhs = a.add(&b).add(&c);
    let mut rhs = a.add(&b.add(&c));
    lhs.reduce();
    rhs.reduce();
    assert_eq!(lhs, rhs);
}

#[test]
fn test_add_zero_identity() {
    let mut rng = test_rng();
    let a = Poly::new_random(&pqhv_test(), &mut rng);
    let z = Poly::new_zero(&pqhv_test());
    assert_eq!(a.add(&z), a);
}

#[test]
fn test_add_neg_is_zero() {
    let mut rng = test_rng();
    let a = Poly::new_random(&pqhv_test(), &mut rng);
    let neg_a = a.neg();
    let mut result = a.add(&neg_a);
    result.reduce();
    let zero = Poly::new_zero(&pqhv_test());
    assert_eq!(result, zero);
}

#[test]
fn test_subtraction() {
    let mut rng = test_rng();
    let a = Poly::new_random(&pqhv_test(), &mut rng);
    let b = Poly::new_random(&pqhv_test(), &mut rng);
    let mut result = a.sub(&b).add(&b);
    result.reduce();
    let mut expected = a.clone();
    expected.reduce();
    assert_eq!(result, expected);
}

#[test]
fn test_scalar_mul() {
    let params = pqhv_test();
    let mut p = Poly::new_zero(&params);
    p.coeffs[0] = 5;
    p.coeffs[1] = 3;
    let result = p.scalar_mul(4);
    assert_eq!(result.coeffs[0], 20);
    assert_eq!(result.coeffs[1], 12);
}

#[test]
fn test_scalar_mul_wraps() {
    let params = pqhv_test();
    let mut p = Poly::new_zero(&params);
    p.coeffs[0] = (params.q - 1) as i64;
    let result = p.scalar_mul(2);
    assert_eq!(result.coeffs[0], (params.q - 2) as i64);
}

#[test]
fn test_mul_known_small() {
    let params = small_params();
    let mut a = Poly::new_zero(&params);
    a.coeffs[0] = 1;
    a.coeffs[1] = 1;
    let result = a.mul(&a);
    assert_eq!(result.coeffs[0], 1);
    assert_eq!(result.coeffs[1], 2);
    assert_eq!(result.coeffs[2], 1);
    assert_eq!(result.coeffs[3], 0);
}

#[test]
fn test_mul_wraparound() {
    let params = small_params();
    let mut a = Poly::new_zero(&params);
    a.coeffs[3] = 1;
    let mut b = Poly::new_zero(&params);
    b.coeffs[2] = 1;
    let result = a.mul(&b);
    assert_eq!(result.coeffs[0], 0);
    assert_eq!(result.coeffs[1], 97 - 1);
    assert_eq!(result.coeffs[2], 0);
    assert_eq!(result.coeffs[3], 0);
}

#[test]
fn test_mul_commutative() {
    let mut rng = test_rng();
    let a = Poly::new_random(&pqhv_test(), &mut rng);
    let b = Poly::new_random(&pqhv_test(), &mut rng);
    let mut ab = a.mul(&b);
    let mut ba = b.mul(&a);
    ab.reduce();
    ba.reduce();
    assert_eq!(ab, ba);
}

#[test]
fn test_mul_zero_is_zero() {
    let mut rng = test_rng();
    let a = Poly::new_random(&pqhv_test(), &mut rng);
    let z = Poly::new_zero(&pqhv_test());
    let result = a.mul(&z);
    assert_eq!(result, z);
}

#[test]
fn test_message_roundtrip_zero() {
    let p = Poly::from_message(0, &pqhv_test());
    assert_eq!(p.to_message(&pqhv_test()), 0);
}

#[test]
fn test_message_roundtrip_one() {
    let p = Poly::from_message(1, &pqhv_test());
    assert_eq!(p.to_message(&pqhv_test()), 1);
}

#[test]
fn test_message_encoding_values() {
    let params = pqhv_test();
    let p0 = Poly::from_message(0, &params);
    let p1 = Poly::from_message(1, &params);
    assert_eq!(p0.coeffs[0], 0);
    assert_eq!(p1.coeffs[0], params.encoding_scale());
    for i in 1..params.n {
        assert_eq!(p0.coeffs[i], 0);
        assert_eq!(p1.coeffs[i], 0);
    }
}

#[test]
fn test_message_decode_with_small_noise() {
    let params = pqhv_test();
    let mut p1 = Poly::from_message(1, &params);
    p1.coeffs[0] += 100;
    assert_eq!(p1.to_message(&params), 1);

    let mut p0 = Poly::from_message(0, &params);
    p0.coeffs[0] += 100;
    assert_eq!(p0.to_message(&params), 0);
}

#[test]
fn test_reduce() {
    let params = pqhv_test();
    let mut p = Poly::new_zero(&params);
    p.coeffs[0] = -5;
    p.coeffs[1] = params.q as i64 + 10;
    p.reduce();
    assert_eq!(p.coeffs[0], params.q as i64 - 5);
    assert_eq!(p.coeffs[1], 10);
}

#[test]
fn poly_mul_negacyclic_exact() {
    // (2 + 3X) * (X^3) = 2X^3 + 3X^4 = 2X^3 - 3 in Z_97[X]/(X^4 + 1)
    let params = small_params();
    let mut a = Poly::new_zero(&params);
    a.coeffs[0] = 2;
    a.coeffs[1] = 3;
    let mut b = Poly::new_zero(&params);
    b.coeffs[3] = 1;
    let r = a.mul(&b);
    assert_eq!(r.coeffs, vec![94, 0, 0, 2]);
}

#[test]
fn poly_mul_associative_small() {
    let params = small_params();
    let a = Poly { coeffs: vec![1, 5, 0, 96], n: 4, q: 97 };
    let b = Poly { coeffs: vec![3, 0, 7, 1], n: 4, q: 97 };
    let c = Poly { coeffs: vec![0, 2, 90, 4], n: 4, q: 97 };
    let _ = params;
    let mut lhs = a.mul(&b).mul(&c);
    let mut rhs = a.mul(&b.mul(&c));
    lhs.reduce();
    rhs.reduce();
    assert_eq!(lhs, rhs);
}

#[test]
fn poly_sub_is_canonical() {
    let p = Poly { coeffs: vec![3, 0, 50, 96], n: 4, q: 97 };
    let o = Poly { coeffs: vec![5, 1, 50, 0], n: 4, q: 97 };
    assert_eq!(p.sub(&o).coeffs, vec![95, 96, 0, 96]);
}

#[test]
fn poly_add_truncated_remainder() {
    // Addition keeps Rust's remainder: a negative sum stays negative.
    let p = Poly { coeffs: vec![-100, 60, 0, 0], n: 4, q: 97 };
    let o = Poly { coeffs: vec![1, 60, 0, 0], n: 4, q: 97 };
    assert_eq!(p.add(&o).coeffs, vec![-2, 23, 0, 0]);
}

#[test]
fn poly_neg_values() {
    let p = Poly { coeffs: vec![0, 1, 96, 100], n: 4, q: 97 };
    assert_eq!(p.neg().coeffs, vec![0, 96, 1, 94]);
}

#[test]
fn poly_tally_decoding() {
    let params = pqhv_test();
    let delta = params.encoding_scale();
    let mut p = Poly::new_zero(&params);
    p.coeffs[0] = 7 * delta + delta / 2 - 1;
    assert_eq!(p.to_tally(&params), 7);
    p.coeffs[0] = 7 * delta - delta / 2;
    assert_eq!(p.to_tally(&params), 7);
    p.coeffs[0] = params.q as i64 - 3;
    assert_eq!(p.to_tally(&params), 0);
}

#[test]
fn scalar_mul_large_modulus_exact() {
    let q: u64 = 1 << 35;
    let a = Poly { coeffs: vec![(q - 1) as i64, 2, 0, -3], n: 4, q };
    let r = a.scalar_mul((q - 1) as i64);
    assert_eq!(r.coeffs, vec![1, (2 * (q - 1) % q) as i64, 0, -(((3 * (q - 1)) % q) as i64)]);
}

#[test]
fn add_sub_near_i64_modulus() {
    let q: u64 = (1u64 << 63) - 25;
    let a = Poly { coeffs: vec![5, -7, 0, 1], n: 4, q };
    let b = Poly { coeffs: vec![3, 2, 0, 4], n: 4, q };
    assert_eq!(a.add(&b).coeffs, vec![8, -5, 0, 5]);
    assert_eq!(a.sub(&b).coeffs, vec![2, (q - 9) as i64, 0, (q - 3) as i64]);
    assert_eq!(b.neg().coeffs, vec![(q - 3) as i64, (q - 2) as i64, 0, (q - 4) as i64]);
}

#[test]
fn from_words_reduces_each_word() {
    let params = small_params();
    let words: Vec<u64> = vec![0, 97, 100, u64::MAX];
    let p = Poly::from_words(&words, &params);
    assert_eq!(p.coeffs, vec![0, 0, 3, (u64::MAX % 97) as i64]);
}

#[test]
fn to_tally_negative_centered_needs_no_scale() {
    let params = PqhvParams { n: 1, k: 1, q: 3, eta: 0, max_additions: 5, security_level: "t" };
    assert_eq!(params.encoding_scale(), 0);
    let p = Poly { coeffs: vec![2], n: 1, q: 3 };
    assert_eq!(p.to_tally(&params), 0);
}
