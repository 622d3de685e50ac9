use pqhv::keygen::keygen;
use pqhv::params::{pqhv_test, pqhv_voting_128};
use rand::SeedableRng;
use rand_chacha::ChaCha20Rng;

fn test_rng() -> ChaCha20Rng {
    ChaCha20Rng::seed_from_u64(42)
}

#[test]
fn test_keygen_dimensions_test_params() {
    let mut rng = test_rng();
    let (pk, sk) = keygen(&pqhv_test(), &mut rng);
    assert_eq!(pk.a.k, 2);
    assert_eq!(pk.a.rows.len(), 2);
    for row in &pk.a.rows {
        assert_eq!(row.polys.len(), 2);
        for p in &row.polys {
            assert_eq!(p.coeffs.len(), 64);
        }
    }
    assert_eq!(pk.b.k, 2);
    assert_eq!(pk.b.polys.len(), 2);
    assert_eq!(sk.s.k, 2);
    assert_eq!(sk.s.polys.len(), 2);
}

#[test]
fn test_keygen_dimensions_voting_params() {
    let mut rng = test_rng();
    let (pk, sk) = keygen(&pqhv_voting_128(), &mut rng);
    assert_eq!(pk.a.k, 3);
    assert_eq!(pk.b.k, 3);
    assert_eq!(sk.s.k, 3);
    for p in &sk.s.polys {
        assert_eq!(p.coeffs.len(), 256);
    }
}

#[test]
fn test_keygen_deterministic_with_same_seed() {
    let mut rng1 = ChaCha20Rng::seed_from_u64(99);
    let mut rng2 = ChaCha20Rng::seed_from_u64(99);
    let (pk1, sk1) = keygen(&pqhv_test(), &mut rng1);
    let (pk2, sk2) = keygen(&pqhv_test(), &mut rng2);
    assert_eq!(pk1, pk2);
    assert_eq!(sk1.s, sk2.s);
}

#[test]
fn test_keygen_different_seeds_different_keys() {
    let mut rng1 = ChaCha20Rng::seed_from_u64(1);
    let mut rng2 = ChaCha20Rng::seed_from_u64(2);
    let (pk1, _) = keygen(&pqhv_test(), &mut rng1);
    let (pk2, _) = keygen(&pqhv_test(), &mut rng2);
    assert_ne!(pk1, pk2);
}

#[test]
fn test_secret_key_has_small_coefficients() {
    let mut rng = test_rng();
    let (_, sk) = keygen(&pqhv_test(), &mut rng);
    let eta = pqhv_test().eta as i64;
    let q = pqhv_test().q as i64;
    for p in &sk.s.polys {
        for &c in &p.coeffs {
            let centered = if c > q / 2 { c - q } else { c };
            assert!(centered.abs() <= eta, "Secret coefficient {} (centered {}) exceeds eta={}", c, centered, eta);
        }
    }
}

#[test]
fn test_secret_key_zeroize() {
    let mut rng = test_rng();
    let (_, mut sk) = keygen(&pqhv_test(), &mut rng);
    let has_nonzero = sk.s.polys.iter().any(|p| p.coeffs.iter().any(|&c| c != 0));
    assert!(has_nonzero, "Secret key should have non-zero coefficients");
    sk.zeroize();
    for p in &sk.s.polys {
        for &c in &p.coeffs {
            assert_eq!(c, 0, "Coefficient should be zero after zeroize");
        }
    }
}

#[test]
fn keygen_public_key_is_a_times_s_plus_small_noise() {
    let params = pqhv_test();
    let mut rng = test_rng();
    let (pk, sk) = keygen(&params, &mut rng);
    let mut a_s = pk.a.mul_vec(&sk.s);
    a_s.reduce();
    let q = params.q as i64;
    for i in 0..params.k {
        for d in 0..params.n {
            let e = (pk.b.polys[i].coeffs[d] - a_s.polys[i].coeffs[d]).rem_euclid(q);
            let centered = if e > q / 2 { e - q } else { e };
            assert!(centered.abs() <= params.eta as i64);
        }
    }
}
