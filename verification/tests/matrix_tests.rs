use pqhv::matrix::{PolyMatrix, PolyVec};
use pqhv::params::pqhv_test;
use rand::SeedableRng;
use rand_chacha::ChaCha20Rng;

fn test_rng() -> ChaCha20Rng {
    ChaCha20Rng::seed_from_u64(42)
}

#[test]
fn test_polyvec_zero() {
    let v = PolyVec::new_zero(&pqhv_test());
    assert_eq!(v.k, 2);
    assert_eq!(v.polys.len(), 2);
    for p in &v.polys {
        assert!(p.coeffs.iter().all(|&c| c == 0));
    }
}

#[test]
fn test_polyvec_random_dimensions() {
    let mut rng = test_rng();
    let v = PolyVec::new_random(&pqhv_test(), &mut rng);
    assert_eq!(v.k, 2);
    assert_eq!(v.polys.len(), 2);
    for p in &v.polys {
        assert_eq!(p.coeffs.len(), 64);
    }
}

#[test]
fn test_polyvec_add_commutative() {
    let mut rng = test_rng();
    let a = PolyVec::new_random(&pqhv_test(), &mut rng);
    let b = PolyVec::new_random(&pqhv_test(), &mut rng);
    assert_eq!(a.add(&b), b.add(&a));
}

#[test]
fn test_polyvec_add_zero_identity() {
    let mut rng = test_rng();
    let a = PolyVec::new_random(&pqhv_test(), &mut rng);
    let z = PolyVec::new_zero(&pqhv_test());
    assert_eq!(a.add(&z), a);
}

#[test]
fn test_polyvec_inner_product_dimensions() {
    let mut rng = test_rng();
    let a = PolyVec::new_random(&pqhv_test(), &mut rng);
    let b = PolyVec::new_random(&pqhv_test(), &mut rng);
    let result = a.inner_product(&b);
    assert_eq!(result.coeffs.len(), pqhv_test().n);
}

#[test]
fn test_polyvec_inner_product_commutative() {
    let mut rng = test_rng();
    let a = PolyVec::new_random(&pqhv_test(), &mut rng);
    let b = PolyVec::new_random(&pqhv_test(), &mut rng);
    let mut ab = a.inner_product(&b);
    let mut ba = b.inner_product(&a);
    ab.reduce();
    ba.reduce();
    assert_eq!(ab, ba);
}

#[test]
fn test_polymatrix_dimensions() {
    let mut rng = test_rng();
    let m = PolyMatrix::new_random(&pqhv_test(), &mut rng);
    assert_eq!(m.k, 2);
    assert_eq!(m.rows.len(), 2);
    for row in &m.rows {
        assert_eq!(row.k, 2);
        assert_eq!(row.polys.len(), 2);
    }
}

#[test]
fn test_polymatrix_mul_vec_dimensions() {
    let mut rng = test_rng();
    let m = PolyMatrix::new_random(&pqhv_test(), &mut rng);
    let v = PolyVec::new_random(&pqhv_test(), &mut rng);
    let result = m.mul_vec(&v);
    assert_eq!(result.k, 2);
    assert_eq!(result.polys.len(), 2);
}

#[test]
fn test_polymatrix_transpose_transpose_is_identity() {
    let mut rng = test_rng();
    let m = PolyMatrix::new_random(&pqhv_test(), &mut rng);
    let mtt = m.transpose().transpose();
    assert_eq!(m, mtt);
}

#[test]
fn test_polymatrix_mul_vec_linearity() {
    let mut rng = test_rng();
    let a = PolyMatrix::new_random(&pqhv_test(), &mut rng);
    let v1 = PolyVec::new_random(&pqhv_test(), &mut rng);
    let v2 = PolyVec::new_random(&pqhv_test(), &mut rng);

    let mut lhs = a.mul_vec(&v1.add(&v2));
    let mut rhs = a.mul_vec(&v1).add(&a.mul_vec(&v2));
    lhs.reduce();
    rhs.reduce();
    assert_eq!(lhs, rhs);
}

#[test]
fn test_polymatrix_mul_zero_is_zero() {
    let mut rng = test_rng();
    let a = PolyMatrix::new_random(&pqhv_test(), &mut rng);
    let z = PolyVec::new_zero(&pqhv_test());
    let result = a.mul_vec(&z);
    assert_eq!(result, z);
}

#[test]
fn matrix_transpose_moves_entries() {
    let mut rng = test_rng();
    let m = PolyMatrix::new_random(&pqhv_test(), &mut rng);
    let t = m.transpose();
    for i in 0..2 {
        for j in 0..2 {
            assert_eq!(t.rows[j].polys[i], m.rows[i].polys[j]);
        }
    }
}

#[test]
fn matrix_sub_then_add_restores() {
    let mut rng = test_rng();
    let a = PolyVec::new_random(&pqhv_test(), &mut rng);
    let b = PolyVec::new_random(&pqhv_test(), &mut rng);
    let mut r = a.sub(&b).add(&b);
    r.reduce();
    assert_eq!(r, a);
}

#[test]
fn mul_vec_rank_zero_is_empty() {
    let m = PolyMatrix { rows: vec![], k: 0 };
    let v = PolyVec { polys: vec![], k: 0 };
    let r = m.mul_vec(&v);
    assert_eq!(r.k, 0);
    assert!(r.polys.is_empty());
}
