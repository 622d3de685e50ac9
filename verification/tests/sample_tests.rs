use pqhv::sample::{cbd_from_bits, sample_cbd, sample_cbd_vec};
use rand::SeedableRng;
use rand_chacha::ChaCha20Rng;

fn test_rng() -> ChaCha20Rng {
    ChaCha20Rng::seed_from_u64(42)
}

#[test]
fn test_cbd_range_eta2() {
    let mut rng = test_rng();
    for _ in 0..10_000 {
        let s = sample_cbd(2, &mut rng);
        assert!((-2..=2).contains(&s), "CBD(2) sample {} out of range", s);
    }
}

#[test]
fn test_cbd_range_eta3() {
    let mut rng = test_rng();
    for _ in 0..10_000 {
        let s = sample_cbd(3, &mut rng);
        assert!((-3..=3).contains(&s), "CBD(3) sample {} out of range", s);
    }
}

#[test]
fn test_cbd_mean_near_zero() {
    let mut rng = test_rng();
    let n = 100_000;
    let sum: i64 = (0..n).map(|_| sample_cbd(2, &mut rng)).sum();
    let mean = sum as f64 / n as f64;
    assert!(mean.abs() < 0.05, "CBD(2) mean {} should be near zero", mean);
}

#[test]
fn test_cbd_variance_eta2() {
    let mut rng = test_rng();
    let n = 100_000;
    let samples: Vec<i64> = (0..n).map(|_| sample_cbd(2, &mut rng)).collect();
    let mean: f64 = samples.iter().sum::<i64>() as f64 / n as f64;
    let variance: f64 = samples.iter().map(|&s| (s as f64 - mean).powi(2)).sum::<f64>() / n as f64;
    assert!((variance - 1.0).abs() < 0.1, "CBD(2) variance {} should be near 1.0", variance);
}

#[test]
fn test_cbd_all_values_appear_eta2() {
    let mut rng = test_rng();
    let mut seen = [false; 5];
    for _ in 0..10_000 {
        let s = sample_cbd(2, &mut rng);
        seen[(s + 2) as usize] = true;
    }
    for (i, &s) in seen.iter().enumerate() {
        assert!(s, "CBD(2) never produced value {}", i as i64 - 2);
    }
}

#[test]
fn test_cbd_vec_length() {
    let mut rng = test_rng();
    let v = sample_cbd_vec(256, 2, &mut rng);
    assert_eq!(v.len(), 256);
}

#[test]
fn test_cbd_vec_range() {
    let mut rng = test_rng();
    let v = sample_cbd_vec(1000, 2, &mut rng);
    for &s in &v {
        assert!((-2..=2).contains(&s));
    }
}

#[test]
fn test_cbd_deterministic_with_same_seed() {
    let mut rng1 = ChaCha20Rng::seed_from_u64(99);
    let mut rng2 = ChaCha20Rng::seed_from_u64(99);
    let v1 = sample_cbd_vec(100, 2, &mut rng1);
    let v2 = sample_cbd_vec(100, 2, &mut rng2);
    assert_eq!(v1, v2);
}

#[test]
fn cbd_from_bits_counts_ones() {
    // eta = 2: low two bits count positively, the next two negatively.
    assert_eq!(cbd_from_bits(0b0000, 2), 0);
    assert_eq!(cbd_from_bits(0b0011, 2), 2);
    assert_eq!(cbd_from_bits(0b1100, 2), -2);
    assert_eq!(cbd_from_bits(0b0110, 2), 0);
    assert_eq!(cbd_from_bits(0b1001, 2), 0);
    assert_eq!(cbd_from_bits(0b0001, 2), 1);
    assert_eq!(cbd_from_bits(0xFFFF_FFF0, 2), 0);
    assert_eq!(cbd_from_bits(0b111_000, 3), -3);
    assert_eq!(cbd_from_bits(0xFFFF_FFFF, 16), 0);
    assert_eq!(cbd_from_bits(0x0000_FFFF, 16), 16);
}

#[test]
fn cbd_sampler_draws_from_the_generator() {
    // Two samplers on one stream differ from one sampler restarted.
    let mut rng = ChaCha20Rng::seed_from_u64(7);
    let a = sample_cbd_vec(64, 2, &mut rng);
    let b = sample_cbd_vec(64, 2, &mut rng);
    assert_ne!(a, b);
}
