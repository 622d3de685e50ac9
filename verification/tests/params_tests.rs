use pqhv::params::{is_power_of_two, pqhv_test, pqhv_voting_128, PqhvParams};

#[test]
fn test_voting_params_are_valid() {
    let p = pqhv_voting_128();
    assert!(p.validate().is_ok(), "{:?}", p);
}

#[test]
fn test_test_params_are_valid() {
    let p = pqhv_test();
    assert!(p.validate().is_ok(), "{:?}", p);
}

#[test]
fn test_voting_params_noise_budget_sufficient() {
    let p = pqhv_voting_128();
    let budget = p.noise_budget();
    assert!(
        budget >= p.max_additions as u64,
        "Noise budget {} < max_additions {}. Params: {:?}",
        budget,
        p.max_additions,
        p
    );
}

#[test]
fn test_test_params_noise_budget_sufficient() {
    let p = pqhv_test();
    let budget = p.noise_budget();
    assert!(
        budget >= p.max_additions as u64,
        "Noise budget {} < max_additions {}. Params: {:?}",
        budget,
        p.max_additions,
        p
    );
}

#[test]
fn test_encoding_scale_positive() {
    assert!(pqhv_test().encoding_scale() > 0);
    assert!(pqhv_voting_128().encoding_scale() > 0);
}

#[test]
fn test_plaintext_modulus() {
    assert_eq!(pqhv_test().plaintext_modulus(), 2001);
    assert_eq!(pqhv_voting_128().plaintext_modulus(), 200_001);
}

#[test]
fn test_invalid_n_not_power_of_two() {
    let params = PqhvParams { n: 100, k: 2, q: 12289, eta: 2, max_additions: 100, security_level: "test" };
    assert_eq!(params.validate(), Err("n must be a power of 2"));
}

#[test]
fn test_invalid_k_zero() {
    let params = PqhvParams { n: 64, k: 0, q: 12289, eta: 2, max_additions: 100, security_level: "test" };
    assert_eq!(params.validate(), Err("k must be >= 1"));
}

#[test]
fn test_invalid_q_too_small() {
    let params = PqhvParams { n: 64, k: 2, q: 1, eta: 2, max_additions: 100, security_level: "test" };
    assert_eq!(params.validate(), Err("q must be > 1"));
}

#[test]
fn test_insufficient_noise_budget() {
    let params = PqhvParams { n: 256, k: 3, q: 100, eta: 2, max_additions: 100_000, security_level: "test" };
    assert!(params.validate().is_err());
}

#[test]
fn test_no_wraparound_at_max_count() {
    let v = pqhv_voting_128();
    let delta = v.encoding_scale() as u128;
    let max = v.max_additions as u128;
    let q = v.q as u128;
    assert!(max * delta < q, "max_count * Δ = {} >= q = {}", max * delta, q);

    let t = pqhv_test();
    let delta = t.encoding_scale() as u128;
    let max = t.max_additions as u128;
    let q = t.q as u128;
    assert!(max * delta < q, "max_count * Δ = {} >= q = {}", max * delta, q);
}

#[test]
fn params_encoding_scale_rejected_when_q_below_t() {
    let params = PqhvParams { n: 64, k: 2, q: 100, eta: 2, max_additions: 100, security_level: "test" };
    assert_eq!(
        params.validate(),
        Err("encoding scale must be positive (q too small for plaintext modulus)")
    );
}

#[test]
fn params_noise_budget_error_message() {
    let params = PqhvParams { n: 256, k: 3, q: 100, eta: 2, max_additions: 10, security_level: "test" };
    assert_eq!(params.validate(), Err("noise budget insufficient for max_additions"));
}

#[test]
fn params_exact_values() {
    let t = pqhv_test();
    assert_eq!(t.encoding_scale(), 34_359_738_368 / 2001);
    assert_eq!(t.noise_per_ciphertext(), 2 * 2 * 64 * 4 + 2);
    assert_eq!(t.noise_budget(), (34_359_738_368u64 / 2001 - 1) / (2 * 1026));
    let v = pqhv_voting_128();
    assert_eq!(v.noise_per_ciphertext(), 2 * 3 * 256 * 4 + 2);
    assert_eq!(v.encoding_scale(), 1_125_899_906_842_624 / 200_001);
}

#[test]
fn params_power_of_two() {
    assert!(is_power_of_two(1));
    assert!(is_power_of_two(64));
    assert!(!is_power_of_two(0));
    assert!(!is_power_of_two(100));
    assert!(!is_power_of_two(96));
}

#[test]
fn params_noise_budget_strict_below_half_scale() {
    let p = PqhvParams { n: 1, k: 1, q: 18, eta: 1, max_additions: 1, security_level: "t" };
    assert_eq!(p.encoding_scale(), 6);
    assert_eq!(p.noise_per_ciphertext(), 3);
    assert_eq!(p.noise_budget(), 0);
    assert_eq!(p.validate(), Err("noise budget insufficient for max_additions"));
    let p = PqhvParams { n: 1, k: 1, q: 21, eta: 1, max_additions: 1, security_level: "t" };
    assert_eq!(p.noise_budget(), 1);
    assert!(p.validate().is_ok());
}

#[test]
fn params_validate_early_error_with_huge_eta() {
    let p = PqhvParams { n: 3, k: 1, q: 18, eta: usize::MAX, max_additions: 1, security_level: "t" };
    assert_eq!(p.validate(), Err("n must be a power of 2"));
}

#[test]
fn test_display() {
    let s = pqhv_test().description();
    assert!(s.contains("n=64"));
    assert!(s.contains("k=2"));
}

#[test]
fn params_description_exact() {
    let p = PqhvParams { n: 1, k: 1, q: 21, eta: 1, max_additions: 1, security_level: "t" };
    assert_eq!(p.description(), "PqhvParams(n=1, k=1, q=2^4, eta=1, Δ=7, budget=1, security=t)");
    let t = pqhv_test();
    assert!(t.description().contains("q=2^35"));
    let p = PqhvParams { n: 1, k: 1, q: 0, eta: 0, max_additions: 0, security_level: "z" };
    assert!(p.description().contains("q=2^-inf"));
}

#[test]
fn law_noise_budget_strict_for_standard_sets() {
    for p in [pqhv_test(), pqhv_voting_128()] {
        let delta = p.encoding_scale() as u128;
        let noise = p.noise_per_ciphertext() as u128;
        let b = p.noise_budget() as u128;
        assert!(2 * b * noise < delta);
        assert!(delta <= 2 * (b + 1) * noise);
    }
}
