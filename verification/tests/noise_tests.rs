use pqhv::noise::NoiseTracker;
use pqhv::params::{pqhv_test, pqhv_voting_128};

#[test]
fn test_fresh_ciphertext_is_safe() {
    let tracker = NoiseTracker::new_fresh(&pqhv_test());
    assert!(tracker.is_safe());
    assert_eq!(tracker.additions, 1);
}

#[test]
fn test_additions_accumulate() {
    let mut tracker = NoiseTracker::new_fresh(&pqhv_test());
    for _ in 0..100 {
        tracker.add(None);
    }
    assert_eq!(tracker.additions, 101);
}

#[test]
fn test_remaining_budget() {
    let tracker = NoiseTracker::new_fresh(&pqhv_voting_128());
    let remaining = tracker.remaining();
    assert!(remaining > 100_000, "Voting params should support 100K+ additions");
}

#[test]
fn test_exceeded_budget() {
    let mut tracker = NoiseTracker::new_fresh(&pqhv_test());
    let budget = pqhv_test().noise_budget();
    tracker.additions = budget + 1;
    assert!(!tracker.is_safe());
    assert_eq!(tracker.remaining(), 0);
    let utilization = tracker.additions as f64 / pqhv_test().noise_budget() as f64;
    assert!(utilization > 1.0);
}

#[test]
fn test_add_with_other_tracker() {
    let mut t1 = NoiseTracker::new_fresh(&pqhv_test());
    let mut t2 = NoiseTracker::new_fresh(&pqhv_test());
    t2.additions = 50;
    t1.add(Some(&t2));
    assert_eq!(t1.additions, 51);
}

#[test]
fn noise_remaining_exact() {
    let mut tracker = NoiseTracker::new_fresh(&pqhv_test());
    let budget = pqhv_test().noise_budget();
    assert_eq!(tracker.remaining(), budget - 1);
    tracker.additions = budget;
    assert!(tracker.is_safe());
    assert_eq!(tracker.remaining(), 0);
}
