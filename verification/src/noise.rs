//! Noise budget tracking: a conservative count of the fresh ciphertexts summed
//! into a ciphertext, compared with the parameter set's noise budget.

use crate::params::PqhvParams;
use vstd::prelude::*;

verus! {

/// Counts the fresh ciphertexts summed into a ciphertext chain.
#[derive(Debug, Clone)]
pub struct NoiseTracker {
    /// Number of fresh ciphertexts that have been summed into this chain.
    pub additions: u64,
    /// The parameter set (determines the noise budget).
    pub params: PqhvParams,
}

impl NoiseTracker {
    /// A tracker for one fresh ciphertext.
    pub fn new_fresh(params: &PqhvParams) -> (t: NoiseTracker)
        ensures
            t.additions == 1,
            t.params == *params,
    {
        NoiseTracker { additions: 1, params: *params }
    }

    /// Records a homomorphic addition: of a fresh ciphertext (`None`) or of a
    /// chain tracked by `other`.
    pub fn add(&mut self, other: Option<&NoiseTracker>)
        requires
            old(self).additions + (match other {
                Some(t) => t.additions as int,
                None => 1int,
            }) <= u64::MAX,
        ensures
            final(self).additions == old(self).additions + (match other {
                Some(t) => t.additions as int,
                None => 1int,
            }),
            final(self).params == old(self).params,
    {
        match other {
            Some(t) => self.additions = self.additions + t.additions,
            None => self.additions = self.additions + 1,
        }
    }

    /// Whether the count is within the noise budget.
    pub fn is_safe(&self) -> (r: bool)
        requires
            self.params.budget_fits(),
        ensures
            r == (self.additions <= self.params.spec_noise_budget()),
    {
        self.additions <= self.params.noise_budget()
    }

    /// The additions still possible within the budget; 0 once it is exceeded.
    pub fn remaining(&self) -> (r: u64)
        requires
            self.params.budget_fits(),
        ensures
            r == (if self.additions <= self.params.spec_noise_budget() {
                self.params.spec_noise_budget() - self.additions
            } else {
                0
            }),
    {
        let budget = self.params.noise_budget();
        budget.saturating_sub(self.additions)
    }
}

} // verus!
