//! Parameter sets of the encryption scheme: ring dimension, module rank,
//! ciphertext modulus, noise width and the number of homomorphic additions
//! that the noise budget must support.
//!
//! Messages are encoded BFV-style with the scale Δ = ⌊q / t⌋, where the
//! plaintext modulus is t = 2 · max_additions + 1. The worst-case noise of one
//! ciphertext in the constant coefficient is 2·k·n·η² + η, and N additions stay
//! decryptable while N times that noise is below Δ/2.

use crate::text::{decimal, push_decimal, push_signed_decimal, signed_decimal};
use vstd::prelude::*;

verus! {

/// Parameter set for the encryption scheme.
#[derive(Clone, Copy, Debug)]
pub struct PqhvParams {
    /// Polynomial ring dimension (must be a power of 2).
    pub n: usize,
    /// Module rank (number of polynomials per vector).
    pub k: usize,
    /// Ciphertext modulus.
    pub q: u64,
    /// Noise distribution parameter (centered binomial, CBD(eta)).
    pub eta: usize,
    /// Maximum number of homomorphic additions supported.
    pub max_additions: usize,
    /// Human-readable description of the security level.
    pub security_level: &'static str,
}

/// Voting parameter set: n = 256, k = 3, q = 2^50, η = 2, up to 100 000 additions
/// (about 128-bit post-quantum security).
pub fn pqhv_voting_128() -> (p: PqhvParams)
    ensures
        p.n == 256,
        p.k == 3,
        p.q == 1_125_899_906_842_624,
        p.eta == 2,
        p.max_additions == 100_000,
{
    PqhvParams {
        n: 256,
        k: 3,
        q: 1_125_899_906_842_624,
        eta: 2,
        max_additions: 100_000,
        security_level: "NIST Level 3 (~128-bit quantum)",
    }
}

/// Small parameter set for tests: n = 64, k = 2, q = 2^35, η = 2, up to 1 000
/// additions. Not secure.
pub fn pqhv_test() -> (p: PqhvParams)
    ensures
        p.n == 64,
        p.k == 2,
        p.q == 34_359_738_368,
        p.eta == 2,
        p.max_additions == 1_000,
{
    PqhvParams {
        n: 64,
        k: 2,
        q: 34_359_738_368,
        eta: 2,
        max_additions: 1_000,
        security_level: "TEST ONLY — NOT SECURE",
    }
}

/// A power of two: 1, 2, 4, ...
pub open spec fn is_pow2(x: nat) -> bool
    decreases x,
{
    if x == 0 {
        false
    } else if x == 1 {
        true
    } else {
        x % 2 == 0 && is_pow2(x / 2)
    }
}

/// Whether `x` is a power of two.
pub fn is_power_of_two(x: usize) -> (r: bool)
    ensures
        r == is_pow2(x as nat),
{
    let mut y = x;
    while y > 1 && y % 2 == 0
        invariant
            is_pow2(x as nat) == is_pow2(y as nat),
        decreases y,
    {
        y = y / 2;
    }
    y == 1
}

/// For a modulus that fits in an `i64`, Δ is the exact quotient ⌊q / t⌋,
/// which lies in [0, q].
pub proof fn lemma_encoding_scale_bound(p: &PqhvParams)
    requires
        p.q <= i64::MAX,
    ensures
        p.spec_encoding_scale() == p.q as int / p.spec_plaintext_modulus(),
        0 <= p.spec_encoding_scale() <= p.q,
{
    let t = p.spec_plaintext_modulus();
    assert(p.q as int / t <= p.q as int) by (nonlinear_arith)
        requires
            t >= 1,
            p.q >= 0,
    ;
    assert(p.q as int / t >= 0) by (nonlinear_arith)
        requires
            t >= 1,
            p.q >= 0,
    ;
}


/// ⌊log₂ x⌋ for x ≥ 1 (0 for x ≤ 1).
pub open spec fn floor_log2(x: nat) -> nat
    decreases x,
{
    if x < 2 {
        0
    } else {
        1 + floor_log2(x / 2)
    }
}

/// log₂ q rounded to the nearest integer, for q ≥ 1. Since ⌊2·log₂ q⌋ is
/// ⌊log₂ q²⌋, this is (⌊log₂ q²⌋ + 1) / 2 (no q lies exactly halfway).
pub open spec fn rounded_log2(q: nat) -> nat {
    ((floor_log2(q * q) + 1) / 2) as nat
}

/// The exponent shown for the modulus: `-inf` for 0, else the rounded log₂.
pub open spec fn log2_text(q: nat) -> Seq<char> {
    if q == 0 {
        "-inf"@
    } else {
        decimal(rounded_log2(q))
    }
}

/// ⌊log₂ x⌋ of a `u128`.
fn floor_log2_u128(x: u128) -> (r: u32)
    ensures
        r == floor_log2(x as nat),
        r <= 127,
{
    proof {
        lemma_floor_log2_bound(x as nat);
    }
    let mut y = x;
    let mut f: u32 = 0;
    while y >= 2
        invariant
            f + floor_log2(y as nat) == floor_log2(x as nat),
            floor_log2(x as nat) <= 127,
        decreases y,
    {
        proof {
            lemma_floor_log2_bound(y as nat);
        }
        y = y / 2;
        f = f + 1;
    }
    f
}

/// ⌊log₂ x⌋ of a number below 2^128 is at most 127.
proof fn lemma_floor_log2_bound(x: nat)
    requires
        x <= u128::MAX,
    ensures
        floor_log2(x) <= 127,
        x >= 2 ==> floor_log2(x / 2) + 1 == floor_log2(x),
{
    let p64 = vstd::arithmetic::power2::pow2(64);
    vstd::arithmetic::power2::lemma2_to64_rest();
    vstd::arithmetic::power2::lemma_pow2_adds(64, 64);
    assert(p64 == 0x1_0000_0000_0000_0000nat);
    assert(x < p64 * p64) by (nonlinear_arith)
        requires
            x <= u128::MAX,
            p64 == 0x1_0000_0000_0000_0000nat,
    ;
    lemma_floor_log2_lt(x, 128, vstd::arithmetic::power2::pow2(128));
}

/// x < 2^m gives ⌊log₂ x⌋ < m.
proof fn lemma_floor_log2_lt(x: nat, m: nat, p: nat)
    requires
        x < p,
        p == vstd::arithmetic::power2::pow2(m),
        m >= 1,
    ensures
        floor_log2(x) < m,
    decreases m,
{
    vstd::arithmetic::power2::lemma_pow2_unfold(m);
    if x >= 2 && m >= 2 {
        lemma_floor_log2_lt(x / 2, (m - 1) as nat, vstd::arithmetic::power2::pow2((m - 1) as nat));
    } else if x >= 2 {
        assert(vstd::arithmetic::power2::pow2(0) == 1) by {
            vstd::arithmetic::power2::lemma2_to64();
        }
    }
}

impl PqhvParams {
    /// t = 2 · max_additions + 1.
    pub open spec fn spec_plaintext_modulus(&self) -> int {
        2 * self.max_additions + 1
    }

    /// t fits in a `u64`.
    pub open spec fn plaintext_modulus_fits(&self) -> bool {
        self.spec_plaintext_modulus() <= u64::MAX
    }

    /// Δ = ⌊q / t⌋, as the `i64` that the scheme works with.
    pub open spec fn spec_encoding_scale(&self) -> int {
        ((self.q as int / self.spec_plaintext_modulus()) as i64) as int
    }

    /// 2·k·n·η² + η.
    pub open spec fn spec_noise_per_ciphertext(&self) -> int {
        2 * self.k * self.n * self.eta * self.eta + self.eta
    }

    /// Each partial product of 2·k·n·η² + η fits in a `u64`.
    pub open spec fn noise_fits(&self) -> bool {
        &&& 2 * self.k <= u64::MAX
        &&& 2 * self.k * self.n <= u64::MAX
        &&& 2 * self.k * self.n * self.eta <= u64::MAX
        &&& self.spec_noise_per_ciphertext() <= u64::MAX
    }

    /// The largest number N of additions with N · noise < Δ/2, that is
    /// 2·N·noise < Δ: ⌊(Δ − 1) / (2 · noise)⌋; 0 when Δ is 0 (no N
    /// qualifies), and `u64::MAX` when the noise is zero.
    pub open spec fn spec_noise_budget(&self) -> int {
        let noise = self.spec_noise_per_ciphertext();
        let delta = (self.spec_encoding_scale() as u64) as int;
        if noise == 0 {
            u64::MAX as int
        } else if delta == 0 {
            0
        } else {
            (delta - 1) / (2 * noise)
        }
    }

    /// The arithmetic of the budget computation stays within `u64`.
    pub open spec fn budget_fits(&self) -> bool {
        &&& self.plaintext_modulus_fits()
        &&& self.noise_fits()
        &&& 2 * self.spec_noise_per_ciphertext() <= u64::MAX
    }

    /// The conditions that `validate` accepts.
    pub open spec fn spec_valid(&self) -> bool {
        &&& is_pow2(self.n as nat)
        &&& self.k != 0
        &&& self.q > 1
        &&& self.spec_encoding_scale() > 0
        &&& self.spec_noise_budget() >= self.max_additions
    }

    /// The plaintext modulus t = 2 · max_additions + 1.
    pub fn plaintext_modulus(&self) -> (t: u64)
        requires
            self.plaintext_modulus_fits(),
        ensures
            t == self.spec_plaintext_modulus(),
    {
        2 * self.max_additions as u64 + 1
    }

    /// The encoding scale Δ = ⌊q / t⌋.
    pub fn encoding_scale(&self) -> (delta: i64)
        requires
            self.plaintext_modulus_fits(),
        ensures
            delta == self.spec_encoding_scale(),
    {
        let t = self.plaintext_modulus();
        (self.q / t) as i64
    }

    /// Worst-case noise of one ciphertext in the constant coefficient: 2·k·n·η² + η.
    pub fn noise_per_ciphertext(&self) -> (noise: u64)
        requires
            self.noise_fits(),
        ensures
            noise == self.spec_noise_per_ciphertext(),
    {
        let eta = self.eta as u64;
        2 * self.k as u64 * self.n as u64 * eta * eta + eta
    }

    /// Number of additions that guarantee correct decryption in the worst case.
    pub fn noise_budget(&self) -> (budget: u64)
        requires
            self.budget_fits(),
        ensures
            budget == self.spec_noise_budget(),
    {
        let delta = self.encoding_scale() as u64;
        let noise = self.noise_per_ciphertext();
        if noise == 0 {
            return u64::MAX;
        }
        if delta == 0 {
            return 0;
        }
        (delta - 1) / (2 * noise)
    }

    /// Checks that the parameter set is internally consistent. The first
    /// failing condition, in this order, gives the error.
    pub fn validate(&self) -> (r: Result<(), &'static str>)
        requires
            is_pow2(self.n as nat) && self.k != 0 && self.q > 1 ==> self.plaintext_modulus_fits(),
            is_pow2(self.n as nat) && self.k != 0 && self.q > 1 && self.spec_encoding_scale() > 0
                ==> self.budget_fits(),
        ensures
            r is Ok <==> self.spec_valid(),
            !is_pow2(self.n as nat) ==> r == Err::<(), &'static str>("n must be a power of 2"),
            is_pow2(self.n as nat) && self.k == 0 ==> r == Err::<(), &'static str>(
                "k must be >= 1",
            ),
            is_pow2(self.n as nat) && self.k != 0 && self.q <= 1 ==> r == Err::<
                (),
                &'static str,
            >("q must be > 1"),
            is_pow2(self.n as nat) && self.k != 0 && self.q > 1 && self.spec_encoding_scale() <= 0
                ==> r == Err::<(), &'static str>(
                "encoding scale must be positive (q too small for plaintext modulus)",
            ),
            is_pow2(self.n as nat) && self.k != 0 && self.q > 1 && self.spec_encoding_scale() > 0
                && self.spec_noise_budget() < self.max_additions ==> r == Err::<(), &'static str>(
                "noise budget insufficient for max_additions",
            ),
    {
        if !is_power_of_two(self.n) {
            return Err("n must be a power of 2");
        }
        if self.k == 0 {
            return Err("k must be >= 1");
        }
        if self.q <= 1 {
            return Err("q must be > 1");
        }
        if self.encoding_scale() <= 0 {
            return Err("encoding scale must be positive (q too small for plaintext modulus)");
        }
        if self.noise_budget() < self.max_additions as u64 {
            return Err("noise budget insufficient for max_additions");
        }
        Ok(())
    }

    /// The text of the parameter set: n, k, q as a rounded power of two, η,
    /// Δ, the noise budget and the security level.
    pub open spec fn spec_description(&self) -> Seq<char> {
        "PqhvParams(n="@ + decimal(self.n as nat) + ", k="@ + decimal(self.k as nat) + ", q=2^"@
            + log2_text(self.q as nat) + ", eta="@ + decimal(self.eta as nat) + ", Δ="@ + signed_decimal(
            self.spec_encoding_scale(),
        ) + ", budget="@ + decimal(self.spec_noise_budget() as nat) + ", security="@
            + self.security_level@ + ")"@
    }

    /// A human-readable description of the parameter set.
    pub fn description(&self) -> (s: String)
        requires
            self.budget_fits(),
        ensures
            s@ == self.spec_description(),
    {
        let mut s = String::from_str("PqhvParams(n=");
        push_decimal(&mut s, self.n as u64);
        s.append(", k=");
        push_decimal(&mut s, self.k as u64);
        s.append(", q=2^");
        if self.q == 0 {
            s.append("-inf");
        } else {
            let q = self.q as u128;
            assert(q * q <= u128::MAX) by (nonlinear_arith)
                requires
                    q <= u64::MAX,
            ;
            let f = floor_log2_u128(q * q);
            push_decimal(&mut s, ((f + 1) / 2) as u64);
        }
        s.append(", eta=");
        push_decimal(&mut s, self.eta as u64);
        s.append(", Δ=");
        push_signed_decimal(&mut s, self.encoding_scale());
        s.append(", budget=");
        push_decimal(&mut s, self.noise_budget());
        s.append(", security=");
        s.append(self.security_level);
        s.append(")");
        s
    }

}

} // verus!
