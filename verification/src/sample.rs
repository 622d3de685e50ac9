//! Centered binomial sampling CBD(η): draw 2η random bits, count the ones
//! among the first η and among the last η, and return the difference. For
//! η = 2 the values −2..2 come with probabilities 1/16, 4/16, 6/16, 4/16, 1/16.

use crate::rng::next_u32;
use rand_chacha::ChaCha20Rng;
use vstd::prelude::*;

verus! {

/// Number of ones among bits `start .. start + len` of `bits`.
pub open spec fn ones(bits: u32, start: nat, len: nat) -> int
    decreases len,
{
    if len == 0 {
        0
    } else {
        ones(bits, start, (len - 1) as nat) + ((bits >> ((start + len - 1) as u32)) & 1u32) as int
    }
}

/// `x` is a CBD(η) value of some 32-bit word.
pub open spec fn is_cbd(x: int, eta: nat) -> bool {
    exists|bits: u32| x == #[trigger] ones(bits, 0, eta) - ones(bits, eta, eta)
}

proof fn lemma_ones_bound(bits: u32, start: nat, len: nat)
    requires
        start + len <= 32,
    ensures
        0 <= ones(bits, start, len) <= len,
    decreases len,
{
    if len > 0 {
        lemma_ones_bound(bits, start, (len - 1) as nat);
        let s = (start + len - 1) as u32;
        assert((bits >> s) & 1u32 <= 1u32) by (bit_vector);
    }
}

/// The CBD(η) value that the random word `bits` determines: the ones among
/// bits `0 .. η` minus the ones among bits `η .. 2η`.
pub fn cbd_from_bits(bits: u32, eta: usize) -> (r: i64)
    requires
        eta <= 16,
    ensures
        r == ones(bits, 0, eta as nat) - ones(bits, eta as nat, eta as nat),
        -(eta as int) <= r <= eta,
{
    let mut a_count: i64 = 0;
    let mut b_count: i64 = 0;
    let mut j: usize = 0;
    while j < eta
        invariant
            eta <= 16,
            j <= eta,
            a_count == ones(bits, 0, j as nat),
            b_count == ones(bits, eta as nat, j as nat),
            0 <= a_count <= j,
            0 <= b_count <= j,
        decreases eta - j,
    {
        let s1 = j as u32;
        let s2 = (eta + j) as u32;
        proof {
            assert((bits >> s1) & 1u32 <= 1u32) by (bit_vector);
            assert((bits >> s2) & 1u32 <= 1u32) by (bit_vector);
        }
        a_count = a_count + ((bits >> s1) & 1) as i64;
        b_count = b_count + ((bits >> s2) & 1) as i64;
        j = j + 1;
    }
    a_count - b_count
}

/// Samples one coefficient from CBD(η): the value that a random 32-bit word
/// determines.
pub fn sample_cbd(eta: usize, rng: &mut ChaCha20Rng) -> (r: i64)
    requires
        eta <= 16,
    ensures
        -(eta as int) <= r <= eta,
        exists|bits: u32| r == #[trigger] ones(bits, 0, eta as nat) - ones(bits, eta as nat, eta as nat),
{
    let bits = next_u32(rng);
    cbd_from_bits(bits, eta)
}

/// Samples `n` coefficients from CBD(η).
pub fn sample_cbd_vec(n: usize, eta: usize, rng: &mut ChaCha20Rng) -> (v: Vec<i64>)
    requires
        eta <= 16,
    ensures
        v.len() == n,
        forall|i: int| 0 <= i < n ==> -(eta as int) <= #[trigger] v[i] <= eta,
        forall|i: int| 0 <= i < n ==> is_cbd(#[trigger] v[i] as int, eta as nat),
{
    let mut v: Vec<i64> = Vec::new();
    let mut i: usize = 0;
    while i < n
        invariant
            eta <= 16,
            i <= n,
            v.len() == i,
            forall|j: int| 0 <= j < i ==> -(eta as int) <= #[trigger] v[j] <= eta,
            forall|j: int| 0 <= j < i ==> is_cbd(#[trigger] v[j] as int, eta as nat),
        decreases n - i,
    {
        let c = sample_cbd(eta, rng);
        proof {
            assert(is_cbd(c as int, eta as nat));
        }
        v.push(c);
        i = i + 1;
    }
    v
}

} // verus!
