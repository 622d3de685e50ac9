//! Module-LWE decryption: `v − sᵀ·u` carries `Δ·m` plus small noise in its
//! constant coefficient, and rounding by Δ recovers the message or the tally.

use crate::encrypt::Ciphertext;
use crate::keygen::SecretKey;
use crate::matrix::{ip_acc, shaped};
use crate::params::PqhvParams;
use crate::poly::{decode_fits, decode_tally, modulus_ok, scale_decodes, seq_reduce, seq_sub, sub_fits, Poly, PolyView};
use crate::ring::canonical;
use vstd::arithmetic::div_mod::lemma_small_mod;
use vstd::prelude::*;

verus! {

/// The inputs on which the decryption arithmetic is defined: `s` and `u`
/// have rank `k > 0` with entries of one dimension and modulus, `v` matches
/// them, and `v − sᵀ·u` does not overflow.
pub open spec fn decryptable(s: Seq<PolyView>, k: int, u: Seq<PolyView>, v: PolyView) -> bool {
    &&& k > 0
    &&& s.len() > 0
    &&& modulus_ok(s[0].q)
    &&& s[0].n >= 0
    &&& shaped(s, k, s[0].n, s[0].q)
    &&& shaped(u, k, s[0].n, s[0].q)
    &&& v.n == s[0].n
    &&& v.q == s[0].q
    &&& sub_fits(v.c, ip_acc(s, u, k))
}

/// The noisy plaintext `v − sᵀ·u`, as residues in [0, q).
pub open spec fn raw_plaintext(s: Seq<PolyView>, k: int, u: Seq<PolyView>, v: PolyView) -> Seq<int> {
    seq_sub(v.c, ip_acc(s, u, k), v.q)
}

/// The decryption arithmetic can run on this key and ciphertext.
pub open spec fn can_decrypt(sk: &SecretKey, ct: &Ciphertext) -> bool {
    &&& sk.s.k == ct.u.k
    &&& decryptable(sk.s@, sk.s.k as int, ct.u@, ct.v@)
}

/// The parameter set gives a positive encoding scale.
pub open spec fn decodes(params: &PqhvParams) -> bool {
    &&& params.plaintext_modulus_fits()
    &&& params.spec_encoding_scale() > 0
}

/// Decrypts to the raw noisy polynomial `v − sᵀ·u`, reduced to [0, q).
pub fn decrypt_raw(sk: &SecretKey, ct: &Ciphertext) -> (r: Poly)
    requires
        can_decrypt(sk, ct),
    ensures
        r.n == ct.v.n,
        r.q == ct.v.q,
        r@.c == raw_plaintext(sk.s@, sk.s.k as int, ct.u@, ct.v@),
        canonical(r@.c, ct.v@.q),
{
    let s_dot_u = sk.s.inner_product(&ct.u);
    let mut result = ct.v.sub(&s_dot_u);
    let ghost before = result@.c;
    result.reduce();
    proof {
        assert forall|d: int| 0 <= d < before.len() implies #[trigger] before[d] % ct.v@.q
            == before[d] by {
            lemma_small_mod(before[d] as nat, ct.v@.q as nat);
        }
        assert(result@.c =~= before);
    }
    result
}

proof fn lemma_decode_fits(c: int, q: int, delta: int)
    requires
        modulus_ok(q),
        0 <= c < q,
        delta <= i64::MAX,
    ensures
        decode_fits(c, q, delta),
{
}

/// Decrypts a ciphertext to a bit: the decoded count of `v − sᵀ·u` modulo 2.
pub fn decrypt(sk: &SecretKey, ct: &Ciphertext, params: &PqhvParams) -> (m: u8)
    requires
        can_decrypt(sk, ct),
        ct.v@.n >= 1,
        ct.v@.c.len() >= 1,
        params.plaintext_modulus_fits(),
        scale_decodes(
            raw_plaintext(sk.s@, sk.s.k as int, ct.u@, ct.v@)[0],
            ct.v@.q,
            params.spec_encoding_scale(),
        ),
    ensures
        m == decode_tally(
            raw_plaintext(sk.s@, sk.s.k as int, ct.u@, ct.v@)[0],
            ct.v@.q,
            params.spec_encoding_scale(),
        ) % 2,
{
    let noisy_message = decrypt_raw(sk, ct);
    proof {
        crate::matrix::lemma_ip_acc(sk.s@, ct.u@, sk.s.k as int, sk.s.k as int);
        lemma_decode_fits(noisy_message@.c[0], ct.v@.q, params.spec_encoding_scale());
        assert(noisy_message@.c.len() >= 1);
        assert(noisy_message@.c.len() == noisy_message.coeffs@.len());
    }
    noisy_message.to_message(params)
}

/// Decrypts a homomorphic tally: the decoded count of `v − sᵀ·u`.
pub fn decrypt_tally(sk: &SecretKey, ct: &Ciphertext, params: &PqhvParams) -> (count: u64)
    requires
        can_decrypt(sk, ct),
        ct.v@.n >= 1,
        ct.v@.c.len() >= 1,
        params.plaintext_modulus_fits(),
        scale_decodes(
            raw_plaintext(sk.s@, sk.s.k as int, ct.u@, ct.v@)[0],
            ct.v@.q,
            params.spec_encoding_scale(),
        ),
    ensures
        count == decode_tally(
            raw_plaintext(sk.s@, sk.s.k as int, ct.u@, ct.v@)[0],
            ct.v@.q,
            params.spec_encoding_scale(),
        ),
{
    let noisy_message = decrypt_raw(sk, ct);
    proof {
        crate::matrix::lemma_ip_acc(sk.s@, ct.u@, sk.s.k as int, sk.s.k as int);
        lemma_decode_fits(noisy_message@.c[0], ct.v@.q, params.spec_encoding_scale());
        assert(noisy_message@.c.len() >= 1);
        assert(noisy_message@.c.len() == noisy_message.coeffs@.len());
    }
    noisy_message.to_tally(params)
}

} // verus!
