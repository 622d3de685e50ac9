//! Laws of the library: what every operation keeps, what one call undoes,
//! and how the scheme's operations fit together.

use crate::decrypt::{can_decrypt, decodes, decryptable, raw_plaintext};
use crate::arith::{lemma_sum_ext, lemma_sum_swap, lemma_sum_add, lemma_sum_bound_nonneg, lemma_sum_cong, lemma_sum_scale, lemma_trem, sum_to};
use crate::encrypt::{ct_within, enc_u, enc_v, encrypts, sum_u, sum_v, Ciphertext};
use crate::keygen::{keys_related, mat_vec, pk_shaped, small_vec, PublicKey, SecretKey};
use crate::linear::{lemma_ip_int_vec_add, lemma_row_masked, lemma_times_row, lemma_ip_acc_int, lemma_mod_sub2, dec_int, lemma_dec_int_add, lemma_sum_bound, enc_noise, ip_int, lemma_decode_noisy, lemma_decrypt_encryption, lemma_enc_noise, lemma_mod_add2, lemma_raw_plaintext_int};
use crate::matrix::{vec_shape, canonical_vec, ip_acc, ip_view, lemma_ip_acc, shaped, small, vec_add};
use crate::threshold::{combined_acc, combined_plaintext, share_coeff_sum, shares_sum_to, PartialDecryption, TrusteeKeyShare};
use crate::algebra::{lemma_nc_coeff_cong_left, lemma_nc_coeff_sum_left, seq_sum};
use crate::ring::nc_coeff;
use crate::params::PqhvParams;
use crate::challenge::{challenge_coeffs, challenge_run, challenge_step, ChallengeState, CHALLENGE_WEIGHT};
use crate::poly::{seq_neg, seq_sub, decode_tally, ints, message_coeffs, modulus_ok, seq_add, seq_reduce, PolyView};
use crate::disjunctive::{branch_valid, lhs_u, lhs_v, masked_response, polys_of, rhs_u, rhs_v, v_minus_message, ProofBranch};
use crate::encrypt::transpose_view;
use crate::ring::{lemma_seq_mul, mul_row_state, mul_state, nc_mul, seq_mul, within, cong};
use crate::arith::trem;
use vstd::prelude::*;

verus! {

/// With at least one addition budgeted, t ≥ 3 and so `3·Δ ≤ q`.
proof fn lemma_scale_third(params: &PqhvParams)
    requires
        modulus_ok(params.q as int),
        params.max_additions >= 1,
    ensures
        0 <= params.spec_encoding_scale(),
        3 * params.spec_encoding_scale() <= params.q,
{
    crate::params::lemma_encoding_scale_bound(params);
    let t = params.spec_plaintext_modulus();
    let q = params.q as int;
    vstd::arithmetic::div_mod::lemma_fundamental_div_mod(q, t);
    vstd::arithmetic::div_mod::lemma_mod_bound(q, t);
    let delta = q / t;
    assert(3 * delta <= q) by (nonlinear_arith)
        requires
            t >= 3,
            delta >= 0,
            q == t * delta + q % t,
            q % t >= 0,
    ;
}

/// A noise vector `e` with `b = A·s + e`, for keys that are related.
spec fn key_noise(pk: &PublicKey, s: Seq<PolyView>, params: &PqhvParams) -> Seq<PolyView> {
    let k = params.k as int;
    choose|e: Seq<PolyView>|
        small_vec(e, k, params.n as int, params.q as int, params.eta as int) && #[trigger] vec_add(mat_vec(pk.a@, s, k), e)
            == pk.b@
}

/// The centered noise in the constant coefficient of an encryption of
/// `message`, for the randomness that produced it.
spec fn cipher_noise(pk: &PublicKey, s: Seq<PolyView>, ct: &Ciphertext, message: u8, params: &PqhvParams) -> int {
    let k = params.k as int;
    let n = params.n as int;
    let q = params.q as int;
    let eta = params.eta as int;
    let (r, e1, e2) = choose|r: Seq<PolyView>, e1: Seq<PolyView>, e2: Seq<int>|
        small_vec(r, k, n, q, eta) && small_vec(e1, k, n, q, eta) && e2.len() == n && small(e2, eta, q)
            && #[trigger] enc_u(pk, k, r, e1) == ct.u@ && #[trigger] enc_v(pk, k, r, e2, message, params) == ct.v@.c;
    enc_noise(s, key_noise(pk, s, params), r, e1, e2, k, n, q, 0)
}

/// The conditions under which the scheme's noise analysis applies.
pub open spec fn noise_analysis(pk: &PublicKey, s: Seq<PolyView>, params: &PqhvParams) -> bool {
    &&& pk_shaped(pk, params)
    &&& modulus_ok(params.q as int)
    &&& params.k > 0
    &&& params.n >= 1
    &&& params.plaintext_modulus_fits()
    &&& params.max_additions >= 1
    &&& 2 * params.eta < params.q
    &&& small_vec(s, params.k as int, params.n as int, params.q as int, params.eta as int)
    &&& keys_related(pk, s, params)
}

/// `v − sᵀ·u` of an encryption of `message` is `(message & 1)·Δ` plus noise
/// of magnitude at most 2·k·n·η² + η, modulo q.
proof fn lemma_decrypt_one(pk: &PublicKey, s: Seq<PolyView>, ct: &Ciphertext, message: u8, params: &PqhvParams)
    requires
        noise_analysis(pk, s, params),
        ct.u.k == params.k,
        ct_within(ct@, params.k as int, params.n as int, params.q as int),
        encrypts(ct, pk, message, params),
    ensures
        decryptable(s, params.k as int, ct.u@, ct.v@),
        (ct.v@.c[0] - ip_int(s, ct.u@, params.k as int, params.n as int, 0)) % (params.q as int) == ((
        message & 1u8) as int * params.spec_encoding_scale() + cipher_noise(pk, s, ct, message, params)) % (
        params.q as int),
        -params.spec_noise_per_ciphertext() <= cipher_noise(pk, s, ct, message, params)
            <= params.spec_noise_per_ciphertext(),
{
    let k = params.k as int;
    let n = params.n as int;
    let q = params.q as int;
    let eta = params.eta as int;
    let delta = params.spec_encoding_scale();
    let e = key_noise(pk, s, params);
    let (r, e1, e2) = choose|r: Seq<PolyView>, e1: Seq<PolyView>, e2: Seq<int>|
        small_vec(r, k, n, q, eta) && small_vec(e1, k, n, q, eta) && e2.len() == n && small(e2, eta, q)
            && #[trigger] enc_u(pk, k, r, e1) == ct.u@ && #[trigger] enc_v(pk, k, r, e2, message, params) == ct.v@.c;
    lemma_ip_acc(s, ct.u@, k, k);
    assert(decryptable(s, k, ct.u@, ct.v@));
    lemma_decrypt_encryption(pk, s, e, r, e1, e2, message, params, 0);
    lemma_enc_noise(s, e, r, e1, e2, k, n, q, eta, 0);
    let noise = enc_noise(s, e, r, e1, e2, k, n, q, 0);
    let mc = message_coeffs(message, n, delta)[0];
    let x = ip_int(e, r, k, n, 0) + e2[0] - ip_int(s, e1, k, n, 0);
    lemma_mod_add2(mc, mc, x, noise, q);
    assert(mc == (message & 1u8) as int * delta);
}

/// Decryption inverts encryption: a ciphertext of `message` under keys with
/// `b = A·s + e` decrypts to `message & 1`, provided twice the worst-case
/// noise of one ciphertext, 2·k·n·η² + η, is below Δ.
pub proof fn law_decrypt_encrypt(pk: &PublicKey, sk: &SecretKey, ct: &Ciphertext, message: u8, params: &PqhvParams)
    requires
        sk.s.k == params.k,
        noise_analysis(pk, sk.s@, params),
        2 * params.spec_noise_per_ciphertext() < params.spec_encoding_scale(),
        ct.u.k == params.k,
        ct_within(ct@, params.k as int, params.n as int, params.q as int),
        encrypts(ct, pk, message, params),
    ensures
        can_decrypt(sk, ct),
        decodes(params),
        decode_tally(raw_plaintext(sk.s@, params.k as int, ct.u@, ct.v@)[0], params.q as int, params.spec_encoding_scale())
            % 2 == (message & 1u8) as int,
{
    let k = params.k as int;
    let n = params.n as int;
    let q = params.q as int;
    let eta = params.eta as int;
    let delta = params.spec_encoding_scale();
    lemma_decrypt_one(pk, sk.s@, ct, message, params);
    lemma_raw_plaintext_int(sk.s@, k, ct.u@, ct.v@, 0);
    let noise = cipher_noise(pk, sk.s@, ct, message, params);
    let b = (message & 1u8) as int;
    assert(0 <= b <= 1) by {
        assert((message & 1u8) <= 1u8) by (bit_vector);
    }
    lemma_scale_third(params);
    let bound = params.spec_noise_per_ciphertext();
    assert(0 <= bound) by (nonlinear_arith)
        requires
            bound == 2 * k * n * eta * eta + eta,
            k >= 0,
            n >= 0,
            eta >= 0,
    ;
    assert(0 <= b * delta <= delta) by (nonlinear_arith)
        requires
            0 <= b <= 1,
            delta >= 0,
    ;
    lemma_decode_noisy(b, noise, q, delta);
}

/// Decryption is additively homomorphic: the noisy plaintext of the sum of
/// two ciphertexts is the sum, modulo q, of their noisy plaintexts.
pub proof fn law_decrypt_add(sk: &SecretKey, a: &Ciphertext, b: &Ciphertext, sum: &Ciphertext)
    requires
        sk.s.k == a.u.k,
        a.u.k == b.u.k,
        sum.u.k == a.u.k,
        a.u.k > 0,
        sk.s@.len() > 0,
        modulus_ok(a.v@.q),
        shaped(sk.s@, a.u.k as int, a.v@.n, a.v@.q),
        ct_within(a@, a.u.k as int, a.v@.n, a.v@.q),
        ct_within(b@, a.u.k as int, a.v@.n, a.v@.q),
        ct_within(sum@, a.u.k as int, a.v@.n, a.v@.q),
        sum.u@ == vec_add(a.u@, b.u@),
        sum.v@.c == crate::poly::seq_add(a.v@.c, b.v@.c, a.v@.q),
    ensures
        can_decrypt(sk, a),
        can_decrypt(sk, b),
        can_decrypt(sk, sum),
        forall|d: int|
            0 <= d < a.v@.n ==> #[trigger] raw_plaintext(sk.s@, a.u.k as int, sum.u@, sum.v@)[d] == (raw_plaintext(
                sk.s@,
                a.u.k as int,
                a.u@,
                a.v@,
            )[d] + raw_plaintext(sk.s@, a.u.k as int, b.u@, b.v@)[d]) % a.v@.q,
{
    let k = a.u.k as int;
    let n = a.v@.n;
    let q = a.v@.q;
    let s = sk.s@;
    lemma_ip_acc(s, a.u@, k, k);
    lemma_ip_acc(s, b.u@, k, k);
    lemma_ip_acc(s, sum.u@, k, k);
    assert(can_decrypt(sk, a));
    assert(can_decrypt(sk, b));
    assert(can_decrypt(sk, sum));
    assert forall|d: int| 0 <= d < n implies #[trigger] raw_plaintext(s, k, sum.u@, sum.v@)[d] == (raw_plaintext(
        s,
        k,
        a.u@,
        a.v@,
    )[d] + raw_plaintext(s, k, b.u@, b.v@)[d]) % q by {
        lemma_raw_plaintext_int(s, k, a.u@, a.v@, d);
        lemma_raw_plaintext_int(s, k, b.u@, b.v@, d);
        lemma_raw_plaintext_int(s, k, sum.u@, sum.v@, d);
        lemma_dec_int_add(s, k, n, q, a.u@, a.v@.c, b.u@, b.v@.c, d);
        let da = dec_int(s, k, n, a.u@, a.v@.c, d);
        let db = dec_int(s, k, n, b.u@, b.v@.c, d);
        vstd::arithmetic::div_mod::lemma_add_mod_noop(da, db, q);
    }
}

/// Every running sum of ciphertexts within (−q, q) stays within (−q, q).
proof fn lemma_prefix_within(cts: Seq<Ciphertext>, i: int, k: int, n: int, q: int)
    requires
        1 <= i <= cts.len(),
        modulus_ok(q),
        forall|j: int| 0 <= j < cts.len() ==> ct_within(#[trigger] cts[j]@, k, n, q),
    ensures
        ct_within((sum_u(cts, i), PolyView { c: sum_v(cts, i), n, q }), k, n, q),
    decreases i,
{
    assert(ct_within(cts[0]@, k, n, q));
    if i > 1 {
        lemma_prefix_within(cts, i - 1, k, n, q);
        assert(ct_within(cts[i - 1]@, k, n, q));
        let a = sum_u(cts, i - 1);
        let b = cts[i - 1].u@;
        assert forall|j: int| 0 <= j < k implies (#[trigger] sum_u(cts, i)[j]).c.len() == n && crate::ring::within(
            sum_u(cts, i)[j].c,
            q,
        ) by {
            assert forall|t: int| 0 <= t < n implies -q < #[trigger] sum_u(cts, i)[j].c[t] < q by {
                lemma_trem(a[j].c[t] + b[j].c[t], q);
            }
        }
        let x = sum_v(cts, i - 1);
        let y = cts[i - 1].v@.c;
        assert forall|t: int| 0 <= t < n implies -q < #[trigger] sum_v(cts, i)[t] < q by {
            lemma_trem(x[t] + y[t], q);
        }
    }
}

/// The running sum decrypts, before reduction, to the sum of the
/// decryptions of its terms, modulo q.
proof fn lemma_dec_int_prefix(s: Seq<PolyView>, cts: Seq<Ciphertext>, i: int, k: int, n: int, q: int, d: int)
    requires
        1 <= i <= cts.len(),
        modulus_ok(q),
        0 <= d < n,
        forall|j: int| 0 <= j < cts.len() ==> ct_within(#[trigger] cts[j]@, k, n, q),
    ensures
        dec_int(s, k, n, sum_u(cts, i), sum_v(cts, i), d) % q == sum_to(
            |j: int| dec_int(s, k, n, cts[j].u@, cts[j].v@.c, d),
            i,
        ) % q,
    decreases i,
{
    let f = |j: int| dec_int(s, k, n, cts[j].u@, cts[j].v@.c, d);
    assert(ct_within(cts[0]@, k, n, q));
    if i > 1 {
        lemma_dec_int_prefix(s, cts, i - 1, k, n, q, d);
        lemma_prefix_within(cts, i - 1, k, n, q);
        assert(ct_within(cts[i - 1]@, k, n, q));
        lemma_dec_int_add(s, k, n, q, sum_u(cts, i - 1), sum_v(cts, i - 1), cts[i - 1].u@, cts[i - 1].v@.c, d);
        lemma_mod_add2(
            dec_int(s, k, n, sum_u(cts, i - 1), sum_v(cts, i - 1), d),
            sum_to(f, i - 1),
            f(i - 1),
            f(i - 1),
            q,
        );
    } else {
        assert(sum_to(f, 0) == 0);
    }
}

/// The number of 1-votes among the first `m` messages.
pub open spec fn vote_count(msgs: Seq<u8>, m: int) -> int {
    sum_to(|j: int| (msgs[j] & 1u8) as int, m)
}

/// The facts about Δ = ⌊q / t⌋ that the noise analysis uses.
proof fn lemma_scale_facts(params: &PqhvParams)
    requires
        modulus_ok(params.q as int),
    ensures
        0 <= params.spec_encoding_scale() <= params.q,
        params.spec_plaintext_modulus() * params.spec_encoding_scale() <= params.q,
{
    crate::params::lemma_encoding_scale_bound(params);
    let t = params.spec_plaintext_modulus();
    let q = params.q as int;
    vstd::arithmetic::div_mod::lemma_fundamental_div_mod(q, t);
    vstd::arithmetic::div_mod::lemma_mod_bound(q, t);
}

/// `count·Δ + x`, reduced modulo q.
pub open spec fn noisy_encoding(count: int, x: int, delta: int, q: int) -> int {
    (count * delta + x) % q
}

/// The noise of a homomorphic tally grows at most linearly: the noisy
/// plaintext of the sum of `m` encrypted votes is the count of votes whose low
/// bit is set, times Δ, plus noise of magnitude at most `m` times the
/// worst-case noise 2·k·n·η² + η of one ciphertext, modulo q.
pub proof fn law_tally_noise(
    pk: &PublicKey,
    s: Seq<PolyView>,
    cts: Seq<Ciphertext>,
    msgs: Seq<u8>,
    total: &Ciphertext,
    params: &PqhvParams,
)
    requires
        noise_analysis(pk, s, params),
        cts.len() == msgs.len(),
        1 <= cts.len(),
        forall|j: int|
            0 <= j < cts.len() ==> (#[trigger] cts[j]).u.k == params.k && ct_within(
                cts[j]@,
                params.k as int,
                params.n as int,
                params.q as int,
            ) && encrypts(&cts[j], pk, msgs[j], params),
        total.u.k == params.k,
        total.u@ == sum_u(cts, cts.len() as int),
        total.v@.c == sum_v(cts, cts.len() as int),
        ct_within(total@, params.k as int, params.n as int, params.q as int),
    ensures
        decryptable(s, params.k as int, total.u@, total.v@),
        0 <= vote_count(msgs, msgs.len() as int) <= msgs.len(),
        exists|x: int|
            -(cts.len() * params.spec_noise_per_ciphertext()) <= x <= cts.len() * params.spec_noise_per_ciphertext()
                && raw_plaintext(s, params.k as int, total.u@, total.v@)[0] == #[trigger] noisy_encoding(
                vote_count(msgs, msgs.len() as int),
                x,
                params.spec_encoding_scale(),
                params.q as int,
            ),
{
    let k = params.k as int;
    let n = params.n as int;
    let q = params.q as int;
    let delta = params.spec_encoding_scale();
    let m = cts.len() as int;
    let big_n = params.spec_noise_per_ciphertext();
    lemma_ip_acc(s, total.u@, k, k);
    assert(decryptable(s, k, total.u@, total.v@));
    lemma_raw_plaintext_int(s, k, total.u@, total.v@, 0);
    assert forall|j: int| 0 <= j < m implies ct_within(#[trigger] cts[j]@, k, n, q) by {}
    lemma_dec_int_prefix(s, cts, m, k, n, q, 0);
    let decs = |j: int| dec_int(s, k, n, cts[j].u@, cts[j].v@.c, 0);
    let bits = |j: int| (msgs[j] & 1u8) as int;
    let noises = |j: int| cipher_noise(pk, s, &cts[j], msgs[j], params);
    let terms = |j: int| delta * bits(j) + noises(j);
    assert forall|j: int|
        #![trigger decs(j)]
        #![trigger bits(j)]
        #![trigger noises(j)]
        0 <= j < m implies decs(j) % q == terms(j) % q && 0 <= bits(j) <= 1 && -big_n <= noises(j) <= big_n by {
        lemma_decrypt_one(pk, s, &cts[j], msgs[j], params);
        let mj = msgs[j];
        assert((mj & 1u8) <= 1u8) by (bit_vector);
        assert(bits(j) * delta == delta * bits(j)) by (nonlinear_arith);
    }
    lemma_sum_cong(decs, terms, m, q);
    lemma_sum_scale(bits, delta, m);
    lemma_sum_add(|j: int| delta * bits(j), noises, m);
    assert(terms =~= (|j: int| (|j: int| delta * bits(j))(j) + noises(j)));
    lemma_sum_bound(noises, m, big_n);
    lemma_sum_bound_nonneg(bits, m, 1);
    let count = sum_to(bits, m);
    let x = sum_to(noises, m);
    assert(count == vote_count(msgs, m));
    assert(dec_int(s, k, n, total.u@, total.v@.c, 0) == dec_int(s, k, n, sum_u(cts, m), sum_v(cts, m), 0));
    assert(count * delta == delta * count) by (nonlinear_arith);
    assert(raw_plaintext(s, k, total.u@, total.v@)[0] == noisy_encoding(count, x, delta, q));
}

/// With the tally's noise below Δ/2, rounding gives the number of 1-votes.
proof fn lemma_tally_decodes(
    pk: &PublicKey,
    s: Seq<PolyView>,
    cts: Seq<Ciphertext>,
    msgs: Seq<u8>,
    total: &Ciphertext,
    params: &PqhvParams,
)
    requires
        noise_analysis(pk, s, params),
        cts.len() == msgs.len(),
        1 <= cts.len() <= params.max_additions,
        2 * cts.len() * params.spec_noise_per_ciphertext() < params.spec_encoding_scale(),
        forall|j: int|
            0 <= j < cts.len() ==> (#[trigger] cts[j]).u.k == params.k && ct_within(
                cts[j]@,
                params.k as int,
                params.n as int,
                params.q as int,
            ) && encrypts(&cts[j], pk, msgs[j], params),
        total.u.k == params.k,
        total.u@ == sum_u(cts, cts.len() as int),
        total.v@.c == sum_v(cts, cts.len() as int),
        ct_within(total@, params.k as int, params.n as int, params.q as int),
    ensures
        decryptable(s, params.k as int, total.u@, total.v@),
        decodes(params),
        decode_tally(raw_plaintext(s, params.k as int, total.u@, total.v@)[0], params.q as int, params.spec_encoding_scale())
            == vote_count(msgs, msgs.len() as int),
{
    let k = params.k as int;
    let n = params.n as int;
    let q = params.q as int;
    let eta = params.eta as int;
    let delta = params.spec_encoding_scale();
    let m = cts.len() as int;
    let big_n = params.spec_noise_per_ciphertext();
    law_tally_noise(pk, s, cts, msgs, total, params);
    let count = vote_count(msgs, m);
    let raw0 = raw_plaintext(s, k, total.u@, total.v@)[0];
    let x = choose|x: int| -(m * big_n) <= x <= m * big_n && raw_plaintext(s, k, total.u@, total.v@)[0]
        == #[trigger] noisy_encoding(count, x, delta, q);
    lemma_scale_facts(params);
    let t = params.spec_plaintext_modulus();
    assert(0 <= big_n) by (nonlinear_arith)
        requires
            big_n == 2 * k * n * eta * eta + eta,
            k >= 0,
            n >= 0,
            eta >= 0,
    ;
    assert(2 * (m * big_n) < delta) by (nonlinear_arith)
        requires
            2 * m * big_n < delta,
    ;
    assert(2 * (count * delta + x) <= q) by (nonlinear_arith)
        requires
            0 <= count <= m,
            m <= params.max_additions,
            t == 2 * params.max_additions + 1,
            t * delta <= q,
            delta >= 0,
            x <= m * big_n,
            2 * (m * big_n) < delta,
    ;
    assert(count * delta >= 0) by (nonlinear_arith)
        requires
            count >= 0,
            delta >= 0,
    ;
    lemma_decode_noisy(count, x, q, delta);
}

/// The homomorphic tally decrypts to the number of 1-votes: the sum of
/// `m ≤ max_additions` encrypted votes decodes to the count of votes whose
/// low bit is set, provided `2·m` times the worst-case noise of one
/// ciphertext is below Δ.
pub proof fn law_decrypt_tally(
    pk: &PublicKey,
    sk: &SecretKey,
    cts: Seq<Ciphertext>,
    msgs: Seq<u8>,
    total: &Ciphertext,
    params: &PqhvParams,
)
    requires
        sk.s.k == params.k,
        noise_analysis(pk, sk.s@, params),
        cts.len() == msgs.len(),
        1 <= cts.len() <= params.max_additions,
        2 * cts.len() * params.spec_noise_per_ciphertext() < params.spec_encoding_scale(),
        forall|j: int|
            0 <= j < cts.len() ==> (#[trigger] cts[j]).u.k == params.k && ct_within(
                cts[j]@,
                params.k as int,
                params.n as int,
                params.q as int,
            ) && encrypts(&cts[j], pk, msgs[j], params),
        total.u.k == params.k,
        total.u@ == sum_u(cts, cts.len() as int),
        total.v@.c == sum_v(cts, cts.len() as int),
        ct_within(total@, params.k as int, params.n as int, params.q as int),
    ensures
        can_decrypt(sk, total),
        decodes(params),
        decode_tally(raw_plaintext(sk.s@, params.k as int, total.u@, total.v@)[0], params.q as int, params.spec_encoding_scale())
            == vote_count(msgs, msgs.len() as int),
{
    lemma_tally_decodes(pk, sk.s@, cts, msgs, total, params);
}

/// The shares of a threshold key: `t` vectors of rank `k` with canonical
/// entries, and the partial decryptions of `ct` made from them in order.
pub open spec fn partials_of(
    shares: Seq<TrusteeKeyShare>,
    ps: Seq<PartialDecryption>,
    ct: &Ciphertext,
    params: &PqhvParams,
) -> bool {
    let k = params.k as int;
    &&& ps.len() >= shares.len()
    &&& forall|i: int|
        0 <= i < shares.len() ==> (#[trigger] shares[i]).share@.len() == k && canonical_vec(
            shares[i].share@,
            k,
            params.n as int,
            params.q as int,
        ) && ps[i].value@ == ip_view(shares[i].share@, ct.u@, k)
}

/// The running sum of partial decryptions agrees modulo q with the sum of
/// the shares' products with `u`.
proof fn lemma_combined_acc(
    shares: Seq<TrusteeKeyShare>,
    ps: Seq<PartialDecryption>,
    ct: &Ciphertext,
    params: &PqhvParams,
    i: int,
)
    requires
        0 <= i <= shares.len(),
        partials_of(shares, ps, ct, params),
        modulus_ok(params.q as int),
        params.k > 0,
        shaped(ct.u@, params.k as int, params.n as int, params.q as int),
    ensures
        combined_acc(ps, i, params.n as int, params.q as int).len() == params.n,
        forall|d: int|
            0 <= d < params.n ==> #[trigger] combined_acc(ps, i, params.n as int, params.q as int)[d] % (params.q as int)
                == sum_to(|j: int| ip_int(shares[j].share@, ct.u@, params.k as int, params.n as int, d), i) % (
            params.q as int),
    decreases i,
{
    let k = params.k as int;
    let n = params.n as int;
    let q = params.q as int;
    if i > 0 {
        lemma_combined_acc(shares, ps, ct, params, i - 1);
        let sh = shares[i - 1].share@;
        assert(canonical_vec(sh, k, n, q));
        lemma_ip_acc(sh, ct.u@, k, k);
        lemma_ip_acc_int(sh, ct.u@, k, k);
        assert forall|d: int| 0 <= d < n implies #[trigger] combined_acc(ps, i, n, q)[d] % q == sum_to(
            |j: int| ip_int(shares[j].share@, ct.u@, k, n, d),
            i,
        ) % q by {
            let a = combined_acc(ps, i - 1, n, q)[d];
            let b = ps[i - 1].value@.c[d];
            lemma_trem(a + b, q);
            lemma_mod_add2(
                a,
                sum_to(|j: int| ip_int(shares[j].share@, ct.u@, k, n, d), i - 1),
                b,
                ip_int(sh, ct.u@, k, n, d),
                q,
            );
            vstd::arithmetic::div_mod::lemma_add_mod_noop(a, b, q);
        }
    } else {
        assert forall|d: int| 0 <= d < n implies #[trigger] combined_acc(ps, i, n, q)[d] % q == sum_to(
            |j: int| ip_int(shares[j].share@, ct.u@, k, n, d),
            i,
        ) % q by {
            assert(combined_acc(ps, i, n, q)[d] == 0);
        }
    }
}

/// The sum of the shares' products with `u` is the product of their sum,
/// which is the secret, with `u`, modulo q.
proof fn lemma_shares_dot_u(
    shares: Seq<TrusteeKeyShare>,
    ps: Seq<PartialDecryption>,
    s: Seq<PolyView>,
    ct: &Ciphertext,
    params: &PqhvParams,
    d: int,
)
    requires
        shares.len() >= 1,
        partials_of(shares, ps, ct, params),
        shares_sum_to(shares, s, params),
        modulus_ok(params.q as int),
        params.k > 0,
        0 <= d < params.n,
    ensures
        sum_to(|j: int| ip_int(shares[j].share@, ct.u@, params.k as int, params.n as int, d), shares.len() as int) % (
        params.q as int) == ip_int(s, ct.u@, params.k as int, params.n as int, d) % (params.q as int),
{
    let k = params.k as int;
    let n = params.n as int;
    let q = params.q as int;
    let t = shares.len() as int;
    let u = ct.u@;
    let g = |j: int, p: int| nc_coeff(shares[j].share@[p].c, u[p].c, n, d);
    lemma_sum_swap(g, t, k);
    let l1 = |j: int| ip_int(shares[j].share@, u, k, n, d);
    let l2 = |j: int| sum_to(|p: int| g(j, p), k);
    assert forall|j: int| #[trigger] l1(j) == l2(j) by {
        assert((|p: int| nc_coeff(shares[j].share@[p].c, u[p].c, n, d)) =~= (|p: int| g(j, p)));
    }
    assert(l1 =~= l2);
    let r1 = |p: int| sum_to(|j: int| g(j, p), t);
    let r2 = |p: int| nc_coeff(s[p].c, u[p].c, n, d);
    assert forall|p: int| 0 <= p < k implies #[trigger] r1(p) % q == r2(p) % q by {
        let f = |j: int| shares[j].share@[p].c;
        lemma_nc_coeff_sum_left(f, t, u[p].c, n, d);
        assert((|j: int| nc_coeff(f(j), u[p].c, n, d)) =~= (|j: int| g(j, p)));
        assert forall|x: int| 0 <= x < n implies #[trigger] seq_sum(f, t, n)[x] % q == s[p].c[x] % q by {
            assert(share_coeff_sum(shares, t, p, x) % q == s[p].c[x] % q);
            assert((|j: int| f(j)[x]) =~= (|i: int| shares[i].share@[p].c[x]));
        }
        lemma_nc_coeff_cong_left(seq_sum(f, t, n), s[p].c, u[p].c, n, d, q);
    }
    crate::arith::lemma_sum_cong(r1, r2, k, q);
    assert(r2 =~= (|j: int| nc_coeff(s[j].c, u[j].c, n, d)));
}

/// Threshold decryption agrees with decryption under the combined key: when
/// the shares add up to `s` modulo q, combining the partial decryptions of all
/// of them gives the same noisy plaintext as decrypting with `s`.
pub proof fn law_threshold_combine(
    shares: Seq<TrusteeKeyShare>,
    ps: Seq<PartialDecryption>,
    s: Seq<PolyView>,
    ct: &Ciphertext,
    params: &PqhvParams,
)
    requires
        shares.len() >= 1,
        partials_of(shares, ps, ct, params),
        shares_sum_to(shares, s, params),
        modulus_ok(params.q as int),
        params.k > 0,
        params.n >= 1,
        s.len() == params.k,
        shaped(s, params.k as int, params.n as int, params.q as int),
        ct.u.k == params.k,
        ct_within(ct@, params.k as int, params.n as int, params.q as int),
    ensures
        forall|d: int|
            0 <= d < params.n ==> #[trigger] combined_plaintext(ps, shares.len() as int, ct.v@.c, params)[d]
                == raw_plaintext(s, params.k as int, ct.u@, ct.v@)[d],
{
    let k = params.k as int;
    let n = params.n as int;
    let q = params.q as int;
    let t = shares.len() as int;
    lemma_combined_acc(shares, ps, ct, params, t);
    lemma_ip_acc(s, ct.u@, k, k);
    assert forall|d: int| 0 <= d < n implies #[trigger] combined_plaintext(ps, t, ct.v@.c, params)[d] == raw_plaintext(
        s,
        k,
        ct.u@,
        ct.v@,
    )[d] by {
        lemma_shares_dot_u(shares, ps, s, ct, params, d);
        lemma_raw_plaintext_int(s, k, ct.u@, ct.v@, d);
        let acc = combined_acc(ps, t, n, q)[d];
        vstd::arithmetic::div_mod::lemma_mod_twice(acc, q);
        lemma_mod_sub2(ct.v@.c[d], ct.v@.c[d], acc % q, ip_int(s, ct.u@, k, n, d), q);
    }
}

/// Coefficient `d` of the partial values in `ps`, summed as integers.
pub open spec fn partial_sum(ps: Seq<PartialDecryption>, d: int) -> int {
    ps.fold_left(0int, |acc: int, p: PartialDecryption| acc + p.value@.c[d])
}

/// The running sum of the first `i` partial values is, modulo q, their
/// integer sum.
proof fn lemma_combined_acc_sum(ps: Seq<PartialDecryption>, i: int, n: int, q: int)
    requires
        0 <= i <= ps.len(),
        q > 0,
        n >= 0,
        forall|j: int| 0 <= j < i ==> (#[trigger] ps[j]).value@.c.len() == n,
    ensures
        combined_acc(ps, i, n, q).len() == n,
        forall|d: int|
            0 <= d < n ==> #[trigger] combined_acc(ps, i, n, q)[d] % q == partial_sum(ps.take(i), d) % q,
    decreases i,
{
    if i > 0 {
        lemma_combined_acc_sum(ps, i - 1, n, q);
        assert(ps.take(i).drop_last() =~= ps.take(i - 1));
        assert(ps[i - 1].value@.c.len() == n);
        assert forall|d: int| 0 <= d < n implies #[trigger] combined_acc(ps, i, n, q)[d] % q == partial_sum(
            ps.take(i),
            d,
        ) % q by {
            let a = combined_acc(ps, i - 1, n, q)[d];
            let b = ps[i - 1].value@.c[d];
            lemma_trem(a + b, q);
            assert(partial_sum(ps.take(i), d) == partial_sum(ps.take(i - 1), d) + b);
            lemma_mod_add2(a, partial_sum(ps.take(i - 1), d), b, b, q);
        }
    } else {
        assert forall|d: int| 0 <= d < n implies #[trigger] combined_acc(ps, i, n, q)[d] % q == partial_sum(
            ps.take(i),
            d,
        ) % q by {
            assert(ps.take(i).len() == 0);
        }
    }
}

/// Combining does not depend on the order of the partial decryptions: two
/// lists whose first `t` entries are the same partial decryptions, in any
/// order, give the same noisy plaintext.
pub proof fn law_combine_order(
    ps1: Seq<PartialDecryption>,
    ps2: Seq<PartialDecryption>,
    t: int,
    v: Seq<int>,
    params: &PqhvParams,
)
    requires
        modulus_ok(params.q as int),
        0 <= t <= ps1.len(),
        t <= ps2.len(),
        ps1.take(t).to_multiset() == ps2.take(t).to_multiset(),
        forall|j: int| 0 <= j < t ==> (#[trigger] ps1[j]).value@.c.len() == params.n,
    ensures
        combined_plaintext(ps1, t, v, params) == combined_plaintext(ps2, t, v, params),
{
    broadcast use vstd::seq_lib::group_to_multiset_ensures;

    let n = params.n as int;
    let q = params.q as int;
    assert forall|j: int| 0 <= j < t implies (#[trigger] ps2[j]).value@.c.len() == n by {
        assert(ps2.take(t)[j] == ps2[j]);
        assert(ps2.take(t).contains(ps2[j]));
        assert(ps1.take(t).to_multiset().count(ps2[j]) > 0);
        assert(ps1.take(t).contains(ps2[j]));
        let i = choose|i: int| 0 <= i < ps1.take(t).len() && ps1.take(t)[i] == ps2[j];
        assert(ps1[i] == ps2[j]);
    }
    lemma_combined_acc_sum(ps1, t, n, q);
    lemma_combined_acc_sum(ps2, t, n, q);
    assert forall|d: int| 0 <= d < n implies #[trigger] seq_reduce(combined_acc(ps1, t, n, q), q)[d] == seq_reduce(
        combined_acc(ps2, t, n, q),
        q,
    )[d] by {
        let f = |acc: int, p: PartialDecryption| acc + p.value@.c[d];
        assert(vstd::seq_lib::commutative_foldl(f));
        vstd::seq_lib::lemma_fold_left_permutation(ps1.take(t), ps2.take(t), f, 0int);
        assert(partial_sum(ps1.take(t), d) == ps1.take(t).fold_left(0int, f));
        assert(partial_sum(ps2.take(t), d) == ps2.take(t).fold_left(0int, f));
    }
    assert(seq_reduce(combined_acc(ps1, t, n, q), q) =~= seq_reduce(combined_acc(ps2, t, n, q), q));
}

/// The honest branch of a ballot proof is complete: a commitment made from
/// any masks `(y, f1, f2)` as `(Aᵀ·y + f1, bᵀ·y + f2)`, answered for any
/// challenge `c` with `(y + c·r, f1 + c·e1, f2 + c·e2)`, where `(r, e1, e2)`
/// is any witness with `u ≡ Aᵀ·r + e1` and `v ≡ bᵀ·r + e2 + Δ·m` modulo q,
/// passes both checks.
pub proof fn law_honest_branch_valid(
    pk: &PublicKey,
    ct: &Ciphertext,
    branch: ProofBranch,
    message: u8,
    params: &PqhvParams,
    r: Seq<PolyView>,
    e1: Seq<PolyView>,
    e2: Seq<int>,
    y: Seq<PolyView>,
    f1: Seq<PolyView>,
    f2: Seq<int>,
)
    requires
        pk_shaped(pk, params),
        modulus_ok(params.q as int),
        params.k > 0,
        params.n >= 1,
        vec_shape(r, params.k as int, params.n as int, params.q as int),
        vec_shape(e1, params.k as int, params.n as int, params.q as int),
        e2.len() == params.n,
        vec_shape(y, params.k as int, params.n as int, params.q as int),
        vec_shape(f1, params.k as int, params.n as int, params.q as int),
        f2.len() == params.n,
        crate::encrypt::encrypts_mod_q(ct, pk, r, e1, e2, message, params),
        branch.commitment_u@.len() == params.k,
        forall|i: int|
            0 <= i < params.k ==> ints(#[trigger] branch.commitment_u@[i]@) == enc_u(pk, params.k as int, y, f1)[i].c,
        ints(branch.commitment_v@) == seq_add(ip_acc(pk.b@, y, params.k as int), f2, params.q as int),
        branch.challenge@.len() >= params.n,
        polys_of(branch.response_r@, params.n as int, params.q as int) == masked_response(
            y,
            PolyView { c: ints(branch.challenge@), n: params.n as int, q: params.q as int },
            r,
            params.k as int,
        ),
        polys_of(branch.response_e1@, params.n as int, params.q as int) == masked_response(
            f1,
            PolyView { c: ints(branch.challenge@), n: params.n as int, q: params.q as int },
            e1,
            params.k as int,
        ),
        ints(branch.response_e2@) == seq_add(
            f2,
            seq_mul(ints(branch.challenge@), e2, params.n as int, params.q as int),
            params.q as int,
        ),
    ensures
        branch_valid(pk, ct, branch, message, params),
{
    let k = params.k as int;
    let n = params.n as int;
    let q = params.q as int;
    let c = ints(branch.challenge@);
    let a = pk.a@;
    let t = transpose_view(a, k);
    let zr = polys_of(branch.response_r@, n, q);
    let ze1 = polys_of(branch.response_e1@, n, q);
    let wu = enc_u(pk, k, y, f1);
    assert forall|j: int| 0 <= j < k implies (#[trigger] zr[j]).c.len() == n && ze1[j].c.len() == n by {
        lemma_seq_mul(c, r[j].c, n, q);
        lemma_seq_mul(c, e1[j].c, n, q);
    }
    assert(shaped(zr, k, n, q));
    assert forall|i: int| 0 <= i < branch.commitment_u@.len() implies seq_reduce(#[trigger] lhs_u(pk, branch, params)[i].c, q)
        == seq_reduce(rhs_u(ct, branch, params, i), q) by {
        assert(shaped(t[i], k, n, q));
        assert(t[i][0] == a[0][i]);
        let l = lhs_u(pk, branch, params)[i].c;
        let rr = rhs_u(ct, branch, params, i);
        lemma_ip_acc(t[i], zr, k, k);
        lemma_ip_acc(t[i], y, k, k);
        lemma_ip_acc(t[i], r, k, k);
        lemma_ip_acc_int(t[i], zr, k, k);
        lemma_ip_acc_int(t[i], y, k, k);
        lemma_seq_mul(c, e1[i].c, n, q);
        lemma_seq_mul(c, ct.u@[i].c, n, q);
        assert(l.len() == n);
        assert(rr.len() == n);
        assert forall|d: int| 0 <= d < n implies #[trigger] l[d] % q == rr[d] % q by {
            let sum_cr = sum_to(|j: int| crate::ring::nc_coeff(c, nc_mul(t[i][j].c, r[j].c, n), n, d), k);
            lemma_row_masked(t[i], y, r, c, k, n, q, d);
            lemma_times_row(c, t[i], r, e1[i].c, k, n, q, d);
            let x1 = ip_acc(t[i], zr, k)[d];
            let x2 = ze1[i].c[d];
            lemma_trem(x1 + x2, q);
            let ce1 = seq_mul(c, e1[i].c, n, q)[d];
            lemma_trem(f1[i].c[d] + ce1, q);
            let ip_y = crate::linear::ip_int(t[i], y, k, n, d);
            let nce1 = crate::ring::nc_coeff(c, e1[i].c, n, d);
            lemma_mod_add2(f1[i].c[d], f1[i].c[d], ce1, nce1, q);
            lemma_mod_add2(x1, ip_y + sum_cr, x2, f1[i].c[d] + nce1, q);
            let w = wu[i].c[d];
            let cu = seq_mul(c, ct.u@[i].c, n, q)[d];
            let eu = enc_u(pk, k, r, e1)[i].c;
            assert(cong(ct.u@[i].c, eu, n, q));
            crate::algebra::lemma_nc_coeff_cong_right(c, ct.u@[i].c, eu, n, d, q);
            assert(cu % q == nc_mul(c, ct.u@[i].c, n)[d] % q);
            assert(nc_coeff(c, eu, n, d) % q == (sum_cr + nce1) % q);
            lemma_trem(w + cu, q);
            lemma_trem(ip_acc(t[i], y, k)[d] + f1[i].c[d], q);
            lemma_mod_add2(ip_acc(t[i], y, k)[d], ip_y, f1[i].c[d], f1[i].c[d], q);
            lemma_mod_add2(w, ip_y + f1[i].c[d], cu, sum_cr + nce1, q);
        }
        assert(seq_reduce(l, q) =~= seq_reduce(rr, q));
    }
    let b = pk.b@;
    let l = lhs_v(pk, branch, params);
    let rr = rhs_v(ct, branch, message, params);
    let vm = v_minus_message(ct, message, params);
    let wv = seq_add(ip_acc(b, r, k), e2, q);
    let mc = message_coeffs(message, n, params.spec_encoding_scale());
    lemma_ip_acc(b, zr, k, k);
    lemma_ip_acc(b, y, k, k);
    lemma_ip_acc(b, r, k, k);
    lemma_ip_acc_int(b, zr, k, k);
    lemma_ip_acc_int(b, y, k, k);
    lemma_seq_mul(c, e2, n, q);
    lemma_seq_mul(c, vm, n, q);
    assert(l.len() == n);
    assert(rr.len() == n);
    assert forall|d: int| 0 <= d < n implies vm[d] % q == #[trigger] wv[d] % q by {
        let z = ip_acc(b, r, k)[d];
        lemma_trem(z + e2[d], q);
        let s1 = seq_add(ip_acc(b, r, k), e2, q)[d];
        lemma_trem(s1 + mc[d], q);
        let vd = ct.v@.c[d];
        assert(vd % q == enc_v(pk, k, r, e2, message, params)[d] % q);
        lemma_mod_sub2(vd, s1 + mc[d], mc[d], mc[d], q);
        vstd::arithmetic::div_mod::lemma_mod_twice(vd - mc[d], q);
    }
    assert forall|d: int| 0 <= d < n implies #[trigger] l[d] % q == rr[d] % q by {
        let sum_cr = sum_to(|j: int| crate::ring::nc_coeff(c, nc_mul(b[j].c, r[j].c, n), n, d), k);
        lemma_row_masked(b, y, r, c, k, n, q, d);
        lemma_times_row(c, b, r, e2, k, n, q, d);
        crate::algebra::lemma_nc_coeff_cong_right(c, vm, wv, n, d, q);
        let x1 = ip_acc(b, zr, k)[d];
        let x2 = ints(branch.response_e2@)[d];
        lemma_trem(x1 + x2, q);
        let ce2 = seq_mul(c, e2, n, q)[d];
        lemma_trem(f2[d] + ce2, q);
        let ip_y = crate::linear::ip_int(b, y, k, n, d);
        let nce2 = crate::ring::nc_coeff(c, e2, n, d);
        lemma_mod_add2(f2[d], f2[d], ce2, nce2, q);
        lemma_mod_add2(x1, ip_y + sum_cr, x2, f2[d] + nce2, q);
        let w = ints(branch.commitment_v@)[d];
        let cv = seq_mul(c, vm, n, q)[d];
        lemma_trem(w + cv, q);
        lemma_trem(ip_acc(b, y, k)[d] + f2[d], q);
        lemma_mod_add2(ip_acc(b, y, k)[d], ip_y, f2[d], f2[d], q);
        lemma_mod_add2(w, ip_y + f2[d], cv, sum_cr + nce2, q);
    }
    assert(seq_reduce(l, q) =~= seq_reduce(rr, q));
}

/// Polynomial addition is commutative.
pub proof fn law_poly_add_commutative(a: Seq<int>, b: Seq<int>, q: int)
    ensures
        seq_add(a, b, q) == seq_add(b, a, q),
{
    assert(seq_add(a, b, q) =~= seq_add(b, a, q));
}

/// Polynomial addition is associative once the results are reduced to [0, q).
pub proof fn law_poly_add_associative(a: Seq<int>, b: Seq<int>, c: Seq<int>, q: int)
    requires
        q > 0,
    ensures
        seq_reduce(seq_add(seq_add(a, b, q), c, q), q) == seq_reduce(seq_add(a, seq_add(b, c, q), q), q),
{
    let l = seq_reduce(seq_add(seq_add(a, b, q), c, q), q);
    let r = seq_reduce(seq_add(a, seq_add(b, c, q), q), q);
    assert forall|d: int| 0 <= d < l.len() implies #[trigger] l[d] == r[d] by {
        lemma_trem(a[d] + b[d], q);
        lemma_trem(b[d] + c[d], q);
        lemma_trem(trem(a[d] + b[d], q) + c[d], q);
        lemma_trem(a[d] + trem(b[d] + c[d], q), q);
        lemma_mod_add2(trem(a[d] + b[d], q), a[d] + b[d], c[d], c[d], q);
        lemma_mod_add2(a[d], a[d], trem(b[d] + c[d], q), b[d] + c[d], q);
    }
    assert(l =~= r);
}

/// The zero polynomial is neutral for addition on coefficients within (−q, q).
pub proof fn law_poly_add_zero(a: Seq<int>, q: int)
    requires
        q > 0,
        within(a, q),
    ensures
        seq_add(a, Seq::new(a.len(), |i: int| 0int), q) == a,
{
    let z = Seq::new(a.len(), |i: int| 0int);
    assert forall|d: int| 0 <= d < a.len() implies #[trigger] seq_add(a, z, q)[d] == a[d] by {
        lemma_trem(a[d], q);
    }
    assert(seq_add(a, z, q) =~= a);
}

/// A polynomial plus its negation is zero once reduced.
pub proof fn law_poly_add_neg(a: Seq<int>, q: int)
    requires
        q > 0,
    ensures
        seq_reduce(seq_add(a, seq_neg(a, q), q), q) == Seq::new(a.len(), |i: int| 0int),
{
    let l = seq_reduce(seq_add(a, seq_neg(a, q), q), q);
    assert forall|d: int| 0 <= d < a.len() implies #[trigger] l[d] == 0 by {
        let x = a[d];
        let y = seq_neg(a, q)[d];
        lemma_trem(x + y, q);
        vstd::arithmetic::div_mod::lemma_small_mod(0, q as nat);
        if x != 0 {
            lemma_trem(x, q);
            let t = trem(x, q);
            vstd::arithmetic::div_mod::lemma_mod_add_multiples_vanish(x - t, q);
            lemma_mod_sub2(x, t, t, t, q);
        }
    }
    assert(l =~= Seq::new(a.len(), |i: int| 0int));
}

/// Subtracting `b` and adding it back gives `a` again, once reduced.
pub proof fn law_poly_sub_add(a: Seq<int>, b: Seq<int>, q: int)
    requires
        modulus_ok(q),
        a.len() <= b.len(),
    ensures
        seq_reduce(seq_add(seq_sub(a, b, q), b, q), q) == seq_reduce(a, q),
{
    let l = seq_reduce(seq_add(seq_sub(a, b, q), b, q), q);
    assert forall|d: int| 0 <= d < a.len() implies #[trigger] l[d] == a[d] % q by {
        let s = (a[d] - b[d]) % q;
        lemma_trem(s + b[d], q);
        vstd::arithmetic::div_mod::lemma_mod_twice(a[d] - b[d], q);
        lemma_mod_add2(s, a[d] - b[d], b[d], b[d], q);
    }
    assert(l =~= seq_reduce(a, q));
}

/// Polynomial multiplication is commutative once the results are reduced.
pub proof fn law_poly_mul_commutative(a: Seq<int>, b: Seq<int>, n: int, q: int)
    requires
        q > 0,
        n >= 0,
        a.len() >= n,
        b.len() >= n,
    ensures
        seq_reduce(seq_mul(a, b, n, q), q) == seq_reduce(seq_mul(b, a, n, q), q),
{
    lemma_seq_mul(a, b, n, q);
    lemma_seq_mul(b, a, n, q);
    assert forall|d: int| 0 <= d < n implies #[trigger] seq_reduce(seq_mul(a, b, n, q), q)[d] == seq_reduce(
        seq_mul(b, a, n, q),
        q,
    )[d] by {
        crate::algebra::lemma_nc_coeff_comm(a, b, n, d);
    }
    assert(seq_reduce(seq_mul(a, b, n, q), q) =~= seq_reduce(seq_mul(b, a, n, q), q));
}

/// Rows of the schoolbook product with a zero factor leave the accumulator unchanged.
proof fn lemma_mul_zero_rows(a: Seq<int>, n: int, q: int, i: int, j: int, start: Seq<int>)
    requires
        j <= n,
    ensures
        mul_row_state(a, Seq::new(n as nat, |x: int| 0int), n, q, i, j, start) == start,
    decreases j,
{
    if j > 0 {
        lemma_mul_zero_rows(a, n, q, i, j - 1, start);
    }
}

/// Every accumulator of the product with a zero factor is zero.
proof fn lemma_mul_zero_state(a: Seq<int>, n: int, q: int, i: int)
    ensures
        mul_state(a, Seq::new(n as nat, |x: int| 0int), n, q, i) == Seq::new(n as nat, |x: int| 0int),
    decreases i,
{
    if i > 0 {
        lemma_mul_zero_state(a, n, q, i - 1);
        lemma_mul_zero_rows(a, n, q, i - 1, n, mul_state(a, Seq::new(n as nat, |x: int| 0int), n, q, i - 1));
    }
}

/// Multiplying by the zero polynomial gives exactly the zero polynomial.
pub proof fn law_poly_mul_zero(a: Seq<int>, n: int, q: int)
    ensures
        seq_mul(a, Seq::new(n as nat, |x: int| 0int), n, q) == Seq::new(n as nat, |x: int| 0int),
{
    lemma_mul_zero_state(a, n, q, n);
}

/// Encoding a bit and decoding it gives the bit back, when Δ is positive and
/// at least one addition is budgeted (t ≥ 3).
pub proof fn law_message_roundtrip(bit: u8, params: &PqhvParams)
    requires
        modulus_ok(params.q as int),
        params.n >= 1,
        params.max_additions >= 1,
        params.spec_encoding_scale() > 0,
    ensures
        decode_tally(
            message_coeffs(bit, params.n as int, params.spec_encoding_scale())[0],
            params.q as int,
            params.spec_encoding_scale(),
        ) % 2 == (bit & 1u8) as int,
{
    let delta = params.spec_encoding_scale();
    let q = params.q as int;
    let b = (bit & 1u8) as int;
    assert((bit & 1u8) <= 1u8) by (bit_vector);
    lemma_scale_third(params);
    assert(0 <= b * delta <= delta) by (nonlinear_arith)
        requires
            0 <= b <= 1,
            delta >= 0,
    ;
    lemma_decode_noisy(b, 0, q, delta);
    vstd::arithmetic::div_mod::lemma_small_mod((b * delta) as nat, q as nat);
}

/// Vector addition is commutative for vectors whose entries share their
/// dimension and modulus.
pub proof fn law_vec_add_commutative(a: Seq<PolyView>, b: Seq<PolyView>)
    requires
        a.len() == b.len(),
        forall|i: int| 0 <= i < a.len() ==> (#[trigger] a[i]).n == b[i].n && a[i].q == b[i].q,
    ensures
        vec_add(a, b) == vec_add(b, a),
{
    assert forall|i: int| 0 <= i < a.len() implies #[trigger] vec_add(a, b)[i] == vec_add(b, a)[i] by {
        law_poly_add_commutative(a[i].c, b[i].c, a[i].q);
    }
    assert(vec_add(a, b) =~= vec_add(b, a));
}

/// The zero vector is neutral for addition on entries within (−q, q).
pub proof fn law_vec_add_zero(a: Seq<PolyView>, z: Seq<PolyView>)
    requires
        z.len() == a.len(),
        forall|i: int|
            0 <= i < a.len() ==> (#[trigger] a[i]).q > 0 && within(a[i].c, a[i].q) && z[i].c == Seq::new(
                a[i].c.len(),
                |d: int| 0int,
            ),
    ensures
        vec_add(a, z) == a,
{
    assert forall|i: int| 0 <= i < a.len() implies #[trigger] vec_add(a, z)[i] == a[i] by {
        law_poly_add_zero(a[i].c, a[i].q);
    }
    assert(vec_add(a, z) =~= a);
}

/// The inner product is commutative once reduced.
pub proof fn law_inner_product_commutative(a: Seq<PolyView>, b: Seq<PolyView>, k: int)
    requires
        k >= 1,
        a[0].n >= 0,
        modulus_ok(a[0].q),
        shaped(a, k, a[0].n, a[0].q),
        shaped(b, k, a[0].n, a[0].q),
    ensures
        seq_reduce(ip_acc(a, b, k), a[0].q) == seq_reduce(ip_acc(b, a, k), a[0].q),
{
    let n = a[0].n;
    let q = a[0].q;
    lemma_ip_acc(a, b, k, k);
    lemma_ip_acc(b, a, k, k);
    lemma_ip_acc_int(a, b, k, k);
    lemma_ip_acc_int(b, a, k, k);
    assert forall|d: int| 0 <= d < n implies #[trigger] seq_reduce(ip_acc(a, b, k), q)[d] == seq_reduce(
        ip_acc(b, a, k),
        q,
    )[d] by {
        assert forall|j: int| 0 <= j < k implies #[trigger] nc_coeff(a[j].c, b[j].c, n, d) == nc_coeff(
            b[j].c,
            a[j].c,
            n,
            d,
        ) by {
            crate::algebra::lemma_nc_coeff_comm(a[j].c, b[j].c, n, d);
        }
        lemma_sum_ext(|j: int| nc_coeff(a[j].c, b[j].c, n, d), |j: int| nc_coeff(b[j].c, a[j].c, n, d), k);
    }
    assert(seq_reduce(ip_acc(a, b, k), q) =~= seq_reduce(ip_acc(b, a, k), q));
}

/// Transposing twice gives the matrix back.
pub proof fn law_transpose_twice(m: Seq<Seq<PolyView>>, k: int)
    requires
        k >= 0,
        m.len() == k,
        forall|i: int| 0 <= i < k ==> (#[trigger] m[i]).len() == k,
    ensures
        transpose_view(transpose_view(m, k), k) == m,
{
    assert forall|i: int| 0 <= i < k implies #[trigger] transpose_view(transpose_view(m, k), k)[i] =~= m[i] by {}
    assert(transpose_view(transpose_view(m, k), k) =~= m);
}

/// Matrix-vector multiplication is linear: `A·(u + v) == A·u + A·v` once reduced.
pub proof fn law_mat_vec_linear(m: Seq<Seq<PolyView>>, u: Seq<PolyView>, v: Seq<PolyView>, k: int, n: int, q: int)
    requires
        k >= 1,
        n >= 0,
        modulus_ok(q),
        forall|i: int| 0 <= i < m.len() ==> shaped(#[trigger] m[i], k, n, q),
        shaped(u, k, n, q),
        shaped(v, k, n, q),
    ensures
        forall|i: int|
            0 <= i < m.len() ==> seq_reduce(#[trigger] mat_vec(m, vec_add(u, v), k)[i].c, q) == seq_reduce(
                vec_add(mat_vec(m, u, k), mat_vec(m, v, k))[i].c,
                q,
            ),
{
    let w = vec_add(u, v);
    assert(shaped(w, k, n, q));
    assert forall|i: int| 0 <= i < m.len() implies seq_reduce(#[trigger] mat_vec(m, w, k)[i].c, q) == seq_reduce(
        vec_add(mat_vec(m, u, k), mat_vec(m, v, k))[i].c,
        q,
    ) by {
        let row = m[i];
        assert(shaped(row, k, n, q));
        lemma_ip_acc(row, w, k, k);
        lemma_ip_acc(row, u, k, k);
        lemma_ip_acc(row, v, k, k);
        lemma_ip_acc_int(row, w, k, k);
        lemma_ip_acc_int(row, u, k, k);
        lemma_ip_acc_int(row, v, k, k);
        let l = mat_vec(m, w, k)[i].c;
        let r = vec_add(mat_vec(m, u, k), mat_vec(m, v, k))[i].c;
        assert forall|d: int| 0 <= d < n implies #[trigger] l[d] % q == r[d] % q by {
            lemma_ip_int_vec_add(row, u, v, k, n, q, d);
            let x = ip_acc(row, u, k)[d];
            let y = ip_acc(row, v, k)[d];
            lemma_trem(x + y, q);
            lemma_mod_add2(x, ip_int(row, u, k, n, d), y, ip_int(row, v, k, n, d), q);
        }
        assert(seq_reduce(l, q) =~= seq_reduce(r, q));
    }
}

/// The running inner product with a zero vector is zero at every step.
proof fn lemma_ip_acc_zero(a: Seq<PolyView>, z: Seq<PolyView>, i: int)
    requires
        a[0].n >= 0,
        a[0].q > 0,
        forall|j: int| 0 <= j < i ==> (#[trigger] z[j]).c == Seq::new(a[0].n as nat, |x: int| 0int),
        i >= 1,
    ensures
        ip_acc(a, z, i) == Seq::new(a[0].n as nat, |x: int| 0int),
    decreases i,
{
    let n = a[0].n;
    let q = a[0].q;
    law_poly_mul_zero(a[i - 1].c, n, q);
    if i > 1 {
        lemma_ip_acc_zero(a, z, i - 1);
        let zs = Seq::new(n as nat, |x: int| 0int);
        assert forall|d: int| 0 <= d < n implies #[trigger] seq_add(zs, zs, q)[d] == 0 by {
            vstd::arithmetic::div_mod::lemma_small_mod(0, q as nat);
        }
        assert(seq_add(zs, zs, q) =~= zs);
    }
}

/// Multiplying a matrix by the zero vector gives exactly the zero vector.
pub proof fn law_mat_vec_zero(m: Seq<Seq<PolyView>>, z: Seq<PolyView>, k: int, n: int, q: int)
    requires
        k >= 1,
        n >= 0,
        q > 0,
        forall|i: int| 0 <= i < m.len() ==> shaped(#[trigger] m[i], k, n, q),
        forall|j: int| 0 <= j < k ==> (#[trigger] z[j]).c == Seq::new(n as nat, |x: int| 0int),
    ensures
        forall|i: int| 0 <= i < m.len() ==> (#[trigger] mat_vec(m, z, k)[i]).c == Seq::new(n as nat, |x: int| 0int),
{
    assert forall|i: int| 0 <= i < m.len() implies (#[trigger] mat_vec(m, z, k)[i]).c == Seq::new(n as nat, |x: int| 0int) by {
        assert(shaped(m[i], k, n, q));
        lemma_ip_acc_zero(m[i], z, k);
    }
}

/// The number of non-zero entries of `c`.
pub open spec fn nonzero_count(c: Seq<int>) -> int
    decreases c.len(),
{
    if c.len() == 0 {
        0
    } else {
        nonzero_count(c.drop_last()) + if c.last() != 0 { 1int } else { 0int }
    }
}

/// Setting a zero entry to a non-zero value adds one non-zero entry.
proof fn lemma_nonzero_count_set(c: Seq<int>, pos: int, v: int)
    requires
        0 <= pos < c.len(),
        c[pos] == 0,
        v != 0,
    ensures
        nonzero_count(c.update(pos, v)) == nonzero_count(c) + 1,
    decreases c.len(),
{
    let u = c.update(pos, v);
    if pos == c.len() - 1 {
        assert(u.drop_last() =~= c.drop_last());
    } else {
        lemma_nonzero_count_set(c.drop_last(), pos, v);
        assert(u.drop_last() =~= c.drop_last().update(pos, v));
    }
}

/// The sampler keeps the number of non-zero coefficients equal to the number
/// it has placed, and never places more than `min(32, n)`.
proof fn lemma_challenge_count(st: ChallengeState, n: int, fuel: nat)
    requires
        st.coeffs.len() == n,
        nonzero_count(st.coeffs) == st.placed,
        0 <= st.placed <= CHALLENGE_WEIGHT,
        st.placed <= n,
    ensures
        challenge_run(st, n, fuel).coeffs.len() == n,
        nonzero_count(challenge_run(st, n, fuel).coeffs) == challenge_run(st, n, fuel).placed,
        0 <= challenge_run(st, n, fuel).placed <= CHALLENGE_WEIGHT,
        challenge_run(st, n, fuel).placed <= n,
    decreases fuel,
{
    if fuel > 0 && st.placed < CHALLENGE_WEIGHT && st.placed < n {
        let pos = (st.h[st.idx % 32] as int + 256 * (st.h[(st.idx + 1) % 32] as int)) % n;
        if st.coeffs[pos] == 0 {
            let v = if st.h[(st.idx + 2) % 32] & 1u8 == 0u8 { 1int } else { -1int };
            lemma_nonzero_count_set(st.coeffs, pos, v);
        }
        lemma_challenge_count(challenge_step(st, n), n, (fuel - 1) as nat);
    }
}

/// A challenge polynomial never has more than `min(32, n)` non-zero
/// coefficients, and has exactly as many as its sampler placed.
pub proof fn law_challenge_weight(hash: Seq<u8>, n: int)
    requires
        n >= 0,
    ensures
        nonzero_count(challenge_coeffs(hash, n)) <= CHALLENGE_WEIGHT,
        nonzero_count(challenge_coeffs(hash, n)) <= n,
        nonzero_count(challenge_coeffs(hash, n)) == challenge_run(
            ChallengeState { coeffs: Seq::new(n as nat, |i: int| 0int), idx: 0, placed: 0, h: hash },
            n,
            u64::MAX as nat,
        ).placed,
{
    let init = ChallengeState { coeffs: Seq::new(n as nat, |i: int| 0int), idx: 0, placed: 0, h: hash };
    lemma_nonzero_zeros(n);
    lemma_challenge_count(init, n, u64::MAX as nat);
}

/// A sequence of zeros has no non-zero entry.
proof fn lemma_nonzero_zeros(n: int)
    requires
        n >= 0,
    ensures
        nonzero_count(Seq::new(n as nat, |i: int| 0int)) == 0,
    decreases n,
{
    if n > 0 {
        lemma_nonzero_zeros(n - 1);
        assert(Seq::new(n as nat, |i: int| 0int).drop_last() =~= Seq::new((n - 1) as nat, |i: int| 0int));
    }
}

/// The noise budget is the largest number N of ciphertexts whose summed
/// worst-case noise stays strictly below Δ/2: `2·budget·noise < Δ ≤
/// 2·(budget + 1)·noise` (when Δ is 0 no N qualifies and the budget is 0).
pub proof fn law_noise_budget(params: &PqhvParams)
    requires
        params.budget_fits(),
        params.spec_noise_per_ciphertext() > 0,
    ensures
        (params.spec_encoding_scale() as u64) > 0 ==> 2 * params.spec_noise_budget()
            * params.spec_noise_per_ciphertext() < (params.spec_encoding_scale() as u64),
        (params.spec_encoding_scale() as u64) <= 2 * (params.spec_noise_budget() + 1) * params.spec_noise_per_ciphertext(),
{
    let noise = params.spec_noise_per_ciphertext();
    let delta = (params.spec_encoding_scale() as u64) as int;
    let d = 2 * noise;
    if delta > 0 {
        let x = delta - 1;
        vstd::arithmetic::div_mod::lemma_fundamental_div_mod(x, d);
        vstd::arithmetic::div_mod::lemma_mod_bound(x, d);
        let b = x / d;
        assert(params.spec_noise_budget() == b);
        assert(2 * b * noise <= x) by (nonlinear_arith)
            requires
                x == d * b + x % d,
                x % d >= 0,
                d == 2 * noise,
        ;
        assert(x < 2 * (b + 1) * noise) by (nonlinear_arith)
            requires
                x == d * b + x % d,
                x % d < d,
                d == 2 * noise,
        ;
    } else {
        assert(params.spec_noise_budget() == 0);
    }
}

/// A tracker within its budget guarantees correct decryption: `m` additions
/// with `m ≤ budget` keep `2·m` times the worst-case noise of one ciphertext
/// below Δ, the condition of `law_decrypt_tally`.
pub proof fn law_safe_tracker_decrypts(params: &PqhvParams, m: int)
    requires
        params.budget_fits(),
        params.spec_noise_per_ciphertext() > 0,
        params.q <= i64::MAX,
        0 <= m <= params.spec_noise_budget(),
        params.spec_encoding_scale() > 0,
    ensures
        2 * m * params.spec_noise_per_ciphertext() < params.spec_encoding_scale(),
{
    law_noise_budget(params);
    let noise = params.spec_noise_per_ciphertext();
    let b = params.spec_noise_budget();
    crate::params::lemma_encoding_scale_bound(params);
    assert(2 * m * noise <= 2 * b * noise) by (nonlinear_arith)
        requires
            0 <= m <= b,
            noise > 0,
    ;
}

/// Threshold decryption of a tally gives the number of 1-votes: when the
/// trustees' shares add up to a secret `s` of the key pair, combining the
/// partial decryptions of the sum of `m ≤ max_additions` encrypted votes
/// decodes to the count of votes whose low bit is set, provided `2·m` times
/// the worst-case noise of one ciphertext is below Δ.
pub proof fn law_threshold_tally(
    pk: &PublicKey,
    shares: Seq<TrusteeKeyShare>,
    ps: Seq<PartialDecryption>,
    s: Seq<PolyView>,
    cts: Seq<Ciphertext>,
    msgs: Seq<u8>,
    total: &Ciphertext,
    params: &PqhvParams,
)
    requires
        shares.len() >= 1,
        partials_of(shares, ps, total, params),
        shares_sum_to(shares, s, params),
        noise_analysis(pk, s, params),
        cts.len() == msgs.len(),
        1 <= cts.len() <= params.max_additions,
        2 * cts.len() * params.spec_noise_per_ciphertext() < params.spec_encoding_scale(),
        forall|j: int|
            0 <= j < cts.len() ==> (#[trigger] cts[j]).u.k == params.k && ct_within(
                cts[j]@,
                params.k as int,
                params.n as int,
                params.q as int,
            ) && encrypts(&cts[j], pk, msgs[j], params),
        total.u.k == params.k,
        total.u@ == sum_u(cts, cts.len() as int),
        total.v@.c == sum_v(cts, cts.len() as int),
        ct_within(total@, params.k as int, params.n as int, params.q as int),
    ensures
        decode_tally(
            combined_plaintext(ps, shares.len() as int, total.v@.c, params)[0],
            params.q as int,
            params.spec_encoding_scale(),
        ) == vote_count(msgs, msgs.len() as int),
{
    lemma_tally_decodes(pk, s, cts, msgs, total, params);
    law_threshold_combine(shares, ps, s, total, params);
}

/// The Fiat-Shamir challenge depends on the commitments and the ciphertext
/// only, so a valid proof whose partial challenge of branch 0 is changed in
/// one coefficient by an amount `d` that is not a multiple of q, everything
/// else kept, no longer verifies.
pub proof fn law_challenge_tamper_rejected(
    pk: &PublicKey,
    ct: &Ciphertext,
    proof: crate::ballot::BallotProof,
    tampered: crate::ballot::BallotProof,
    j: int,
    d: int,
    params: &PqhvParams,
)
    requires
        modulus_ok(params.q as int),
        crate::ballot::proof_valid(pk, ct, &proof, params),
        tampered.branch_1 == proof.branch_1,
        tampered.branch_0.commitment_u == proof.branch_0.commitment_u,
        tampered.branch_0.commitment_v == proof.branch_0.commitment_v,
        0 <= j < proof.branch_0.challenge@.len(),
        j < proof.branch_1.challenge@.len(),
        tampered.branch_0.challenge@.len() == proof.branch_0.challenge@.len(),
        tampered.branch_0.challenge@[j] == proof.branch_0.challenge@[j] + d,
        forall|i: int|
            0 <= i < proof.branch_0.challenge@.len() && i != j ==> #[trigger] tampered.branch_0.challenge@[i]
                == proof.branch_0.challenge@[i],
        d % (params.q as int) != 0,
    ensures
        !crate::ballot::proof_valid(pk, ct, &tampered, params),
{
    let q = params.q as int;
    let c0 = ints(proof.branch_0.challenge@);
    let c1 = ints(proof.branch_1.challenge@);
    let t0 = ints(tampered.branch_0.challenge@);
    assert(crate::disjunctive::branch_commitment_bytes(tampered.branch_0) == crate::disjunctive::branch_commitment_bytes(
        proof.branch_0,
    ));
    if crate::ballot::proof_valid(pk, ct, &tampered, params) {
        let lhs = seq_reduce(seq_add(c0, c1, q), q);
        let lhs2 = seq_reduce(seq_add(t0, c1, q), q);
        assert(lhs == lhs2);
        assert(lhs[j] == lhs2[j]);
        lemma_trem(c0[j] + c1[j], q);
        lemma_trem(t0[j] + c1[j], q);
        vstd::arithmetic::div_mod::lemma_mod_twice(c0[j] + c1[j], q);
        assert((c0[j] + c1[j] + d) % q == (c0[j] + c1[j]) % q);
        crate::linear::lemma_mod_sub2(c0[j] + c1[j] + d, c0[j] + c1[j], c0[j] + c1[j], c0[j] + c1[j], q);
        assert(d == (c0[j] + c1[j] + d) - (c0[j] + c1[j]));
        vstd::arithmetic::div_mod::lemma_small_mod(0, q as nat);
        assert(d % q == 0);
        assert(false);
    }
}

/// Coefficient `d` of `Σ_j A[j][i]·z_r[j]` over the integers, with A's
/// entries read column `i` and the products taken in Z[X]/(X^n + 1).
pub open spec fn column_times(a: Seq<Seq<PolyView>>, zr: Seq<Vec<i64>>, i: int, k: int, n: int, d: int) -> int {
    sum_to(|j: int| nc_coeff(a[j][i].c, ints(zr[j]@), n, d), k)
}

/// Coefficient `d` of `Σ_j b[j]·z_r[j]` over the integers.
pub open spec fn row_times(b: Seq<PolyView>, zr: Seq<Vec<i64>>, k: int, n: int, d: int) -> int {
    sum_to(|j: int| nc_coeff(b[j].c, ints(zr[j]@), n, d), k)
}

/// A branch that verifies satisfies both equations of the proof, for every
/// entry and coefficient, modulo q, with the products taken over the
/// integers in Z[X]/(X^n + 1): `Aᵀ·z_r + z_e1 ≡ w_u + c·u` and
/// `bᵀ·z_r + z_e2 ≡ w_v + c·(v − Δ·m)`. So a branch that breaks either
/// equation anywhere is rejected.
pub proof fn law_branch_sound(
    pk: &PublicKey,
    ct: &Ciphertext,
    b: ProofBranch,
    message: u8,
    params: &PqhvParams,
)
    requires
        crate::disjunctive::instance_shaped(pk, ct, params),
        crate::checked::branch_bounded(b, params),
        ct.v@.c.len() == params.n,
        branch_valid(pk, ct, b, message, params),
    ensures
        forall|i: int, d: int|
            0 <= i < params.k && 0 <= d < params.n ==> (#[trigger] column_times(
                pk.a@,
                b.response_r@,
                i,
                params.k as int,
                params.n as int,
                d,
            ) + b.response_e1@[i]@[d]) % (params.q as int) == (b.commitment_u@[i]@[d] + nc_coeff(
                ints(b.challenge@),
                ct.u@[i].c,
                params.n as int,
                d,
            )) % (params.q as int),
        forall|d: int|
            0 <= d < params.n ==> (#[trigger] row_times(pk.b@, b.response_r@, params.k as int, params.n as int, d)
                + b.response_e2@[d]) % (params.q as int) == (b.commitment_v@[d] + nc_coeff(
                ints(b.challenge@),
                Seq::new(
                    params.n as nat,
                    |t: int| ct.v@.c[t] - message_coeffs(message, params.n as int, params.spec_encoding_scale())[t],
                ),
                params.n as int,
                d,
            )) % (params.q as int),
{
    let k = params.k as int;
    let n = params.n as int;
    let q = params.q as int;
    let a = pk.a@;
    let t = transpose_view(a, k);
    let zr = polys_of(b.response_r@, n, q);
    let ze1 = polys_of(b.response_e1@, n, q);
    let c = ints(b.challenge@);
    assert forall|j: int| 0 <= j < k implies (#[trigger] zr[j]).c.len() == n && zr[j].n == n && zr[j].q == q
        && ze1[j].c.len() == n by {
        assert(crate::checked::coeffs_bounded(b.response_r@[j]@, n, q));
        assert(crate::checked::coeffs_bounded(b.response_e1@[j]@, n, q));
    }
    assert(shaped(zr, k, n, q));
    assert forall|i: int, d: int| 0 <= i < k && 0 <= d < n implies (#[trigger] column_times(a, b.response_r@, i, k, n, d)
        + b.response_e1@[i]@[d]) % q == (b.commitment_u@[i]@[d] + nc_coeff(c, ct.u@[i].c, n, d)) % q by {
        assert forall|j: int| 0 <= j < k implies (#[trigger] t[i][j]).n == n && t[i][j].q == q && t[i][j].c.len()
            >= n by {
            assert(t[i][j] == a[j][i]);
            assert(crate::matrix::vec_shape(a[j], k, n, q));
        }
        assert(shaped(t[i], k, n, q));
        lemma_ip_acc(t[i], zr, k, k);
        lemma_ip_acc_int(t[i], zr, k, k);
        let x = ip_acc(t[i], zr, k)[d];
        let e = ze1[i].c[d];
        assert(crate::checked::coeffs_bounded(b.response_e1@[i]@, n, q));
        assert(e == b.response_e1@[i]@[d]);
        let lhs = crate::disjunctive::lhs_u(pk, b, params)[i].c;
        assert(lhs.len() == n);
        assert(lhs[d] == trem(x + e, q));
        let rr = crate::disjunctive::rhs_u(ct, b, params, i);
        assert(crate::checked::coeffs_bounded(b.commitment_u@[i]@, n, q));
        lemma_seq_mul(c, ct.u@[i].c, n, q);
        let y = seq_mul(c, ct.u@[i].c, n, q)[d];
        let w = ints(b.commitment_u@[i]@)[d];
        assert(rr.len() == n);
        assert(rr[d] == trem(w + y, q));
        assert(seq_reduce(lhs, q)[d] == seq_reduce(rr, q)[d]);
        lemma_trem(x + e, q);
        lemma_trem(w + y, q);
        let s = column_times(a, b.response_r@, i, k, n, d);
        assert(crate::linear::ip_int(t[i], zr, k, n, d) == s) by {
            lemma_sum_ext(
                |j: int| nc_coeff(t[i][j].c, zr[j].c, n, d),
                |j: int| nc_coeff(a[j][i].c, ints(b.response_r@[j]@), n, d),
                k,
            );
        }
        lemma_mod_add2(x, s, e, e, q);
        assert(y % q == nc_mul(c, ct.u@[i].c, n)[d] % q);
        lemma_mod_add2(w, w, y, nc_coeff(c, ct.u@[i].c, n, d), q);
    }
    let bv = pk.b@;
    let vm = v_minus_message(ct, message, params);
    let mc = message_coeffs(message, n, params.spec_encoding_scale());
    let vexact = Seq::new(n as nat, |t: int| ct.v@.c[t] - mc[t]);
    lemma_ip_acc(bv, zr, k, k);
    lemma_ip_acc_int(bv, zr, k, k);
    lemma_seq_mul(c, vm, n, q);
    assert forall|t: int| 0 <= t < n implies #[trigger] vm[t] % q == vexact[t] % q by {
        vstd::arithmetic::div_mod::lemma_mod_twice(ct.v@.c[t] - mc[t], q);
    }
    assert forall|d: int| 0 <= d < n implies (#[trigger] row_times(bv, b.response_r@, k, n, d) + b.response_e2@[d]) % q
        == (b.commitment_v@[d] + nc_coeff(c, vexact, n, d)) % q by {
        let x = ip_acc(bv, zr, k)[d];
        let e = ints(b.response_e2@)[d];
        let lhs = crate::disjunctive::lhs_v(pk, b, params);
        let rr = crate::disjunctive::rhs_v(ct, b, message, params);
        assert(lhs.len() == n);
        assert(rr.len() == n);
        assert(seq_reduce(lhs, q)[d] == seq_reduce(rr, q)[d]);
        let y = seq_mul(c, vm, n, q)[d];
        let w = ints(b.commitment_v@)[d];
        lemma_trem(x + e, q);
        lemma_trem(w + y, q);
        let s = row_times(bv, b.response_r@, k, n, d);
        assert(crate::linear::ip_int(bv, zr, k, n, d) == s) by {
            lemma_sum_ext(
                |j: int| nc_coeff(bv[j].c, zr[j].c, n, d),
                |j: int| nc_coeff(bv[j].c, ints(b.response_r@[j]@), n, d),
                k,
            );
        }
        lemma_mod_add2(x, s, e, e, q);
        assert(y % q == nc_mul(c, vm, n)[d] % q);
        crate::algebra::lemma_nc_coeff_cong_right(c, vm, vexact, n, d, q);
        lemma_mod_add2(w, w, y, nc_coeff(c, vexact, n, d), q);
    }
}

/// Changing one coefficient of one `z_e1` entry of a verifying branch by an
/// amount that is not a multiple of q, everything else kept, makes the
/// branch fail.
pub proof fn law_branch_response_tamper_rejected(
    pk: &PublicKey,
    ct: &Ciphertext,
    b: ProofBranch,
    tampered: ProofBranch,
    message: u8,
    i: int,
    j: int,
    delta: int,
    params: &PqhvParams,
)
    requires
        crate::disjunctive::instance_shaped(pk, ct, params),
        crate::checked::branch_bounded(b, params),
        crate::checked::branch_bounded(tampered, params),
        ct.v@.c.len() == params.n,
        branch_valid(pk, ct, b, message, params),
        tampered.commitment_u == b.commitment_u,
        tampered.commitment_v == b.commitment_v,
        tampered.challenge == b.challenge,
        tampered.response_r == b.response_r,
        tampered.response_e2 == b.response_e2,
        0 <= i < params.k,
        0 <= j < params.n,
        tampered.response_e1@[i]@[j] == b.response_e1@[i]@[j] + delta,
        delta % (params.q as int) != 0,
    ensures
        !branch_valid(pk, ct, tampered, message, params),
{
    let q = params.q as int;
    law_branch_sound(pk, ct, b, message, params);
    if branch_valid(pk, ct, tampered, message, params) {
        law_branch_sound(pk, ct, tampered, message, params);
        let s = column_times(pk.a@, b.response_r@, i, params.k as int, params.n as int, j);
        assert(column_times(pk.a@, tampered.response_r@, i, params.k as int, params.n as int, j) == s);
        let e = b.response_e1@[i]@[j] as int;
        let r = b.commitment_u@[i]@[j] + nc_coeff(ints(b.challenge@), ct.u@[i].c, params.n as int, j);
        assert((s + e) % q == r % q);
        assert((s + e + delta) % q == r % q);
        crate::linear::lemma_mod_sub2(s + e + delta, r, s + e, r, q);
        vstd::arithmetic::div_mod::lemma_small_mod(0, q as nat);
        assert(s + e + delta - (s + e) == delta);
        assert(false);
    }
}

/// Scalar multiplication agrees with multiplying every coefficient by the
/// scalar, negative scalars included: `(s·a)[i] ≡ a[i]·s (mod q)`. In
/// particular multiplying by −1 negates modulo q.
pub proof fn law_scalar_mul_congruent(a: Seq<int>, s: int, q: int)
    requires
        q > 0,
    ensures
        crate::poly::seq_scalar_mul(a, s, q).len() == a.len(),
        forall|i: int|
            0 <= i < a.len() ==> #[trigger] crate::poly::seq_scalar_mul(a, s, q)[i] % q == (a[i] * s) % q,
{
    assert forall|i: int| 0 <= i < a.len() implies #[trigger] crate::poly::seq_scalar_mul(a, s, q)[i] % q == (a[i]
        * s) % q by {
        lemma_trem(a[i] * (s % q), q);
        vstd::arithmetic::div_mod::lemma_mul_mod_noop_right(a[i], s, q);
    }
}

/// Once a coefficient is non-zero, later steps of the sampler leave it alone.
proof fn lemma_challenge_keeps(st: ChallengeState, n: int, fuel: nat, p: int)
    requires
        n >= 1,
        st.coeffs.len() == n,
        0 <= p < n,
        st.coeffs[p] != 0,
    ensures
        challenge_run(st, n, fuel).coeffs[p] == st.coeffs[p],
    decreases fuel,
{
    if fuel > 0 && st.placed < CHALLENGE_WEIGHT && st.placed < n {
        let next = challenge_step(st, n);
        let pos = (st.h[st.idx % 32] as int + 256 * (st.h[(st.idx + 1) % 32] as int)) % n;
        assert(0 <= pos < n);
        assert(next.coeffs[p] == st.coeffs[p]);
        assert(next.coeffs.len() == n);
        lemma_challenge_keeps(next, n, (fuel - 1) as nat, p);
    }
}

/// The first coefficient a challenge places sits at the position that hash
/// bytes 0 and 1 give, `(h[0] + 256·h[1]) mod n`, and its sign is the low bit
/// of byte 2: +1 when that bit is 0, −1 when it is 1.
pub proof fn law_challenge_first_sign(hash: Seq<u8>, n: int)
    requires
        n >= 1,
        hash.len() == 32,
    ensures
        challenge_coeffs(hash, n)[(hash[0] as int + 256 * (hash[1] as int)) % n] == (if hash[2] % 2 == 0 {
            1int
        } else {
            -1int
        }),
{
    let init = ChallengeState { coeffs: Seq::new(n as nat, |i: int| 0int), idx: 0, placed: 0, h: hash };
    let pos = (hash[0] as int + 256 * (hash[1] as int)) % n;
    let next = challenge_step(init, n);
    assert(init.coeffs[pos] == 0);
    let b2 = hash[2];
    assert((b2 & 1u8 == 0u8) == (b2 % 2 == 0)) by (bit_vector);
    assert(next.coeffs[pos] == (if hash[2] % 2 == 0 { 1int } else { -1int }));
    lemma_challenge_keeps(next, n, (u64::MAX - 1) as nat, pos);
    assert(challenge_run(init, n, u64::MAX as nat) == challenge_run(next, n, (u64::MAX - 1) as nat));
}

} // verus!
