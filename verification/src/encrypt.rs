//! Module-LWE encryption of one bit, and the additive homomorphism on
//! ciphertexts: `u = Aᵀ·r + e₁`, `v = bᵀ·r + e₂ + Δ·m`.

use crate::arith::lemma_trem;
use crate::keygen::{mat_vec, pk_shaped, small_vec, PublicKey};
use crate::matrix::{ip_acc, min_len_pv, shaped, small, vec_add, PolyVec};
use crate::params::PqhvParams;
use crate::poly::{add_fits, fits_i64, message_coeffs, min_len, modulus_ok, seq_add, Poly, PolyView};
use crate::ring::{cong, within};
use rand_chacha::ChaCha20Rng;
use vstd::prelude::*;

verus! {

/// A ciphertext `(u, v)`.
#[derive(Debug)]
pub struct Ciphertext {
    /// First component: `Aᵀ·r + e₁`.
    pub u: PolyVec,
    /// Second component: `bᵀ·r + e₂ + Δ·m`.
    pub v: Poly,
}

impl View for Ciphertext {
    type V = (Seq<PolyView>, PolyView);

    open spec fn view(&self) -> (Seq<PolyView>, PolyView) {
        (self.u@, self.v@)
    }
}

impl Clone for Ciphertext {
    fn clone(&self) -> (r: Self)
        ensures
            r.u.k == self.u.k,
            r@ == self@,
    {
        Ciphertext { u: self.u.clone(), v: self.v.clone() }
    }
}

/// The transpose of the first `k` rows and columns of `m`.
pub open spec fn transpose_view(m: Seq<Seq<PolyView>>, k: int) -> Seq<Seq<PolyView>> {
    Seq::new(k as nat, |j: int| Seq::new(k as nat, |i: int| m[i][j]))
}

/// A ciphertext of rank `k`, dimension `n` and modulus `q` whose coefficients
/// lie strictly between `-q` and `q`.
pub open spec fn ct_within(ct: (Seq<PolyView>, PolyView), k: int, n: int, q: int) -> bool {
    &&& ct.0.len() == k
    &&& shaped(ct.0, k, n, q)
    &&& forall|i: int| 0 <= i < k ==> (#[trigger] ct.0[i]).c.len() == n && within(ct.0[i].c, q)
    &&& ct.1.n == n
    &&& ct.1.q == q
    &&& ct.1.c.len() == n
    &&& within(ct.1.c, q)
}

/// The ciphertext component `u` for randomness `r` and noise `e1`.
pub open spec fn enc_u(pk: &PublicKey, k: int, r: Seq<PolyView>, e1: Seq<PolyView>) -> Seq<PolyView> {
    vec_add(mat_vec(transpose_view(pk.a@, k), r, k), e1)
}

/// The ciphertext component `v` for randomness `r`, noise `e2` and message bit.
pub open spec fn enc_v(
    pk: &PublicKey,
    k: int,
    r: Seq<PolyView>,
    e2: Seq<int>,
    message: u8,
    params: &PqhvParams,
) -> Seq<int> {
    let q = params.q as int;
    seq_add(
        seq_add(ip_acc(pk.b@, r, k), e2, q),
        message_coeffs(message, params.n as int, params.spec_encoding_scale()),
        q,
    )
}

/// `(u, v)` agrees modulo q with the encryption of `message` under the
/// witness `(r, e1, e2)`: `u ≡ Aᵀ·r + e1` and `v ≡ bᵀ·r + e2 + Δ·m`.
pub open spec fn encrypts_mod_q(
    ct: &Ciphertext,
    pk: &PublicKey,
    r: Seq<PolyView>,
    e1: Seq<PolyView>,
    e2: Seq<int>,
    message: u8,
    params: &PqhvParams,
) -> bool {
    let k = params.k as int;
    let n = params.n as int;
    let q = params.q as int;
    &&& ct.u@.len() >= k
    &&& forall|i: int| 0 <= i < k ==> cong(#[trigger] ct.u@[i].c, enc_u(pk, k, r, e1)[i].c, n, q)
    &&& cong(ct.v@.c, enc_v(pk, k, r, e2, message, params), n, q)
}

/// `ct` encrypts `message` under `pk` with some CBD(η) randomness and noise.
pub open spec fn encrypts(ct: &Ciphertext, pk: &PublicKey, message: u8, params: &PqhvParams) -> bool {
    let k = params.k as int;
    let n = params.n as int;
    let q = params.q as int;
    let eta = params.eta as int;
    exists|r: Seq<PolyView>, e1: Seq<PolyView>, e2: Seq<int>|
        small_vec(r, k, n, q, eta) && small_vec(e1, k, n, q, eta) && e2.len() == n && small(
            e2,
            eta,
            q,
        ) && #[trigger] enc_u(pk, k, r, e1) == ct.u@ && #[trigger] enc_v(pk, k, r, e2, message, params)
            == ct.v@.c
}

/// Encrypts the bit `message & 1` under `pk`.
pub fn encrypt(pk: &PublicKey, message: u8, params: &PqhvParams, rng: &mut ChaCha20Rng) -> (ct: Ciphertext)
    requires
        pk_shaped(pk, params),
        modulus_ok(params.q as int),
        params.eta <= 16,
        params.k > 0,
        params.n >= 1,
        params.plaintext_modulus_fits(),
    ensures
        ct.u.k == params.k,
        ct_within(ct@, params.k as int, params.n as int, params.q as int),
        encrypts(&ct, pk, message, params),
{
    let r = PolyVec::sample_cbd(params, params.eta, rng);
    let e1 = PolyVec::sample_cbd(params, params.eta, rng);
    let e2 = Poly::sample_cbd(params, params.eta, rng);
    let (u, v) = encrypt_with(pk, message, params, &r, &e1, &e2);
    Ciphertext { u, v }
}

/// The first ciphertext component for randomness `r` and noise `e1`: `Aᵀ·r + e1`.
pub(crate) fn mask_u(pk: &PublicKey, params: &PqhvParams, r: &PolyVec, e1: &PolyVec) -> (u: PolyVec)
    requires
        pk_shaped(pk, params),
        modulus_ok(params.q as int),
        params.k > 0,
        params.eta <= 16,
        r.k == params.k,
        e1.k == params.k,
        small_vec(r@, params.k as int, params.n as int, params.q as int, params.eta as int),
        small_vec(e1@, params.k as int, params.n as int, params.q as int, params.eta as int),
    ensures
        u.k == params.k,
        u@ == enc_u(pk, params.k as int, r@, e1@),
        u@.len() == params.k,
        shaped(u@, params.k as int, params.n as int, params.q as int),
        forall|i: int|
            0 <= i < params.k ==> (#[trigger] u@[i]).c.len() == params.n && within(
                u@[i].c,
                params.q as int,
            ),
{
    let ghost k = params.k as int;
    let ghost n = params.n as int;
    let ghost q = params.q as int;
    let at = pk.a.transpose();
    assert(r@[0].n == n && r@[0].q == q);
    proof {
        crate::disjunctive::lemma_transpose_shaped(pk, params, at);
    }
    let at_r = at.mul_vec(r);
    assert forall|i: int|
        0 <= i < min_len_pv(at_r@, e1@) implies (#[trigger] at_r@[i]).n == e1@[i].n && at_r@[i].q
        == e1@[i].q && modulus_ok(at_r@[i].q) && add_fits(at_r@[i].c, e1@[i].c) by {
        assert(small(e1@[i].c, params.eta as int, q));
        assert forall|d: int| 0 <= d < min_len(at_r@[i].c, e1@[i].c) implies fits_i64(
            #[trigger] at_r@[i].c[d] + e1@[i].c[d],
        ) by {
            assert(within(at_r@[i].c, q));
        }
    }
    let u = at_r.add(e1);
    assert(at@ =~= transpose_view(pk.a@, k)) by {
        assert forall|j: int| 0 <= j < k implies at@[j] =~= transpose_view(pk.a@, k)[j] by {}
    }
    assert(at_r@ =~= mat_vec(transpose_view(pk.a@, k), r@, k));
    proof {
        assert forall|i: int| 0 <= i < k implies (#[trigger] u@[i]).c.len() == n && within(
            u@[i].c,
            q,
        ) by {
            let x = at_r@[i].c;
            let y = e1@[i].c;
            assert forall|d: int| 0 <= d < u@[i].c.len() implies -q < #[trigger] u@[i].c[d] < q by {
                lemma_trem(x[d] + y[d], q);
            }
        }
    }
    u
}

/// `bᵀ·r + e2`.
pub(crate) fn mask_v(pk: &PublicKey, params: &PqhvParams, r: &PolyVec, e2: &Poly) -> (w: Poly)
    requires
        pk_shaped(pk, params),
        modulus_ok(params.q as int),
        params.k > 0,
        params.eta <= 16,
        r.k == params.k,
        small_vec(r@, params.k as int, params.n as int, params.q as int, params.eta as int),
        e2.n == params.n,
        e2.q == params.q,
        e2@.c.len() == params.n,
        small(e2@.c, params.eta as int, params.q as int),
    ensures
        w.n == params.n,
        w.q == params.q,
        w@.c == seq_add(ip_acc(pk.b@, r@, params.k as int), e2@.c, params.q as int),
        w@.c.len() == params.n,
        within(w@.c, params.q as int),
{
    let ghost n = params.n as int;
    let ghost q = params.q as int;
    assert(pk.b@[0].n == n && pk.b@[0].q == q);
    let br = pk.b.inner_product(r);
    assert forall|d: int| 0 <= d < min_len(br@.c, e2@.c) implies fits_i64(
        #[trigger] br@.c[d] + e2@.c[d],
    ) by {}
    let w = br.add(e2);
    assert forall|d: int| 0 <= d < w@.c.len() implies -q < #[trigger] w@.c[d] < q by {
        lemma_trem(br@.c[d] + e2@.c[d], q);
    }
    w
}

/// The ciphertext components for the given randomness and noise.
pub(crate) fn encrypt_with(
    pk: &PublicKey,
    message: u8,
    params: &PqhvParams,
    r: &PolyVec,
    e1: &PolyVec,
    e2: &Poly,
) -> (res: (PolyVec, Poly))
    requires
        pk_shaped(pk, params),
        modulus_ok(params.q as int),
        params.k > 0,
        params.n >= 1,
        params.eta <= 16,
        params.plaintext_modulus_fits(),
        r.k == params.k,
        e1.k == params.k,
        small_vec(r@, params.k as int, params.n as int, params.q as int, params.eta as int),
        small_vec(e1@, params.k as int, params.n as int, params.q as int, params.eta as int),
        e2.n == params.n,
        e2.q == params.q,
        e2@.c.len() == params.n,
        small(e2@.c, params.eta as int, params.q as int),
    ensures
        res.0.k == params.k,
        ct_within((res.0@, res.1@), params.k as int, params.n as int, params.q as int),
        res.0@ == enc_u(pk, params.k as int, r@, e1@),
        res.1@.c == enc_v(pk, params.k as int, r@, e2@.c, message, params),
        encrypts(&Ciphertext { u: res.0, v: res.1 }, pk, message, params),
{
    let ghost k = params.k as int;
    let ghost n = params.n as int;
    let ghost q = params.q as int;
    let u = mask_u(pk, params, r, e1);
    let msg = Poly::from_message(message, params);
    let br_e2 = mask_v(pk, params, r, e2);
    assert forall|d: int| 0 <= d < min_len(br_e2@.c, msg@.c) implies fits_i64(
        #[trigger] br_e2@.c[d] + msg@.c[d],
    ) by {
        assert(0 <= msg@.c[d] <= q) by {
            if d == 0 {
                assert(msg@.c[0] == ((message & 1u8) as int) * params.spec_encoding_scale());
                assert((message & 1u8) <= 1u8) by (bit_vector);
                crate::params::lemma_encoding_scale_bound(params);
                assert(0 <= ((message & 1u8) as int) * params.spec_encoding_scale() <= q)
                    by (nonlinear_arith)
                    requires
                        0 <= (message & 1u8) as int <= 1,
                        0 <= params.spec_encoding_scale() <= q,
                ;
            }
        }
    }
    let v = br_e2.add(&msg);
    proof {
        assert forall|d: int| 0 <= d < v@.c.len() implies -q < #[trigger] v@.c[d] < q by {
            lemma_trem(br_e2@.c[d] + msg@.c[d], q);
        }
        let ct = Ciphertext { u, v };
        assert(enc_u(pk, k, r@, e1@) == ct.u@);
        assert(enc_v(pk, k, r@, e2@.c, message, params) == ct.v@.c);
    }
    (u, v)
}

/// Homomorphic addition: the entry-wise sums of the two components.
pub fn add_ciphertexts(a: &Ciphertext, b: &Ciphertext) -> (r: Ciphertext)
    requires
        a.u.k == b.u.k,
        a.u.k > 0,
        ct_within(a@, a.u.k as int, a.v@.n, a.v@.q),
        ct_within(b@, a.u.k as int, a.v@.n, a.v@.q),
        modulus_ok(a.v@.q),
    ensures
        r.u.k == a.u.k,
        r.u@ == vec_add(a.u@, b.u@),
        r.v@ == (PolyView { c: seq_add(a.v@.c, b.v@.c, a.v@.q), n: a.v@.n, q: a.v@.q }),
        ct_within(r@, a.u.k as int, a.v@.n, a.v@.q),
{
    let ghost q = a.v@.q;
    let ghost n = a.v@.n;
    let ghost k = a.u.k as int;
    assert forall|i: int|
        0 <= i < min_len_pv(a.u@, b.u@) implies (#[trigger] a.u@[i]).n == b.u@[i].n && a.u@[i].q
        == b.u@[i].q && modulus_ok(a.u@[i].q) && add_fits(a.u@[i].c, b.u@[i].c) by {
        assert forall|d: int| 0 <= d < min_len(a.u@[i].c, b.u@[i].c) implies fits_i64(
            #[trigger] a.u@[i].c[d] + b.u@[i].c[d],
        ) by {
            assert(within(a.u@[i].c, q) && within(b.u@[i].c, q));
        }
    }
    let u = a.u.add(&b.u);
    let v = a.v.add(&b.v);
    proof {
        assert forall|i: int| 0 <= i < k implies (#[trigger] u@[i]).c.len() == n && within(
            u@[i].c,
            q,
        ) by {
            assert(within(a.u@[i].c, q) && within(b.u@[i].c, q));
            assert forall|d: int| 0 <= d < u@[i].c.len() implies -q < #[trigger] u@[i].c[d] < q by {
                lemma_trem(a.u@[i].c[d] + b.u@[i].c[d], q);
            }
        }
        assert forall|d: int| 0 <= d < v@.c.len() implies -q < #[trigger] v@.c[d] < q by {
            lemma_trem(a.v@.c[d] + b.v@.c[d], q);
        }
    }
    Ciphertext { u, v }
}

/// The `u` component of the running sum of the first `i` ciphertexts (`i >= 1`).
pub open spec fn sum_u(cts: Seq<Ciphertext>, i: int) -> Seq<PolyView>
    decreases i,
{
    if i <= 1 {
        cts[0].u@
    } else {
        vec_add(sum_u(cts, i - 1), cts[i - 1].u@)
    }
}

/// The `v` component of the running sum of the first `i` ciphertexts (`i >= 1`).
pub open spec fn sum_v(cts: Seq<Ciphertext>, i: int) -> Seq<int>
    decreases i,
{
    if i <= 1 {
        cts[0].v@.c
    } else {
        seq_add(sum_v(cts, i - 1), cts[i - 1].v@.c, cts[0].v@.q)
    }
}

/// Homomorphic sum of a non-empty list of ciphertexts, added left to right.
pub fn sum_ciphertexts(cts: &[Ciphertext]) -> (r: Ciphertext)
    requires
        cts@.len() > 0,
        cts@[0].u.k > 0,
        modulus_ok(cts@[0].v@.q),
        forall|i: int|
            0 <= i < cts@.len() ==> (#[trigger] cts@[i]).u.k == cts@[0].u.k && ct_within(
                cts@[i]@,
                cts@[0].u.k as int,
                cts@[0].v@.n,
                cts@[0].v@.q,
            ),
    ensures
        r.u.k == cts@[0].u.k,
        r.u@ == sum_u(cts@, cts@.len() as int),
        r.v@.c == sum_v(cts@, cts@.len() as int),
        ct_within(r@, cts@[0].u.k as int, cts@[0].v@.n, cts@[0].v@.q),
{
    let ghost c0 = cts@[0];
    let mut acc = cts[0].clone();
    let mut i: usize = 1;
    while i < cts.len()
        invariant
            c0 == cts@[0],
            c0.u.k > 0,
            modulus_ok(c0.v@.q),
            forall|j: int|
                0 <= j < cts@.len() ==> (#[trigger] cts@[j]).u.k == c0.u.k && ct_within(
                    cts@[j]@,
                    c0.u.k as int,
                    c0.v@.n,
                    c0.v@.q,
                ),
            1 <= i <= cts.len(),
            acc.u.k == c0.u.k,
            acc.v@.n == c0.v@.n,
            acc.v@.q == c0.v@.q,
            acc.u@ == sum_u(cts@, i as int),
            acc.v@.c == sum_v(cts@, i as int),
            ct_within(acc@, c0.u.k as int, c0.v@.n, c0.v@.q),
        decreases cts.len() - i,
    {
        assert(ct_within(cts@[i as int]@, c0.u.k as int, c0.v@.n, c0.v@.q));
        acc = add_ciphertexts(&acc, &cts[i]);
        i = i + 1;
    }
    acc
}

} // verus!
