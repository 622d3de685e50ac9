//! Module-LWE key generation: a uniformly random matrix `A`, a secret `s`
//! and a noise vector `e` with CBD(η) coefficients, and `b = A·s + e`.

use crate::matrix::{vec_shape, canonical_vec, shaped, small, vec_add, ip_view, PolyMatrix, PolyVec};
use crate::params::PqhvParams;
use crate::poly::{modulus_ok, Poly, PolyView};
use crate::ring::{canonical, within};
use rand_chacha::ChaCha20Rng;
use vstd::prelude::*;

verus! {

/// Public key: the random matrix `A` and `b = A·s + e`.
#[derive(Clone, Debug, PartialEq)]
pub struct PublicKey {
    /// Random k×k matrix over R_q.
    pub a: PolyMatrix,
    /// Derived vector `b = A·s + e`.
    pub b: PolyVec,
}

/// Secret key: the vector `s` with small (CBD-sampled) coefficients.
#[derive(Clone, Debug)]
pub struct SecretKey {
    /// Secret vector with small coefficients.
    pub s: PolyVec,
}

/// The product `A · v` as `mul_vec` computes it.
pub open spec fn mat_vec(m: Seq<Seq<PolyView>>, v: Seq<PolyView>, k: int) -> Seq<PolyView> {
    Seq::new(m.len(), |i: int| ip_view(m[i], v, k))
}

/// `k` entries of dimension `n` and modulus `q` with small coefficients.
pub open spec fn small_vec(v: Seq<PolyView>, k: int, n: int, q: int, eta: int) -> bool {
    &&& v.len() == k
    &&& shaped(v, k, n, q)
    &&& forall|i: int| 0 <= i < k ==> (#[trigger] v[i]).c.len() == n && small(v[i].c, eta, q)
}

/// The shape of a public key for `params`: a k×k matrix whose entries have
/// `n` coefficients (any `i64`), and a vector of `k` polynomials of dimension n.
pub open spec fn pk_shaped(pk: &PublicKey, params: &PqhvParams) -> bool {
    let ghost k = params.k as int;
    let ghost n = params.n as int;
    let ghost q = params.q as int;
    &&& pk.a.k == k
    &&& pk.a@.len() == k
    &&& forall|i: int|
        0 <= i < k ==> (#[trigger] pk.a.rows@[i]).k == k && pk.a@[i].len() == k && vec_shape(
            pk.a@[i],
            k,
            n,
            q,
        )
    &&& pk.b.k == k
    &&& pk.b@.len() == k
    &&& shaped(pk.b@, k, n, q)
    &&& forall|i: int| 0 <= i < k ==> (#[trigger] pk.b@[i]).c.len() == n
}

/// `b = A·s + e` for a noise vector `e` with CBD(η) coefficients.
pub open spec fn keys_related(pk: &PublicKey, s: Seq<PolyView>, params: &PqhvParams) -> bool {
    exists|e: Seq<PolyView>|
        small_vec(e, params.k as int, params.n as int, params.q as int, params.eta as int)
            && #[trigger] vec_add(mat_vec(pk.a@, s, params.k as int), e) == pk.b@
}

/// The relation between the keys: `b = A·s + e` for a noise vector `e`
/// with CBD(η) coefficients.
pub open spec fn key_relation(pk: &PublicKey, sk: &SecretKey, params: &PqhvParams) -> bool {
    keys_related(pk, sk.s@, params)
}

/// Generates a key pair: `A` uniform, `s` and `e` from CBD(η), `b = A·s + e`.
pub fn keygen(params: &PqhvParams, rng: &mut ChaCha20Rng) -> (r: (PublicKey, SecretKey))
    requires
        modulus_ok(params.q as int),
        params.eta <= 16,
        params.k > 0,
    ensures
        pk_shaped(&r.0, params),
        r.1.s.k == params.k,
        small_vec(r.1.s@, params.k as int, params.n as int, params.q as int, params.eta as int),
        key_relation(&r.0, &r.1, params),
{
    let a = PolyMatrix::new_random(params, rng);
    let s = PolyVec::sample_cbd(params, params.eta, rng);
    let e = PolyVec::sample_cbd(params, params.eta, rng);
    let ghost k = params.k as int;
    let ghost n = params.n as int;
    let ghost q = params.q as int;
    assert(s@[0].n == n && s@[0].q == q);
    let a_s = a.mul_vec(&s);
    assert forall|i: int|
        0 <= i < crate::matrix::min_len_pv(a_s@, e@) implies (#[trigger] a_s@[i]).n == e@[i].n
        && a_s@[i].q == e@[i].q && modulus_ok(a_s@[i].q) && crate::poly::add_fits(
        a_s@[i].c,
        e@[i].c,
    ) by {
        assert(small(e@[i].c, params.eta as int, q));
        assert forall|d: int|
            0 <= d < crate::poly::min_len(a_s@[i].c, e@[i].c) implies crate::poly::fits_i64(
            #[trigger] a_s@[i].c[d] + e@[i].c[d],
        ) by {
            assert(within(a_s@[i].c, q));
        }
    }
    let b = a_s.add(&e);
    let pk = PublicKey { a, b };
    let sk = SecretKey { s };
    assert(a_s@ =~= mat_vec(pk.a@, sk.s@, k));
    assert(vec_add(mat_vec(pk.a@, sk.s@, k), e@) == pk.b@);
    (pk, sk)
}

impl SecretKey {
    /// Overwrites every coefficient of the secret with zero in place, in the
    /// buffers that hold it, keeping its shape. A `SecretKey` does not call
    /// this on drop by itself: the library defines no destructor for it.
    pub fn zeroize(&mut self)
        ensures
            final(self).s.k == old(self).s.k,
            final(self).s@.len() == old(self).s@.len(),
            forall|i: int|
                0 <= i < old(self).s@.len() ==> (#[trigger] final(self).s@[i]).n == old(
                    self,
                ).s@[i].n && final(self).s@[i].q == old(self).s@[i].q && final(self).s@[i].c
                    == Seq::new(old(self).s@[i].c.len(), |d: int| 0int),
    {
        let ghost orig = self.s@;
        let mut taken: Vec<Poly> = Vec::new();
        std::mem::swap(&mut taken, &mut self.s.polys);
        let ghost orig_polys = taken@;
        assert(forall|j: int| 0 <= j < orig.len() ==> #[trigger] orig[j] == orig_polys[j]@);
        let len = taken.len();
        let mut cleared: Vec<Poly> = Vec::new();
        let mut i: usize = 0;
        while i < len
            invariant
                len == orig_polys.len(),
                orig.len() == len,
                forall|j: int| 0 <= j < orig.len() ==> #[trigger] orig[j] == orig_polys[j]@,
                i <= len,
                taken@ == orig_polys.subrange(i as int, len as int),
                cleared.len() == i,
                forall|j: int|
                    0 <= j < i ==> (#[trigger] cleared@[j])@.n == orig[j].n && cleared@[j]@.q
                        == orig[j].q && cleared@[j]@.c == Seq::new(orig[j].c.len(), |d: int| 0int),
            decreases len - i,
        {
            assert(taken@[0] == orig_polys[i as int]);
            let mut p = taken.remove(0);
            assert(taken@ =~= orig_polys.subrange(i + 1, len as int));
            let m = p.coeffs.len();
            let mut t: usize = 0;
            while t < m
                invariant
                    p.coeffs.len() == m,
                    p.n == orig_polys[i as int].n,
                    p.q == orig_polys[i as int].q,
                    m == orig_polys[i as int].coeffs.len(),
                    t <= m,
                    forall|d: int| 0 <= d < t ==> #[trigger] p.coeffs@[d] == 0,
                decreases m - t,
            {
                p.coeffs.set(t, 0);
                t = t + 1;
            }
            assert(p@.c =~= Seq::new(orig[i as int].c.len(), |d: int| 0int));
            cleared.push(p);
            i = i + 1;
        }
        self.s.polys = cleared;
    }
}

} // verus!
