//! The Sigma-protocol branches of the ballot validity proof.
//!
//! A branch for message `m` holds a commitment `(w_u, w_v)`, a challenge `c`
//! and responses `(z_r, z_e1, z_e2)`; it verifies when
//! `Aᵀ·z_r + z_e1 = w_u + c·u` and `bᵀ·z_r + z_e2 = w_v + c·(v − Δ·m)`
//! modulo q.

use crate::arith::lemma_trem;
use crate::bytes::{coeffs_le, push_coeffs_le, rows_le};
use crate::encrypt::{transpose_view, Ciphertext};
use crate::keygen::{mat_vec, pk_shaped, small_vec, PublicKey};
use crate::matrix::{ip_acc, min_len_pv, shaped, small, vec_add, PolyMatrix, PolyVec};
use crate::params::PqhvParams;
use crate::poly::{
    add_fits, fits_i64, ints, message_coeffs, min_len, modulus_ok, seq_add, seq_reduce, seq_sub, sub_fits,
    Poly, PolyView,
};
use crate::ring::{canonical, seq_mul, within};
use rand_chacha::ChaCha20Rng;
use vstd::prelude::*;

verus! {

/// One branch of the disjunctive proof, with polynomials as coefficient vectors.
#[derive(Clone, Debug)]
pub struct ProofBranch {
    /// Commitment `Aᵀ·y + f₁` (k polynomials).
    pub commitment_u: Vec<Vec<i64>>,
    /// Commitment `bᵀ·y + f₂`.
    pub commitment_v: Vec<i64>,
    /// Partial challenge polynomial.
    pub challenge: Vec<i64>,
    /// Response `z = y + c·r` (k polynomials).
    pub response_r: Vec<Vec<i64>>,
    /// Response `z_e1 = f₁ + c·e₁` (k polynomials).
    pub response_e1: Vec<Vec<i64>>,
    /// Response `z_e2 = f₂ + c·e₂`.
    pub response_e2: Vec<i64>,
}

/// The coefficient vectors of a list of polynomials.
pub open spec fn rows_of(v: Seq<Vec<i64>>) -> Seq<Seq<i64>> {
    v.map_values(|r: Vec<i64>| r@)
}

/// The polynomials, of dimension `n` and modulus `q`, of coefficient vectors.
pub open spec fn polys_of(v: Seq<Vec<i64>>, n: int, q: int) -> Seq<PolyView> {
    v.map_values(|r: Vec<i64>| PolyView { c: ints(r@), n, q })
}

/// The bytes that the transcript hash takes for a commitment.
pub open spec fn branch_commitment_bytes(b: ProofBranch) -> Seq<u8> {
    rows_le(rows_of(b.commitment_u@)) + coeffs_le(b.commitment_v@)
}

impl ProofBranch {
    /// The commitment as bytes: every coefficient of `commitment_u`, row by
    /// row, then of `commitment_v`, each as eight little-endian bytes.
    pub fn commitment_bytes(&self) -> (r: Vec<u8>)
        ensures
            r@ == branch_commitment_bytes(*self),
    {
        let mut bytes: Vec<u8> = Vec::new();
        let mut i: usize = 0;
        while i < self.commitment_u.len()
            invariant
                i <= self.commitment_u.len(),
                bytes@ == rows_le(rows_of(self.commitment_u@).subrange(0, i as int)),
            decreases self.commitment_u.len() - i,
        {
            push_coeffs_le(&mut bytes, &self.commitment_u[i]);
            proof {
                let t = rows_of(self.commitment_u@).subrange(0, i + 1);
                assert(t.drop_last() =~= rows_of(self.commitment_u@).subrange(0, i as int));
            }
            i = i + 1;
        }
        assert(rows_of(self.commitment_u@).subrange(0, self.commitment_u.len() as int) =~= rows_of(
            self.commitment_u@,
        ));
        push_coeffs_le(&mut bytes, &self.commitment_v);
        bytes
    }
}

/// The public key and ciphertext fit `params`: a k×k matrix of polynomials
/// with `n` coefficients, `b` and `u` with `k` entries of dimension `n`, and
/// `v` of dimension `n`, all with modulus `q`.
pub open spec fn instance_shaped(pk: &PublicKey, ct: &Ciphertext, params: &PqhvParams) -> bool {
    let k = params.k as int;
    let n = params.n as int;
    let q = params.q as int;
    &&& pk_shaped(pk, params)
    &&& modulus_ok(q)
    &&& k > 0
    &&& n >= 1
    &&& params.plaintext_modulus_fits()
    &&& ct.u.k == k
    &&& shaped(ct.u@, k, n, q)
    &&& ct.v.n == n
    &&& ct.v.q == q
    &&& ct.v@.c.len() >= n
}

/// `v − Δ·m` as the branch check computes it.
pub open spec fn v_minus_message(ct: &Ciphertext, message: u8, params: &PqhvParams) -> Seq<int> {
    seq_sub(
        ct.v@.c,
        message_coeffs(message, params.n as int, params.spec_encoding_scale()),
        params.q as int,
    )
}

/// Left side of the `u` check: `Aᵀ·z_r + z_e1`.
pub open spec fn lhs_u(pk: &PublicKey, b: ProofBranch, params: &PqhvParams) -> Seq<PolyView> {
    let k = params.k as int;
    let n = params.n as int;
    let q = params.q as int;
    vec_add(
        mat_vec(transpose_view(pk.a@, k), polys_of(b.response_r@, n, q), k),
        polys_of(b.response_e1@, n, q),
    )
}

/// Right side of the `u` check, entry `i`: `w_u[i] + c·u[i]`.
pub open spec fn rhs_u(ct: &Ciphertext, b: ProofBranch, params: &PqhvParams, i: int) -> Seq<int> {
    let n = params.n as int;
    let q = params.q as int;
    seq_add(ints(b.commitment_u@[i]@), seq_mul(ints(b.challenge@), ct.u@[i].c, n, q), q)
}

/// Left side of the `v` check: `bᵀ·z_r + z_e2`.
pub open spec fn lhs_v(pk: &PublicKey, b: ProofBranch, params: &PqhvParams) -> Seq<int> {
    let k = params.k as int;
    let n = params.n as int;
    let q = params.q as int;
    seq_add(ip_acc(pk.b@, polys_of(b.response_r@, n, q), k), ints(b.response_e2@), q)
}

/// Right side of the `v` check: `w_v + c·(v − Δ·m)`.
pub open spec fn rhs_v(ct: &Ciphertext, b: ProofBranch, message: u8, params: &PqhvParams) -> Seq<int> {
    let n = params.n as int;
    let q = params.q as int;
    seq_add(
        ints(b.commitment_v@),
        seq_mul(ints(b.challenge@), v_minus_message(ct, message, params), n, q),
        q,
    )
}

/// The branch for `message` verifies: the `u` commitment has all `k`
/// entries and both checks agree modulo q, entry by entry.
pub open spec fn branch_valid(
    pk: &PublicKey,
    ct: &Ciphertext,
    b: ProofBranch,
    message: u8,
    params: &PqhvParams,
) -> bool {
    let q = params.q as int;
    &&& b.commitment_u@.len() == params.k
    &&& forall|i: int|
        0 <= i < params.k ==> seq_reduce(#[trigger] lhs_u(pk, b, params)[i].c, q)
            == seq_reduce(rhs_u(ct, b, params, i), q)
    &&& seq_reduce(lhs_v(pk, b, params), q) == seq_reduce(rhs_v(ct, b, message, params), q)
}

/// The branch has the dimensions the checks index, and no sum of the checks
/// overflows an `i64`.
pub open spec fn branch_checkable(
    pk: &PublicKey,
    ct: &Ciphertext,
    b: ProofBranch,
    message: u8,
    params: &PqhvParams,
) -> bool {
    let k = params.k as int;
    let n = params.n as int;
    let q = params.q as int;
    let mv = message_coeffs(message, n, params.spec_encoding_scale());
    &&& b.challenge@.len() >= n
    &&& b.response_r@.len() >= k
    &&& forall|i: int| 0 <= i < k ==> (#[trigger] b.response_r@[i])@.len() >= n
    &&& b.response_e1@.len() >= k
    &&& forall|i: int|
        0 <= i < k ==> add_fits(
            #[trigger] mat_vec(transpose_view(pk.a@, k), polys_of(b.response_r@, n, q), k)[i].c,
            polys_of(b.response_e1@, n, q)[i].c,
        )
    &&& forall|i: int|
        0 <= i < b.commitment_u@.len() ==> add_fits(
            ints(#[trigger] b.commitment_u@[i]@),
            seq_mul(ints(b.challenge@), ct.u@[i].c, n, q),
        )
    &&& add_fits(ip_acc(pk.b@, polys_of(b.response_r@, n, q), k), ints(b.response_e2@))
    &&& sub_fits(ct.v@.c, mv)
    &&& add_fits(ints(b.commitment_v@), seq_mul(ints(b.challenge@), v_minus_message(ct, message, params), n, q))
}

/// Builds a polynomial of dimension `n` and modulus `q` from a coefficient vector.
pub(crate) fn poly_from(c: &Vec<i64>, params: &PqhvParams) -> (r: Poly)
    ensures
        r@ == (PolyView { c: ints(c@), n: params.n as int, q: params.q as int }),
        r.n == params.n,
        r.q == params.q,
{
    Poly { coeffs: c.clone(), n: params.n, q: params.q }
}

/// The least non-negative residues of the coefficients.
fn reduced(c: &Vec<i64>, q: i64) -> (r: Vec<i64>)
    requires
        modulus_ok(q as int),
    ensures
        ints(r@) == seq_reduce(ints(c@), q as int),
{
    let mut r: Vec<i64> = Vec::new();
    let mut i: usize = 0;
    while i < c.len()
        invariant
            modulus_ok(q as int),
            i <= c.len(),
            r.len() == i,
            forall|j: int| 0 <= j < i ==> #[trigger] r@[j] == c@[j] as int % q as int,
        decreases c.len() - i,
    {
        proof {
            crate::arith::lemma_trem_shift(c@[i as int] as int, q as int);
            lemma_trem(c@[i as int] as int, q as int);
        }
        r.push((c[i] % q + q) % q);
        i = i + 1;
    }
    assert(ints(r@) =~= seq_reduce(ints(c@), q as int));
    r
}

/// Coefficient vectors are equal.
pub(crate) fn same_coeffs(a: &Vec<i64>, b: &Vec<i64>) -> (r: bool)
    ensures
        r == (a@ == b@),
{
    if a.len() != b.len() {
        return false;
    }
    let mut i: usize = 0;
    while i < a.len()
        invariant
            a.len() == b.len(),
            i <= a.len(),
            forall|j: int| 0 <= j < i ==> a@[j] == b@[j],
        decreases a.len() - i,
    {
        if a[i] != b[i] {
            return false;
        }
        i = i + 1;
    }
    assert(a@ =~= b@);
    true
}

/// Residue sequences are equal exactly when the vectors they come from are.
pub(crate) proof fn lemma_ints_eq(a: Seq<i64>, b: Seq<i64>)
    ensures
        (ints(a) == ints(b)) == (a == b),
{
    assert(ints(a).len() == a.len());
    assert(ints(b).len() == b.len());
    if ints(a) == ints(b) {
        assert forall|i: int| 0 <= i < a.len() implies a[i] == b[i] by {
            assert(ints(a)[i] == ints(b)[i]);
            assert(ints(a)[i] == a[i] as int);
            assert(ints(b)[i] == b[i] as int);
        }
        assert(a =~= b);
    }
}

/// Verifies one branch: `Aᵀ·z_r + z_e1 = w_u + c·u` for all `k` entries
/// (a `u` commitment without exactly `k` entries is rejected) and
/// `bᵀ·z_r + z_e2 = w_v + c·(v − Δ·m)` modulo q.
pub fn verify_branch(
    pk: &PublicKey,
    ct: &Ciphertext,
    branch: &ProofBranch,
    message: u8,
    params: &PqhvParams,
) -> (ok: bool)
    requires
        instance_shaped(pk, ct, params),
        branch_checkable(pk, ct, *branch, message, params),
    ensures
        ok == branch_valid(pk, ct, *branch, message, params),
{
    let ghost k = params.k as int;
    let ghost n = params.n as int;
    let ghost q = params.q as int;
    if branch.commitment_u.len() != params.k {
        return false;
    }
    let challenge = poly_from(&branch.challenge, params);
    assert(challenge@.c.len() == challenge.coeffs@.len());
    let mut z_r_polys: Vec<Poly> = Vec::new();
    let mut i: usize = 0;
    while i < branch.response_r.len()
        invariant
            n == params.n,
            q == params.q,
            i <= branch.response_r.len(),
            z_r_polys.len() == i,
            forall|j: int|
                0 <= j < i ==> (#[trigger] z_r_polys@[j])@ == polys_of(branch.response_r@, n, q)[j],
        decreases branch.response_r.len() - i,
    {
        z_r_polys.push(poly_from(&branch.response_r[i], params));
        assert(polys_of(branch.response_r@, n, q)[i as int] == PolyView {
            c: ints(branch.response_r@[i as int]@),
            n,
            q,
        });
        i = i + 1;
    }
    let z_r = PolyVec { polys: z_r_polys, k: params.k };
    assert(z_r@ =~= polys_of(branch.response_r@, n, q));
    let mut z_e1_polys: Vec<Poly> = Vec::new();
    let mut i: usize = 0;
    while i < branch.response_e1.len()
        invariant
            n == params.n,
            q == params.q,
            i <= branch.response_e1.len(),
            z_e1_polys.len() == i,
            forall|j: int|
                0 <= j < i ==> (#[trigger] z_e1_polys@[j])@ == polys_of(branch.response_e1@, n, q)[j],
        decreases branch.response_e1.len() - i,
    {
        z_e1_polys.push(poly_from(&branch.response_e1[i], params));
        assert(polys_of(branch.response_e1@, n, q)[i as int] == PolyView {
            c: ints(branch.response_e1@[i as int]@),
            n,
            q,
        });
        i = i + 1;
    }
    let z_e1 = PolyVec { polys: z_e1_polys, k: params.k };
    assert(z_e1@ =~= polys_of(branch.response_e1@, n, q));
    let z_e2 = poly_from(&branch.response_e2, params);

    let at = pk.a.transpose();
    proof {
        lemma_transpose_shaped(pk, params, at);
    }
    let at_z = at.mul_vec(&z_r);
    assert(at_z@ =~= mat_vec(transpose_view(pk.a@, k), z_r@, k)) by {
        assert(at@ =~= transpose_view(pk.a@, k)) by {
            assert forall|j: int| 0 <= j < k implies at@[j] =~= transpose_view(pk.a@, k)[j] by {}
        }
    }
    proof {
        assert forall|j: int|
            0 <= j < min_len_pv(at_z@, z_e1@) implies (#[trigger] at_z@[j]).n == z_e1@[j].n && at_z@[j].q
            == z_e1@[j].q && modulus_ok(at_z@[j].q) && add_fits(at_z@[j].c, z_e1@[j].c) by {}
    }
    let lhs_u_vec = at_z.add(&z_e1);
    assert(z_e1@.len() == branch.response_e1@.len());
    assert(lhs_u_vec@ == lhs_u(pk, *branch, params));

    let mut i: usize = 0;
    while i < branch.commitment_u.len()
        invariant
            instance_shaped(pk, ct, params),
            branch_checkable(pk, ct, *branch, message, params),
            k == params.k,
            n == params.n,
            q == params.q,
            challenge@ == (PolyView { c: ints(branch.challenge@), n, q }),
            lhs_u_vec@ == lhs_u(pk, *branch, params),
            lhs_u_vec@.len() >= branch.commitment_u@.len(),
            i <= branch.commitment_u.len(),
            forall|j: int|
                0 <= j < i ==> seq_reduce(#[trigger] lhs_u(pk, *branch, params)[j].c, q) == seq_reduce(
                    rhs_u(ct, *branch, params, j),
                    q,
                ),
        decreases branch.commitment_u.len() - i,
    {
        let commit_poly = poly_from(&branch.commitment_u[i], params);
        assert(ct.u@[i as int] == ct.u.polys@[i as int]@);
        assert(challenge.coeffs@.len() == challenge@.c.len());
        assert(ct.u.polys@[i as int].coeffs@.len() == ct.u@[i as int].c.len());
        let c_times_u = challenge.mul(&ct.u.polys[i]);
        let rhs = commit_poly.add(&c_times_u);
        assert(rhs@.c == rhs_u(ct, *branch, params, i as int));
        assert(lhs_u_vec@[i as int] == lhs_u_vec.polys@[i as int]@);
        let lhs_reduced = reduced(&lhs_u_vec.polys[i].coeffs, params.q as i64);
        let rhs_reduced = reduced(&rhs.coeffs, params.q as i64);
        proof {
            lemma_ints_eq(lhs_reduced@, rhs_reduced@);
        }
        if !same_coeffs(&lhs_reduced, &rhs_reduced) {
            assert(lhs_u_vec.polys@[i as int]@.c == lhs_u(pk, *branch, params)[i as int].c);
            assert(seq_reduce(lhs_u(pk, *branch, params)[i as int].c, q) != seq_reduce(
                rhs_u(ct, *branch, params, i as int),
                q,
            ));
            return false;
        }
        i = i + 1;
    }

    assert(pk.b@[0].n == n && pk.b@[0].q == q);
    let b_z = pk.b.inner_product(&z_r);
    let lhs_v_poly = b_z.add(&z_e2);
    assert(lhs_v_poly@.c == lhs_v(pk, *branch, params));
    let msg_poly = Poly::from_message(message, params);
    let v_minus_msg = ct.v.sub(&msg_poly);
    assert(v_minus_msg.coeffs@.len() == v_minus_msg@.c.len());
    assert(challenge.coeffs@.len() == challenge@.c.len());
    let c_times_vmsg = challenge.mul(&v_minus_msg);
    let commit_v = poly_from(&branch.commitment_v, params);
    let rhs_v_poly = commit_v.add(&c_times_vmsg);
    assert(rhs_v_poly@.c == rhs_v(ct, *branch, message, params));
    let lhs_v_reduced = reduced(&lhs_v_poly.coeffs, params.q as i64);
    let rhs_v_reduced = reduced(&rhs_v_poly.coeffs, params.q as i64);
    proof {
        lemma_ints_eq(lhs_v_reduced@, rhs_v_reduced@);
    }
    same_coeffs(&lhs_v_reduced, &rhs_v_reduced)
}

/// The honest prover's first message: masks `y`, `f1`, `f2` from CBD(η) and
/// the commitment `(Aᵀ·y + f1, bᵀ·y + f2)`, an encryption of zero under the
/// masks. Returns `(y, f1, f2, w_u, w_v)`.
pub fn commit(pk: &PublicKey, params: &PqhvParams, rng: &mut ChaCha20Rng) -> (res: (
    PolyVec,
    PolyVec,
    Poly,
    PolyVec,
    Poly,
))
    requires
        pk_shaped(pk, params),
        modulus_ok(params.q as int),
        params.k > 0,
        params.eta <= 16,
    ensures
        res.0.k == params.k,
        res.1.k == params.k,
        small_vec(res.0@, params.k as int, params.n as int, params.q as int, params.eta as int),
        small_vec(res.1@, params.k as int, params.n as int, params.q as int, params.eta as int),
        res.2.n == params.n,
        res.2.q == params.q,
        res.2@.c.len() == params.n,
        small(res.2@.c, params.eta as int, params.q as int),
        res.3.k == params.k,
        res.3@ == crate::encrypt::enc_u(pk, params.k as int, res.0@, res.1@),
        res.3@.len() == params.k,
        forall|i: int|
            0 <= i < params.k ==> (#[trigger] res.3@[i]).c.len() == params.n && res.3@[i].n
                == params.n && res.3@[i].q == params.q && within(res.3@[i].c, params.q as int),
        res.4.n == params.n,
        res.4.q == params.q,
        res.4@.c == seq_add(ip_acc(pk.b@, res.0@, params.k as int), res.2@.c, params.q as int),
        res.4@.c.len() == params.n,
        within(res.4@.c, params.q as int),
{
    let y = PolyVec::sample_cbd(params, params.eta, rng);
    let f1 = PolyVec::sample_cbd(params, params.eta, rng);
    let f2 = Poly::sample_cbd(params, params.eta, rng);
    let w_u = crate::encrypt::mask_u(pk, params, &y, &f1);
    let w_v = crate::encrypt::mask_v(pk, params, &y, &f2);
    (y, f1, f2, w_u, w_v)
}

/// `a[i] + c·b[i]` for the first `k` entries, with the ring operations of `Poly`.
pub open spec fn masked_response(a: Seq<PolyView>, c: PolyView, b: Seq<PolyView>, k: int) -> Seq<PolyView> {
    Seq::new(
        k as nat,
        |i: int|
            PolyView { c: seq_add(a[i].c, seq_mul(c.c, b[i].c, c.n, c.q), c.q), n: a[i].n, q: a[i].q },
    )
}

/// The honest prover's response: `z_r = y + c·r`, `z_e1 = f1 + c·e1`,
/// `z_e2 = f2 + c·e2`.
pub fn respond(
    y: &PolyVec,
    f1: &PolyVec,
    f2: &Poly,
    challenge: &Poly,
    r: &PolyVec,
    e1: &PolyVec,
    e2: &Poly,
    params: &PqhvParams,
) -> (res: (PolyVec, PolyVec, Poly))
    requires
        modulus_ok(challenge.q as int),
        challenge.coeffs.len() >= challenge.n,
        shaped(y@, params.k as int, challenge.n as int, challenge.q as int),
        shaped(f1@, params.k as int, challenge.n as int, challenge.q as int),
        shaped(r@, params.k as int, challenge.n as int, challenge.q as int),
        shaped(e1@, params.k as int, challenge.n as int, challenge.q as int),
        f2.n == challenge.n,
        f2.q == challenge.q,
        e2.n == challenge.n,
        e2.q == challenge.q,
        e2.coeffs.len() >= e2.n,
        forall|i: int|
            0 <= i < params.k ==> add_fits(
                (#[trigger] y@[i]).c,
                seq_mul(challenge@.c, r@[i].c, challenge.n as int, challenge.q as int),
            ) && add_fits(
                f1@[i].c,
                seq_mul(challenge@.c, e1@[i].c, challenge.n as int, challenge.q as int),
            ),
        add_fits(f2@.c, seq_mul(challenge@.c, e2@.c, challenge.n as int, challenge.q as int)),
    ensures
        res.0.k == params.k,
        res.1.k == params.k,
        res.0@ == masked_response(y@, challenge@, r@, params.k as int),
        res.1@ == masked_response(f1@, challenge@, e1@, params.k as int),
        res.2.n == f2.n,
        res.2.q == f2.q,
        res.2@.c == seq_add(
            f2@.c,
            seq_mul(challenge@.c, e2@.c, challenge.n as int, challenge.q as int),
            challenge.q as int,
        ),
{
    let mut z_r_polys: Vec<Poly> = Vec::new();
    let mut z_e1_polys: Vec<Poly> = Vec::new();
    let mut i: usize = 0;
    while i < params.k
        invariant
            modulus_ok(challenge.q as int),
            challenge.coeffs.len() >= challenge.n,
            shaped(y@, params.k as int, challenge.n as int, challenge.q as int),
            shaped(f1@, params.k as int, challenge.n as int, challenge.q as int),
            shaped(r@, params.k as int, challenge.n as int, challenge.q as int),
            shaped(e1@, params.k as int, challenge.n as int, challenge.q as int),
            forall|j: int|
                0 <= j < params.k ==> add_fits(
                    (#[trigger] y@[j]).c,
                    seq_mul(challenge@.c, r@[j].c, challenge.n as int, challenge.q as int),
                ) && add_fits(
                    f1@[j].c,
                    seq_mul(challenge@.c, e1@[j].c, challenge.n as int, challenge.q as int),
                ),
            i <= params.k,
            z_r_polys.len() == i,
            z_e1_polys.len() == i,
            forall|j: int|
                0 <= j < i ==> (#[trigger] z_r_polys@[j])@ == masked_response(
                    y@,
                    challenge@,
                    r@,
                    params.k as int,
                )[j],
            forall|j: int|
                0 <= j < i ==> (#[trigger] z_e1_polys@[j])@ == masked_response(
                    f1@,
                    challenge@,
                    e1@,
                    params.k as int,
                )[j],
        decreases params.k - i,
    {
        assert(r@[i as int] == r.polys@[i as int]@);
        assert(y@[i as int] == y.polys@[i as int]@);
        assert(e1@[i as int] == e1.polys@[i as int]@);
        assert(f1@[i as int] == f1.polys@[i as int]@);
        assert(r.polys@[i as int].coeffs@.len() == r@[i as int].c.len());
        assert(e1.polys@[i as int].coeffs@.len() == e1@[i as int].c.len());
        let c_times_r = challenge.mul(&r.polys[i]);
        z_r_polys.push(y.polys[i].add(&c_times_r));
        let c_times_e1 = challenge.mul(&e1.polys[i]);
        z_e1_polys.push(f1.polys[i].add(&c_times_e1));
        i = i + 1;
    }
    let c_times_e2 = challenge.mul(e2);
    let z_e2 = f2.add(&c_times_e2);
    let z_r = PolyVec { polys: z_r_polys, k: params.k };
    let z_e1 = PolyVec { polys: z_e1_polys, k: params.k };
    assert(z_r@ =~= masked_response(y@, challenge@, r@, params.k as int));
    assert(z_e1@ =~= masked_response(f1@, challenge@, e1@, params.k as int));
    (z_r, z_e1, z_e2)
}

/// The transpose of a well-shaped public matrix is well-shaped.
pub proof fn lemma_transpose_shaped(pk: &PublicKey, params: &PqhvParams, at: PolyMatrix)
    requires
        pk_shaped(pk, params),
        at.k == pk.a.k,
        at@.len() == pk.a.k,
        forall|j: int| 0 <= j < pk.a.k ==> (#[trigger] at.rows@[j]).k == pk.a.k && at@[j].len() == pk.a.k,
        forall|j: int, i: int|
            0 <= j < pk.a.k && 0 <= i < pk.a.k ==> (#[trigger] at@[j][i]) == pk.a@[i][j],
    ensures
        forall|j: int|
            0 <= j < at@.len() ==> (#[trigger] at.rows@[j]).k == params.k && shaped(
                at@[j],
                params.k as int,
                params.n as int,
                params.q as int,
            ),
{
    let k = params.k as int;
    let n = params.n as int;
    let q = params.q as int;
    assert forall|j: int| 0 <= j < at@.len() implies (#[trigger] at.rows@[j]).k == params.k && shaped(
        at@[j],
        k,
        n,
        q,
    ) by {
        assert forall|i: int| 0 <= i < k implies (#[trigger] at@[j][i]).n == n && at@[j][i].q == q
            && at@[j][i].c.len() >= n by {
            assert(at@[j][i] == pk.a@[i][j]);
            assert(shaped(pk.a@[i], k, n, q));
        }
    }
}

} // verus!
