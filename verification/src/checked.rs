//! Verification of ballot proofs received from untrusted parties: the shapes
//! and coefficient ranges are tested first, and the proof is verified only
//! when they hold.

use crate::ballot::{proof_checkable, proof_valid, verify_ballot_proof, BallotProof};
use crate::disjunctive::{branch_checkable, instance_shaped, polys_of, v_minus_message, ProofBranch};
use crate::encrypt::{transpose_view, Ciphertext};
use crate::keygen::{mat_vec, PublicKey};
use crate::matrix::{ip_acc, shaped, vec_shape, PolyVec};
use crate::params::PqhvParams;
use crate::poly::{add_fits, ints, min_len};
use crate::ring::{seq_mul, within};
use vstd::prelude::*;

verus! {

/// Exactly `n` coefficients, each in (−q, q).
pub open spec fn coeffs_bounded(c: Seq<i64>, n: int, q: int) -> bool {
    &&& c.len() == n
    &&& within(ints(c), q)
}

/// Exactly `k` coefficient vectors, each with exactly `n` coefficients in (−q, q).
pub open spec fn rows_bounded(rows: Seq<Vec<i64>>, k: int, n: int, q: int) -> bool {
    &&& rows.len() == k
    &&& forall|i: int| 0 <= i < k ==> coeffs_bounded(#[trigger] rows[i]@, n, q)
}

/// Every part of the branch has the dimensions of `params` and coefficients in (−q, q).
pub open spec fn branch_bounded(b: ProofBranch, params: &PqhvParams) -> bool {
    let k = params.k as int;
    let n = params.n as int;
    let q = params.q as int;
    &&& rows_bounded(b.commitment_u@, k, n, q)
    &&& coeffs_bounded(b.commitment_v@, n, q)
    &&& coeffs_bounded(b.challenge@, n, q)
    &&& rows_bounded(b.response_r@, k, n, q)
    &&& rows_bounded(b.response_e1@, k, n, q)
    &&& coeffs_bounded(b.response_e2@, n, q)
}

/// The key, ciphertext and proof have the shapes of `params`, `v` and every
/// part of the proof have coefficients in (−q, q).
pub open spec fn proof_well_formed(pk: &PublicKey, ct: &Ciphertext, proof: &BallotProof, params: &PqhvParams) -> bool {
    &&& instance_shaped(pk, ct, params)
    &&& coeffs_bounded(ct.v.coeffs@, params.n as int, params.q as int)
    &&& branch_bounded(proof.branch_0, params)
    &&& branch_bounded(proof.branch_1, params)
}

/// Whether `c` has exactly `n` coefficients in (−q, q).
fn coeffs_in_range(c: &Vec<i64>, n: usize, q: u64) -> (r: bool)
    requires
        q <= i64::MAX,
    ensures
        r == coeffs_bounded(c@, n as int, q as int),
{
    if c.len() != n {
        return false;
    }
    let qi = q as i64;
    let mut i: usize = 0;
    while i < n
        invariant
            c.len() == n,
            qi == q,
            i <= n,
            forall|j: int| 0 <= j < i ==> -(q as int) < #[trigger] c@[j] < q,
        decreases n - i,
    {
        if c[i] <= -qi || c[i] >= qi {
            assert(!within(ints(c@), q as int)) by {
                assert(ints(c@)[i as int] == c@[i as int]);
            }
            return false;
        }
        i = i + 1;
    }
    assert forall|j: int| 0 <= j < ints(c@).len() implies -(q as int) < #[trigger] ints(c@)[j] < q by {
        assert(ints(c@)[j] == c@[j]);
    }
    true
}

/// Whether `rows` has exactly `k` rows of exactly `n` coefficients in (−q, q).
fn rows_in_range(rows: &Vec<Vec<i64>>, k: usize, n: usize, q: u64) -> (r: bool)
    requires
        q <= i64::MAX,
    ensures
        r == rows_bounded(rows@, k as int, n as int, q as int),
{
    if rows.len() != k {
        return false;
    }
    let mut i: usize = 0;
    while i < k
        invariant
            rows.len() == k,
            q <= i64::MAX,
            i <= k,
            forall|j: int| 0 <= j < i ==> coeffs_bounded(#[trigger] rows@[j]@, n as int, q as int),
        decreases k - i,
    {
        if !coeffs_in_range(&rows[i], n, q) {
            return false;
        }
        i = i + 1;
    }
    true
}

/// Whether the branch has the dimensions of `params` and coefficients in (−q, q).
fn branch_in_range(b: &ProofBranch, params: &PqhvParams) -> (r: bool)
    requires
        params.q <= i64::MAX,
    ensures
        r == branch_bounded(*b, params),
{
    let k: usize = params.k;
    let n: usize = params.n;
    let q: u64 = params.q;
    rows_in_range(&b.commitment_u, k, n, q) && coeffs_in_range(&b.commitment_v, n, q) && coeffs_in_range(
        &b.challenge,
        n,
        q,
    ) && rows_in_range(&b.response_r, k, n, q) && rows_in_range(&b.response_e1, k, n, q)
        && coeffs_in_range(&b.response_e2, n, q)
}

/// Whether the first `k` entries of `v` have dimension `n`, modulus `q` and at
/// least (`exact` false) or exactly (`exact` true) `n` coefficients.
fn vec_dims(v: &PolyVec, k: usize, n: usize, q: u64, exact: bool) -> (r: bool)
    ensures
        r == (shaped(v@, k as int, n as int, q as int) && (exact ==> forall|i: int|
            0 <= i < k ==> (#[trigger] v@[i]).c.len() == n)),
{
    if v.polys.len() < k {
        return false;
    }
    let mut i: usize = 0;
    while i < k
        invariant
            v.polys.len() >= k,
            i <= k,
            forall|j: int|
                0 <= j < i ==> (#[trigger] v@[j]).n == n && v@[j].q == q && v@[j].c.len() >= n && (exact
                    ==> v@[j].c.len() == n),
        decreases k - i,
    {
        let p = &v.polys[i];
        assert(v@[i as int] == p@);
        if p.n != n || p.q != q || p.coeffs.len() < n || (exact && p.coeffs.len() != n) {
            return false;
        }
        i = i + 1;
    }
    true
}

/// Whether the key and ciphertext have the shapes of `params`.
fn instance_ok(pk: &PublicKey, ct: &Ciphertext, params: &PqhvParams) -> (r: bool)
    ensures
        r == instance_shaped(pk, ct, params),
{
    let k: usize = params.k;
    let n: usize = params.n;
    let q: u64 = params.q;
    if q == 0 || q > 0x4000_0000_0000_0000 || k == 0 || n == 0 {
        return false;
    }
    if params.max_additions as u64 > (u64::MAX - 1) / 2 {
        return false;
    }
    if pk.a.k != k || pk.a.rows.len() != k {
        return false;
    }
    let mut i: usize = 0;
    while i < k
        invariant
            pk.a.rows.len() == k,
            k == params.k,
            n == params.n,
            q == params.q,
            i <= k,
            forall|j: int|
                0 <= j < i ==> (#[trigger] pk.a.rows@[j]).k == k && pk.a@[j].len() == k && vec_shape(
                    pk.a@[j],
                    k as int,
                    n as int,
                    q as int,
                ),
        decreases k - i,
    {
        let row = &pk.a.rows[i];
        assert(pk.a@[i as int] == row@);
        if row.k != k || row.polys.len() != k || !vec_dims(row, k, n, q, true) {
            return false;
        }
        i = i + 1;
    }
    if pk.b.k != k || pk.b.polys.len() != k || !vec_dims(&pk.b, k, n, q, true) {
        return false;
    }
    if ct.u.k != k || !vec_dims(&ct.u, k, n, q, false) {
        return false;
    }
    assert(ct.v@.c.len() == ct.v.coeffs@.len());
    ct.v.n == n && ct.v.q == q && ct.v.coeffs.len() >= n
}

/// A well-formed proof satisfies the requirements of `verify_ballot_proof`.
proof fn lemma_well_formed_checkable(pk: &PublicKey, ct: &Ciphertext, proof: &BallotProof, params: &PqhvParams)
    requires
        proof_well_formed(pk, ct, proof, params),
    ensures
        proof_checkable(pk, ct, proof, params),
{
    lemma_branch_checkable(pk, ct, proof.branch_0, 0, params);
    lemma_branch_checkable(pk, ct, proof.branch_1, 1, params);
    let q = params.q as int;
    let c0 = ints(proof.branch_0.challenge@);
    let c1 = ints(proof.branch_1.challenge@);
    assert forall|d: int| 0 <= d < min_len(c0, c1) implies crate::poly::fits_i64(#[trigger] c0[d] + c1[d]) by {
        assert(c0[d] == proof.branch_0.challenge@[d]);
        assert(c1[d] == proof.branch_1.challenge@[d]);
    }
}

/// A bounded branch of a well-shaped instance satisfies `branch_checkable`.
proof fn lemma_branch_checkable(pk: &PublicKey, ct: &Ciphertext, b: ProofBranch, message: u8, params: &PqhvParams)
    requires
        instance_shaped(pk, ct, params),
        coeffs_bounded(ct.v.coeffs@, params.n as int, params.q as int),
        branch_bounded(b, params),
    ensures
        branch_checkable(pk, ct, b, message, params),
{
    let k = params.k as int;
    let n = params.n as int;
    let q = params.q as int;
    let zr = polys_of(b.response_r@, n, q);
    let ze1 = polys_of(b.response_e1@, n, q);
    let c = ints(b.challenge@);
    assert forall|i: int| 0 <= i < k implies (#[trigger] zr[i]).c.len() == n && zr[i].n == n && zr[i].q == q
        && within(zr[i].c, q) && within(ze1[i].c, q) && ze1[i].c.len() == n by {
        assert(coeffs_bounded(b.response_r@[i]@, n, q));
        assert(coeffs_bounded(b.response_e1@[i]@, n, q));
    }
    assert(shaped(zr, k, n, q));
    assert forall|i: int| 0 <= i < k implies (#[trigger] b.response_r@[i])@.len() >= n by {
        assert(coeffs_bounded(b.response_r@[i]@, n, q));
    }
    assert forall|i: int| 0 <= i < k implies add_fits(
        #[trigger] mat_vec(transpose_view(pk.a@, k), zr, k)[i].c,
        ze1[i].c,
    ) by {
        crate::matrix::lemma_ip_acc(transpose_view(pk.a@, k)[i], zr, k, k);
        let x = mat_vec(transpose_view(pk.a@, k), zr, k)[i].c;
        assert forall|d: int| 0 <= d < min_len(x, ze1[i].c) implies crate::poly::fits_i64(
            #[trigger] x[d] + ze1[i].c[d],
        ) by {}
    }
    assert forall|i: int| 0 <= i < b.commitment_u@.len() implies add_fits(
        ints(#[trigger] b.commitment_u@[i]@),
        seq_mul(c, ct.u@[i].c, n, q),
    ) by {
        assert(coeffs_bounded(b.commitment_u@[i]@, n, q));
        crate::ring::lemma_seq_mul(c, ct.u@[i].c, n, q);
        let x = ints(b.commitment_u@[i]@);
        let y = seq_mul(c, ct.u@[i].c, n, q);
        assert forall|d: int| 0 <= d < min_len(x, y) implies crate::poly::fits_i64(#[trigger] x[d] + y[d]) by {}
    }
    crate::matrix::lemma_ip_acc(pk.b@, zr, k, k);
    let bz = ip_acc(pk.b@, zr, k);
    let ze2 = ints(b.response_e2@);
    assert forall|d: int| 0 <= d < min_len(bz, ze2) implies crate::poly::fits_i64(#[trigger] bz[d] + ze2[d]) by {}
    crate::ballot::lemma_message_sub_fits(ct.v@.c, message, params);
    let vm = v_minus_message(ct, message, params);
    crate::ring::lemma_seq_mul(c, vm, n, q);
    let cv = ints(b.commitment_v@);
    let y = seq_mul(c, vm, n, q);
    assert forall|d: int| 0 <= d < min_len(cv, y) implies crate::poly::fits_i64(#[trigger] cv[d] + y[d]) by {}
}

/// Verifies a ballot proof from an untrusted source: `None` when the key,
/// ciphertext or proof does not have the shapes of `params` or a coefficient
/// of `v` or of the proof lies outside (−q, q); otherwise the verdict of
/// `verify_ballot_proof`.
pub fn verify_ballot_proof_checked(
    pk: &PublicKey,
    ct: &Ciphertext,
    proof: &BallotProof,
    params: &PqhvParams,
) -> (r: Option<bool>)
    ensures
        r == (if proof_well_formed(pk, ct, proof, params) {
            Some(proof_valid(pk, ct, proof, params))
        } else {
            None::<bool>
        }),
{
    if !instance_ok(pk, ct, params) {
        return None;
    }
    if !coeffs_in_range(&ct.v.coeffs, params.n, params.q) || !branch_in_range(&proof.branch_0, params)
        || !branch_in_range(&proof.branch_1, params) {
        return None;
    }
    proof {
        lemma_well_formed_checkable(pk, ct, proof, params);
    }
    Some(verify_ballot_proof(pk, ct, proof, params))
}

} // verus!
