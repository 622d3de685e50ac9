//! Ballot validity proof: a disjunctive Sigma protocol, made
//! non-interactive with Fiat-Shamir, showing that a ciphertext encrypts 0
//! or 1 without revealing which. The branch for the real vote is answered
//! honestly, the other is simulated, and the two challenges must add up to
//! the challenge derived from both commitments and the ciphertext.

use crate::bytes::{coeffs_le, push_coeffs_le, rows_le};
use crate::challenge::{challenge_coeffs, challenge_from_hash, chunk_views, sha256_spec, transcript_bytes, transcript_hash};
use crate::disjunctive::{
    branch_checkable, branch_commitment_bytes, branch_valid, commit, instance_shaped, masked_response,
    poly_from, polys_of, respond, rows_of, v_minus_message, verify_branch, ProofBranch,
};
use crate::encrypt::{encrypt_with, encrypts, enc_u, enc_v, mask_u, mask_v, transpose_view, ct_within, Ciphertext};
use crate::keygen::{mat_vec, pk_shaped, small_vec, PublicKey};
use crate::matrix::{vec_shape, ip_acc, shaped, small, vec_add, PolyVec};
use crate::params::PqhvParams;
use crate::poly::{
    add_fits, fits_i64, ints, message_coeffs, min_len, modulus_ok, seq_add, seq_reduce, seq_sub, sub_fits,
    Poly, PolyView,
};
use crate::ring::{canonical, seq_mul, within};
use rand_chacha::ChaCha20Rng;
use vstd::prelude::*;

verus! {

/// An encrypted vote together with its validity proof.
pub struct EncryptedBallot {
    /// The encrypted vote.
    pub ciphertext: Ciphertext,
    /// Zero-knowledge proof that the vote is 0 or 1.
    pub proof: BallotProof,
}

/// A zero-knowledge proof that an encrypted ballot encodes 0 or 1.
#[derive(Clone, Debug)]
pub struct BallotProof {
    /// Proof branch for m = 0.
    pub branch_0: ProofBranch,
    /// Proof branch for m = 1.
    pub branch_1: ProofBranch,
}

/// The coefficient vectors of the entries of a polynomial vector.
pub open spec fn poly_rows(v: Seq<Poly>) -> Seq<Seq<i64>> {
    v.map_values(|p: Poly| p.coeffs@)
}

/// The bytes the transcript takes for a pair `(u, v)`: every coefficient
/// of `u`, entry by entry, then of `v`, each as eight little-endian bytes.
pub open spec fn pair_bytes(u: Seq<Poly>, v: Seq<i64>) -> Seq<u8> {
    rows_le(poly_rows(u)) + coeffs_le(v)
}

/// The Fiat-Shamir challenge for two commitments and a ciphertext.
pub open spec fn global_challenge(
    commit_0: Seq<u8>,
    commit_1: Seq<u8>,
    ct: &Ciphertext,
    n: int,
) -> Seq<int> {
    challenge_coeffs(
        sha256_spec(transcript_bytes(seq![commit_0, commit_1, pair_bytes(ct.u.polys@, ct.v.coeffs@)])),
        n,
    )
}

/// The two partial challenges add up, modulo q, to the Fiat-Shamir challenge.
pub open spec fn challenges_match(ct: &Ciphertext, proof: &BallotProof, params: &PqhvParams) -> bool {
    let q = params.q as int;
    seq_reduce(seq_add(ints(proof.branch_0.challenge@), ints(proof.branch_1.challenge@), q), q)
        == seq_reduce(
        global_challenge(
            branch_commitment_bytes(proof.branch_0),
            branch_commitment_bytes(proof.branch_1),
            ct,
            params.n as int,
        ),
        q,
    )
}

/// The proof verifies: the challenges match and both branches verify.
pub open spec fn proof_valid(pk: &PublicKey, ct: &Ciphertext, proof: &BallotProof, params: &PqhvParams) -> bool {
    &&& challenges_match(ct, proof, params)
    &&& branch_valid(pk, ct, proof.branch_0, 0, params)
    &&& branch_valid(pk, ct, proof.branch_1, 1, params)
}

/// The verification arithmetic is defined on this proof.
pub open spec fn proof_checkable(pk: &PublicKey, ct: &Ciphertext, proof: &BallotProof, params: &PqhvParams) -> bool {
    &&& instance_shaped(pk, ct, params)
    &&& proof.branch_0.challenge@.len() >= params.n
    &&& proof.branch_1.challenge@.len() >= params.n
    &&& add_fits(ints(proof.branch_0.challenge@), ints(proof.branch_1.challenge@))
    &&& branch_checkable(pk, ct, proof.branch_0, 0, params)
    &&& branch_checkable(pk, ct, proof.branch_1, 1, params)
}

/// Bytes of a pair `(u, v)` for the transcript.
fn pair_to_bytes(u: &PolyVec, v: &Poly) -> (r: Vec<u8>)
    ensures
        r@ == pair_bytes(u.polys@, v.coeffs@),
{
    let mut bytes: Vec<u8> = Vec::new();
    let mut i: usize = 0;
    while i < u.polys.len()
        invariant
            i <= u.polys.len(),
            bytes@ == rows_le(poly_rows(u.polys@).subrange(0, i as int)),
        decreases u.polys.len() - i,
    {
        push_coeffs_le(&mut bytes, &u.polys[i].coeffs);
        proof {
            let t = poly_rows(u.polys@).subrange(0, i + 1);
            assert(t.drop_last() =~= poly_rows(u.polys@).subrange(0, i as int));
        }
        i = i + 1;
    }
    assert(poly_rows(u.polys@).subrange(0, u.polys.len() as int) =~= poly_rows(u.polys@));
    push_coeffs_le(&mut bytes, &v.coeffs);
    bytes
}

/// Transcript bytes of a commitment `(w_u, w_v)`.
fn commitment_to_bytes(u: &PolyVec, v: &Poly, params: &PqhvParams) -> (r: Vec<u8>)
    ensures
        r@ == pair_bytes(u.polys@, v.coeffs@),
{
    pair_to_bytes(u, v)
}

/// Transcript bytes of a ciphertext `(u, v)`.
fn ciphertext_to_bytes(ct: &Ciphertext, params: &PqhvParams) -> (r: Vec<u8>)
    ensures
        r@ == pair_bytes(ct.u.polys@, ct.v.coeffs@),
{
    pair_to_bytes(&ct.u, &ct.v)
}

/// The coefficient vectors of the entries of a polynomial vector.
fn to_rows(v: &PolyVec) -> (r: Vec<Vec<i64>>)
    ensures
        rows_of(r@) == poly_rows(v.polys@),
        r@.len() == v.polys@.len(),
        forall|i: int| 0 <= i < r@.len() ==> (#[trigger] r@[i])@ == v.polys@[i].coeffs@,
{
    let mut r: Vec<Vec<i64>> = Vec::new();
    let mut i: usize = 0;
    while i < v.polys.len()
        invariant
            i <= v.polys.len(),
            r@.len() == i,
            forall|j: int| 0 <= j < i ==> (#[trigger] r@[j])@ == v.polys@[j].coeffs@,
        decreases v.polys.len() - i,
    {
        r.push(v.polys[i].coeffs.clone());
        i = i + 1;
    }
    assert(rows_of(r@) =~= poly_rows(v.polys@));
    r
}

/// The Fiat-Shamir challenge polynomial for two commitments and a ciphertext.
fn fiat_shamir(commit_0: &Vec<u8>, commit_1: &Vec<u8>, ct_bytes: &Vec<u8>, params: &PqhvParams) -> (r: Poly)
    ensures
        r.n == params.n,
        r.q == params.q,
        r@.c == challenge_coeffs(
            sha256_spec(transcript_bytes(seq![commit_0@, commit_1@, ct_bytes@])),
            params.n as int,
        ),
        r@.c.len() == params.n,
        crate::challenge::ternary(r@.c),
{
    let mut fields: Vec<&[u8]> = Vec::new();
    fields.push(commit_0.as_slice());
    fields.push(commit_1.as_slice());
    fields.push(ct_bytes.as_slice());
    assert(chunk_views(fields@) =~= seq![commit_0@, commit_1@, ct_bytes@]);
    let global_hash = transcript_hash(fields.as_slice());
    challenge_from_hash(&global_hash, params)
}

/// Verifies a ballot proof: the partial challenges must add up, modulo q, to
/// the Fiat-Shamir challenge of both commitments and the ciphertext, and the
/// branch for 0 and the branch for 1 must both verify.
pub fn verify_ballot_proof(pk: &PublicKey, ct: &Ciphertext, proof: &BallotProof, params: &PqhvParams) -> (ok: bool)
    requires
        proof_checkable(pk, ct, proof, params),
    ensures
        ok == proof_valid(pk, ct, proof, params),
{
    let ct_bytes = ciphertext_to_bytes(ct, params);
    let commit_0_bytes = proof.branch_0.commitment_bytes();
    let commit_1_bytes = proof.branch_1.commitment_bytes();
    let global_challenge = fiat_shamir(&commit_0_bytes, &commit_1_bytes, &ct_bytes, params);
    let c0 = poly_from(&proof.branch_0.challenge, params);
    let c1 = poly_from(&proof.branch_1.challenge, params);
    let c_sum = c0.add(&c1);
    let q = params.q as i64;
    let mut sum_reduced = c_sum.clone();
    sum_reduced.reduce();
    let mut global_reduced = global_challenge.clone();
    global_reduced.reduce();
    proof {
        crate::disjunctive::lemma_ints_eq(sum_reduced.coeffs@, global_reduced.coeffs@);
    }
    if !crate::disjunctive::same_coeffs(&sum_reduced.coeffs, &global_reduced.coeffs) {
        return false;
    }
    let branch_0_ok = verify_branch(pk, ct, &proof.branch_0, 0, params);
    let branch_1_ok = verify_branch(pk, ct, &proof.branch_1, 1, params);
    branch_0_ok && branch_1_ok
}

/// The requirements for proving a ballot for `message` on ciphertext `ct`.
pub open spec fn provable(pk: &PublicKey, ct: &Ciphertext, message: u8, params: &PqhvParams) -> bool {
    &&& instance_shaped(pk, ct, params)
    &&& message <= 1
    &&& params.eta <= 16
    &&& ct.u@.len() == params.k
    &&& forall|i: int| 0 <= i < params.k ==> within((#[trigger] ct.u@[i]).c, params.q as int)
    &&& sub_fits(
        ct.v@.c,
        message_coeffs((1 - message) as u8, params.n as int, params.spec_encoding_scale()),
    )
}

/// Generates a simulated branch for `message`: random challenge (CBD(1)) and
/// responses (CBD(η)), and the commitment that makes them verify:
/// `w_u = Aᵀ·z_r + z_e1 − c·u` and `w_v = bᵀ·z_r + z_e2 − c·(v − Δ·m)`.
/// Returns the branch and the transcript bytes of its commitment.
fn simulate_branch(
    pk: &PublicKey,
    ct: &Ciphertext,
    message: u8,
    params: &PqhvParams,
    rng: &mut ChaCha20Rng,
) -> (res: (ProofBranch, Vec<u8>))
    requires
        instance_shaped(pk, ct, params),
        params.eta <= 16,
        message <= 1,
        ct.u@.len() == params.k,
        forall|i: int| 0 <= i < params.k ==> within((#[trigger] ct.u@[i]).c, params.q as int),
        sub_fits(ct.v@.c, message_coeffs(message, params.n as int, params.spec_encoding_scale())),
    ensures
        res.1@ == branch_commitment_bytes(res.0),
        branch_checkable(pk, ct, res.0, message, params),
        branch_valid(pk, ct, res.0, message, params),
        res.0.challenge@.len() == params.n,
        small(ints(res.0.challenge@), 1, params.q as int),
{
    let ghost k = params.k as int;
    let ghost n = params.n as int;
    let ghost q = params.q as int;
    let sim_c = Poly::sample_cbd(params, 1, rng);
    let z_r = PolyVec::sample_cbd(params, params.eta, rng);
    let z_e1 = PolyVec::sample_cbd(params, params.eta, rng);
    let z_e2 = Poly::sample_cbd(params, params.eta, rng);
    assert(sim_c.coeffs@.len() == sim_c@.c.len());
    let at_zr = mask_u(pk, params, &z_r, &z_e1);
    let mut commit_u_polys: Vec<Poly> = Vec::new();
    let mut i: usize = 0;
    while i < params.k
        invariant
            k == params.k,
            n == params.n,
            q == params.q,
            instance_shaped(pk, ct, params),
            ct.u@.len() == params.k,
            forall|j: int| 0 <= j < params.k ==> within((#[trigger] ct.u@[j]).c, q),
            sim_c.n == params.n,
            sim_c.q == params.q,
            sim_c.coeffs@.len() == params.n,
            at_zr@.len() == params.k,
            forall|j: int|
                0 <= j < params.k ==> (#[trigger] at_zr@[j]).c.len() == params.n && at_zr@[j].n
                    == params.n && at_zr@[j].q == params.q && within(at_zr@[j].c, q),
            i <= params.k,
            commit_u_polys.len() == i,
            forall|j: int|
                0 <= j < i ==> (#[trigger] commit_u_polys@[j])@ == (PolyView {
                    c: seq_sub(at_zr@[j].c, seq_mul(sim_c@.c, ct.u@[j].c, n, q), q),
                    n,
                    q,
                }),
        decreases params.k - i,
    {
        assert(ct.u@[i as int] == ct.u.polys@[i as int]@);
        assert(at_zr@[i as int] == at_zr.polys@[i as int]@);
        assert(ct.u.polys@[i as int].coeffs@.len() == ct.u@[i as int].c.len());
        let c_ui = sim_c.mul(&ct.u.polys[i]);
        assert forall|d: int| 0 <= d < min_len(at_zr@[i as int].c, c_ui@.c) implies fits_i64(
            #[trigger] at_zr@[i as int].c[d] - c_ui@.c[d],
        ) by {}
        let w_i = at_zr.polys[i].sub(&c_ui);
        commit_u_polys.push(w_i);
        i = i + 1;
    }
    let commit_u = PolyVec { polys: commit_u_polys, k: params.k };
    let msg_poly = Poly::from_message(message, params);
    let v_minus_msg = ct.v.sub(&msg_poly);
    assert(v_minus_msg.coeffs@.len() == v_minus_msg@.c.len());
    let c_vmsg = sim_c.mul(&v_minus_msg);
    let bt_zr = mask_v(pk, params, &z_r, &z_e2);
    assert forall|d: int| 0 <= d < min_len(bt_zr@.c, c_vmsg@.c) implies fits_i64(
        #[trigger] bt_zr@.c[d] - c_vmsg@.c[d],
    ) by {}
    let commit_v = bt_zr.sub(&c_vmsg);
    let commit_bytes = commitment_to_bytes(&commit_u, &commit_v, params);
    let branch = ProofBranch {
        commitment_u: to_rows(&commit_u),
        commitment_v: commit_v.coeffs.clone(),
        challenge: sim_c.coeffs.clone(),
        response_r: to_rows(&z_r),
        response_e1: to_rows(&z_e1),
        response_e2: z_e2.coeffs.clone(),
    };
    proof {
        lemma_simulated_branch(pk, ct, message, params, branch, commit_u, commit_v, sim_c, z_r, z_e1, z_e2, at_zr, bt_zr);
        assert(ints(branch.challenge@) == sim_c@.c);
    }
    (branch, commit_bytes)
}

/// The branch of `proof` for `m`.
pub open spec fn branch_for(proof: &BallotProof, m: u8) -> ProofBranch {
    if m == 0 {
        proof.branch_0
    } else {
        proof.branch_1
    }
}

/// Encrypts a vote and proves it valid with the same randomness.
pub fn encrypt_and_prove(pk: &PublicKey, message: u8, params: &PqhvParams, rng: &mut ChaCha20Rng) -> (ballot: EncryptedBallot)
    requires
        message <= 1,
        pk_shaped(pk, params),
        modulus_ok(params.q as int),
        params.eta <= 16,
        params.k > 0,
        params.n >= 1,
        params.plaintext_modulus_fits(),
    ensures
        ballot.ciphertext.u.k == params.k,
        ct_within(ballot.ciphertext@, params.k as int, params.n as int, params.q as int),
        encrypts(&ballot.ciphertext, pk, message, params),
        proof_checkable(pk, &ballot.ciphertext, &ballot.proof, params),
        proof_valid(pk, &ballot.ciphertext, &ballot.proof, params),
{
    let r = PolyVec::sample_cbd(params, params.eta, rng);
    let e1 = PolyVec::sample_cbd(params, params.eta, rng);
    let e2 = Poly::sample_cbd(params, params.eta, rng);
    let (u, v) = encrypt_with(pk, message, params, &r, &e1, &e2);
    let ct = Ciphertext { u, v };
    proof {
        lemma_encryption_provable(pk, &ct, message, params, r@, e1@, e2@.c);
    }
    let proof = prove_ballot_valid_with_witness(pk, &ct, message, &r, &e1, &e2, params, rng);
    EncryptedBallot { ciphertext: ct, proof }
}

/// Proves a ballot valid with a freshly sampled witness (the randomness of
/// the encryption is not known here). The simulated branch and the
/// challenges are consistent; the branch for `message` is answered with the
/// fresh witness.
pub fn prove_ballot_valid(
    pk: &PublicKey,
    ct: &Ciphertext,
    message: u8,
    params: &PqhvParams,
    rng: &mut ChaCha20Rng,
) -> (proof: BallotProof)
    requires
        provable(pk, ct, message, params),
        sub_fits(ct.v@.c, message_coeffs(message, params.n as int, params.spec_encoding_scale())),
    ensures
        proof_checkable(pk, ct, &proof, params),
        challenges_match(ct, &proof, params),
        branch_valid(pk, ct, branch_for(&proof, (1 - message) as u8), (1 - message) as u8, params),
{
    let r = PolyVec::sample_cbd(params, params.eta, rng);
    let e1 = PolyVec::sample_cbd(params, params.eta, rng);
    let e2 = Poly::sample_cbd(params, params.eta, rng);
    prove_ballot_valid_with_witness(pk, ct, message, &r, &e1, &e2, params, rng)
}

/// The proof for `ct` given a witness `(r, e1, e2)`: commit honestly for
/// `message`, simulate the other branch, split the Fiat-Shamir challenge
/// and respond.
#[verifier::spinoff_prover]
fn prove_ballot_valid_with_witness(
    pk: &PublicKey,
    ct: &Ciphertext,
    message: u8,
    r: &PolyVec,
    e1: &PolyVec,
    e2: &Poly,
    params: &PqhvParams,
    rng: &mut ChaCha20Rng,
) -> (proof: BallotProof)
    requires
        provable(pk, ct, message, params),
        sub_fits(ct.v@.c, message_coeffs(message, params.n as int, params.spec_encoding_scale())),
        r.k == params.k,
        e1.k == params.k,
        vec_shape(r@, params.k as int, params.n as int, params.q as int),
        vec_shape(e1@, params.k as int, params.n as int, params.q as int),
        e2.n == params.n,
        e2.q == params.q,
        e2@.c.len() == params.n,
        e2@.c.len() == params.n,
    ensures
        proof_checkable(pk, ct, &proof, params),
        challenges_match(ct, &proof, params),
        branch_valid(pk, ct, branch_for(&proof, (1 - message) as u8), (1 - message) as u8, params),
        crate::encrypt::encrypts_mod_q(ct, pk, r@, e1@, e2@.c, message, params) ==> branch_valid(
            pk,
            ct,
            branch_for(&proof, message),
            message,
            params,
        ),
{
    let ghost k = params.k as int;
    let ghost n = params.n as int;
    let ghost q = params.q as int;
    let (y, f1, f2, w_u, w_v) = commit(pk, params, rng);
    let sim_msg: u8 = 1 - message;
    let (sim_branch, sim_commit_bytes) = simulate_branch(pk, ct, sim_msg, params, rng);
    let real_commit_bytes = commitment_to_bytes(&w_u, &w_v, params);
    let ct_bytes = ciphertext_to_bytes(ct, params);
    let global_challenge = if message == 0 {
        fiat_shamir(&real_commit_bytes, &sim_commit_bytes, &ct_bytes, params)
    } else {
        fiat_shamir(&sim_commit_bytes, &real_commit_bytes, &ct_bytes, params)
    };
    let sim_challenge = poly_from(&sim_branch.challenge, params);
    assert forall|d: int| 0 <= d < min_len(global_challenge@.c, sim_challenge@.c) implies fits_i64(
        #[trigger] global_challenge@.c[d] - sim_challenge@.c[d],
    ) by {
        assert(crate::challenge::ternary(global_challenge@.c));
    }
    let real_challenge = global_challenge.sub(&sim_challenge);
    proof {
        lemma_respond_fits(params, &y, &f1, &f2, &real_challenge, r, e1, e2);
    }
    let (z_r, z_e1, z_e2) = respond(&y, &f1, &f2, &real_challenge, r, e1, e2, params);
    let real_branch = ProofBranch {
        commitment_u: to_rows(&w_u),
        commitment_v: w_v.coeffs.clone(),
        challenge: real_challenge.coeffs.clone(),
        response_r: to_rows(&z_r),
        response_e1: to_rows(&z_e1),
        response_e2: z_e2.coeffs.clone(),
    };
    proof {
        lemma_real_branch_checkable(
            pk, ct, message, params, real_branch, y@, f1@, f2@.c, real_challenge@.c, r@, e1@, e2@.c,
            w_u, w_v, z_r, z_e1, z_e2,
        );
        lemma_challenges_add(global_challenge@.c, sim_challenge@.c, q);
        assert(branch_commitment_bytes(real_branch) == real_commit_bytes@) by {
            assert(rows_of(real_branch.commitment_u@) =~= poly_rows(w_u.polys@));
        }
        if crate::encrypt::encrypts_mod_q(ct, pk, r@, e1@, e2@.c, message, params) {
            crate::matrix::lemma_polyvec_view(&w_u);
            assert forall|i: int| 0 <= i < k implies ints(#[trigger] real_branch.commitment_u@[i]@) == enc_u(
                pk,
                k,
                y@,
                f1@,
            )[i].c by {}
            assert(ints(real_branch.challenge@) == real_challenge@.c);
            crate::laws::law_honest_branch_valid(pk, ct, real_branch, message, params, r@, e1@, e2@.c, y@, f1@, f2@.c);
        }
    }
    if message == 0 {
        BallotProof { branch_0: real_branch, branch_1: sim_branch }
    } else {
        BallotProof { branch_0: sim_branch, branch_1: real_branch }
    }
}

/// The simulated branch is checkable and verifies.
proof fn lemma_simulated_branch(
    pk: &PublicKey,
    ct: &Ciphertext,
    message: u8,
    params: &PqhvParams,
    branch: ProofBranch,
    commit_u: PolyVec,
    commit_v: Poly,
    sim_c: Poly,
    z_r: PolyVec,
    z_e1: PolyVec,
    z_e2: Poly,
    at_zr: PolyVec,
    bt_zr: Poly,
)
    requires
        instance_shaped(pk, ct, params),
        params.eta <= 16,
        ct.u@.len() == params.k,
        forall|i: int| 0 <= i < params.k ==> within((#[trigger] ct.u@[i]).c, params.q as int),
        sub_fits(ct.v@.c, message_coeffs(message, params.n as int, params.spec_encoding_scale())),
        sim_c.n == params.n,
        sim_c.q == params.q,
        sim_c@.c.len() == params.n,
        z_r.k == params.k,
        z_e1.k == params.k,
        small_vec(z_r@, params.k as int, params.n as int, params.q as int, params.eta as int),
        small_vec(z_e1@, params.k as int, params.n as int, params.q as int, params.eta as int),
        z_e2.n == params.n,
        z_e2.q == params.q,
        z_e2@.c.len() == params.n,
        small(z_e2@.c, params.eta as int, params.q as int),
        at_zr@ == enc_u(pk, params.k as int, z_r@, z_e1@),
        at_zr@.len() == params.k,
        forall|j: int|
            0 <= j < params.k ==> (#[trigger] at_zr@[j]).c.len() == params.n && at_zr@[j].n == params.n
                && at_zr@[j].q == params.q && within(at_zr@[j].c, params.q as int),
        commit_u@.len() == params.k,
        forall|j: int|
            0 <= j < params.k ==> (#[trigger] commit_u@[j]) == (PolyView {
                c: seq_sub(
                    at_zr@[j].c,
                    seq_mul(sim_c@.c, ct.u@[j].c, params.n as int, params.q as int),
                    params.q as int,
                ),
                n: params.n as int,
                q: params.q as int,
            }),
        bt_zr@.c == seq_add(ip_acc(pk.b@, z_r@, params.k as int), z_e2@.c, params.q as int),
        bt_zr@.c.len() == params.n,
        within(bt_zr@.c, params.q as int),
        commit_v@.c == seq_sub(
            bt_zr@.c,
            seq_mul(sim_c@.c, v_minus_message(ct, message, params), params.n as int, params.q as int),
            params.q as int,
        ),
        branch.commitment_u@.len() == params.k,
        forall|i: int| 0 <= i < branch.commitment_u@.len() ==> (#[trigger] branch.commitment_u@[i])@
            == commit_u.polys@[i].coeffs@,
        branch.commitment_v@ == commit_v.coeffs@,
        branch.challenge@ == sim_c.coeffs@,
        branch.response_r@.len() == params.k,
        forall|i: int| 0 <= i < branch.response_r@.len() ==> (#[trigger] branch.response_r@[i])@
            == z_r.polys@[i].coeffs@,
        branch.response_e1@.len() == params.k,
        forall|i: int| 0 <= i < branch.response_e1@.len() ==> (#[trigger] branch.response_e1@[i])@
            == z_e1.polys@[i].coeffs@,
        branch.response_e2@ == z_e2.coeffs@,
    ensures
        branch_checkable(pk, ct, branch, message, params),
        branch_valid(pk, ct, branch, message, params),
        branch_commitment_bytes(branch) == pair_bytes(commit_u.polys@, commit_v.coeffs@),
{
    let k = params.k as int;
    let n = params.n as int;
    let q = params.q as int;
    assert(polys_of(branch.response_r@, n, q) =~= z_r@) by {
        assert forall|i: int| 0 <= i < k implies #[trigger] polys_of(branch.response_r@, n, q)[i] == z_r@[i] by {
            assert(z_r@[i] == z_r.polys@[i]@);
        }
    }
    assert(polys_of(branch.response_e1@, n, q) =~= z_e1@) by {
        assert forall|i: int| 0 <= i < k implies #[trigger] polys_of(branch.response_e1@, n, q)[i] == z_e1@[i] by {
            assert(z_e1@[i] == z_e1.polys@[i]@);
        }
    }
    assert(rows_of(branch.commitment_u@) =~= poly_rows(commit_u.polys@));
    assert(ints(branch.challenge@) == sim_c@.c);
    assert(ints(branch.commitment_v@) == commit_v@.c);
    assert(ints(branch.response_e2@) == z_e2@.c);
    crate::ring::lemma_seq_mul(sim_c@.c, crate::disjunctive::v_minus_message(ct, message, params), n, q);
    assert forall|i: int| 0 <= i < k implies #[trigger] ints(branch.commitment_u@[i]@) == commit_u@[i].c by {
        assert(commit_u@[i] == commit_u.polys@[i]@);
    }
    assert forall|i: int| 0 <= i < k implies add_fits(
        #[trigger] mat_vec(transpose_view(pk.a@, k), polys_of(branch.response_r@, n, q), k)[i].c,
        polys_of(branch.response_e1@, n, q)[i].c,
    ) by {
        crate::ring::lemma_mul_state(
            transpose_view(pk.a@, k)[i][0].c,
            z_r@[0].c,
            n,
            q,
            n,
        );
        crate::matrix::lemma_ip_acc(transpose_view(pk.a@, k)[i], z_r@, k, k);
    }
    assert forall|i: int| 0 <= i < branch.commitment_u@.len() implies add_fits(
        ints(#[trigger] branch.commitment_u@[i]@),
        seq_mul(ints(branch.challenge@), ct.u@[i].c, n, q),
    ) by {
        crate::ring::lemma_seq_mul(sim_c@.c, ct.u@[i].c, n, q);
        let x = at_zr@[i].c;
        let y = seq_mul(sim_c@.c, ct.u@[i].c, n, q);
        assert forall|d: int| 0 <= d < commit_u@[i].c.len() implies 0 <= #[trigger] commit_u@[i].c[d] < q by {
            vstd::arithmetic::div_mod::lemma_mod_bound(x[d] - y[d], q);
        }
    }
    crate::matrix::lemma_ip_acc(pk.b@, z_r@, k, k);
    assert forall|d: int| 0 <= d < commit_v@.c.len() implies 0 <= #[trigger] commit_v@.c[d] < q by {
        vstd::arithmetic::div_mod::lemma_mod_bound(
            bt_zr@.c[d] - seq_mul(sim_c@.c, v_minus_message(ct, message, params), n, q)[d],
            q,
        );
    }
    let mv = message_coeffs(message, n, params.spec_encoding_scale());
    assert(branch.challenge@.len() >= n);
    assert(branch.response_r@.len() >= k);
    assert forall|i: int| 0 <= i < k implies (#[trigger] branch.response_r@[i])@.len() >= n by {
        assert(z_r@[i] == z_r.polys@[i]@);
        assert(z_r@[i].c.len() == n);
    }
    assert(add_fits(ip_acc(pk.b@, polys_of(branch.response_r@, n, q), k), ints(branch.response_e2@)));
    assert(add_fits(ints(branch.commitment_v@), seq_mul(ints(branch.challenge@), v_minus_message(ct, message, params), n, q)));
    assert(branch_checkable(pk, ct, branch, message, params));
    assert forall|i: int| 0 <= i < branch.commitment_u@.len() implies seq_reduce(
        #[trigger] crate::disjunctive::lhs_u(pk, branch, params)[i].c,
        q,
    ) == seq_reduce(crate::disjunctive::rhs_u(ct, branch, params, i), q) by {
        crate::ring::lemma_seq_mul(sim_c@.c, ct.u@[i].c, n, q);
        crate::laws::law_poly_sub_add(at_zr@[i].c, seq_mul(sim_c@.c, ct.u@[i].c, n, q), q);
    }
    crate::laws::law_poly_sub_add(bt_zr@.c, seq_mul(sim_c@.c, v_minus_message(ct, message, params), n, q), q);
}

/// A ciphertext within (−q, q) satisfies the requirements of the prover.
proof fn lemma_encryption_provable(
    pk: &PublicKey,
    ct: &Ciphertext,
    message: u8,
    params: &PqhvParams,
    r: Seq<PolyView>,
    e1: Seq<PolyView>,
    e2: Seq<int>,
)
    requires
        message <= 1,
        pk_shaped(pk, params),
        modulus_ok(params.q as int),
        params.eta <= 16,
        params.k > 0,
        params.n >= 1,
        params.plaintext_modulus_fits(),
        ct.u.k == params.k,
        ct_within(ct@, params.k as int, params.n as int, params.q as int),
    ensures
        provable(pk, ct, message, params),
        sub_fits(ct.v@.c, message_coeffs(message, params.n as int, params.spec_encoding_scale())),
{
    lemma_message_sub_fits(ct.v@.c, message, params);
    lemma_message_sub_fits(ct.v@.c, (1 - message) as u8, params);
}

/// Subtracting an encoded bit from coefficients within (−q, q) does not overflow.
pub proof fn lemma_message_sub_fits(v: Seq<int>, m: u8, params: &PqhvParams)
    requires
        modulus_ok(params.q as int),
        within(v, params.q as int),
    ensures
        sub_fits(v, message_coeffs(m, params.n as int, params.spec_encoding_scale())),
{
    let q = params.q as int;
    let mc = message_coeffs(m, params.n as int, params.spec_encoding_scale());
    crate::params::lemma_encoding_scale_bound(params);
    assert((m & 1u8) <= 1u8) by (bit_vector);
    let delta = params.spec_encoding_scale();
    let b = (m & 1u8) as int;
    assert(0 <= b * delta <= q) by (nonlinear_arith)
        requires
            0 <= b <= 1,
            0 <= delta <= q,
    ;
    assert forall|d: int| 0 <= d < min_len(v, mc) implies fits_i64(#[trigger] v[d] - mc[d]) by {}
}

/// The responses of the honest branch do not overflow.
proof fn lemma_respond_fits(
    params: &PqhvParams,
    y: &PolyVec,
    f1: &PolyVec,
    f2: &Poly,
    c: &Poly,
    r: &PolyVec,
    e1: &PolyVec,
    e2: &Poly,
)
    requires
        modulus_ok(params.q as int),
        params.eta <= 16,
        c.n == params.n,
        c.q == params.q,
        c@.c.len() == params.n,
        small_vec(y@, params.k as int, params.n as int, params.q as int, params.eta as int),
        small_vec(f1@, params.k as int, params.n as int, params.q as int, params.eta as int),
        vec_shape(r@, params.k as int, params.n as int, params.q as int),
        vec_shape(e1@, params.k as int, params.n as int, params.q as int),
        f2.n == params.n,
        f2.q == params.q,
        f2@.c.len() == params.n,
        small(f2@.c, params.eta as int, params.q as int),
        e2.n == params.n,
        e2.q == params.q,
        e2@.c.len() == params.n,
        e2@.c.len() == params.n,
    ensures
        c.coeffs.len() >= c.n,
        e2.coeffs.len() >= e2.n,
        forall|i: int|
            0 <= i < params.k ==> add_fits(
                (#[trigger] y@[i]).c,
                seq_mul(c@.c, r@[i].c, c.n as int, c.q as int),
            ) && add_fits(f1@[i].c, seq_mul(c@.c, e1@[i].c, c.n as int, c.q as int)),
        add_fits(f2@.c, seq_mul(c@.c, e2@.c, c.n as int, c.q as int)),
{
    let n = params.n as int;
    let q = params.q as int;
    assert(c@.c.len() == c.coeffs@.len());
    assert(e2@.c.len() == e2.coeffs@.len());
    assert forall|i: int| 0 <= i < params.k implies add_fits(
        (#[trigger] y@[i]).c,
        seq_mul(c@.c, r@[i].c, n, q),
    ) && add_fits(f1@[i].c, seq_mul(c@.c, e1@[i].c, n, q)) by {
        crate::ring::lemma_seq_mul(c@.c, r@[i].c, n, q);
        crate::ring::lemma_seq_mul(c@.c, e1@[i].c, n, q);
        assert(small(y@[i].c, params.eta as int, q));
        assert(small(f1@[i].c, params.eta as int, q));
    }
    crate::ring::lemma_seq_mul(c@.c, e2@.c, n, q);
}

/// The honest branch is checkable.
proof fn lemma_real_branch_checkable(
    pk: &PublicKey,
    ct: &Ciphertext,
    message: u8,
    params: &PqhvParams,
    branch: ProofBranch,
    y: Seq<PolyView>,
    f1: Seq<PolyView>,
    f2: Seq<int>,
    c: Seq<int>,
    r: Seq<PolyView>,
    e1: Seq<PolyView>,
    e2: Seq<int>,
    w_u: PolyVec,
    w_v: Poly,
    z_r: PolyVec,
    z_e1: PolyVec,
    z_e2: Poly,
)
    requires
        provable(pk, ct, message, params),
        sub_fits(ct.v@.c, message_coeffs(message, params.n as int, params.spec_encoding_scale())),
        c.len() == params.n,
        canonical(c, params.q as int),
        small_vec(y, params.k as int, params.n as int, params.q as int, params.eta as int),
        small_vec(f1, params.k as int, params.n as int, params.q as int, params.eta as int),
        f2.len() == params.n,
        small(f2, params.eta as int, params.q as int),
        vec_shape(r, params.k as int, params.n as int, params.q as int),
        vec_shape(e1, params.k as int, params.n as int, params.q as int),
        e2.len() == params.n,
        e2.len() == params.n,
        w_u@.len() == params.k,
        forall|i: int|
            0 <= i < params.k ==> (#[trigger] w_u@[i]).c.len() == params.n && within(w_u@[i].c, params.q as int),
        w_v@.c.len() == params.n,
        within(w_v@.c, params.q as int),
        z_r@ == masked_response(y, PolyView { c, n: params.n as int, q: params.q as int }, r, params.k as int),
        z_e1@ == masked_response(f1, PolyView { c, n: params.n as int, q: params.q as int }, e1, params.k as int),
        z_e2@.c == seq_add(f2, seq_mul(c, e2, params.n as int, params.q as int), params.q as int),
        branch.commitment_u@.len() == w_u.polys@.len(),
        forall|i: int| 0 <= i < branch.commitment_u@.len() ==> (#[trigger] branch.commitment_u@[i])@
            == w_u.polys@[i].coeffs@,
        branch.commitment_v@ == w_v.coeffs@,
        ints(branch.challenge@) == c,
        branch.response_r@.len() == z_r.polys@.len(),
        forall|i: int| 0 <= i < branch.response_r@.len() ==> (#[trigger] branch.response_r@[i])@
            == z_r.polys@[i].coeffs@,
        branch.response_e1@.len() == z_e1.polys@.len(),
        forall|i: int| 0 <= i < branch.response_e1@.len() ==> (#[trigger] branch.response_e1@[i])@
            == z_e1.polys@[i].coeffs@,
        branch.response_e2@ == z_e2.coeffs@,
    ensures
        branch_checkable(pk, ct, branch, message, params),
        polys_of(branch.response_r@, params.n as int, params.q as int) == z_r@,
        polys_of(branch.response_e1@, params.n as int, params.q as int) == z_e1@,
{
    let k = params.k as int;
    let n = params.n as int;
    let q = params.q as int;
    crate::matrix::lemma_polyvec_view(&z_r);
    crate::matrix::lemma_polyvec_view(&z_e1);
    crate::matrix::lemma_polyvec_view(&w_u);
    assert forall|i: int| 0 <= i < k implies (#[trigger] z_r@[i]).c.len() == n && within(z_r@[i].c, q)
        && z_e1@[i].c.len() == n && within(z_e1@[i].c, q) && z_r@[i].n == n && z_r@[i].q == q
        && z_e1@[i].n == n && z_e1@[i].q == q by {
        crate::ring::lemma_seq_mul(c, r[i].c, n, q);
        crate::ring::lemma_seq_mul(c, e1[i].c, n, q);
        assert forall|d: int| 0 <= d < n implies -q < #[trigger] z_r@[i].c[d] < q by {
            crate::arith::lemma_trem(y[i].c[d] + seq_mul(c, r[i].c, n, q)[d], q);
        }
        assert forall|d: int| 0 <= d < n implies -q < #[trigger] z_e1@[i].c[d] < q by {
            crate::arith::lemma_trem(f1[i].c[d] + seq_mul(c, e1[i].c, n, q)[d], q);
        }
    }
    assert(polys_of(branch.response_r@, n, q) =~= z_r@) by {
        assert forall|i: int| 0 <= i < k implies #[trigger] polys_of(branch.response_r@, n, q)[i] == z_r@[i] by {
            assert(z_r@[i] == z_r.polys@[i]@);
        }
    }
    assert(polys_of(branch.response_e1@, n, q) =~= z_e1@) by {
        assert forall|i: int| 0 <= i < k implies #[trigger] polys_of(branch.response_e1@, n, q)[i] == z_e1@[i] by {
            assert(z_e1@[i] == z_e1.polys@[i]@);
        }
    }
    assert forall|i: int| 0 <= i < k implies (#[trigger] branch.response_r@[i])@.len() >= n by {
        assert(z_r@[i] == z_r.polys@[i]@);
    }
    assert forall|i: int| 0 <= i < k implies #[trigger] ints(branch.commitment_u@[i]@) == w_u@[i].c by {
        assert(w_u@[i] == w_u.polys@[i]@);
    }
    assert(ints(branch.commitment_v@) == w_v@.c);
    assert(ints(branch.response_e2@) == z_e2@.c);
    assert forall|i: int| 0 <= i < k implies add_fits(
        #[trigger] mat_vec(transpose_view(pk.a@, k), polys_of(branch.response_r@, n, q), k)[i].c,
        polys_of(branch.response_e1@, n, q)[i].c,
    ) by {
        crate::matrix::lemma_ip_acc(transpose_view(pk.a@, k)[i], z_r@, k, k);
    }
    assert forall|i: int| 0 <= i < branch.commitment_u@.len() implies add_fits(
        ints(#[trigger] branch.commitment_u@[i]@),
        seq_mul(ints(branch.challenge@), ct.u@[i].c, n, q),
    ) by {
        crate::ring::lemma_seq_mul(c, ct.u@[i].c, n, q);
    }
    crate::matrix::lemma_ip_acc(pk.b@, z_r@, k, k);
    crate::ring::lemma_seq_mul(c, e2, n, q);
    assert forall|d: int| 0 <= d < n implies -q < #[trigger] z_e2@.c[d] < q by {
        crate::arith::lemma_trem(f2[d] + seq_mul(c, e2, n, q)[d], q);
    }
    crate::ring::lemma_seq_mul(c, v_minus_message(ct, message, params), n, q);
    let mv = message_coeffs(message, n, params.spec_encoding_scale());
    assert(branch.challenge@.len() >= n);
    assert(add_fits(ip_acc(pk.b@, polys_of(branch.response_r@, n, q), k), ints(branch.response_e2@)));
    assert(add_fits(ints(branch.commitment_v@), seq_mul(ints(branch.challenge@), v_minus_message(ct, message, params), n, q)));
}

/// Splitting a challenge `g` into `g − s` and `s` adds back to `g` modulo q,
/// in either order.
proof fn lemma_challenges_add(g: Seq<int>, s: Seq<int>, q: int)
    requires
        modulus_ok(q),
        g.len() == s.len(),
    ensures
        seq_reduce(seq_add(seq_sub(g, s, q), s, q), q) == seq_reduce(g, q),
        seq_reduce(seq_add(s, seq_sub(g, s, q), q), q) == seq_reduce(g, q),
{
    crate::laws::law_poly_sub_add(g, s, q);
    assert(seq_add(s, seq_sub(g, s, q), q) =~= seq_add(seq_sub(g, s, q), s, q));
}

} // verus!
