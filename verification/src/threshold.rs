//! Threshold decryption by additive secret sharing over R_q^k.
//!
//! The secret `s` is split into `n` shares `s_1 + ... + s_n = s (mod q)`:
//! the first `n − 1` are uniformly random and the last is the correction
//! `s − (s_1 + ... + s_{n−1})`. Every trustee computes `d_i = s_iᵀ·u`; the
//! combiner adds the `d_i`, which gives `sᵀ·u` modulo q, and decodes
//! `v − sᵀ·u`. All `n` trustees must take part (t = n).

use crate::arith::{lemma_trem, sum_to};
use crate::encrypt::Ciphertext;
use crate::keygen::{key_relation, keys_related, keygen, pk_shaped, small_vec, PublicKey, SecretKey};
use crate::matrix::{canonical_vec, shaped, vec_add, vec_sub, PolyVec};
use crate::params::PqhvParams;
use crate::poly::{
    add_fits, decode_tally, fits_i64, min_len, modulus_ok, seq_add, seq_reduce, seq_sub, sub_fits, Poly,
    PolyView,
};
use crate::ring::{canonical, within};
use crate::threshold_error::ThresholdError;
use rand_chacha::ChaCha20Rng;
use vstd::arithmetic::div_mod::{lemma_add_mod_noop, lemma_mod_bound, lemma_mod_twice, lemma_small_mod, lemma_sub_mod_noop};
use vstd::prelude::*;

verus! {

/// Threshold parameters: `n` trustees, of whom `t` must decrypt (here t = n).
#[derive(Clone, Debug, PartialEq, Eq)]
pub struct ThresholdParams {
    /// Minimum number of trustees required to decrypt (equal to `n`).
    pub t: usize,
    /// Total number of trustees.
    pub n: usize,
}

/// A trustee's additive share of the secret key.
#[derive(Clone, Debug)]
pub struct TrusteeKeyShare {
    /// The trustee's 1-based index, in [1, n].
    pub index: usize,
    /// The trustee's additive share of the secret vector.
    pub share: PolyVec,
}

/// A trustee's partial decryption `d_i = s_iᵀ·u`.
#[derive(Clone, Debug)]
pub struct PartialDecryption {
    /// The trustee's 1-based index.
    pub index: usize,
    /// The partial inner product `s_iᵀ·u`.
    pub value: Poly,
}

impl ThresholdParams {
    /// Threshold parameters for `t` of `n` trustees. Rejected, in this order:
    /// `n == 0`, `t == 0`, `t > n`, and `t != n` (additive sharing needs all).
    pub fn new(t: usize, n: usize) -> (r: Result<ThresholdParams, ThresholdError>)
        ensures
            n == 0 ==> r == Err::<ThresholdParams, ThresholdError>(ThresholdError::NoTrustees),
            n != 0 && t == 0 ==> r == Err::<ThresholdParams, ThresholdError>(
                ThresholdError::ThresholdTooSmall { t: 0 },
            ),
            n != 0 && t != 0 && t > n ==> r == Err::<ThresholdParams, ThresholdError>(
                ThresholdError::ThresholdExceedsTrustees { t, n },
            ),
            n != 0 && t != 0 && t < n ==> r == Err::<ThresholdParams, ThresholdError>(
                ThresholdError::ThresholdNotSupported { t, n },
            ),
            n != 0 && t == n ==> r == Ok::<ThresholdParams, ThresholdError>(ThresholdParams { t, n }),
    {
        if n == 0 {
            return Err(ThresholdError::NoTrustees);
        }
        if t == 0 {
            return Err(ThresholdError::ThresholdTooSmall { t: 0 });
        }
        if t > n {
            return Err(ThresholdError::ThresholdExceedsTrustees { t, n });
        }
        if t != n {
            return Err(ThresholdError::ThresholdNotSupported { t, n });
        }
        Ok(ThresholdParams { t, n })
    }
}

/// Coefficient `d` of entry `p` summed over the first `m` shares.
pub open spec fn share_coeff_sum(shares: Seq<TrusteeKeyShare>, m: int, p: int, d: int) -> int {
    sum_to(|i: int| shares[i].share@[p].c[d], m)
}

/// The shares add up to `s` modulo q, entry by entry and coefficient by coefficient.
pub open spec fn shares_sum_to(shares: Seq<TrusteeKeyShare>, s: Seq<PolyView>, params: &PqhvParams) -> bool {
    forall|p: int, d: int|
        0 <= p < params.k && 0 <= d < params.n ==> #[trigger] share_coeff_sum(
            shares,
            shares.len() as int,
            p,
            d,
        ) % (params.q as int) == s[p].c[d] % (params.q as int)
}

/// Generates a public key and `n` additive shares of its secret key: shares
/// `1 .. n − 1` uniformly random, share `n` the correction, indices `1 ..= n`.
#[verifier::spinoff_prover]
pub fn generate_threshold_keys(
    params: &PqhvParams,
    threshold: &ThresholdParams,
    rng: &mut ChaCha20Rng,
) -> (r: (PublicKey, Vec<TrusteeKeyShare>))
    requires
        modulus_ok(params.q as int),
        params.eta <= 16,
        params.k > 0,
        threshold.n >= 1,
    ensures
        pk_shaped(&r.0, params),
        r.1.len() == threshold.n,
        forall|i: int|
            0 <= i < threshold.n ==> (#[trigger] r.1@[i]).index == i + 1 && r.1@[i].share.k
                == params.k && canonical_vec(
                r.1@[i].share@,
                params.k as int,
                params.n as int,
                params.q as int,
            ) && r.1@[i].share@.len() == params.k,
        exists|s: Seq<PolyView>|
            small_vec(s, params.k as int, params.n as int, params.q as int, params.eta as int)
                && #[trigger] keys_related(&r.0, s, params) && shares_sum_to(r.1@, s, params),
{
    let (pk, sk) = keygen(params, rng);
    let n = threshold.n;
    let ghost k = params.k as int;
    let ghost nn = params.n as int;
    let ghost q = params.q as int;
    let mut random_shares: Vec<PolyVec> = Vec::new();
    let mut running_sum = PolyVec::new_zero(params);
    let mut j: usize = 0;
    proof {
        assert forall|p: int, d: int|
            0 <= p < k && 0 <= d < nn implies #[trigger] running_sum@[p].c[d] == sum_to(
            |i: int| random_shares@[i]@[p].c[d],
            0,
        ) % q by {
            assert(running_sum@[p].c[d] == 0);
            lemma_small_mod(0, q as nat);
        }
    }
    while j < n - 1
        invariant
            modulus_ok(q),
            q == params.q,
            k == params.k,
            nn == params.n,
            n == threshold.n,
            n >= 1,
            j <= n - 1,
            random_shares.len() == j,
            forall|i: int|
                0 <= i < j ==> (#[trigger] random_shares@[i]).k == params.k && canonical_vec(
                    random_shares@[i]@,
                    k,
                    nn,
                    q,
                ) && random_shares@[i]@.len() == k,
            running_sum.k == params.k,
            canonical_vec(running_sum@, k, nn, q),
            running_sum@.len() == k,
            forall|p: int, d: int|
                0 <= p < k && 0 <= d < nn ==> #[trigger] running_sum@[p].c[d] == sum_to(
                    |i: int| random_shares@[i]@[p].c[d],
                    j as int,
                ) % q,
        decreases n - 1 - j,
    {
        let share = PolyVec::new_random(params, rng);
        proof {
            assert forall|p: int|
                0 <= p < crate::matrix::min_len_pv(running_sum@, share@) implies (
                #[trigger] running_sum@[p]).n == share@[p].n && running_sum@[p].q == share@[p].q
                && modulus_ok(running_sum@[p].q) && add_fits(running_sum@[p].c, share@[p].c) by {
                assert(canonical_vec(running_sum@, k, nn, q));
                assert(canonical_vec(share@, k, nn, q));
                assert forall|d: int| 0 <= d < min_len(running_sum@[p].c, share@[p].c) implies fits_i64(
                    #[trigger] running_sum@[p].c[d] + share@[p].c[d],
                ) by {
                    assert(canonical(running_sum@[p].c, q));
                    assert(canonical(share@[p].c, q));
                }
            }
        }
        let ghost prev = running_sum@;
        let ghost prev_shares = random_shares@;
        running_sum = running_sum.add(&share);
        let ghost added = running_sum@;
        running_sum.reduce();
        random_shares.push(share);
        proof {
            assert forall|i: int|
                0 <= i < j + 1 implies (#[trigger] random_shares@[i]).k == params.k && canonical_vec(
                random_shares@[i]@,
                k,
                nn,
                q,
            ) && random_shares@[i]@.len() == k by {
                if i < j {
                    assert(random_shares@[i] == prev_shares[i]);
                }
            }
            assert forall|p: int| 0 <= p < k implies (#[trigger] running_sum@[p]).c.len() == nn
                && canonical(running_sum@[p].c, q) by {
                assert(canonical_vec(prev, k, nn, q));
                assert(canonical_vec(share@, k, nn, q));
            }
            assert forall|p: int, d: int|
                0 <= p < k && 0 <= d < nn implies #[trigger] running_sum@[p].c[d] == sum_to(
                |i: int| random_shares@[i]@[p].c[d],
                (j + 1) as int,
            ) % q by {
                let f = |i: int| random_shares@[i]@[p].c[d];
                let g = |i: int| prev_shares[i]@[p].c[d];
                crate::arith::lemma_sum_ext(f, g, j as int);
                assert(canonical_vec(prev, k, nn, q));
                assert(canonical_vec(share@, k, nn, q));
                let x = prev[p].c[d];
                let y = share@[p].c[d];
                assert(random_shares@[j as int] == share);
                assert(f(j as int) == y);
                assert(sum_to(f, (j + 1) as int) == sum_to(f, j as int) + y);
                lemma_trem(x + y, q);
                lemma_mod_twice(x + y, q);
                lemma_add_mod_noop(sum_to(g, j as int), y, q);
                lemma_mod_bound(y, q);
                lemma_small_mod(y as nat, q as nat);
                lemma_mod_twice(sum_to(g, j as int), q);
            }
        }
        j = j + 1;
    }
    proof {
        assert(small_vec(sk.s@, k, nn, q, params.eta as int));
        assert forall|p: int|
            0 <= p < crate::matrix::min_len_pv(sk.s@, running_sum@) implies (
            #[trigger] sk.s@[p]).n == running_sum@[p].n && sk.s@[p].q == running_sum@[p].q
            && modulus_ok(sk.s@[p].q) && sub_fits(sk.s@[p].c, running_sum@[p].c) by {
            assert(canonical_vec(running_sum@, k, nn, q));
            assert(crate::matrix::small(sk.s@[p].c, params.eta as int, q));
            assert forall|d: int| 0 <= d < min_len(sk.s@[p].c, running_sum@[p].c) implies fits_i64(
                #[trigger] sk.s@[p].c[d] - running_sum@[p].c[d],
            ) by {
                assert(canonical(running_sum@[p].c, q));
            }
        }
    }
    let final_share = sk.s.sub(&running_sum);
    let ghost sum_before = running_sum@;
    let ghost randoms = random_shares@;
    random_shares.push(final_share);
    let mut trustee_shares: Vec<TrusteeKeyShare> = Vec::new();
    let mut idx: usize = 0;
    let total = random_shares.len();
    assert(total == n);
    while idx < total
        invariant
            total == random_shares.len(),
            total == n,
            idx <= total,
            trustee_shares.len() == idx,
            forall|i: int|
                0 <= i < idx ==> (#[trigger] trustee_shares@[i]).index == i + 1
                    && trustee_shares@[i].share@ == random_shares@[i]@ && trustee_shares@[i].share.k
                    == random_shares@[i].k,
        decreases total - idx,
    {
        let share = random_shares[idx].clone();
        trustee_shares.push(TrusteeKeyShare { index: idx + 1, share });
        idx = idx + 1;
    }
    proof {
        let fs = random_shares@[n - 1]@;
        assert(fs == vec_sub(sk.s@, sum_before));
        assert forall|i: int|
            0 <= i < threshold.n implies (#[trigger] trustee_shares@[i]).index == i + 1
            && trustee_shares@[i].share.k == params.k && canonical_vec(
            trustee_shares@[i].share@,
            k,
            nn,
            q,
        ) && trustee_shares@[i].share@.len() == k by {
            if i < n - 1 {
                assert(random_shares@[i] == randoms[i]);
            } else {
                assert(canonical_vec(sum_before, k, nn, q));
                assert forall|p: int| 0 <= p < k implies (#[trigger] fs[p]).c.len() == nn
                    && canonical(fs[p].c, q) && fs[p].n == nn && fs[p].q == q by {
                    assert(fs[p].c == seq_sub(sk.s@[p].c, sum_before[p].c, q));
                    assert forall|d: int| 0 <= d < fs[p].c.len() implies 0 <= #[trigger] fs[p].c[d]
                        < q by {
                        lemma_mod_bound(sk.s@[p].c[d] - sum_before[p].c[d], q);
                    }
                }
            }
        }
        let ts = trustee_shares@;
        assert forall|p: int, d: int|
            0 <= p < k && 0 <= d < nn implies #[trigger] share_coeff_sum(
            ts,
            ts.len() as int,
            p,
            d,
        ) % q == sk.s@[p].c[d] % q by {
            let f = |i: int| ts[i].share@[p].c[d];
            let g = |i: int| randoms[i]@[p].c[d];
            assert forall|i: int| 0 <= i < n - 1 implies #[trigger] f(i) == g(i) by {
                assert(random_shares@[i] == randoms[i]);
            }
            crate::arith::lemma_sum_ext(f, g, (n - 1) as int);
            assert(canonical_vec(sum_before, k, nn, q));
            let s_pd = sk.s@[p].c[d];
            let r_pd = sum_before[p].c[d];
            assert(ts[n - 1].share@ == fs);
            assert(sk.s@[p].c.len() == nn);
            assert(sum_before[p].c.len() == nn);
            assert(fs[p].c == seq_sub(sk.s@[p].c, sum_before[p].c, q));
            assert(f((n - 1) as int) == (s_pd - r_pd) % q);
            assert(sum_to(f, n as int) == sum_to(g, (n - 1) as int) + (s_pd - r_pd) % q);
            assert(r_pd == sum_to(g, (n - 1) as int) % q);
            lemma_add_mod_noop(sum_to(g, (n - 1) as int), (s_pd - r_pd) % q, q);
            lemma_mod_twice(s_pd - r_pd, q);
            lemma_add_mod_noop(sum_to(g, (n - 1) as int), s_pd - r_pd, q);
            lemma_add_mod_noop(sum_to(g, (n - 1) as int) - r_pd, s_pd, q);
            lemma_sub_mod_noop(sum_to(g, (n - 1) as int), r_pd, q);
            lemma_mod_twice(sum_to(g, (n - 1) as int), q);
            assert(canonical(sum_before[p].c, q));
            assert(0 <= r_pd < q);
            lemma_small_mod(r_pd as nat, q as nat);
            lemma_small_mod(0, q as nat);
            assert((sum_to(g, (n - 1) as int) - r_pd) % q == 0);
            lemma_mod_twice(s_pd, q);
            assert(share_coeff_sum(ts, ts.len() as int, p, d) == sum_to(f, n as int));
            assert(sum_to(g, (n - 1) as int) + (s_pd - r_pd) == (sum_to(g, (n - 1) as int) - r_pd)
                + s_pd);
        }
    }
    assert(keys_related(&pk, sk.s@, params));
    assert(shares_sum_to(trustee_shares@, sk.s@, params));
    assert(small_vec(sk.s@, params.k as int, params.n as int, params.q as int, params.eta as int));
    (pk, trustee_shares)
}

/// A trustee's partial decryption `s_iᵀ·u`, under the trustee's index.
pub fn partial_decrypt(share: &TrusteeKeyShare, ct: &Ciphertext) -> (r: PartialDecryption)
    requires
        share.share.k == ct.u.k,
        share.share.k > 0,
        share.share@.len() > 0,
        modulus_ok(share.share@[0].q),
        shaped(share.share@, share.share.k as int, share.share@[0].n, share.share@[0].q),
        shaped(ct.u@, share.share.k as int, share.share@[0].n, share.share@[0].q),
    ensures
        r.index == share.index,
        r.value@ == crate::matrix::ip_view(share.share@, ct.u@, share.share.k as int),
        r.value@.c.len() == share.share@[0].n,
        within(r.value@.c, share.share@[0].q),
{
    let value = share.share.inner_product(&ct.u);
    PartialDecryption { index: share.index, value }
}

/// The running sum of the first `i` partial values, starting from the zero
/// polynomial of dimension `n`.
pub open spec fn combined_acc(ps: Seq<PartialDecryption>, i: int, n: int, q: int) -> Seq<int>
    decreases i,
{
    if i <= 0 {
        Seq::new(n as nat, |d: int| 0int)
    } else {
        seq_add(combined_acc(ps, i - 1, n, q), ps[i - 1].value@.c, q)
    }
}

/// The noisy plaintext that combining the first `t` partial values gives.
pub open spec fn combined_plaintext(ps: Seq<PartialDecryption>, t: int, v: Seq<int>, params: &PqhvParams) -> Seq<int> {
    let q = params.q as int;
    seq_sub(v, seq_reduce(combined_acc(ps, t, params.n as int, q), q), q)
}

/// Partial decryption `j` has an index outside [1, t] or one that an earlier
/// partial decryption already had.
pub open spec fn bad_index(ps: Seq<PartialDecryption>, j: int, t: int) -> bool {
    ps[j].index == 0 || ps[j].index > t || exists|i: int| 0 <= i < j && ps[i].index == ps[j].index
}

/// The first `j` partial decryptions have good indices.
pub open spec fn good_prefix(ps: Seq<PartialDecryption>, j: int, t: int) -> bool {
    forall|i: int| 0 <= i < j ==> !#[trigger] bad_index(ps, i, t)
}

/// The combining arithmetic is defined on the first `t` partial values and `v`.
pub open spec fn combinable(ps: Seq<PartialDecryption>, t: int, ct: &Ciphertext, params: &PqhvParams) -> bool {
    let q = params.q as int;
    &&& modulus_ok(q)
    &&& ct.v.n == params.n
    &&& ct.v.q == params.q
    &&& forall|i: int|
        0 <= i < t ==> (#[trigger] ps[i]).value.n == params.n && ps[i].value.q == params.q
            && add_fits(combined_acc(ps, i, params.n as int, q), ps[i].value@.c)
    &&& sub_fits(ct.v@.c, seq_reduce(combined_acc(ps, t, params.n as int, q), q))
    &&& combined_plaintext(ps, t, ct.v@.c, params).len() >= 1
}

/// Combines the partial decryptions of all `n` trustees into the tally.
///
/// Errors, checked in this order: fewer than `n` partial decryptions; then,
/// over the first `n` in order, the first whose index is outside [1, n]
/// (invalid) or repeats an earlier index (duplicate).
pub fn combine_partial_decryptions(
    partials: &[PartialDecryption],
    ct: &Ciphertext,
    threshold: &ThresholdParams,
    params: &PqhvParams,
) -> (r: Result<u64, ThresholdError>)
    requires
        partials@.len() >= threshold.n && good_prefix(partials@, threshold.n as int, threshold.n as int)
            ==> combinable(partials@, threshold.n as int, ct, params) && params.plaintext_modulus_fits()
            && crate::poly::scale_decodes(
            combined_plaintext(partials@, threshold.n as int, ct.v@.c, params)[0],
            params.q as int,
            params.spec_encoding_scale(),
        ),
    ensures
        partials@.len() < threshold.n ==> r == Err::<u64, ThresholdError>(
            ThresholdError::InsufficientShares { provided: partials@.len() as usize, required: threshold.n },
        ),
        partials@.len() >= threshold.n && good_prefix(partials@, threshold.n as int, threshold.n as int)
            ==> r == Ok::<u64, ThresholdError>(
            decode_tally(
                combined_plaintext(partials@, threshold.n as int, ct.v@.c, params)[0],
                params.q as int,
                params.spec_encoding_scale(),
            ) as u64,
        ),
        forall|j: int|
            0 <= j < threshold.n && partials@.len() >= threshold.n && good_prefix(
                partials@,
                j,
                threshold.n as int,
            ) && #[trigger] bad_index(partials@, j, threshold.n as int) ==> r == (if partials@[j].index
                == 0 || partials@[j].index > threshold.n {
                Err::<u64, ThresholdError>(
                    ThresholdError::InvalidShareIndex { index: partials@[j].index, max: threshold.n },
                )
            } else {
                Err::<u64, ThresholdError>(
                    ThresholdError::DuplicateShareIndex { index: partials@[j].index },
                )
            }),
{
    let t = threshold.n;
    if partials.len() < t {
        return Err(ThresholdError::InsufficientShares { provided: partials.len(), required: t });
    }
    let ghost ps = partials@;
    let mut seen: Vec<bool> = vec![false; t];
    let mut j: usize = 0;
    while j < t
        invariant
            ps == partials@,
            t == threshold.n,
            ps.len() >= t,
            j <= t,
            seen.len() == t,
            good_prefix(ps, j as int, t as int),
            forall|x: int|
                1 <= x <= t ==> #[trigger] seen@[x - 1] == exists|i: int| 0 <= i < j && ps[i].index == x,
        decreases t - j,
    {
        let index = partials[j].index;
        if index == 0 || index > t {
            proof {
                assert(bad_index(ps, j as int, t as int));
                lemma_first_bad(ps, j as int, t as int);
            }
            return Err(ThresholdError::InvalidShareIndex { index, max: t });
        }
        if seen[index - 1] {
            proof {
                assert(bad_index(ps, j as int, t as int));
                lemma_first_bad(ps, j as int, t as int);
            }
            return Err(ThresholdError::DuplicateShareIndex { index });
        }
        let ghost old_seen = seen@;
        seen.set(index - 1, true);
        proof {
            assert(!bad_index(ps, j as int, t as int));
            assert forall|x: int| 1 <= x <= t implies #[trigger] seen@[x - 1] == exists|i: int|
                0 <= i < j + 1 && ps[i].index == x by {
                if x == index {
                    assert(ps[j as int].index == x);
                } else {
                    assert(seen@[x - 1] == old_seen[x - 1]);
                    if exists|i: int| 0 <= i < j + 1 && ps[i].index == x {
                        let i = choose|i: int| 0 <= i < j + 1 && ps[i].index == x;
                        assert(i != j);
                    }
                }
            }
        }
        j = j + 1;
    }
    let ghost q = params.q as int;
    let ghost nn = params.n as int;
    let mut combined = Poly::new_zero(params);
    proof {
        assert(combined@.c =~= combined_acc(ps, 0, nn, q));
    }
    let mut i: usize = 0;
    while i < t
        invariant
            ps == partials@,
            t == threshold.n,
            ps.len() >= t,
            i <= t,
            combinable(ps, t as int, ct, params),
            q == params.q,
            nn == params.n,
            combined.n == params.n,
            combined.q == params.q,
            combined@.c == combined_acc(ps, i as int, nn, q),
        decreases t - i,
    {
        assert(ps[i as int].value.n == params.n);
        combined = combined.add(&partials[i].value);
        i = i + 1;
    }
    combined.reduce();
    let mut noisy_message = ct.v.sub(&combined);
    let ghost before = noisy_message@.c;
    noisy_message.reduce();
    proof {
        assert forall|d: int| 0 <= d < before.len() implies #[trigger] before[d] % q == before[d] by {
            lemma_small_mod(before[d] as nat, q as nat);
        }
        assert(noisy_message@.c =~= before);
        assert(noisy_message@.c.len() == noisy_message.coeffs@.len());
        crate::params::lemma_encoding_scale_bound(params);
    }
    Ok(noisy_message.to_tally(params))
}

/// If partial decryption `j` is bad and every earlier one is good, `j` is
/// the first bad one among the first `t`.
proof fn lemma_first_bad(ps: Seq<PartialDecryption>, j: int, t: int)
    requires
        0 <= j,
        good_prefix(ps, j, t),
        bad_index(ps, j, t),
    ensures
        forall|jj: int|
            0 <= jj && good_prefix(ps, jj, t) && #[trigger] bad_index(ps, jj, t) ==> jj == j,
{
    assert forall|jj: int| 0 <= jj && good_prefix(ps, jj, t) && #[trigger] bad_index(ps, jj, t) implies jj
        == j by {
        if jj < j {
            assert(!bad_index(ps, jj, t));
        } else if jj > j {
            assert(!bad_index(ps, j, t));
        }
    }
}

} // verus!
