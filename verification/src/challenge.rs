//! Fiat-Shamir challenges: SHA-256 transcript hashes, and sparse ternary
//! challenge polynomials derived from them.

use crate::bytes::{push_u64_le, push_usize_le, u64_le, usize_le};
use crate::params::PqhvParams;
use crate::poly::{Poly, PolyView};
use sha2::{Digest, Sha256};
use vstd::prelude::*;

verus! {

/// Number of non-zero coefficients in a challenge polynomial.
pub const CHALLENGE_WEIGHT: usize = 32;

/// The SHA-256 digest of a byte string.
pub uninterp spec fn sha256_spec(data: Seq<u8>) -> Seq<u8>;

/// SHA-256 of `data`, with `sha2::Sha256::digest`. The contract names the
/// digest `sha256_spec(data)`; nothing else about SHA-256 is assumed.
#[verifier::external_body]
fn sha256(data: &[u8]) -> (r: [u8; 32])
    ensures
        r@ == sha256_spec(data@),
{
    Sha256::digest(data).into()
}

/// The bytes a transcript hash digests: for every field, in order, its
/// length as eight little-endian bytes followed by the field itself.
pub open spec fn transcript_bytes(chunks: Seq<Seq<u8>>) -> Seq<u8>
    decreases chunks.len(),
{
    if chunks.len() == 0 {
        Seq::empty()
    } else {
        transcript_bytes(chunks.drop_last()) + u64_le(chunks.last().len() as u64) + chunks.last()
    }
}

/// The fields of a transcript as byte sequences.
pub open spec fn chunk_views(data: Seq<&[u8]>) -> Seq<Seq<u8>> {
    data.map_values(|c: &[u8]| c@)
}

/// The Fiat-Shamir transcript hash: SHA-256 over the length-prefixed fields.
pub fn transcript_hash(data: &[&[u8]]) -> (r: [u8; 32])
    ensures
        r@ == sha256_spec(transcript_bytes(chunk_views(data@))),
{
    let mut bytes: Vec<u8> = Vec::new();
    let mut i: usize = 0;
    while i < data.len()
        invariant
            i <= data.len(),
            bytes@ == transcript_bytes(chunk_views(data@).subrange(0, i as int)),
        decreases data.len() - i,
    {
        let chunk: &[u8] = data[i];
        push_u64_le(&mut bytes, chunk.len() as u64);
        let ghost mid = bytes@;
        let mut j: usize = 0;
        while j < chunk.len()
            invariant
                j <= chunk.len(),
                bytes@ == mid + chunk@.subrange(0, j as int),
            decreases chunk.len() - j,
        {
            bytes.push(chunk[j]);
            assert(chunk@.subrange(0, j + 1) =~= chunk@.subrange(0, j as int).push(chunk@[j as int]));
            j = j + 1;
        }
        proof {
            let cv = chunk_views(data@);
            let t = cv.subrange(0, i + 1);
            assert(t.drop_last() =~= cv.subrange(0, i as int));
            assert(t.last() == chunk@);
            assert(chunk@.subrange(0, chunk.len() as int) =~= chunk@);
        }
        i = i + 1;
    }
    assert(chunk_views(data@).subrange(0, data.len() as int) =~= chunk_views(data@));
    sha256(bytes.as_slice())
}

/// The state of the challenge sampler: coefficients so far, read position in
/// the current hash, number of placed coefficients, and the current hash.
pub struct ChallengeState {
    pub coeffs: Seq<int>,
    pub idx: int,
    pub placed: int,
    pub h: Seq<u8>,
}

/// One step of the sampler: bytes `idx` and `idx + 1` of the hash give a
/// position modulo n; if it is still free, the low bit of byte `idx + 2`
/// gives its sign (+1 for 0, −1 for 1). After every ten steps the hash is
/// replaced by SHA-256 of itself followed by the placed count (the bytes of
/// a `usize`).
pub open spec fn challenge_step(st: ChallengeState, n: int) -> ChallengeState {
    let pos = (st.h[st.idx % 32] as int + 256 * (st.h[(st.idx + 1) % 32] as int)) % n;
    let fresh = st.coeffs[pos] == 0;
    let coeffs = if fresh {
        st.coeffs.update(pos, if st.h[(st.idx + 2) % 32] & 1u8 == 0u8 { 1int } else { -1int })
    } else {
        st.coeffs
    };
    let placed = if fresh { st.placed + 1 } else { st.placed };
    if st.idx + 3 >= 30 {
        ChallengeState { coeffs, idx: 0, placed, h: sha256_spec(st.h + usize_le(placed as usize)) }
    } else {
        ChallengeState { coeffs, idx: st.idx + 3, placed, h: st.h }
    }
}

/// Runs the sampler until `min(32, n)` coefficients are placed, for at most
/// `fuel` steps.
pub open spec fn challenge_run(st: ChallengeState, n: int, fuel: nat) -> ChallengeState
    decreases fuel,
{
    if fuel == 0 || !(st.placed < CHALLENGE_WEIGHT && st.placed < n) {
        st
    } else {
        challenge_run(challenge_step(st, n), n, (fuel - 1) as nat)
    }
}

/// The coefficients of the challenge polynomial derived from `hash`.
pub open spec fn challenge_coeffs(hash: Seq<u8>, n: int) -> Seq<int> {
    challenge_run(
        ChallengeState { coeffs: Seq::new(n as nat, |i: int| 0int), idx: 0, placed: 0, h: hash },
        n,
        u64::MAX as nat,
    ).coeffs
}

/// Every coefficient is −1, 0 or 1.
pub open spec fn ternary(c: Seq<int>) -> bool {
    forall|i: int| 0 <= i < c.len() ==> -1 <= #[trigger] c[i] <= 1
}

/// The challenge polynomial for a transcript hash: at most `min(32, n)`
/// coefficients ±1 at hash-derived positions, zero elsewhere.
pub fn challenge_from_hash(hash: &[u8; 32], params: &PqhvParams) -> (r: Poly)
    ensures
        r.n == params.n,
        r.q == params.q,
        r@.c == challenge_coeffs(hash@, params.n as int),
        r@.c.len() == params.n,
        ternary(r@.c),
{
    let n = params.n;
    let mut coeffs: Vec<i64> = vec![0i64; n];
    let mut idx: usize = 0;
    let mut placed: usize = 0;
    let mut current_hash: [u8; 32] = *hash;
    let mut steps: u64 = 0;
    let ghost init = ChallengeState {
        coeffs: Seq::new(n as nat, |i: int| 0int),
        idx: 0,
        placed: 0,
        h: hash@,
    };
    proof {
        assert(crate::poly::ints(coeffs@) =~= init.coeffs);
    }
    while placed < CHALLENGE_WEIGHT && placed < n && steps < u64::MAX
        invariant
            n == params.n,
            coeffs.len() == n,
            idx < 30,
            placed <= CHALLENGE_WEIGHT,
            placed <= n,
            ternary(crate::poly::ints(coeffs@)),
            challenge_run(init, n as int, u64::MAX as nat) == challenge_run(
                ChallengeState {
                    coeffs: crate::poly::ints(coeffs@),
                    idx: idx as int,
                    placed: placed as int,
                    h: current_hash@,
                },
                n as int,
                (u64::MAX - steps) as nat,
            ),
        decreases u64::MAX - steps,
    {
        let ghost st = ChallengeState {
            coeffs: crate::poly::ints(coeffs@),
            idx: idx as int,
            placed: placed as int,
            h: current_hash@,
        };
        let lo = current_hash[idx % 32] as usize;
        let hi = current_hash[(idx + 1) % 32] as usize;
        let pos = (lo + hi * 256) % n;
        if coeffs[pos] == 0 {
            let sign_byte = current_hash[(idx + 2) % 32];
            if sign_byte & 1 == 0 {
                coeffs.set(pos, 1);
            } else {
                coeffs.set(pos, -1);
            }
            placed = placed + 1;
        }
        idx = idx + 3;
        if idx >= 30 {
            let mut buf: Vec<u8> = Vec::new();
            let mut b: usize = 0;
            while b < 32
                invariant
                    b <= 32,
                    buf@ == current_hash@.subrange(0, b as int),
                decreases 32 - b,
            {
                buf.push(current_hash[b]);
                assert(current_hash@.subrange(0, b + 1) =~= current_hash@.subrange(0, b as int).push(
                    current_hash@[b as int],
                ));
                b = b + 1;
            }
            assert(current_hash@.subrange(0, 32) =~= current_hash@);
            push_usize_le(&mut buf, placed);
            current_hash = sha256(buf.as_slice());
            idx = 0;
        }
        proof {
            let next = challenge_step(st, n as int);
            assert(crate::poly::ints(coeffs@) =~= next.coeffs);
            assert(ChallengeState {
                coeffs: crate::poly::ints(coeffs@),
                idx: idx as int,
                placed: placed as int,
                h: current_hash@,
            } == next);
        }
        steps = steps + 1;
    }
    let r = Poly { coeffs, n, q: params.q };
    r
}

} // verus!
