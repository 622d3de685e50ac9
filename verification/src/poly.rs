//! Polynomial ring arithmetic in R_q = Z_q[X] / (X^n + 1).
//!
//! Coefficients are `i64` in order of increasing degree. Operations reduce
//! their results modulo q with Rust's remainder, so a result may hold a
//! representative in (−q, q); `reduce` brings every coefficient to [0, q).

use crate::arith::{lemma_trem, lemma_trem_shift, trem};
use crate::params::PqhvParams;
use crate::ring::{canonical, cong, lemma_mul_row, lemma_mul_state, lemma_seq_mul, mul_row_state, mul_state, mul_update, nc_mul, nonneg, seq_mul, within};
use crate::rng::next_u64;
use crate::sample::sample_cbd_vec;
use rand_chacha::ChaCha20Rng;
use vstd::arithmetic::div_mod::{lemma_mod_bound, lemma_small_mod};
use vstd::prelude::*;

verus! {

/// A polynomial in R_q = Z_q[X] / (X^n + 1); `coeffs[i]` is the coefficient of X^i.
#[derive(Debug, PartialEq)]
pub struct Poly {
    /// Polynomial coefficients, indexed by degree.
    pub coeffs: Vec<i64>,
    /// Ring dimension (degree of the cyclotomic polynomial X^n + 1).
    pub n: usize,
    /// Coefficient modulus.
    pub q: u64,
}

/// The mathematical content of a polynomial: its coefficients as integers,
/// its ring dimension and its modulus.
pub struct PolyView {
    pub c: Seq<int>,
    pub n: int,
    pub q: int,
}

/// The coefficients of a vector of `i64` as integers.
pub open spec fn ints(s: Seq<i64>) -> Seq<int> {
    s.map_values(|x: i64| x as int)
}

impl View for Poly {
    type V = PolyView;

    open spec fn view(&self) -> PolyView {
        PolyView { c: ints(self.coeffs@), n: self.n as int, q: self.q as int }
    }
}

/// The moduli the coefficient arithmetic supports: positive, and small enough
/// that the sum of two residues fits in an `i64`.
pub open spec fn modulus_ok(q: int) -> bool {
    0 < q <= 0x4000_0000_0000_0000
}

/// A positive modulus that an `i64` can hold.
pub open spec fn modulus_fits(q: int) -> bool {
    0 < q <= i64::MAX
}

/// An `i64` can hold `x`.
pub open spec fn fits_i64(x: int) -> bool {
    i64::MIN <= x <= i64::MAX
}

pub open spec fn min_len(a: Seq<int>, b: Seq<int>) -> nat {
    if a.len() <= b.len() {
        a.len()
    } else {
        b.len()
    }
}

/// Coefficient-wise `(a + b) % q`, over the common length.
pub open spec fn seq_add(a: Seq<int>, b: Seq<int>, q: int) -> Seq<int> {
    Seq::new(min_len(a, b), |i: int| trem(a[i] + b[i], q))
}

/// Coefficient-wise least non-negative residue of `a - b`, over the common length.
pub open spec fn seq_sub(a: Seq<int>, b: Seq<int>, q: int) -> Seq<int> {
    Seq::new(min_len(a, b), |i: int| (a[i] - b[i]) % q)
}

/// Coefficient-wise negation: 0 stays 0, any other `c` becomes `q - (c % q)`.
pub open spec fn seq_neg(a: Seq<int>, q: int) -> Seq<int> {
    Seq::new(a.len(), |i: int| if a[i] == 0 { 0 } else { q - trem(a[i], q) })
}

/// Coefficient-wise `(c * (s mod q)) % q`.
pub open spec fn seq_scalar_mul(a: Seq<int>, s: int, q: int) -> Seq<int> {
    Seq::new(a.len(), |i: int| trem(a[i] * (s % q), q))
}

/// Coefficient-wise least non-negative residue.
pub open spec fn seq_reduce(a: Seq<int>, q: int) -> Seq<int> {
    Seq::new(a.len(), |i: int| a[i] % q)
}

/// No coefficient sum over the common length overflows an `i64`.
pub open spec fn add_fits(a: Seq<int>, b: Seq<int>) -> bool {
    forall|i: int| 0 <= i < min_len(a, b) ==> fits_i64(#[trigger] a[i] + b[i])
}

/// No coefficient difference over the common length overflows an `i64`.
pub open spec fn sub_fits(a: Seq<int>, b: Seq<int>) -> bool {
    forall|i: int| 0 <= i < min_len(a, b) ==> fits_i64(#[trigger] a[i] - b[i])
}

/// The polynomial whose constant coefficient encodes the bit `bit & 1` as
/// `(bit & 1) · Δ`.
pub open spec fn message_coeffs(bit: u8, n: int, delta: int) -> Seq<int> {
    Seq::new(n as nat, |i: int| if i == 0 { ((bit & 1u8) as int) * delta } else { 0 })
}

/// Rounds a constant coefficient `c` in [0, q) to a count: center it into

/// `c` moved into (−q/2, q/2]: values above q/2 stand for negatives.
pub open spec fn centered(c: int, q: int) -> int {
    if c > q / 2 {
        c - q
    } else {
        c
    }
}

/// Rounding divides by Δ only for a non-negative centered value, so only
/// there must Δ be positive.
pub open spec fn scale_decodes(c: int, q: int, delta: int) -> bool {
    centered(c, q) >= 0 ==> delta > 0
}

/// (−q/2, q/2], then round to the nearest multiple of Δ; negative values give 0.
pub open spec fn decode_tally(c: int, q: int, delta: int) -> int {
    let centered = centered(c, q);
    if centered >= 0 {
        (centered + delta / 2) / delta
    } else {
        0
    }
}

/// The inputs on which `to_tally` does no arithmetic overflow.
pub open spec fn decode_fits(c: int, q: int, delta: int) -> bool {
    let centered = centered(c, q);
    centered >= 0 ==> centered + delta / 2 <= i64::MAX
}

impl Clone for Poly {
    fn clone(&self) -> (r: Self)
        ensures
            r@ == self@,
    {
        let r = Poly { coeffs: self.coeffs.clone(), n: self.n, q: self.q };
        assert(r@.c =~= self@.c);
        r
    }
}

impl Poly {
    /// The zero polynomial for the given parameter set.
    pub fn new_zero(params: &PqhvParams) -> (r: Poly)
        ensures
            r.n == params.n,
            r.q == params.q,
            r@.c == Seq::new(params.n as nat, |i: int| 0int),
    {
        let r = Poly { coeffs: vec![0i64; params.n], n: params.n, q: params.q };
        assert(r@.c =~= Seq::new(params.n as nat, |i: int| 0int));
        r
    }

    /// The polynomial whose coefficient `i` is `words[i] mod q`, for the
    /// first `n` words.
    pub fn from_words(words: &Vec<u64>, params: &PqhvParams) -> (r: Poly)
        requires
            0 < params.q <= i64::MAX,
            words@.len() >= params.n,
        ensures
            r.n == params.n,
            r.q == params.q,
            r@.c == Seq::new(params.n as nat, |i: int| words@[i] as int % params.q as int),
    {
        let mut coeffs: Vec<i64> = Vec::new();
        let mut i: usize = 0;
        while i < params.n
            invariant
                i <= params.n,
                0 < params.q <= i64::MAX,
                words@.len() >= params.n,
                coeffs.len() == i,
                forall|j: int| 0 <= j < i ==> #[trigger] coeffs[j] == words@[j] as int % params.q as int,
            decreases params.n - i,
        {
            let c = words[i] % params.q;
            coeffs.push(c as i64);
            i = i + 1;
        }
        let r = Poly { coeffs, n: params.n, q: params.q };
        assert(r@.c =~= Seq::new(params.n as nat, |i: int| words@[i] as int % params.q as int));
        r
    }

    /// A polynomial with uniformly random coefficients in [0, q): each is a
    /// random 64-bit word reduced modulo q.
    pub fn new_random(params: &PqhvParams, rng: &mut ChaCha20Rng) -> (r: Poly)
        requires
            modulus_ok(params.q as int),
        ensures
            r.n == params.n,
            r.q == params.q,
            r@.c.len() == params.n,
            canonical(r@.c, params.q as int),
            exists|w: Seq<u64>|
                w.len() == params.n && r@.c == Seq::new(params.n as nat, |i: int| w[i] as int % params.q as int),
    {
        let mut words: Vec<u64> = Vec::new();
        let mut i: usize = 0;
        while i < params.n
            invariant
                i <= params.n,
                words.len() == i,
            decreases params.n - i,
        {
            words.push(next_u64(rng));
            i = i + 1;
        }
        let r = Poly::from_words(&words, params);
        assert(words@.len() == params.n);
        r
    }

    /// A polynomial with coefficients drawn from CBD(η), stored as
    /// representatives modulo q: a negative draw `c` becomes `c + q`.
    pub fn sample_cbd(params: &PqhvParams, eta: usize, rng: &mut ChaCha20Rng) -> (r: Poly)
        requires
            eta <= 16,
            modulus_fits(params.q as int),
        ensures
            r.n == params.n,
            r.q == params.q,
            r@.c.len() == params.n,
            forall|i: int|
                0 <= i < params.n ==> (0 <= #[trigger] r@.c[i] <= eta) || (params.q - eta
                    <= r@.c[i] < params.q),
    {
        let raw = sample_cbd_vec(params.n, eta, rng);
        let q = params.q as i64;
        let mut coeffs: Vec<i64> = Vec::new();
        let mut i: usize = 0;
        while i < params.n
            invariant
                i <= params.n,
                raw.len() == params.n,
                q == params.q,
                modulus_fits(params.q as int),
                forall|j: int| 0 <= j < params.n ==> -(eta as int) <= #[trigger] raw[j] <= eta,
                eta <= 16,
                coeffs.len() == i,
                forall|j: int|
                    0 <= j < i ==> (0 <= #[trigger] coeffs[j] <= eta) || (params.q - eta
                        <= coeffs[j] < params.q),
            decreases params.n - i,
        {
            let c = raw[i];
            if c < 0 {
                coeffs.push(c + q);
            } else {
                coeffs.push(c);
            }
            i = i + 1;
        }
        Poly { coeffs, n: params.n, q: params.q }
    }

    /// Coefficient-wise addition modulo q, over the common length.
    pub fn add(&self, other: &Poly) -> (r: Poly)
        requires
            self.n == other.n,
            self.q == other.q,
            modulus_fits(self.q as int),
            add_fits(self@.c, other@.c),
        ensures
            r.n == self.n,
            r.q == self.q,
            r@.c == seq_add(self@.c, other@.c, self.q as int),
    {
        let q = self.q as i64;
        let len = if self.coeffs.len() <= other.coeffs.len() {
            self.coeffs.len()
        } else {
            other.coeffs.len()
        };
        let mut coeffs: Vec<i64> = Vec::new();
        let mut i: usize = 0;
        while i < len
            invariant
                q == self.q,
                modulus_fits(self.q as int),
                add_fits(self@.c, other@.c),
                len == min_len(self@.c, other@.c),
                i <= len,
                coeffs.len() == i,
                forall|j: int|
                    0 <= j < i ==> #[trigger] coeffs[j] == trem(
                        self.coeffs[j] + other.coeffs[j],
                        q as int,
                    ),
            decreases len - i,
        {
            assert(fits_i64(self@.c[i as int] + other@.c[i as int]));
            coeffs.push((self.coeffs[i] + other.coeffs[i]) % q);
            i = i + 1;
        }
        let r = Poly { coeffs, n: self.n, q: self.q };
        assert(r@.c =~= seq_add(self@.c, other@.c, self.q as int));
        r
    }

    /// Coefficient-wise subtraction, giving residues in [0, q).
    pub fn sub(&self, other: &Poly) -> (r: Poly)
        requires
            self.n == other.n,
            self.q == other.q,
            modulus_fits(self.q as int),
            sub_fits(self@.c, other@.c),
        ensures
            r.n == self.n,
            r.q == self.q,
            r@.c == seq_sub(self@.c, other@.c, self.q as int),
            canonical(r@.c, self.q as int),
    {
        let q = self.q as i64;
        let len = if self.coeffs.len() <= other.coeffs.len() {
            self.coeffs.len()
        } else {
            other.coeffs.len()
        };
        let mut coeffs: Vec<i64> = Vec::new();
        let mut i: usize = 0;
        while i < len
            invariant
                q == self.q,
                modulus_fits(self.q as int),
                sub_fits(self@.c, other@.c),
                len == min_len(self@.c, other@.c),
                i <= len,
                coeffs.len() == i,
                forall|j: int|
                    0 <= j < i ==> #[trigger] coeffs[j] == (self.coeffs[j] - other.coeffs[j]) % (
                    q as int),
            decreases len - i,
        {
            assert(fits_i64(self@.c[i as int] - other@.c[i as int]));
            let d = self.coeffs[i] - other.coeffs[i];
            proof {
                lemma_trem(d as int, q as int);
                lemma_trem_shift(d as int, q as int);
            }
            let wide: i128 = ((d as i128) % (q as i128) + (q as i128)) % (q as i128);
            coeffs.push(wide as i64);
            i = i + 1;
        }
        let r = Poly { coeffs, n: self.n, q: self.q };
        assert(r@.c =~= seq_sub(self@.c, other@.c, self.q as int));
        assert forall|j: int| 0 <= j < r@.c.len() implies 0 <= #[trigger] r@.c[j] < self.q by {
            lemma_mod_bound(self@.c[j] - other@.c[j], self.q as int);
        }
        r
    }

    /// Negates every coefficient modulo q: 0 stays 0, `c` becomes `q - c % q`
    /// (Rust's remainder), which must fit in an `i64`.
    pub fn neg(&self) -> (r: Poly)
        requires
            modulus_fits(self.q as int),
            forall|j: int|
                0 <= j < self@.c.len() ==> fits_i64(self.q - trem(#[trigger] self@.c[j], self.q as int)),
        ensures
            r.n == self.n,
            r.q == self.q,
            r@.c == seq_neg(self@.c, self.q as int),
    {
        let q = self.q as i64;
        let mut coeffs: Vec<i64> = Vec::new();
        let mut i: usize = 0;
        while i < self.coeffs.len()
            invariant
                q == self.q,
                modulus_fits(self.q as int),
                forall|j: int|
                    0 <= j < self@.c.len() ==> fits_i64(self.q - trem(#[trigger] self@.c[j], self.q as int)),
                i <= self.coeffs.len(),
                coeffs.len() == i,
                forall|j: int|
                    0 <= j < i ==> #[trigger] coeffs[j] == (if self.coeffs[j] == 0 {
                        0
                    } else {
                        q - trem(self.coeffs[j] as int, q as int)
                    }),
            decreases self.coeffs.len() - i,
        {
            let c = self.coeffs[i];
            proof {
                lemma_trem(c as int, q as int);
                assert(fits_i64(self.q - trem(self@.c[i as int], self.q as int)));
            }
            if c == 0 {
                coeffs.push(0);
            } else {
                coeffs.push(q - (c % q));
            }
            i = i + 1;
        }
        let r = Poly { coeffs, n: self.n, q: self.q };
        assert(r@.c =~= seq_neg(self@.c, self.q as int));
        r
    }

    /// Multiplies every coefficient by `scalar` modulo q.
    pub fn scalar_mul(&self, scalar: i64) -> (r: Poly)
        requires
            modulus_ok(self.q as int),
        ensures
            r.n == self.n,
            r.q == self.q,
            r@.c == seq_scalar_mul(self@.c, scalar as int, self.q as int),
    {
        let q = self.q as i64;
        proof {
            lemma_trem_shift(scalar as int, q as int);
            lemma_trem(scalar as int, q as int);
        }
        let s = ((scalar % q) + q) % q;
        let mut coeffs: Vec<i64> = Vec::new();
        let mut i: usize = 0;
        while i < self.coeffs.len()
            invariant
                q == self.q,
                s == scalar as int % self.q as int,
                modulus_ok(self.q as int),
                i <= self.coeffs.len(),
                coeffs.len() == i,
                forall|j: int|
                    0 <= j < i ==> #[trigger] coeffs[j] == trem(self.coeffs[j] * s, q as int),
            decreases self.coeffs.len() - i,
        {
            let c = self.coeffs[i] as i128;
            assert(-0x8000_0000_0000_0000 * 0x4000_0000_0000_0000 <= c * s <= 0x7fff_ffff_ffff_ffff
                * 0x4000_0000_0000_0000) by (nonlinear_arith)
                requires
                    -0x8000_0000_0000_0000 <= c <= 0x7fff_ffff_ffff_ffff,
                    0 <= s <= 0x4000_0000_0000_0000,
            ;
            let prod: i128 = c * (s as i128);
            let rem: i128 = prod % (q as i128);
            proof {
                lemma_trem(prod as int, q as int);
            }
            coeffs.push(rem as i64);
            i = i + 1;
        }
        let r = Poly { coeffs, n: self.n, q: self.q };
        assert(r@.c =~= seq_scalar_mul(self@.c, scalar as int, self.q as int));
        r
    }

    /// Schoolbook product in R_q = Z_q[X] / (X^n + 1): the term of degree
    /// `n + i` wraps around to degree `i` with its sign flipped.
    pub fn mul(&self, other: &Poly) -> (r: Poly)
        requires
            self.n == other.n,
            self.q == other.q,
            modulus_ok(self.q as int),
            self.coeffs.len() >= self.n,
            other.coeffs.len() >= other.n,
        ensures
            r.n == self.n,
            r.q == self.q,
            r@.c == seq_mul(self@.c, other@.c, self.n as int, self.q as int),
            cong(r@.c, nc_mul(self@.c, other@.c, self.n as int), self.n as int, self.q as int),
            within(r@.c, self.q as int),
            (nonneg(self@.c, self.n as int) && nonneg(other@.c, self.n as int)) ==> canonical(
                r@.c,
                self.q as int,
            ),
    {
        let n = self.n;
        let q = self.q as i64;
        let ghost a = self@.c;
        let ghost b = other@.c;
        let ghost qi = self.q as int;
        proof {
            lemma_seq_mul(a, b, n as int, qi);
        }
        let mut result: Vec<i64> = vec![0i64; n];
        proof {
            assert(ints(result@) =~= mul_state(a, b, n as int, qi, 0));
        }
        let mut i: usize = 0;
        while i < n
            invariant
                n == self.n,
                q == self.q,
                qi == self.q,
                modulus_ok(qi),
                a == self@.c,
                b == other@.c,
                a.len() >= n,
                b.len() >= n,
                i <= n,
                ints(result@) == mul_state(a, b, n as int, qi, i as int),
            decreases n - i,
        {
            let ghost start = ints(result@);
            proof {
                lemma_mul_state(a, b, n as int, qi, i as int);
            }
            if self.coeffs[i] != 0 {
                let mut j: usize = 0;
                while j < n
                    invariant
                        n == self.n,
                        q == self.q,
                        qi == self.q,
                        modulus_ok(qi),
                        a == self@.c,
                        b == other@.c,
                        a.len() >= n,
                        b.len() >= n,
                        i < n,
                        j <= n,
                        a[i as int] != 0,
                        start.len() == n,
                        start == mul_state(a, b, n as int, qi, i as int),
                        within(start, qi),
                        ints(result@) == mul_row_state(a, b, n as int, qi, i as int, j as int, start),
                    decreases n - j,
                {
                    proof {
                        lemma_row_prefix(a, b, n as int, qi, i as int, j as int, start);
                    }
                    let ghost before = ints(result@);
                    if other.coeffs[j] != 0 {
                        let x = self.coeffs[i];
                        let y = other.coeffs[j];
                        assert(a[i as int] == x as int);
                        assert(b[j as int] == y as int);
                        proof {
                            lemma_trem(x as int * y as int, qi);
                            assert(-0x4000_0000_0000_0000_0000_0000_0000_0000 <= x as int * y as int
                                <= 0x4000_0000_0000_0000_0000_0000_0000_0000) by (nonlinear_arith)
                                requires
                                    i64::MIN <= x <= i64::MAX,
                                    i64::MIN <= y <= i64::MAX,
                            ;
                        }
                        let product = ((x as i128 * y as i128) % (q as i128)) as i64;
                        assert(product == trem(x as int * y as int, qi));
                        if j < n - i {
                            let degree = i + j;
                            let cur = result[degree];
                            assert(-qi < cur < qi);
                            proof {
                                lemma_trem(cur + product, qi);
                            }
                            result.set(degree, (cur + product) % q);
                            assert(ints(result@) =~= before.update(
                                degree as int,
                                trem(before[degree as int] + trem(x as int * y as int, qi), qi),
                            ));
                            assert(ints(result@) =~= mul_update(before, a[i as int], b[j as int], i + j, n as int, qi));
                        } else {
                            let wrapped = j - (n - i);
                            let cur = result[wrapped];
                            assert(-qi < cur < qi);
                            proof {
                                lemma_trem(cur - product, qi);
                            }
                            result.set(wrapped, ((cur - product) % q + q) % q);
                            assert(ints(result@) =~= before.update(
                                wrapped as int,
                                trem(
                                    trem(before[wrapped as int] - trem(x as int * y as int, qi), qi)
                                        + qi,
                                    qi,
                                ),
                            ));
                            assert(i + j - n == wrapped);
                            assert(!(i + j < n));
                            assert(a[i as int] * b[j as int] == x as int * y as int);
                            assert(ints(result@) =~= mul_update(before, a[i as int], b[j as int], i + j, n as int, qi));
                        }
                    } else {
                        assert(b[j as int] == 0);
                    }
                    proof {
                        assert(ints(result@) =~= mul_update(
                            before,
                            a[i as int],
                            b[j as int],
                            i + j,
                            n as int,
                            qi,
                        ));
                    }
                    j = j + 1;
                }
            } else {
                proof {
                    lemma_zero_row(a, b, n as int, qi, i as int, n as int, start);
                }
            }
            i = i + 1;
        }
        Poly { coeffs: result, n, q: self.q }
    }

    /// Brings every coefficient to its least non-negative residue in [0, q).
    pub fn reduce(&mut self)
        requires
            modulus_ok(old(self).q as int),
        ensures
            final(self).n == old(self).n,
            final(self).q == old(self).q,
            final(self)@.c == seq_reduce(old(self)@.c, old(self).q as int),
            canonical(final(self)@.c, old(self).q as int),
    {
        let q = self.q as i64;
        let ghost orig = self@.c;
        let mut i: usize = 0;
        while i < self.coeffs.len()
            invariant
                q == self.q,
                self.q == old(self).q,
                self.n == old(self).n,
                orig == old(self)@.c,
                modulus_ok(self.q as int),
                self.coeffs.len() == orig.len(),
                i <= self.coeffs.len(),
                forall|j: int| 0 <= j < i ==> #[trigger] self@.c[j] == orig[j] % (q as int),
                forall|j: int| i <= j < orig.len() ==> #[trigger] self@.c[j] == orig[j],
            decreases self.coeffs.len() - i,
        {
            let c = self.coeffs[i];
            proof {
                lemma_trem_shift(c as int, q as int);
                lemma_trem(c as int, q as int);
            }
            let ghost cur = self@.c;
            let v = ((c % q) + q) % q;
            assert(cur[i as int] == orig[i as int]);
            assert(v == orig[i as int] % (q as int));
            self.coeffs.set(i, v);
            assert(self@.c =~= cur.update(i as int, orig[i as int] % (q as int)));
            i = i + 1;
        }
        assert(self@.c =~= seq_reduce(orig, q as int));
        assert forall|j: int| 0 <= j < self@.c.len() implies 0 <= #[trigger] self@.c[j] < q by {
            lemma_mod_bound(orig[j], q as int);
        }
    }

    /// Encodes the bit `bit & 1` as `(bit & 1) · Δ` in the constant coefficient;
    /// every other coefficient is zero.
    pub fn from_message(bit: u8, params: &PqhvParams) -> (r: Poly)
        requires
            params.n >= 1,
            params.plaintext_modulus_fits(),
        ensures
            r.n == params.n,
            r.q == params.q,
            r@.c == message_coeffs(bit, params.n as int, params.spec_encoding_scale()),
    {
        let mut p = Poly::new_zero(params);
        let delta = params.encoding_scale();
        assert((bit & 1u8) <= 1u8) by (bit_vector);
        let b = (bit & 1) as i64;
        assert(0 <= b <= 1);
        assert(b * delta == (bit & 1u8) as int * params.spec_encoding_scale()) by (nonlinear_arith)
            requires 0 <= b <= 1, b == (bit & 1u8) as int, delta == params.spec_encoding_scale();
        assert(i64::MIN <= b * delta <= i64::MAX) by (nonlinear_arith)
            requires 0 <= b <= 1, i64::MIN <= delta <= i64::MAX;
        assert(p@.c.len() == params.n);
        assert(p.coeffs.len() == params.n);
        let ghost before = p@.c;
        p.coeffs.set(0, b * delta);
        assert(p@.c =~= before.update(0, b * delta));
        assert(p@.c =~= message_coeffs(bit, params.n as int, params.spec_encoding_scale()));
        p
    }

    /// Decodes the constant coefficient to a bit: the tally count modulo 2.
    pub fn to_message(&self, params: &PqhvParams) -> (m: u8)
        requires
            self.coeffs.len() >= 1,
            modulus_ok(self.q as int),
            params.plaintext_modulus_fits(),
            scale_decodes(self@.c[0], self.q as int, params.spec_encoding_scale()),
            decode_fits(self@.c[0], self.q as int, params.spec_encoding_scale()),
        ensures
            m == decode_tally(self@.c[0], self.q as int, params.spec_encoding_scale()) % 2,
    {
        let count = self.to_tally(params);
        (count % 2) as u8
    }

    /// Decodes the constant coefficient to a count: `round(c / Δ)` after
    /// centering `c` into (−q/2, q/2]; a negative centered value gives 0.
    pub fn to_tally(&self, params: &PqhvParams) -> (count: u64)
        requires
            self.coeffs.len() >= 1,
            modulus_ok(self.q as int),
            params.plaintext_modulus_fits(),
            scale_decodes(self@.c[0], self.q as int, params.spec_encoding_scale()),
            decode_fits(self@.c[0], self.q as int, params.spec_encoding_scale()),
        ensures
            count == decode_tally(self@.c[0], self.q as int, params.spec_encoding_scale()),
    {
        let c = self.coeffs[0];
        let q = self.q as i64;
        let delta = params.encoding_scale();
        let centered = if c > q / 2 {
            c - q
        } else {
            c
        };
        if centered >= 0 {
            ((centered + delta / 2) / delta) as u64
        } else {
            0
        }
    }
}

/// Advancing one column of a row keeps the accumulator within (−q, q).
proof fn lemma_row_prefix(
    a: Seq<int>,
    b: Seq<int>,
    n: int,
    q: int,
    i: int,
    j: int,
    start: Seq<int>,
)
    requires
        q > 0,
        0 <= i < n,
        0 <= j < n,
        a.len() >= n,
        b.len() >= n,
        start.len() == n,
        within(start, q),
    ensures
        mul_row_state(a, b, n, q, i, j, start).len() == n,
        within(mul_row_state(a, b, n, q, i, j, start), q),
        mul_row_state(a, b, n, q, i, j + 1, start) == mul_update(
            mul_row_state(a, b, n, q, i, j, start),
            a[i],
            b[j],
            i + j,
            n,
            q,
        ),
{
    lemma_mul_row(a, b, n, q, i, j, start);
}

/// A row whose multiplier coefficient is zero leaves the accumulator unchanged.
proof fn lemma_zero_row(
    a: Seq<int>,
    b: Seq<int>,
    n: int,
    q: int,
    i: int,
    j: int,
    start: Seq<int>,
)
    requires
        a[i] == 0,
    ensures
        mul_row_state(a, b, n, q, i, j, start) == start,
    decreases j,
{
    if j > 0 {
        lemma_zero_row(a, b, n, q, i, j - 1, start);
    }
}

} // verus!
