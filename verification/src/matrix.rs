//! Module structure of Module-LWE: vectors (`PolyVec`) and square matrices
//! (`PolyMatrix`) of polynomials in R_q.

use crate::arith::lemma_trem;
use crate::params::PqhvParams;
use crate::poly::{add_fits, min_len, modulus_fits, modulus_ok, seq_add, seq_reduce, seq_sub, sub_fits, Poly, PolyView};
use crate::ring::{canonical, seq_mul, within};
use rand_chacha::ChaCha20Rng;
use vstd::prelude::*;

verus! {

/// A vector of `k` polynomials in R_q.
#[derive(Debug, PartialEq)]
pub struct PolyVec {
    /// The `k` polynomial components.
    pub polys: Vec<Poly>,
    /// Module rank (number of polynomials).
    pub k: usize,
}

/// A `k × k` matrix of polynomials in R_q, stored by rows.
#[derive(Clone, Debug, PartialEq)]
pub struct PolyMatrix {
    /// Matrix rows, each a `PolyVec` of length `k`.
    pub rows: Vec<PolyVec>,
    /// Matrix dimension (k × k).
    pub k: usize,
}

impl View for PolyVec {
    type V = Seq<PolyView>;

    open spec fn view(&self) -> Seq<PolyView> {
        self.polys@.map_values(|p: Poly| p@)
    }
}

impl View for PolyMatrix {
    type V = Seq<Seq<PolyView>>;

    open spec fn view(&self) -> Seq<Seq<PolyView>> {
        self.rows@.map_values(|r: PolyVec| r@)
    }
}

/// The view of a vector lists the views of its entries, in order.
pub proof fn lemma_polyvec_view(v: &PolyVec)
    ensures
        v@.len() == v.polys@.len(),
        forall|i: int| 0 <= i < v.polys@.len() ==> #[trigger] v@[i] == v.polys@[i]@,
{
}

/// The first `k` entries exist and share dimension `n` and modulus `q`, with
/// at least `n` coefficients each.
pub open spec fn shaped(v: Seq<PolyView>, k: int, n: int, q: int) -> bool {
    &&& v.len() >= k
    &&& forall|i: int|
        0 <= i < k ==> (#[trigger] v[i]).n == n && v[i].q == q && v[i].c.len() >= n
}

/// The first `k` entries have exactly `n` coefficients in [0, q).
pub open spec fn canonical_vec(v: Seq<PolyView>, k: int, n: int, q: int) -> bool {
    &&& shaped(v, k, n, q)
    &&& forall|i: int| 0 <= i < k ==> (#[trigger] v[i]).c.len() == n && canonical(v[i].c, q)
}

/// Vectors of `k` polynomials with exactly `n` coefficients each.
pub open spec fn vec_shape(v: Seq<PolyView>, k: int, n: int, q: int) -> bool {
    &&& v.len() == k
    &&& shaped(v, k, n, q)
    &&& forall|i: int| 0 <= i < k ==> (#[trigger] v[i]).c.len() == n
}

/// The first `n` coefficients of each of the first `k` entries are non-negative.
pub open spec fn nonneg_vec(v: Seq<PolyView>, k: int, n: int) -> bool {
    forall|i: int| 0 <= i < k ==> crate::ring::nonneg(#[trigger] v[i].c, n)
}

/// Entry-wise sum of two polynomial vectors, over the common length.
pub open spec fn vec_add(a: Seq<PolyView>, b: Seq<PolyView>) -> Seq<PolyView> {
    Seq::new(
        if a.len() <= b.len() { a.len() } else { b.len() },
        |i: int| PolyView { c: seq_add(a[i].c, b[i].c, a[i].q), n: a[i].n, q: a[i].q },
    )
}

/// Entry-wise difference of two polynomial vectors, over the common length.
pub open spec fn vec_sub(a: Seq<PolyView>, b: Seq<PolyView>) -> Seq<PolyView> {
    Seq::new(
        if a.len() <= b.len() { a.len() } else { b.len() },
        |i: int| PolyView { c: seq_sub(a[i].c, b[i].c, a[i].q), n: a[i].n, q: a[i].q },
    )
}

/// The sum that the inner product accumulates after its first `i` terms
/// (`i >= 1`): `a[0]·b[0] + ... + a[i-1]·b[i-1]`, each product and each sum
/// reduced with the ring operations of `Poly`.
pub open spec fn ip_acc(a: Seq<PolyView>, b: Seq<PolyView>, i: int) -> Seq<int>
    decreases i,
{
    let n = a[0].n;
    let q = a[0].q;
    if i <= 1 {
        seq_mul(a[0].c, b[0].c, n, q)
    } else {
        seq_add(ip_acc(a, b, i - 1), seq_mul(a[i - 1].c, b[i - 1].c, n, q), q)
    }
}

/// The polynomial that `inner_product` returns for `k` terms.
pub open spec fn ip_view(a: Seq<PolyView>, b: Seq<PolyView>, k: int) -> PolyView {
    PolyView { c: ip_acc(a, b, k), n: a[0].n, q: a[0].q }
}

pub proof fn lemma_ip_acc(a: Seq<PolyView>, b: Seq<PolyView>, k: int, i: int)
    requires
        1 <= i <= k,
        a[0].n >= 0,
        shaped(a, k, a[0].n, a[0].q),
        shaped(b, k, a[0].n, a[0].q),
        modulus_ok(a[0].q),
    ensures
        ip_acc(a, b, i).len() == a[0].n,
        within(ip_acc(a, b, i), a[0].q),
    decreases i,
{
    let n = a[0].n;
    let q = a[0].q;
    crate::ring::lemma_seq_mul(a[i - 1].c, b[i - 1].c, n, q);
    crate::ring::lemma_mul_state(a[i - 1].c, b[i - 1].c, n, q, n);
    if i > 1 {
        lemma_ip_acc(a, b, k, i - 1);
        let x = ip_acc(a, b, i - 1);
        let y = seq_mul(a[i - 1].c, b[i - 1].c, n, q);
        assert forall|d: int| 0 <= d < ip_acc(a, b, i).len() implies -q < #[trigger] ip_acc(
            a,
            b,
            i,
        )[d] < q by {
            lemma_trem(x[d] + y[d], q);
        }
    }
}

impl Clone for PolyVec {
    fn clone(&self) -> (r: Self)
        ensures
            r.k == self.k,
            r@ == self@,
    {
        let mut polys: Vec<Poly> = Vec::new();
        let mut i: usize = 0;
        while i < self.polys.len()
            invariant
                i <= self.polys.len(),
                polys.len() == i,
                forall|j: int| 0 <= j < i ==> (#[trigger] polys@[j])@ == self.polys@[j]@,
            decreases self.polys.len() - i,
        {
            polys.push(self.polys[i].clone());
            i = i + 1;
        }
        let r = PolyVec { polys, k: self.k };
        assert(r@ =~= self@);
        r
    }
}

impl PolyVec {
    /// A vector of `k` zero polynomials.
    pub fn new_zero(params: &PqhvParams) -> (r: PolyVec)
        ensures
            r.k == params.k,
            r@.len() == params.k,
            forall|i: int|
                0 <= i < params.k ==> (#[trigger] r@[i]).n == params.n && r@[i].q == params.q
                    && r@[i].c == Seq::new(params.n as nat, |d: int| 0int),
    {
        let mut polys: Vec<Poly> = Vec::new();
        let mut i: usize = 0;
        while i < params.k
            invariant
                i <= params.k,
                polys.len() == i,
                forall|j: int|
                    0 <= j < i ==> (#[trigger] polys@[j])@.n == params.n && polys@[j]@.q
                        == params.q && polys@[j]@.c == Seq::new(params.n as nat, |d: int| 0int),
            decreases params.k - i,
        {
            polys.push(Poly::new_zero(params));
            i = i + 1;
        }
        PolyVec { polys, k: params.k }
    }

    /// A vector of `k` polynomials with uniformly random coefficients in [0, q).
    pub fn new_random(params: &PqhvParams, rng: &mut ChaCha20Rng) -> (r: PolyVec)
        requires
            modulus_ok(params.q as int),
        ensures
            r.k == params.k,
            canonical_vec(r@, params.k as int, params.n as int, params.q as int),
            r@.len() == params.k,
    {
        let mut polys: Vec<Poly> = Vec::new();
        let mut i: usize = 0;
        while i < params.k
            invariant
                modulus_ok(params.q as int),
                i <= params.k,
                polys.len() == i,
                forall|j: int|
                    0 <= j < i ==> (#[trigger] polys@[j])@.n == params.n && polys@[j]@.q
                        == params.q && polys@[j]@.c.len() == params.n && canonical(
                        polys@[j]@.c,
                        params.q as int,
                    ),
            decreases params.k - i,
        {
            polys.push(Poly::new_random(params, rng));
            i = i + 1;
        }
        PolyVec { polys, k: params.k }
    }

    /// A vector of `k` polynomials with CBD(η) coefficients, stored as
    /// representatives modulo q.
    pub fn sample_cbd(params: &PqhvParams, eta: usize, rng: &mut ChaCha20Rng) -> (r: PolyVec)
        requires
            eta <= 16,
            modulus_ok(params.q as int),
        ensures
            r.k == params.k,
            r@.len() == params.k,
            shaped(r@, params.k as int, params.n as int, params.q as int),
            forall|i: int|
                0 <= i < params.k ==> (#[trigger] r@[i]).c.len() == params.n && small(
                    r@[i].c,
                    eta as int,
                    params.q as int,
                ),
    {
        let mut polys: Vec<Poly> = Vec::new();
        let mut i: usize = 0;
        while i < params.k
            invariant
                eta <= 16,
                modulus_ok(params.q as int),
                i <= params.k,
                polys.len() == i,
                forall|j: int|
                    0 <= j < i ==> (#[trigger] polys@[j])@.n == params.n && polys@[j]@.q
                        == params.q && polys@[j]@.c.len() == params.n && small(
                        polys@[j]@.c,
                        eta as int,
                        params.q as int,
                    ),
            decreases params.k - i,
        {
            polys.push(Poly::sample_cbd(params, eta, rng));
            i = i + 1;
        }
        PolyVec { polys, k: params.k }
    }

    /// Entry-wise sum.
    pub fn add(&self, other: &PolyVec) -> (r: PolyVec)
        requires
            self.k == other.k,
            forall|i: int|
                0 <= i < min_len_pv(self@, other@) ==> (#[trigger] self@[i]).n == other@[i].n
                    && self@[i].q == other@[i].q && modulus_fits(self@[i].q) && add_fits(
                    self@[i].c,
                    other@[i].c,
                ),
        ensures
            r.k == self.k,
            r@ == vec_add(self@, other@),
    {
        let len = if self.polys.len() <= other.polys.len() {
            self.polys.len()
        } else {
            other.polys.len()
        };
        let mut polys: Vec<Poly> = Vec::new();
        let mut i: usize = 0;
        while i < len
            invariant
                len == min_len_pv(self@, other@),
                forall|j: int|
                    0 <= j < min_len_pv(self@, other@) ==> (#[trigger] self@[j]).n == other@[j].n
                        && self@[j].q == other@[j].q && modulus_fits(self@[j].q) && add_fits(
                        self@[j].c,
                        other@[j].c,
                    ),
                i <= len,
                polys.len() == i,
                forall|j: int| 0 <= j < i ==> (#[trigger] polys@[j])@ == vec_add(self@, other@)[j],
            decreases len - i,
        {
            assert(self@[i as int] == self.polys[i as int]@);
            assert(other@[i as int] == other.polys[i as int]@);
            let p = self.polys[i].add(&other.polys[i]);
            polys.push(p);
            i = i + 1;
        }
        let r = PolyVec { polys, k: self.k };
        assert(r@ =~= vec_add(self@, other@));
        r
    }

    /// Entry-wise difference, with residues in [0, q).
    pub fn sub(&self, other: &PolyVec) -> (r: PolyVec)
        requires
            self.k == other.k,
            forall|i: int|
                0 <= i < min_len_pv(self@, other@) ==> (#[trigger] self@[i]).n == other@[i].n
                    && self@[i].q == other@[i].q && modulus_fits(self@[i].q) && sub_fits(
                    self@[i].c,
                    other@[i].c,
                ),
        ensures
            r.k == self.k,
            r@ == vec_sub(self@, other@),
    {
        let len = if self.polys.len() <= other.polys.len() {
            self.polys.len()
        } else {
            other.polys.len()
        };
        let mut polys: Vec<Poly> = Vec::new();
        let mut i: usize = 0;
        while i < len
            invariant
                len == min_len_pv(self@, other@),
                forall|j: int|
                    0 <= j < min_len_pv(self@, other@) ==> (#[trigger] self@[j]).n == other@[j].n
                        && self@[j].q == other@[j].q && modulus_fits(self@[j].q) && sub_fits(
                        self@[j].c,
                        other@[j].c,
                    ),
                i <= len,
                polys.len() == i,
                forall|j: int| 0 <= j < i ==> (#[trigger] polys@[j])@ == vec_sub(self@, other@)[j],
            decreases len - i,
        {
            assert(self@[i as int] == self.polys[i as int]@);
            assert(other@[i as int] == other.polys[i as int]@);
            let p = self.polys[i].sub(&other.polys[i]);
            polys.push(p);
            i = i + 1;
        }
        let r = PolyVec { polys, k: self.k };
        assert(r@ =~= vec_sub(self@, other@));
        r
    }

    /// Inner product `Σ self[i] · other[i]` for `i < k`, summed left to right.
    pub fn inner_product(&self, other: &PolyVec) -> (r: Poly)
        requires
            self.k == other.k,
            self.k > 0,
            self@.len() > 0,
            modulus_ok(self@[0].q),
            shaped(self@, self.k as int, self@[0].n, self@[0].q),
            shaped(other@, self.k as int, self@[0].n, self@[0].q),
        ensures
            r@ == ip_view(self@, other@, self.k as int),
            r@.c.len() == self@[0].n,
            within(r@.c, self@[0].q),
            nonneg_vec(self@, self.k as int, self@[0].n) && nonneg_vec(other@, self.k as int, self@[0].n)
                ==> canonical(r@.c, self@[0].q),
    {
        let ghost a = self@;
        let ghost b = other@;
        assert(a[0] == self.polys[0]@);
        assert(b[0] == other.polys[0]@);
        let mut result = self.polys[0].mul(&other.polys[0]);
        proof {
            lemma_ip_acc(a, b, self.k as int, 1);
            if nonneg_vec(a, self.k as int, a[0].n) && nonneg_vec(b, self.k as int, a[0].n) {
                assert(crate::ring::nonneg(a[0].c, a[0].n));
                assert(crate::ring::nonneg(b[0].c, a[0].n));
            }
        }
        let mut i: usize = 1;
        while i < self.k
            invariant
                a == self@,
                b == other@,
                self.k == other.k,
                1 <= i <= self.k,
                a[0].n >= 0,
                modulus_ok(a[0].q),
                shaped(a, self.k as int, a[0].n, a[0].q),
                shaped(b, self.k as int, a[0].n, a[0].q),
                result@ == ip_view(a, b, i as int),
                result@.c.len() == a[0].n,
                nonneg_vec(a, self.k as int, a[0].n) && nonneg_vec(b, self.k as int, a[0].n) ==> canonical(
                    result@.c,
                    a[0].q,
                ),
            decreases self.k - i,
        {
            assert(a[i as int] == self.polys[i as int]@);
            assert(b[i as int] == other.polys[i as int]@);
            let term = self.polys[i].mul(&other.polys[i]);
            proof {
                lemma_ip_acc(a, b, self.k as int, i as int);
                crate::ring::lemma_mul_state(a[i as int].c, b[i as int].c, a[0].n, a[0].q, a[0].n);
                assert forall|d: int| 0 <= d < min_len(result@.c, term@.c) implies crate::poly::fits_i64(
                    #[trigger] result@.c[d] + term@.c[d],
                ) by {}
            }
            let ghost prev = result@.c;
            proof {
                if nonneg_vec(a, self.k as int, a[0].n) && nonneg_vec(b, self.k as int, a[0].n) {
                    assert(crate::ring::nonneg(a[i as int].c, a[0].n));
                    assert(crate::ring::nonneg(b[i as int].c, a[0].n));
                }
            }
            result = result.add(&term);
            proof {
                assert(result@.c =~= ip_acc(a, b, i + 1));
                if nonneg_vec(a, self.k as int, a[0].n) && nonneg_vec(b, self.k as int, a[0].n) {
                    assert forall|d: int| 0 <= d < result@.c.len() implies 0 <= #[trigger] result@.c[d]
                        < a[0].q by {
                        crate::arith::lemma_trem(prev[d] + term@.c[d], a[0].q);
                    }
                }
            }
            i = i + 1;
        }
        proof {
            lemma_ip_acc(a, b, self.k as int, self.k as int);
        }
        result
    }

    /// Brings every coefficient of every entry to [0, q).
    pub fn reduce(&mut self)
        requires
            forall|i: int| 0 <= i < old(self)@.len() ==> modulus_ok((#[trigger] old(self)@[i]).q),
        ensures
            final(self).k == old(self).k,
            final(self)@.len() == old(self)@.len(),
            forall|i: int|
                0 <= i < old(self)@.len() ==> (#[trigger] final(self)@[i]).n == old(self)@[i].n
                    && final(self)@[i].q == old(self)@[i].q && final(self)@[i].c == seq_reduce(
                    old(self)@[i].c,
                    old(self)@[i].q,
                ) && canonical(final(self)@[i].c, old(self)@[i].q),
    {
        let ghost orig = self@;
        let mut polys: Vec<Poly> = Vec::new();
        let mut i: usize = 0;
        while i < self.polys.len()
            invariant
                orig == self@,
                forall|j: int| 0 <= j < orig.len() ==> modulus_ok((#[trigger] orig[j]).q),
                i <= self.polys.len(),
                polys.len() == i,
                forall|j: int|
                    0 <= j < i ==> (#[trigger] polys@[j])@.n == orig[j].n && polys@[j]@.q
                        == orig[j].q && polys@[j]@.c == seq_reduce(orig[j].c, orig[j].q)
                        && canonical(polys@[j]@.c, orig[j].q),
            decreases self.polys.len() - i,
        {
            assert(orig[i as int] == self.polys[i as int]@);
            let mut p = self.polys[i].clone();
            p.reduce();
            polys.push(p);
            i = i + 1;
        }
        self.polys = polys;
    }
}

pub open spec fn min_len_pv(a: Seq<PolyView>, b: Seq<PolyView>) -> int {
    if a.len() <= b.len() {
        a.len() as int
    } else {
        b.len() as int
    }
}

/// Every coefficient is a small representative: in [0, η] or in [q − η, q).
pub open spec fn small(c: Seq<int>, eta: int, q: int) -> bool {
    forall|d: int| 0 <= d < c.len() ==> (0 <= #[trigger] c[d] <= eta) || (q - eta <= c[d] < q)
}

impl PolyMatrix {
    /// A `k × k` matrix with uniformly random entries (coefficients in [0, q)).
    pub fn new_random(params: &PqhvParams, rng: &mut ChaCha20Rng) -> (r: PolyMatrix)
        requires
            modulus_ok(params.q as int),
        ensures
            r.k == params.k,
            r@.len() == params.k,
            forall|i: int|
                0 <= i < params.k ==> (#[trigger] r.rows@[i]).k == params.k && canonical_vec(
                    r@[i],
                    params.k as int,
                    params.n as int,
                    params.q as int,
                ) && r@[i].len() == params.k,
    {
        let mut rows: Vec<PolyVec> = Vec::new();
        let mut i: usize = 0;
        while i < params.k
            invariant
                modulus_ok(params.q as int),
                i <= params.k,
                rows.len() == i,
                forall|j: int|
                    0 <= j < i ==> (#[trigger] rows@[j]).k == params.k && canonical_vec(
                        rows@[j]@,
                        params.k as int,
                        params.n as int,
                        params.q as int,
                    ) && rows@[j]@.len() == params.k,
            decreases params.k - i,
        {
            rows.push(PolyVec::new_random(params, rng));
            i = i + 1;
        }
        PolyMatrix { rows, k: params.k }
    }

    /// Matrix-vector product: entry `i` is the inner product of row `i` with `v`.
    pub fn mul_vec(&self, v: &PolyVec) -> (r: PolyVec)
        requires
            self.k == v.k,
            self@.len() > 0 ==> self.k > 0 && v@.len() > 0 && modulus_ok(v@[0].q) && shaped(
                v@,
                self.k as int,
                v@[0].n,
                v@[0].q,
            ),
            forall|i: int|
                0 <= i < self@.len() ==> (#[trigger] self.rows@[i]).k == self.k && shaped(
                    self@[i],
                    self.k as int,
                    v@[0].n,
                    v@[0].q,
                ),
        ensures
            r.k == self.k,
            r@.len() == self@.len(),
            r@ == crate::keygen::mat_vec(self@, v@, self.k as int),
            forall|i: int|
                0 <= i < self@.len() ==> (#[trigger] r@[i]).n == v@[0].n && r@[i].q == v@[0].q
                    && r@[i].c.len() == v@[0].n && within(r@[i].c, v@[0].q),
            forall|i: int|
                0 <= i < self@.len() && nonneg_vec(self@[i], self.k as int, v@[0].n) && nonneg_vec(
                    v@,
                    self.k as int,
                    v@[0].n,
                ) ==> canonical(#[trigger] r@[i].c, v@[0].q),
    {
        let mut polys: Vec<Poly> = Vec::new();
        if self.rows.len() == 0 {
            let r = PolyVec { polys, k: self.k };
            assert(r@ =~= crate::keygen::mat_vec(self@, v@, self.k as int));
            return r;
        }
        let mut i: usize = 0;
        while i < self.rows.len()
            invariant
                self.k == v.k,
                self.k > 0,
                v@.len() > 0,
                modulus_ok(v@[0].q),
                shaped(v@, self.k as int, v@[0].n, v@[0].q),
                forall|j: int|
                    0 <= j < self@.len() ==> (#[trigger] self.rows@[j]).k == self.k && shaped(
                        self@[j],
                        self.k as int,
                        v@[0].n,
                        v@[0].q,
                    ),
                i <= self.rows.len(),
                polys.len() == i,
                forall|j: int|
                    0 <= j < i ==> (#[trigger] polys@[j])@ == ip_view(self@[j], v@, self.k as int)
                        && polys@[j]@.n == v@[0].n && polys@[j]@.q == v@[0].q && polys@[j]@.c.len()
                        == v@[0].n && within(polys@[j]@.c, v@[0].q) && (nonneg_vec(
                        self@[j],
                        self.k as int,
                        v@[0].n,
                    ) && nonneg_vec(v@, self.k as int, v@[0].n) ==> canonical(polys@[j]@.c, v@[0].q)),
            decreases self.rows.len() - i,
        {
            let row = &self.rows[i];
            assert(self@[i as int] == row@);
            assert(row@[0].n == v@[0].n && row@[0].q == v@[0].q) by {
                assert(shaped(row@, self.k as int, v@[0].n, v@[0].q));
            }
            let p = row.inner_product(v);
            polys.push(p);
            i = i + 1;
        }
        let r = PolyVec { polys, k: self.k };
        assert(r@ =~= crate::keygen::mat_vec(self@, v@, self.k as int));
        r
    }

    /// Transpose: entry `(j, i)` of the result is entry `(i, j)` of `self`.
    pub fn transpose(&self) -> (r: PolyMatrix)
        requires
            self@.len() >= self.k,
            forall|i: int| 0 <= i < self.k ==> (#[trigger] self@[i]).len() >= self.k,
        ensures
            r.k == self.k,
            r@.len() == self.k,
            forall|j: int|
                0 <= j < self.k ==> (#[trigger] r.rows@[j]).k == self.k && r@[j].len() == self.k,
            forall|j: int, i: int|
                0 <= j < self.k && 0 <= i < self.k ==> (#[trigger] r@[j][i]) == self@[i][j],
            r@ == crate::encrypt::transpose_view(self@, self.k as int),
    {
        let k = self.k;
        let mut rows: Vec<PolyVec> = Vec::new();
        let mut j: usize = 0;
        while j < k
            invariant
                k == self.k,
                self@.len() >= k,
                forall|i: int| 0 <= i < k ==> (#[trigger] self@[i]).len() >= k,
                j <= k,
                rows.len() == j,
                forall|jj: int|
                    0 <= jj < j ==> (#[trigger] rows@[jj]).k == k && rows@[jj]@.len() == k,
                forall|jj: int, i: int|
                    0 <= jj < j && 0 <= i < k ==> (#[trigger] rows@[jj]@[i]) == self@[i][jj],
            decreases k - j,
        {
            let mut polys: Vec<Poly> = Vec::new();
            let mut i: usize = 0;
            while i < k
                invariant
                    k == self.k,
                    self@.len() >= k,
                    forall|ii: int| 0 <= ii < k ==> (#[trigger] self@[ii]).len() >= k,
                    j < k,
                    i <= k,
                    polys.len() == i,
                    forall|ii: int| 0 <= ii < i ==> (#[trigger] polys@[ii])@ == self@[ii][j as int],
                decreases k - i,
            {
                assert(self@[i as int] == self.rows[i as int]@);
                assert(self@[i as int][j as int] == self.rows[i as int].polys[j as int]@);
                polys.push(self.rows[i].polys[j].clone());
                i = i + 1;
            }
            let ghost before = rows@;
            rows.push(PolyVec { polys, k });
            assert forall|jj: int, i: int|
                0 <= jj < j + 1 && 0 <= i < k implies (#[trigger] rows@[jj]@[i]) == self@[i][jj] by {
                if jj < j {
                    assert(rows@[jj] == before[jj]);
                }
            }
            j = j + 1;
        }
        let r = PolyMatrix { rows, k };
        assert forall|jj: int| 0 <= jj < k implies #[trigger] r@[jj] =~= crate::encrypt::transpose_view(self@, k as int)[jj] by {}
        assert(r@ =~= crate::encrypt::transpose_view(self@, k as int));
        r
    }
}

} // verus!
