//! Ring laws of the negacyclic product on integer coefficients: it is
//! commutative, bilinear, associative, and respects congruence modulo q.

use crate::arith::{lemma_sum_add, lemma_sum_cong, lemma_sum_ext, lemma_sum_scale, lemma_sum_single, lemma_sum_swap, sum_to};
use crate::ring::{chi, nc_coeff, nc_mul, nc_row, nc_term};
use vstd::prelude::*;

verus! {

/// `Σ_{i<n} Σ_{j<m} g(i, j)`.
pub open spec fn sum2(g: spec_fn(int, int) -> int, n: int, m: int) -> int {
    sum_to(|i: int| sum_to(|j: int| g(i, j), m), n)
}

/// A coefficient of the product as a double sum over both factors.
pub proof fn lemma_nc_coeff_sum2(a: Seq<int>, b: Seq<int>, n: int, d: int)
    ensures
        nc_coeff(a, b, n, d) == sum2(|i: int, j: int| nc_term(a, b, n, d, i, j), n, n),
{
    let g = |i: int, j: int| nc_term(a, b, n, d, i, j);
    assert forall|r: int| #[trigger] nc_row(a, b, n, d, r, n) == sum_to(|j: int| g(r, j), n) by {
        assert((|j: int| nc_term(a, b, n, d, r, j)) =~= (|j: int| g(r, j)));
    }
    assert((|r: int| nc_row(a, b, n, d, r, n)) =~= (|i: int| sum_to(|j: int| g(i, j), n)));
}

/// The product is commutative: `a·b == b·a` coefficient by coefficient.
pub proof fn lemma_nc_coeff_comm(a: Seq<int>, b: Seq<int>, n: int, d: int)
    ensures
        nc_coeff(a, b, n, d) == nc_coeff(b, a, n, d),
{
    let g = |i: int, j: int| nc_term(a, b, n, d, i, j);
    let h = |i: int, j: int| nc_term(b, a, n, d, i, j);
    lemma_nc_coeff_sum2(a, b, n, d);
    lemma_nc_coeff_sum2(b, a, n, d);
    lemma_sum_swap(g, n, n);
    let lhs = |j: int| sum_to(|i: int| g(i, j), n);
    let rhs = |j: int| sum_to(|i: int| h(j, i), n);
    assert forall|j: int| #[trigger] lhs(j) == rhs(j) by {
        assert((|i: int| g(i, j)) =~= (|i: int| h(j, i)));
    }
    assert(lhs =~= rhs);
}

/// `Σ_{x<n} Σ_{y<n} Σ_{z<n} g(x, y, z)`.
pub open spec fn sum3(g: spec_fn(int, int, int) -> int, n: int) -> int {
    sum_to(|x: int| sum_to(|y: int| sum_to(|z: int| g(x, y, z), n), n), n)
}

/// A linear combination of two sums is the sum of the combined terms.
pub proof fn lemma_sum_lin(f: spec_fn(int) -> int, g: spec_fn(int) -> int, h: spec_fn(int) -> int, x: int, y: int, n: int)
    requires
        forall|i: int| 0 <= i < n ==> #[trigger] h(i) == x * f(i) + y * g(i),
    ensures
        sum_to(h, n) == x * sum_to(f, n) + y * sum_to(g, n),
    decreases n,
{
    if n > 0 {
        lemma_sum_lin(f, g, h, x, y, n - 1);
        let sf = sum_to(f, n - 1);
        let sg = sum_to(g, n - 1);
        let a = f(n - 1);
        let b = g(n - 1);
        assert(x * sf + y * sg + (x * a + y * b) == x * (sf + a) + y * (sg + b)) by (nonlinear_arith);
    }
}

/// A linear combination of two double sums is the double sum of the combined terms.
pub proof fn lemma_sum2_lin(
    f: spec_fn(int, int) -> int,
    g: spec_fn(int, int) -> int,
    h: spec_fn(int, int) -> int,
    x: int,
    y: int,
    n: int,
    m: int,
)
    requires
        forall|i: int, j: int| 0 <= i < n && 0 <= j < m ==> #[trigger] h(i, j) == x * f(i, j) + y * g(i, j),
    ensures
        sum2(h, n, m) == x * sum2(f, n, m) + y * sum2(g, n, m),
{
    let hf = |i: int| sum_to(|j: int| f(i, j), m);
    let hg = |i: int| sum_to(|j: int| g(i, j), m);
    let hh = |i: int| sum_to(|j: int| h(i, j), m);
    assert forall|i: int| 0 <= i < n implies #[trigger] hh(i) == x * hf(i) + y * hg(i) by {
        lemma_sum_lin(|j: int| f(i, j), |j: int| g(i, j), |j: int| h(i, j), x, y, m);
    }
    lemma_sum_lin(hf, hg, hh, x, y, n);
}

/// A constant factor moves into a double sum.
pub proof fn lemma_sum2_scale(g: spec_fn(int, int) -> int, x: int, n: int, m: int)
    ensures
        x * sum2(g, n, m) == sum2(|i: int, j: int| x * g(i, j), n, m),
{
    lemma_sum2_lin(g, g, |i: int, j: int| x * g(i, j), x, 0, n, m);
}

/// Double sums of termwise congruent terms are congruent.
pub proof fn lemma_sum2_cong(f: spec_fn(int, int) -> int, g: spec_fn(int, int) -> int, n: int, m: int, q: int)
    requires
        q > 0,
        forall|i: int, j: int| 0 <= i < n && 0 <= j < m ==> #[trigger] f(i, j) % q == g(i, j) % q,
    ensures
        sum2(f, n, m) % q == sum2(g, n, m) % q,
{
    let hf = |i: int| sum_to(|j: int| f(i, j), m);
    let hg = |i: int| sum_to(|j: int| g(i, j), m);
    assert forall|i: int| 0 <= i < n implies #[trigger] hf(i) % q == hg(i) % q by {
        lemma_sum_cong(|j: int| f(i, j), |j: int| g(i, j), m, q);
    }
    lemma_sum_cong(hf, hg, n, q);
}

/// `c·((x·p + y·p2)·w) == x·(c·(p·w)) + y·(c·(p2·w))`.
proof fn lemma_lin_term(c: int, x: int, y: int, p: int, p2: int, w: int)
    ensures
        c * ((x * p + y * p2) * w) == x * (c * (p * w)) + y * (c * (p2 * w)),
{
    assert((x * p + y * p2) * w == x * (p * w) + y * (p2 * w)) by (nonlinear_arith);
    let u = x * (p * w);
    let v = y * (p2 * w);
    assert(c * (u + v) == c * u + c * v) by (nonlinear_arith);
    assert(c * (x * (p * w)) == x * (c * (p * w))) by (nonlinear_arith);
    assert(c * (y * (p2 * w)) == y * (c * (p2 * w))) by (nonlinear_arith);
}

/// The product is linear in its first factor.
pub proof fn lemma_nc_coeff_lin_left(a: Seq<int>, a2: Seq<int>, s: Seq<int>, b: Seq<int>, x: int, y: int, n: int, d: int)
    requires
        forall|i: int| 0 <= i < n ==> #[trigger] s[i] == x * a[i] + y * a2[i],
    ensures
        nc_coeff(s, b, n, d) == x * nc_coeff(a, b, n, d) + y * nc_coeff(a2, b, n, d),
{
    lemma_nc_coeff_sum2(a, b, n, d);
    lemma_nc_coeff_sum2(a2, b, n, d);
    lemma_nc_coeff_sum2(s, b, n, d);
    assert forall|i: int, j: int| 0 <= i < n && 0 <= j < n implies #[trigger] nc_term(s, b, n, d, i, j) == x
        * nc_term(a, b, n, d, i, j) + y * nc_term(a2, b, n, d, i, j) by {
        lemma_lin_term(chi(i, j, d, n), x, y, a[i], a2[i], b[j]);
    }
    lemma_sum2_lin(
        |i: int, j: int| nc_term(a, b, n, d, i, j),
        |i: int, j: int| nc_term(a2, b, n, d, i, j),
        |i: int, j: int| nc_term(s, b, n, d, i, j),
        x,
        y,
        n,
        n,
    );
}

/// The product is linear in its second factor.
pub proof fn lemma_nc_coeff_lin_right(a: Seq<int>, b: Seq<int>, b2: Seq<int>, s: Seq<int>, x: int, y: int, n: int, d: int)
    requires
        forall|j: int| 0 <= j < n ==> #[trigger] s[j] == x * b[j] + y * b2[j],
    ensures
        nc_coeff(a, s, n, d) == x * nc_coeff(a, b, n, d) + y * nc_coeff(a, b2, n, d),
{
    lemma_nc_coeff_lin_left(b, b2, s, a, x, y, n, d);
    lemma_nc_coeff_comm(a, s, n, d);
    lemma_nc_coeff_comm(a, b, n, d);
    lemma_nc_coeff_comm(a, b2, n, d);
}

/// Congruent first factors give congruent products.
pub proof fn lemma_nc_coeff_cong_left(a: Seq<int>, a2: Seq<int>, b: Seq<int>, n: int, d: int, q: int)
    requires
        q > 0,
        forall|i: int| 0 <= i < n ==> #[trigger] a[i] % q == a2[i] % q,
    ensures
        nc_coeff(a, b, n, d) % q == nc_coeff(a2, b, n, d) % q,
{
    lemma_nc_coeff_sum2(a, b, n, d);
    lemma_nc_coeff_sum2(a2, b, n, d);
    assert forall|i: int, j: int| 0 <= i < n && 0 <= j < n implies #[trigger] nc_term(a, b, n, d, i, j) % q
        == nc_term(a2, b, n, d, i, j) % q by {
        vstd::arithmetic::div_mod::lemma_mul_mod_noop_left(a[i], b[j], q);
        vstd::arithmetic::div_mod::lemma_mul_mod_noop_left(a2[i], b[j], q);
        vstd::arithmetic::div_mod::lemma_mul_mod_noop_right(chi(i, j, d, n), a[i] * b[j], q);
        vstd::arithmetic::div_mod::lemma_mul_mod_noop_right(chi(i, j, d, n), a2[i] * b[j], q);
    }
    lemma_sum2_cong(
        |i: int, j: int| nc_term(a, b, n, d, i, j),
        |i: int, j: int| nc_term(a2, b, n, d, i, j),
        n,
        n,
        q,
    );
}

/// Congruent second factors give congruent products.
pub proof fn lemma_nc_coeff_cong_right(a: Seq<int>, b: Seq<int>, b2: Seq<int>, n: int, d: int, q: int)
    requires
        q > 0,
        forall|j: int| 0 <= j < n ==> #[trigger] b[j] % q == b2[j] % q,
    ensures
        nc_coeff(a, b, n, d) % q == nc_coeff(a, b2, n, d) % q,
{
    lemma_nc_coeff_cong_left(b, b2, a, n, d, q);
    lemma_nc_coeff_comm(a, b, n, d);
    lemma_nc_coeff_comm(a, b2, n, d);
}

/// The sign with which `X^s` lands on `X^d` modulo `X^n + 1`, for `s < 3n`.
pub open spec fn wsign(s: int, d: int, n: int) -> int {
    if s == d {
        1
    } else if s == d + n {
        -1
    } else if s == d + 2 * n {
        1
    } else {
        0
    }
}

/// Moving the outermost index of a triple sum innermost.
proof fn lemma_rot3(g: spec_fn(int, int, int) -> int, n: int)
    ensures
        sum3(g, n) == sum3(|p: int, q: int, r: int| g(r, p, q), n),
{
    let hh = |x: int, y: int| sum_to(|z: int| g(x, y, z), n);
    lemma_sum_swap(hh, n, n);
    let l1 = |x: int| sum_to(|y: int| sum_to(|z: int| g(x, y, z), n), n);
    let l2 = |x: int| sum_to(|y: int| hh(x, y), n);
    assert forall|x: int| #[trigger] l1(x) == l2(x) by {
        assert((|y: int| sum_to(|z: int| g(x, y, z), n)) =~= (|y: int| hh(x, y)));
    }
    assert(l1 =~= l2);
    let r1 = |y: int| sum_to(|x: int| hh(x, y), n);
    let r2 = |p: int| sum_to(|q: int| sum_to(|r: int| g(r, p, q), n), n);
    assert forall|y: int| #[trigger] r1(y) == r2(y) by {
        let gy = |x: int, z: int| g(x, y, z);
        lemma_sum_swap(gy, n, n);
        let a1 = |x: int| hh(x, y);
        let a2 = |i: int| sum_to(|j: int| gy(i, j), n);
        assert forall|x: int| #[trigger] a1(x) == a2(x) by {
            assert((|z: int| g(x, y, z)) =~= (|j: int| gy(x, j)));
        }
        assert(a1 =~= a2);
        let c1 = |j: int| sum_to(|i: int| gy(i, j), n);
        let c2 = |q: int| sum_to(|r: int| g(r, y, q), n);
        assert forall|z: int| #[trigger] c1(z) == c2(z) by {
            assert((|i: int| gy(i, z)) =~= (|r: int| g(r, y, z)));
        }
        assert(c1 =~= c2);
    }
    assert(r1 =~= r2);
    let h = |p: int, q: int, r: int| g(r, p, q);
    let s1 = |x: int| sum_to(|y: int| sum_to(|z: int| h(x, y, z), n), n);
    assert forall|x: int| #[trigger] s1(x) == r2(x) by {
        let t1 = |y: int| sum_to(|z: int| h(x, y, z), n);
        let t2 = |q: int| sum_to(|r: int| g(r, x, q), n);
        assert forall|y: int| #[trigger] t1(y) == t2(y) by {
            assert((|z: int| h(x, y, z)) =~= (|r: int| g(r, x, y)));
        }
        assert(t1 =~= t2);
    }
    assert(s1 =~= r2);
    assert(sum3(h, n) == sum_to(s1, n));
}

/// Double sums of pointwise equal terms are equal.
pub proof fn lemma_sum2_ext(f: spec_fn(int, int) -> int, g: spec_fn(int, int) -> int, n: int, m: int)
    requires
        forall|i: int, j: int| 0 <= i < n && 0 <= j < m ==> #[trigger] f(i, j) == g(i, j),
    ensures
        sum2(f, n, m) == sum2(g, n, m),
{
    lemma_sum2_lin(f, f, g, 1, 0, n, m);
}

/// A triple sum as a sum of double sums.
proof fn lemma_sum3_split(g: spec_fn(int, int, int) -> int, n: int)
    ensures
        sum3(g, n) == sum_to(|x: int| sum2(|y: int, z: int| g(x, y, z), n, n), n),
{
    let l1 = |x: int| sum_to(|y: int| sum_to(|z: int| g(x, y, z), n), n);
    let l2 = |x: int| sum2(|y: int, z: int| g(x, y, z), n, n);
    assert forall|x: int| #[trigger] l1(x) == l2(x) by {
        let gx = |y: int, z: int| g(x, y, z);
        let t1 = |y: int| sum_to(|z: int| g(x, y, z), n);
        let t2 = |i: int| sum_to(|j: int| gx(i, j), n);
        assert forall|y: int| #[trigger] t1(y) == t2(y) by {
            assert((|z: int| g(x, y, z)) =~= (|j: int| gx(y, j)));
        }
        assert(t1 =~= t2);
    }
    assert(l1 =~= l2);
}

/// `x·(c·y) == c·(x·y)`.
proof fn lemma_swap_factor(x: int, c: int, y: int)
    ensures
        x * (c * y) == c * (x * y),
{
    assert(x * (c * y) == c * (x * y)) by (nonlinear_arith);
}

/// The weight with which coefficient `k` of the first factor enters
/// coefficient `d` of a product with `c`.
pub open spec fn row_weight(c: Seq<int>, n: int, d: int, k: int) -> int {
    sum_to(|l: int| chi(k, l, d, n) * c[l], n)
}

/// A coefficient of a product as a weighted sum of the first factor.
proof fn lemma_nc_coeff_weights(x: Seq<int>, c: Seq<int>, n: int, d: int)
    ensures
        nc_coeff(x, c, n, d) == sum_to(|k: int| x[k] * row_weight(c, n, d, k), n),
{
    let f1 = |r: int| nc_row(x, c, n, d, r, n);
    let f2 = |k: int| x[k] * row_weight(c, n, d, k);
    assert forall|r: int| 0 <= r < n implies #[trigger] f1(r) == f2(r) by {
        let w = |l: int| chi(r, l, d, n) * c[l];
        lemma_sum_scale(w, x[r], n);
        assert forall|j: int| 0 <= j < n implies #[trigger] nc_term(x, c, n, d, r, j) == x[r] * w(j) by {
            lemma_swap_factor(x[r], chi(r, j, d, n), c[j]);
        }
        lemma_sum_ext(|j: int| nc_term(x, c, n, d, r, j), |j: int| x[r] * w(j), n);
    }
    lemma_sum_ext(f1, f2, n);
}

/// A double sum whose row sums are known.
proof fn lemma_sum2_rows(f: spec_fn(int, int) -> int, r: spec_fn(int) -> int, n: int, m: int)
    requires
        forall|i: int| 0 <= i < n ==> sum_to(|j: int| f(i, j), m) == #[trigger] r(i),
    ensures
        sum2(f, n, m) == sum_to(r, n),
{
    let rows = |i: int| sum_to(|j: int| f(i, j), m);
    assert forall|i: int| 0 <= i < n implies #[trigger] rows(i) == r(i) by {}
    lemma_sum_ext(rows, r, n);
}

/// The weight with which the pair `(a[i], b[j])` enters coefficient `d` of
/// `(a·b)·c`.
pub open spec fn pair_weight(c: Seq<int>, n: int, d: int, i: int, j: int) -> int {
    sum_to(|k: int| chi(i, j, k, n) * row_weight(c, n, d, k), n)
}

/// A coefficient of `(a·b)·c` as a double sum over the coefficients of `a` and `b`.
proof fn lemma_product_weights(a: Seq<int>, b: Seq<int>, c: Seq<int>, n: int, d: int)
    ensures
        sum_to(|k: int| nc_mul(a, b, n)[k] * row_weight(c, n, d, k), n) == sum2(
            |i: int, j: int| (a[i] * b[j]) * pair_weight(c, n, d, i, j),
            n,
            n,
        ),
{
    let p = nc_mul(a, b, n);
    let h = |k: int, i: int, j: int| (a[i] * b[j]) * (chi(i, j, k, n) * row_weight(c, n, d, k));
    let e1 = |k: int| p[k] * row_weight(c, n, d, k);
    let e2 = |x: int| sum2(|y: int, z: int| h(x, y, z), n, n);
    assert forall|k: int| 0 <= k < n implies #[trigger] e1(k) == e2(k) by {
        lemma_nc_coeff_sum2(a, b, n, k);
        let w = row_weight(c, n, d, k);
        let g = |i: int, j: int| nc_term(a, b, n, k, i, j);
        lemma_sum2_scale(g, w, n, n);
        assert forall|i: int, j: int| 0 <= i < n && 0 <= j < n implies #[trigger] (w * g(i, j)) == h(k, i, j) by {
            lemma_mul3(w, chi(i, j, k, n), a[i] * b[j]);
        }
        lemma_sum2_ext(|i: int, j: int| w * g(i, j), |i: int, j: int| h(k, i, j), n, n);
        assert(p[k] * w == w * p[k]) by (nonlinear_arith);
    }
    lemma_sum_ext(e1, e2, n);
    lemma_sum3_split(h, n);
    lemma_rot3(h, n);
    let hr = |p: int, q: int, r: int| h(r, p, q);
    lemma_sum3_split(hr, n);
    let x2 = |i: int| sum_to(|j: int| (a[i] * b[j]) * pair_weight(c, n, d, i, j), n);
    let x1 = |x: int| sum2(|y: int, z: int| hr(x, y, z), n, n);
    assert forall|x: int| 0 <= x < n implies #[trigger] x1(x) == x2(x) by {
        let fx = |y: int, z: int| hr(x, y, z);
        let rx = |y: int| (a[x] * b[y]) * pair_weight(c, n, d, x, y);
        assert forall|y: int| 0 <= y < n implies sum_to(|z: int| fx(y, z), n) == #[trigger] rx(y) by {
            let f = |k: int| chi(x, y, k, n) * row_weight(c, n, d, k);
            lemma_sum_scale(f, a[x] * b[y], n);
            lemma_sum_ext(|z: int| fx(y, z), |k: int| (a[x] * b[y]) * f(k), n);
        }
        lemma_sum2_rows(fx, rx, n, n);
    }
    lemma_sum_ext(x1, x2, n);
    let fab = |i: int, j: int| (a[i] * b[j]) * pair_weight(c, n, d, i, j);
    assert forall|i: int| 0 <= i < n implies sum_to(|j: int| fab(i, j), n) == #[trigger] x2(i) by {
        assert((|j: int| fab(i, j)) =~= (|j: int| (a[i] * b[j]) * pair_weight(c, n, d, i, j)));
    }
    lemma_sum2_rows(fab, x2, n, n);
}

/// `w·(c·p) == p·(c·w)`.
proof fn lemma_mul3(w: int, c: int, p: int)
    ensures
        w * (c * p) == p * (c * w),
{
    assert(w * (c * p) == p * (c * w)) by (nonlinear_arith);
}

/// The weight with which the triple `(a[i], b[j], c[l])` enters coefficient
/// `d` of a triple product, summed over `l` against `c`.
pub open spec fn triple_weight(c: Seq<int>, n: int, d: int, i: int, j: int) -> int {
    sum_to(|l: int| c[l] * wsign(i + j + l, d, n), n)
}

/// Coefficient `d` of a triple product: `Σ_i Σ_j Σ_l a[i]·b[j]·c[l]·sign(i+j+l)`.
pub open spec fn triple_coeff(a: Seq<int>, b: Seq<int>, c: Seq<int>, n: int, d: int) -> int {
    sum2(|i: int, j: int| (a[i] * b[j]) * triple_weight(c, n, d, i, j), n, n)
}

/// Only the coefficient `X^((i+j) mod n)` of `X^i·X^j` is non-zero.
proof fn lemma_pair_weight(c: Seq<int>, n: int, d: int, i: int, j: int)
    requires
        0 <= i < n,
        0 <= j < n,
        0 <= d < n,
    ensures
        pair_weight(c, n, d, i, j) == triple_weight(c, n, d, i, j),
{
    let f = |k: int| chi(i, j, k, n) * row_weight(c, n, d, k);
    let k0 = if i + j < n { i + j } else { i + j - n };
    let s1: int = if i + j < n { 1 } else { -1 };
    assert forall|k: int| 0 <= k < n && k != k0 implies #[trigger] f(k) == 0 by {
        assert(chi(i, j, k, n) == 0);
    }
    lemma_sum_single(f, n, k0);
    let w = |l: int| chi(k0, l, d, n) * c[l];
    lemma_sum_scale(w, s1, n);
    assert forall|l: int| 0 <= l < n implies #[trigger] (s1 * w(l)) == c[l] * wsign(i + j + l, d, n) by {
        if i + j < n {
            assert(s1 * w(l) == chi(k0, l, d, n) * c[l]);
        } else {
            assert(s1 * w(l) == -(chi(k0, l, d, n) * c[l]));
        }
    }
    lemma_sum_ext(|l: int| s1 * w(l), |l: int| c[l] * wsign(i + j + l, d, n), n);
}

/// Triple sums of pointwise equal terms are equal.
proof fn lemma_sum3_ext(f: spec_fn(int, int, int) -> int, g: spec_fn(int, int, int) -> int, n: int)
    requires
        forall|i: int, j: int, l: int| 0 <= i < n && 0 <= j < n && 0 <= l < n ==> #[trigger] f(i, j, l) == g(i, j, l),
    ensures
        sum3(f, n) == sum3(g, n),
{
    lemma_sum3_split(f, n);
    lemma_sum3_split(g, n);
    let rf = |x: int| sum2(|y: int, z: int| f(x, y, z), n, n);
    let rg = |x: int| sum2(|y: int, z: int| g(x, y, z), n, n);
    assert forall|x: int| 0 <= x < n implies #[trigger] rf(x) == rg(x) by {
        lemma_sum2_ext(|y: int, z: int| f(x, y, z), |y: int, z: int| g(x, y, z), n, n);
    }
    lemma_sum_ext(rf, rg, n);
}

/// A triple product coefficient as a triple sum.
proof fn lemma_triple_sum3(a: Seq<int>, b: Seq<int>, c: Seq<int>, n: int, d: int)
    ensures
        triple_coeff(a, b, c, n, d) == sum3(|i: int, j: int, l: int| (a[i] * b[j]) * (c[l] * wsign(i + j + l, d, n)), n),
{
    let g = |i: int, j: int, l: int| (a[i] * b[j]) * (c[l] * wsign(i + j + l, d, n));
    lemma_sum3_split(g, n);
    let r = |x: int| sum2(|y: int, z: int| g(x, y, z), n, n);
    let t = |i: int, j: int| (a[i] * b[j]) * triple_weight(c, n, d, i, j);
    assert forall|i: int| 0 <= i < n implies sum_to(|j: int| t(i, j), n) == #[trigger] r(i) by {
        let gi = |y: int, z: int| g(i, y, z);
        let ti = |j: int| t(i, j);
        assert forall|j: int| 0 <= j < n implies sum_to(|z: int| gi(j, z), n) == #[trigger] ti(j) by {
            let w = |l: int| c[l] * wsign(i + j + l, d, n);
            lemma_sum_scale(w, a[i] * b[j], n);
            lemma_sum_ext(|z: int| gi(j, z), |l: int| (a[i] * b[j]) * w(l), n);
        }
        lemma_sum2_rows(gi, ti, n, n);
    }
    lemma_sum2_rows(t, r, n, n);
}

/// `(x·y)·(z·w) == (y·z)·(x·w)`.
proof fn lemma_rotate4(x: int, y: int, z: int, w: int)
    ensures
        (x * y) * (z * w) == (y * z) * (x * w),
{
    assert((x * y) * (z * w) == (y * z) * (x * w)) by (nonlinear_arith);
}

/// The triple product is invariant under rotating its factors.
proof fn lemma_triple_rotate(a: Seq<int>, b: Seq<int>, c: Seq<int>, n: int, d: int)
    ensures
        triple_coeff(a, b, c, n, d) == triple_coeff(b, c, a, n, d),
{
    let g = |i: int, j: int, l: int| (a[i] * b[j]) * (c[l] * wsign(i + j + l, d, n));
    let g2 = |i: int, j: int, l: int| (b[i] * c[j]) * (a[l] * wsign(i + j + l, d, n));
    lemma_triple_sum3(a, b, c, n, d);
    lemma_triple_sum3(b, c, a, n, d);
    lemma_rot3(g, n);
    let gr = |p: int, q: int, r: int| g(r, p, q);
    assert forall|p: int, q: int, r: int| 0 <= p < n && 0 <= q < n && 0 <= r < n implies #[trigger] gr(p, q, r) == g2(p, q, r) by {
        lemma_rotate4(a[r], b[p], c[q], wsign(r + p + q, d, n));
        assert(r + p + q == p + q + r);
    }
    lemma_sum3_ext(gr, g2, n);
}

/// Coefficient `d` of `(a·b)·c` as a triple product coefficient.
proof fn lemma_left_triple(a: Seq<int>, b: Seq<int>, c: Seq<int>, n: int, d: int)
    requires
        0 <= d < n,
    ensures
        nc_coeff(nc_mul(a, b, n), c, n, d) == triple_coeff(a, b, c, n, d),
{
    lemma_nc_coeff_weights(nc_mul(a, b, n), c, n, d);
    lemma_product_weights(a, b, c, n, d);
    assert forall|i: int, j: int| 0 <= i < n && 0 <= j < n implies #[trigger] ((a[i] * b[j]) * pair_weight(c, n, d, i, j))
        == (a[i] * b[j]) * triple_weight(c, n, d, i, j) by {
        lemma_pair_weight(c, n, d, i, j);
    }
    lemma_sum2_ext(
        |i: int, j: int| (a[i] * b[j]) * pair_weight(c, n, d, i, j),
        |i: int, j: int| (a[i] * b[j]) * triple_weight(c, n, d, i, j),
        n,
        n,
    );
}

/// The product is associative: `(a·b)·c == a·(b·c)`, coefficient by coefficient.
pub proof fn lemma_nc_coeff_assoc(a: Seq<int>, b: Seq<int>, c: Seq<int>, n: int, d: int)
    requires
        0 <= d < n,
    ensures
        nc_coeff(nc_mul(a, b, n), c, n, d) == nc_coeff(a, nc_mul(b, c, n), n, d),
{
    lemma_left_triple(a, b, c, n, d);
    lemma_nc_coeff_comm(a, nc_mul(b, c, n), n, d);
    lemma_left_triple(b, c, a, n, d);
    lemma_triple_rotate(a, b, c, n, d);
}

/// The coefficient-wise sum of the first `m` sequences of `f`, over `n` coefficients.
pub open spec fn seq_sum(f: spec_fn(int) -> Seq<int>, m: int, n: int) -> Seq<int> {
    Seq::new(n as nat, |t: int| sum_to(|j: int| f(j)[t], m))
}

/// The product distributes over a finite sum in its first factor.
pub proof fn lemma_nc_coeff_sum_left(f: spec_fn(int) -> Seq<int>, m: int, y: Seq<int>, n: int, d: int)
    ensures
        nc_coeff(seq_sum(f, m, n), y, n, d) == sum_to(|j: int| nc_coeff(f(j), y, n, d), m),
    decreases m,
{
    if m <= 0 {
        lemma_nc_coeff_lin_left(y, y, seq_sum(f, m, n), y, 0, 0, n, d);
    } else {
        lemma_nc_coeff_sum_left(f, m - 1, y, n, d);
        lemma_nc_coeff_lin_left(seq_sum(f, m - 1, n), f(m - 1), seq_sum(f, m, n), y, 1, 1, n, d);
    }
}

/// `(a·s)·r == s·(a·r)`: the two factors multiplied onto `a` can be taken in
/// either order.
pub proof fn lemma_nc_coeff_exchange(a: Seq<int>, s: Seq<int>, r: Seq<int>, n: int, d: int)
    requires
        0 <= d < n,
    ensures
        nc_coeff(nc_mul(a, s, n), r, n, d) == nc_coeff(s, nc_mul(a, r, n), n, d),
{
    lemma_nc_coeff_assoc(a, s, r, n, d);
    assert(nc_mul(s, r, n) =~= nc_mul(r, s, n)) by {
        assert forall|t: int| 0 <= t < n implies #[trigger] nc_mul(s, r, n)[t] == nc_mul(r, s, n)[t] by {
            lemma_nc_coeff_comm(s, r, n, t);
        }
    }
    lemma_nc_coeff_assoc(a, r, s, n, d);
    lemma_nc_coeff_comm(nc_mul(a, r, n), s, n, d);
}

/// `a·(c·r) == c·(a·r)`: the factor applied first can be exchanged.
pub proof fn lemma_nc_coeff_swap_outer(a: Seq<int>, c: Seq<int>, r: Seq<int>, n: int, d: int)
    requires
        0 <= d < n,
    ensures
        nc_coeff(a, nc_mul(c, r, n), n, d) == nc_coeff(c, nc_mul(a, r, n), n, d),
{
    lemma_nc_coeff_assoc(a, c, r, n, d);
    lemma_nc_coeff_assoc(c, a, r, n, d);
    assert(nc_mul(a, c, n) =~= nc_mul(c, a, n)) by {
        assert forall|t: int| 0 <= t < n implies #[trigger] nc_mul(a, c, n)[t] == nc_mul(c, a, n)[t] by {
            lemma_nc_coeff_comm(a, c, n, t);
        }
    }
}

} // verus!
