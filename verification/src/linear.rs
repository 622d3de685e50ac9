//! The scheme's arithmetic modulo q in terms of exact integer sums of
//! negacyclic products: what the inner product, encryption and decryption
//! compute, up to multiples of q.

use crate::algebra::{lemma_nc_coeff_swap_outer, lemma_nc_coeff_lin_right, lemma_nc_coeff_cong_right, lemma_nc_coeff_exchange, lemma_nc_coeff_comm, lemma_nc_coeff_cong_left, lemma_nc_coeff_lin_left, lemma_nc_coeff_sum_left, seq_sum};
use crate::arith::{lemma_sum_single, lemma_sum_add, lemma_sum_cong, lemma_sum_ext, lemma_sum_swap, lemma_trem, sum_to};
use crate::encrypt::{enc_u, enc_v, transpose_view};
use crate::keygen::{mat_vec, pk_shaped, small_vec, PublicKey};
use crate::params::PqhvParams;
use crate::matrix::{ip_acc, lemma_ip_acc, shaped, small, vec_add};
use crate::decrypt::{decryptable, raw_plaintext};
use crate::poly::{decode_tally, message_coeffs, modulus_ok, seq_add, PolyView};
use crate::ring::{chi, lemma_seq_mul, nc_coeff, nc_mul, nc_row, nc_term, seq_mul};
use vstd::arithmetic::div_mod::lemma_add_mod_noop;
use vstd::prelude::*;

verus! {

/// `Σ_{j<i} (a[j]·b[j])[d]` over the integers.
pub open spec fn ip_int(a: Seq<PolyView>, b: Seq<PolyView>, i: int, n: int, d: int) -> int {
    sum_to(|j: int| nc_coeff(a[j].c, b[j].c, n, d), i)
}

/// The inner product agrees modulo q with the exact sum of the products.
pub proof fn lemma_ip_acc_int(a: Seq<PolyView>, b: Seq<PolyView>, k: int, i: int)
    requires
        1 <= i <= k,
        a[0].n >= 0,
        shaped(a, k, a[0].n, a[0].q),
        shaped(b, k, a[0].n, a[0].q),
        modulus_ok(a[0].q),
    ensures
        forall|d: int|
            0 <= d < a[0].n ==> #[trigger] ip_acc(a, b, i)[d] % a[0].q == ip_int(a, b, i, a[0].n, d) % a[0].q,
    decreases i,
{
    let n = a[0].n;
    let q = a[0].q;
    lemma_ip_acc(a, b, k, i);
    lemma_seq_mul(a[i - 1].c, b[i - 1].c, n, q);
    if i > 1 {
        lemma_ip_acc_int(a, b, k, i - 1);
        lemma_ip_acc(a, b, k, i - 1);
        assert forall|d: int| 0 <= d < n implies #[trigger] ip_acc(a, b, i)[d] % q == ip_int(a, b, i, n, d) % q by {
            let x = ip_acc(a, b, i - 1)[d];
            let y = seq_mul(a[i - 1].c, b[i - 1].c, n, q)[d];
            let xs = ip_int(a, b, i - 1, n, d);
            let ys = nc_coeff(a[i - 1].c, b[i - 1].c, n, d);
            assert(y % q == nc_mul(a[i - 1].c, b[i - 1].c, n)[d] % q);
            lemma_trem(x + y, q);
            lemma_add_mod_noop(x, y, q);
            lemma_add_mod_noop(xs, ys, q);
        }
    } else {
        assert forall|d: int| 0 <= d < n implies #[trigger] ip_acc(a, b, i)[d] % q == ip_int(a, b, i, n, d) % q by {
            assert(seq_mul(a[0].c, b[0].c, n, q)[d] % q == nc_mul(a[0].c, b[0].c, n)[d] % q);
            assert(ip_int(a, b, 0, n, d) == 0);
            assert(ip_int(a, b, 1, n, d) == ip_int(a, b, 0, n, d) + nc_coeff(a[0].c, b[0].c, n, d));
        }
    }
}

/// A polynomial `Σ_j row[j]·x[j] + e`, as the inner product and addition
/// compute it, multiplied by `y`: modulo q it is `Σ_j (row[j]·x[j])·y + e·y`.
pub proof fn lemma_row_times(
    row: Seq<PolyView>,
    x: Seq<PolyView>,
    e: Seq<int>,
    y: Seq<int>,
    k: int,
    n: int,
    q: int,
    d: int,
)
    requires
        k >= 1,
        0 <= d < n,
        modulus_ok(q),
        row[0].n == n,
        row[0].q == q,
        shaped(row, k, n, q),
        shaped(x, k, n, q),
        e.len() >= n,
    ensures
        nc_coeff(seq_add(ip_acc(row, x, k), e, q), y, n, d) % q == (sum_to(
            |j: int| nc_coeff(nc_mul(row[j].c, x[j].c, n), y, n, d),
            k,
        ) + nc_coeff(e, y, n, d)) % q,
{
    let w = seq_add(ip_acc(row, x, k), e, q);
    lemma_ip_acc(row, x, k, k);
    lemma_ip_acc_int(row, x, k, k);
    let f = |j: int| nc_mul(row[j].c, x[j].c, n);
    let p = seq_sum(f, k, n);
    let xx = Seq::new(n as nat, |t: int| p[t] + e[t]);
    assert forall|t: int| 0 <= t < n implies #[trigger] w[t] % q == xx[t] % q by {
        let z = ip_acc(row, x, k)[t];
        lemma_sum_ext(|j: int| f(j)[t], |j: int| nc_coeff(row[j].c, x[j].c, n, t), k);
        assert(p[t] == ip_int(row, x, k, n, t));
        lemma_trem(z + e[t], q);
        lemma_add_mod_noop(z, e[t], q);
        lemma_add_mod_noop(p[t], e[t], q);
    }
    lemma_nc_coeff_cong_left(w, xx, y, n, d, q);
    lemma_nc_coeff_lin_left(p, e, xx, y, 1, 1, n, d);
    lemma_nc_coeff_sum_left(f, k, y, n, d);
    assert((|j: int| nc_coeff(f(j), y, n, d)) =~= (|j: int| nc_coeff(nc_mul(row[j].c, x[j].c, n), y, n, d)));
}

/// Sums of congruent terms are congruent.
pub proof fn lemma_mod_add2(x: int, x2: int, y: int, y2: int, q: int)
    requires
        q > 0,
        x % q == x2 % q,
        y % q == y2 % q,
    ensures
        (x + y) % q == (x2 + y2) % q,
{
    lemma_add_mod_noop(x, y, q);
    lemma_add_mod_noop(x2, y2, q);
}

/// Differences of congruent terms are congruent.
pub proof fn lemma_mod_sub2(x: int, x2: int, y: int, y2: int, q: int)
    requires
        q > 0,
        x % q == x2 % q,
        y % q == y2 % q,
    ensures
        (x - y) % q == (x2 - y2) % q,
{
    vstd::arithmetic::div_mod::lemma_fundamental_div_mod(x, q);
    vstd::arithmetic::div_mod::lemma_fundamental_div_mod(y, q);
    vstd::arithmetic::div_mod::lemma_fundamental_div_mod(x2, q);
    vstd::arithmetic::div_mod::lemma_fundamental_div_mod(y2, q);
    let r = x % q - y % q;
    assert(x - y == q * (x / q - y / q) + r) by (nonlinear_arith)
        requires
            x == q * (x / q) + x % q,
            y == q * (y / q) + y % q,
            r == x % q - y % q,
    ;
    assert(x2 - y2 == q * (x2 / q - y2 / q) + r) by (nonlinear_arith)
        requires
            x2 == q * (x2 / q) + x2 % q,
            y2 == q * (y2 / q) + y2 % q,
            r == x2 % q - y2 % q,
    ;
    vstd::arithmetic::div_mod::lemma_mod_multiples_vanish(x / q - y / q, r, q);
    vstd::arithmetic::div_mod::lemma_mod_multiples_vanish(x2 / q - y2 / q, r, q);
}

/// `bᵀ·r` for `b = A·s + e`, modulo q: `Σ_i Σ_j s[j]·(A[i][j]·r[i]) + eᵀ·r`.
proof fn lemma_b_dot_r(pk: &PublicKey, s: Seq<PolyView>, e: Seq<PolyView>, r: Seq<PolyView>, params: &PqhvParams, d: int)
    requires
        pk_shaped(pk, params),
        modulus_ok(params.q as int),
        params.k > 0,
        0 <= d < params.n,
        shaped(s, params.k as int, params.n as int, params.q as int),
        shaped(e, params.k as int, params.n as int, params.q as int),
        shaped(r, params.k as int, params.n as int, params.q as int),
        pk.b@ == vec_add(mat_vec(pk.a@, s, params.k as int), e),
    ensures
        ip_int(pk.b@, r, params.k as int, params.n as int, d) % (params.q as int) == (sum_to(
            |i: int|
                sum_to(
                    |j: int| nc_coeff(s[j].c, nc_mul(pk.a@[i][j].c, r[i].c, params.n as int), params.n as int, d),
                    params.k as int,
                ),
            params.k as int,
        ) + ip_int(e, r, params.k as int, params.n as int, d)) % (params.q as int),
{
    let k = params.k as int;
    let n = params.n as int;
    let q = params.q as int;
    let a = pk.a@;
    let g1 = |i: int| sum_to(|j: int| nc_coeff(s[j].c, nc_mul(a[i][j].c, r[i].c, n), n, d), k);
    let er = |i: int| nc_coeff(e[i].c, r[i].c, n, d);
    let lhs = |j: int| nc_coeff(pk.b@[j].c, r[j].c, n, d);
    let rhs = |i: int| g1(i) + er(i);
    assert forall|i: int| 0 <= i < k implies #[trigger] lhs(i) % q == rhs(i) % q by {
        assert(pk.b@[i].c == seq_add(ip_acc(a[i], s, k), e[i].c, q));
        lemma_row_times(a[i], s, e[i].c, r[i].c, k, n, q, d);
        assert forall|j: int| 0 <= j < k implies #[trigger] nc_coeff(nc_mul(a[i][j].c, s[j].c, n), r[i].c, n, d)
            == nc_coeff(s[j].c, nc_mul(a[i][j].c, r[i].c, n), n, d) by {
            lemma_nc_coeff_exchange(a[i][j].c, s[j].c, r[i].c, n, d);
        }
        lemma_sum_ext(
            |j: int| nc_coeff(nc_mul(a[i][j].c, s[j].c, n), r[i].c, n, d),
            |j: int| nc_coeff(s[j].c, nc_mul(a[i][j].c, r[i].c, n), n, d),
            k,
        );
    }
    lemma_sum_cong(lhs, rhs, k, q);
    lemma_sum_add(g1, er, k);
    assert((|i: int| g1(i) + er(i)) =~= rhs);
    assert(lhs =~= (|j: int| nc_coeff(pk.b@[j].c, r[j].c, n, d)));
}

/// `sᵀ·u` for `u = Aᵀ·r + e1`, modulo q: `Σ_j Σ_i s[j]·(A[i][j]·r[i]) + sᵀ·e1`.
proof fn lemma_s_dot_u(pk: &PublicKey, s: Seq<PolyView>, r: Seq<PolyView>, e1: Seq<PolyView>, params: &PqhvParams, d: int)
    requires
        pk_shaped(pk, params),
        modulus_ok(params.q as int),
        params.k > 0,
        0 <= d < params.n,
        shaped(s, params.k as int, params.n as int, params.q as int),
        shaped(r, params.k as int, params.n as int, params.q as int),
        shaped(e1, params.k as int, params.n as int, params.q as int),
    ensures
        ip_int(s, enc_u(pk, params.k as int, r, e1), params.k as int, params.n as int, d) % (params.q as int) == (
        sum_to(
            |j: int|
                sum_to(
                    |i: int| nc_coeff(s[j].c, nc_mul(pk.a@[i][j].c, r[i].c, params.n as int), params.n as int, d),
                    params.k as int,
                ),
            params.k as int,
        ) + ip_int(s, e1, params.k as int, params.n as int, d)) % (params.q as int),
{
    let k = params.k as int;
    let n = params.n as int;
    let q = params.q as int;
    let a = pk.a@;
    let t = transpose_view(a, k);
    let u = enc_u(pk, k, r, e1);
    let g2 = |j: int| sum_to(|i: int| nc_coeff(s[j].c, nc_mul(a[i][j].c, r[i].c, n), n, d), k);
    let se = |j: int| nc_coeff(s[j].c, e1[j].c, n, d);
    let lhs = |j: int| nc_coeff(s[j].c, u[j].c, n, d);
    let rhs = |j: int| g2(j) + se(j);
    assert forall|j: int| 0 <= j < k implies #[trigger] lhs(j) % q == rhs(j) % q by {
        assert(shaped(t[j], k, n, q));
        assert(t[j][0] == a[0][j]);
        assert(u[j].c == seq_add(ip_acc(t[j], r, k), e1[j].c, q));
        lemma_row_times(t[j], r, e1[j].c, s[j].c, k, n, q, d);
        assert forall|i: int| 0 <= i < k implies #[trigger] nc_coeff(nc_mul(t[j][i].c, r[i].c, n), s[j].c, n, d)
            == nc_coeff(s[j].c, nc_mul(a[i][j].c, r[i].c, n), n, d) by {
            lemma_nc_coeff_comm(nc_mul(a[i][j].c, r[i].c, n), s[j].c, n, d);
        }
        lemma_sum_ext(
            |i: int| nc_coeff(nc_mul(t[j][i].c, r[i].c, n), s[j].c, n, d),
            |i: int| nc_coeff(s[j].c, nc_mul(a[i][j].c, r[i].c, n), n, d),
            k,
        );
        lemma_nc_coeff_comm(u[j].c, s[j].c, n, d);
        lemma_nc_coeff_comm(e1[j].c, s[j].c, n, d);
    }
    lemma_sum_cong(lhs, rhs, k, q);
    lemma_sum_add(g2, se, k);
    assert((|j: int| g2(j) + se(j)) =~= rhs);
}

/// Decrypting an encryption, before reduction: for keys with `b = A·s + e`
/// and a ciphertext made with `r`, `e1`, `e2`,
/// `v − sᵀ·u ≡ Δ·m + eᵀ·r + e2 − sᵀ·e1 (mod q)` in every coefficient.
pub proof fn lemma_decrypt_encryption(
    pk: &PublicKey,
    s: Seq<PolyView>,
    e: Seq<PolyView>,
    r: Seq<PolyView>,
    e1: Seq<PolyView>,
    e2: Seq<int>,
    message: u8,
    params: &PqhvParams,
    d: int,
)
    requires
        pk_shaped(pk, params),
        modulus_ok(params.q as int),
        params.k > 0,
        0 <= d < params.n,
        shaped(s, params.k as int, params.n as int, params.q as int),
        shaped(e, params.k as int, params.n as int, params.q as int),
        shaped(r, params.k as int, params.n as int, params.q as int),
        shaped(e1, params.k as int, params.n as int, params.q as int),
        e2.len() == params.n,
        pk.b@ == vec_add(mat_vec(pk.a@, s, params.k as int), e),
    ensures
        (enc_v(pk, params.k as int, r, e2, message, params)[d] - ip_int(
            s,
            enc_u(pk, params.k as int, r, e1),
            params.k as int,
            params.n as int,
            d,
        )) % (params.q as int) == (message_coeffs(message, params.n as int, params.spec_encoding_scale())[d]
            + ip_int(e, r, params.k as int, params.n as int, d) + e2[d] - ip_int(
            s,
            e1,
            params.k as int,
            params.n as int,
            d,
        )) % (params.q as int),
{
    let k = params.k as int;
    let n = params.n as int;
    let q = params.q as int;
    let a = pk.a@;
    let mc = message_coeffs(message, n, params.spec_encoding_scale());
    let g = |i: int, j: int| nc_coeff(s[j].c, nc_mul(a[i][j].c, r[i].c, n), n, d);
    lemma_b_dot_r(pk, s, e, r, params, d);
    lemma_s_dot_u(pk, s, r, e1, params, d);
    lemma_sum_swap(g, k, k);
    let big1 = sum_to(|i: int| sum_to(|j: int| nc_coeff(s[j].c, nc_mul(a[i][j].c, r[i].c, n), n, d), k), k);
    let big2 = sum_to(|j: int| sum_to(|i: int| nc_coeff(s[j].c, nc_mul(a[i][j].c, r[i].c, n), n, d), k), k);
    assert(big1 == big2) by {
        let x1 = |i: int| sum_to(|j: int| g(i, j), k);
        let x2 = |i: int| sum_to(|j: int| nc_coeff(s[j].c, nc_mul(a[i][j].c, r[i].c, n), n, d), k);
        assert forall|i: int| #[trigger] x1(i) == x2(i) by {
            assert((|j: int| g(i, j)) =~= (|j: int| nc_coeff(s[j].c, nc_mul(a[i][j].c, r[i].c, n), n, d)));
        }
        assert(x1 =~= x2);
        let y1 = |j: int| sum_to(|i: int| g(i, j), k);
        let y2 = |j: int| sum_to(|i: int| nc_coeff(s[j].c, nc_mul(a[i][j].c, r[i].c, n), n, d), k);
        assert forall|j: int| #[trigger] y1(j) == y2(j) by {
            assert((|i: int| g(i, j)) =~= (|i: int| nc_coeff(s[j].c, nc_mul(a[i][j].c, r[i].c, n), n, d)));
        }
        assert(y1 =~= y2);
    }
    let b = pk.b@;
    let z = ip_acc(b, r, k)[d];
    lemma_ip_acc(b, r, k, k);
    lemma_ip_acc_int(b, r, k, k);
    let w1 = seq_add(ip_acc(b, r, k), e2, q);
    let v = enc_v(pk, k, r, e2, message, params);
    assert(w1[d] == crate::arith::trem(z + e2[d], q));
    assert(v[d] == crate::arith::trem(w1[d] + mc[d], q));
    lemma_trem(z + e2[d], q);
    lemma_trem(w1[d] + mc[d], q);
    let ibr = ip_int(b, r, k, n, d);
    let ier = ip_int(e, r, k, n, d);
    let isu = ip_int(s, enc_u(pk, k, r, e1), k, n, d);
    let ise = ip_int(s, e1, k, n, d);
    lemma_mod_add2(z, ibr, e2[d], e2[d], q);
    lemma_mod_add2(w1[d], z + e2[d], mc[d], mc[d], q);
    lemma_mod_add2(z + e2[d], ibr + e2[d], mc[d], mc[d], q);
    lemma_mod_add2(ibr, big1 + ier, e2[d] + mc[d], e2[d] + mc[d], q);
    assert(v[d] % q == (big1 + ier + e2[d] + mc[d]) % q);
    lemma_mod_sub2(v[d], big1 + ier + e2[d] + mc[d], isu, big2 + ise, q);
}

/// A sum of `n` terms each of magnitude at most `m` has magnitude at most `n·m`.
pub proof fn lemma_sum_bound(f: spec_fn(int) -> int, n: int, m: int)
    requires
        n >= 0,
        forall|i: int| 0 <= i < n ==> -m <= #[trigger] f(i) <= m,
    ensures
        -(n * m) <= sum_to(f, n) <= n * m,
    decreases n,
{
    if n > 0 {
        lemma_sum_bound(f, n - 1, m);
        assert(n * m == (n - 1) * m + m) by (nonlinear_arith);
    }
}

/// `|x·y| <= a·b` for `|x| <= a` and `|y| <= b`.
proof fn lemma_mul_bound(x: int, y: int, a: int, b: int)
    requires
        -a <= x <= a,
        -b <= y <= b,
    ensures
        -(a * b) <= x * y <= a * b,
{
    assert(-(a * b) <= x * y <= a * b) by (nonlinear_arith)
        requires
            -a <= x <= a,
            -b <= y <= b,
    ;
}

/// A coefficient of the product of two sequences bounded by `a` and `b`
/// is bounded by `n·a·b`: each row contributes one term.
pub proof fn lemma_nc_coeff_bound(x: Seq<int>, y: Seq<int>, n: int, d: int, a: int, b: int)
    requires
        0 <= d < n,
        a >= 0,
        b >= 0,
        forall|i: int| 0 <= i < n ==> -a <= #[trigger] x[i] <= a,
        forall|j: int| 0 <= j < n ==> -b <= #[trigger] y[j] <= b,
    ensures
        -(n * (a * b)) <= nc_coeff(x, y, n, d) <= n * (a * b),
{
    let rows = |i: int| nc_row(x, y, n, d, i, n);
    assert forall|i: int| 0 <= i < n implies -(a * b) <= #[trigger] rows(i) <= a * b by {
        let j0 = if i <= d { d - i } else { d - i + n };
        let t = |j: int| nc_term(x, y, n, d, i, j);
        assert forall|j: int| 0 <= j < n && j != j0 implies #[trigger] t(j) == 0 by {
            assert(chi(i, j, d, n) == 0);
        }
        lemma_sum_single(t, n, j0);
        assert((|j: int| nc_term(x, y, n, d, i, j)) =~= t);
        lemma_mul_bound(x[i], y[j0], a, b);
    }
    lemma_sum_bound(rows, n, a * b);
    assert((|r: int| nc_row(x, y, n, d, r, n)) =~= rows);
}

/// The representative of `x` in (−q/2, q/2] when `x` lies in [0, q).
pub open spec fn centered(x: int, q: int) -> int {
    if x > q / 2 {
        x - q
    } else {
        x
    }
}

/// Every coefficient replaced by its centered representative.
pub open spec fn centered_seq(c: Seq<int>, q: int) -> Seq<int> {
    Seq::new(c.len(), |t: int| centered(c[t], q))
}

/// Every entry replaced by its centered representative.
pub open spec fn centered_vec(v: Seq<PolyView>, q: int) -> Seq<PolyView> {
    Seq::new(v.len(), |i: int| PolyView { c: centered_seq(v[i].c, q), n: v[i].n, q: v[i].q })
}

/// Small coefficients have centered representatives in [−η, η], congruent
/// to them modulo q.
pub proof fn lemma_centered_small(c: Seq<int>, eta: int, q: int)
    requires
        0 <= eta,
        2 * eta < q,
        small(c, eta, q),
    ensures
        forall|t: int| 0 <= t < c.len() ==> -eta <= #[trigger] centered_seq(c, q)[t] <= eta,
        forall|t: int| 0 <= t < c.len() ==> #[trigger] centered_seq(c, q)[t] % q == c[t] % q,
{
    assert forall|t: int| 0 <= t < c.len() implies -eta <= #[trigger] centered_seq(c, q)[t] <= eta
        && centered_seq(c, q)[t] % q == c[t] % q by {
        if c[t] > q / 2 {
            vstd::arithmetic::div_mod::lemma_mod_sub_multiples_vanish(c[t], q);
        }
    }
}

/// Replacing the entries of both vectors by congruent ones keeps the inner
/// product's class modulo q.
pub proof fn lemma_ip_int_cong(x: Seq<PolyView>, x2: Seq<PolyView>, y: Seq<PolyView>, y2: Seq<PolyView>, k: int, n: int, q: int, d: int)
    requires
        q > 0,
        forall|i: int, t: int| 0 <= i < k && 0 <= t < n ==> #[trigger] x[i].c[t] % q == x2[i].c[t] % q,
        forall|i: int, t: int| 0 <= i < k && 0 <= t < n ==> #[trigger] y[i].c[t] % q == y2[i].c[t] % q,
    ensures
        ip_int(x, y, k, n, d) % q == ip_int(x2, y2, k, n, d) % q,
{
    let f = |i: int| nc_coeff(x[i].c, y[i].c, n, d);
    let g = |i: int| nc_coeff(x2[i].c, y2[i].c, n, d);
    assert forall|i: int| 0 <= i < k implies #[trigger] f(i) % q == g(i) % q by {
        assert forall|t: int| 0 <= t < n implies #[trigger] x[i].c[t] % q == x2[i].c[t] % q by {}
        assert forall|t: int| 0 <= t < n implies #[trigger] y[i].c[t] % q == y2[i].c[t] % q by {}
        lemma_nc_coeff_cong_left(x[i].c, x2[i].c, y[i].c, n, d, q);
        lemma_nc_coeff_cong_right(x2[i].c, y[i].c, y2[i].c, n, d, q);
    }
    lemma_sum_cong(f, g, k, q);
}

/// The inner product of two vectors with entries bounded by `a` and `b` is
/// bounded by `k·n·a·b`.
pub proof fn lemma_ip_int_bound(x: Seq<PolyView>, y: Seq<PolyView>, k: int, n: int, d: int, a: int, b: int)
    requires
        k >= 0,
        0 <= d < n,
        a >= 0,
        b >= 0,
        forall|i: int, t: int| 0 <= i < k && 0 <= t < n ==> -a <= #[trigger] x[i].c[t] <= a,
        forall|i: int, t: int| 0 <= i < k && 0 <= t < n ==> -b <= #[trigger] y[i].c[t] <= b,
    ensures
        -(k * (n * (a * b))) <= ip_int(x, y, k, n, d) <= k * (n * (a * b)),
{
    let f = |i: int| nc_coeff(x[i].c, y[i].c, n, d);
    assert forall|i: int| 0 <= i < k implies -(n * (a * b)) <= #[trigger] f(i) <= n * (a * b) by {
        assert forall|t: int| 0 <= t < n implies -a <= #[trigger] x[i].c[t] <= a by {}
        assert forall|t: int| 0 <= t < n implies -b <= #[trigger] y[i].c[t] <= b by {}
        lemma_nc_coeff_bound(x[i].c, y[i].c, n, d, a, b);
    }
    lemma_sum_bound(f, k, n * (a * b));
}

/// The noisy plaintext is `v − sᵀ·u` reduced modulo q.
pub proof fn lemma_raw_plaintext_int(s: Seq<PolyView>, k: int, u: Seq<PolyView>, v: PolyView, d: int)
    requires
        decryptable(s, k, u, v),
        0 <= d < s[0].n,
        d < v.c.len(),
    ensures
        raw_plaintext(s, k, u, v)[d] == (v.c[d] - ip_int(s, u, k, s[0].n, d)) % v.q,
{
    let q = v.q;
    lemma_ip_acc(s, u, k, k);
    lemma_ip_acc_int(s, u, k, k);
    lemma_mod_sub2(v.c[d], v.c[d], ip_acc(s, u, k)[d], ip_int(s, u, k, s[0].n, d), q);
}

/// Rounding recovers `count` from `count·Δ + x` reduced modulo q, when the
/// noise `x` rounds to zero and the value stays within (−q/2, q/2].
pub proof fn lemma_decode_noisy(count: int, x: int, q: int, delta: int)
    requires
        q > 0,
        delta > 0,
        count >= 0,
        -(delta / 2) <= x,
        x + delta / 2 < delta,
        -q < 2 * (count * delta + x) <= q,
    ensures
        decode_tally((count * delta + x) % q, q, delta) == count,
{
    let y = count * delta + x;
    if y >= 0 {
        vstd::arithmetic::div_mod::lemma_small_mod(y as nat, q as nat);
        vstd::arithmetic::div_mod::lemma_fundamental_div_mod_converse(y + delta / 2, delta, count, x + delta / 2);
    } else {
        vstd::arithmetic::div_mod::lemma_mod_add_multiples_vanish(y, q);
        vstd::arithmetic::div_mod::lemma_small_mod((y + q) as nat, q as nat);
        if count >= 1 {
            assert(count * delta >= delta) by (nonlinear_arith)
                requires
                    count >= 1,
                    delta > 0,
            ;
        }
    }
}

/// The noise of a ciphertext in coefficient `d`, in centered form:
/// `eᵀ·r + e2 − sᵀ·e1` with every small coefficient in [−η, η].
pub open spec fn enc_noise(
    s: Seq<PolyView>,
    e: Seq<PolyView>,
    r: Seq<PolyView>,
    e1: Seq<PolyView>,
    e2: Seq<int>,
    k: int,
    n: int,
    q: int,
    d: int,
) -> int {
    ip_int(centered_vec(e, q), centered_vec(r, q), k, n, d) + centered(e2[d], q) - ip_int(
        centered_vec(s, q),
        centered_vec(e1, q),
        k,
        n,
        d,
    )
}

/// Centered entries of a vector of small polynomials lie in [−η, η] and are
/// congruent to the stored ones.
proof fn lemma_centered_vec(v: Seq<PolyView>, k: int, n: int, q: int, eta: int)
    requires
        0 <= eta,
        2 * eta < q,
        small_vec(v, k, n, q, eta),
    ensures
        forall|i: int, t: int| 0 <= i < k && 0 <= t < n ==> -eta <= #[trigger] centered_vec(v, q)[i].c[t] <= eta,
        forall|i: int, t: int| 0 <= i < k && 0 <= t < n ==> #[trigger] v[i].c[t] % q == centered_vec(v, q)[i].c[t] % q,
{
    assert forall|i: int, t: int| 0 <= i < k && 0 <= t < n implies -eta <= #[trigger] centered_vec(v, q)[i].c[t] <= eta
        && v[i].c[t] % q == centered_vec(v, q)[i].c[t] % q by {
        lemma_centered_small(v[i].c, eta, q);
        assert(centered_vec(v, q)[i].c == centered_seq(v[i].c, q));
    }
}

/// The noise of a ciphertext is congruent to its centered form, which is at
/// most `2·k·n·η² + η` in magnitude.
pub proof fn lemma_enc_noise(
    s: Seq<PolyView>,
    e: Seq<PolyView>,
    r: Seq<PolyView>,
    e1: Seq<PolyView>,
    e2: Seq<int>,
    k: int,
    n: int,
    q: int,
    eta: int,
    d: int,
)
    requires
        k >= 0,
        0 <= d < n,
        0 <= eta,
        2 * eta < q,
        small_vec(s, k, n, q, eta),
        small_vec(e, k, n, q, eta),
        small_vec(r, k, n, q, eta),
        small_vec(e1, k, n, q, eta),
        e2.len() == n,
        small(e2, eta, q),
    ensures
        (ip_int(e, r, k, n, d) + e2[d] - ip_int(s, e1, k, n, d)) % q == enc_noise(s, e, r, e1, e2, k, n, q, d) % q,
        -(2 * k * n * eta * eta + eta) <= enc_noise(s, e, r, e1, e2, k, n, q, d) <= 2 * k * n * eta * eta + eta,
{
    lemma_centered_vec(s, k, n, q, eta);
    lemma_centered_vec(e, k, n, q, eta);
    lemma_centered_vec(r, k, n, q, eta);
    lemma_centered_vec(e1, k, n, q, eta);
    lemma_centered_small(e2, eta, q);
    let ce = centered_vec(e, q);
    let cr = centered_vec(r, q);
    let cs = centered_vec(s, q);
    let ce1 = centered_vec(e1, q);
    lemma_ip_int_cong(e, ce, r, cr, k, n, q, d);
    lemma_ip_int_cong(s, cs, e1, ce1, k, n, q, d);
    lemma_ip_int_bound(ce, cr, k, n, d, eta, eta);
    lemma_ip_int_bound(cs, ce1, k, n, d, eta, eta);
    let c2 = centered_seq(e2, q)[d];
    assert(centered(e2[d], q) == c2);
    lemma_mod_add2(ip_int(e, r, k, n, d), ip_int(ce, cr, k, n, d), e2[d], c2, q);
    lemma_mod_sub2(
        ip_int(e, r, k, n, d) + e2[d],
        ip_int(ce, cr, k, n, d) + c2,
        ip_int(s, e1, k, n, d),
        ip_int(cs, ce1, k, n, d),
        q,
    );
    assert(2 * k * n * eta * eta == 2 * (k * (n * (eta * eta)))) by (nonlinear_arith);
}

/// The integer `v[d] − (sᵀ·u)[d]` that decryption reduces modulo q.
pub open spec fn dec_int(s: Seq<PolyView>, k: int, n: int, u: Seq<PolyView>, v: Seq<int>, d: int) -> int {
    v[d] - ip_int(s, u, k, n, d)
}

/// Decryption is additive: `v1 + v2 − sᵀ·(u1 + u2)` is congruent to the sum
/// of the two decryptions.
pub proof fn lemma_dec_int_add(
    s: Seq<PolyView>,
    k: int,
    n: int,
    q: int,
    u1: Seq<PolyView>,
    v1: Seq<int>,
    u2: Seq<PolyView>,
    v2: Seq<int>,
    d: int,
)
    requires
        modulus_ok(q),
        0 <= d < n,
        d < v1.len(),
        d < v2.len(),
        shaped(u1, k, n, q),
        shaped(u2, k, n, q),
    ensures
        dec_int(s, k, n, vec_add(u1, u2), seq_add(v1, v2, q), d) % q == (dec_int(s, k, n, u1, v1, d) + dec_int(
            s,
            k,
            n,
            u2,
            v2,
            d,
        )) % q,
{
    let u = vec_add(u1, u2);
    let f = |i: int| nc_coeff(s[i].c, u[i].c, n, d);
    let g1 = |i: int| nc_coeff(s[i].c, u1[i].c, n, d);
    let g2 = |i: int| nc_coeff(s[i].c, u2[i].c, n, d);
    let g = |i: int| g1(i) + g2(i);
    assert forall|i: int| 0 <= i < k implies #[trigger] f(i) % q == g(i) % q by {
        let x = Seq::new(n as nat, |t: int| u1[i].c[t] + u2[i].c[t]);
        assert forall|t: int| 0 <= t < n implies #[trigger] u[i].c[t] % q == x[t] % q by {
            lemma_trem(u1[i].c[t] + u2[i].c[t], q);
        }
        lemma_nc_coeff_cong_right(s[i].c, u[i].c, x, n, d, q);
        lemma_nc_coeff_lin_right(s[i].c, u1[i].c, u2[i].c, x, 1, 1, n, d);
    }
    lemma_sum_cong(f, g, k, q);
    lemma_sum_add(g1, g2, k);
    lemma_trem(v1[d] + v2[d], q);
    lemma_mod_sub2(seq_add(v1, v2, q)[d], v1[d] + v2[d], ip_int(s, u, k, n, d), ip_int(s, u1, k, n, d) + ip_int(s, u2, k, n, d), q);
}

/// `row·(y + c·r)`, with `y + c·r` as the prover's response computes it,
/// is `row·y + Σ_j c·(row[j]·r[j])` modulo q.
pub proof fn lemma_row_masked(
    row: Seq<PolyView>,
    y: Seq<PolyView>,
    r: Seq<PolyView>,
    c: Seq<int>,
    k: int,
    n: int,
    q: int,
    d: int,
)
    requires
        modulus_ok(q),
        0 <= d < n,
        c.len() >= n,
        shaped(y, k, n, q),
        shaped(r, k, n, q),
    ensures
        ip_int(row, crate::disjunctive::masked_response(y, PolyView { c, n, q }, r, k), k, n, d) % q == (ip_int(
            row,
            y,
            k,
            n,
            d,
        ) + sum_to(|j: int| nc_coeff(c, nc_mul(row[j].c, r[j].c, n), n, d), k)) % q,
{
    let z = crate::disjunctive::masked_response(y, PolyView { c, n, q }, r, k);
    let f = |j: int| nc_coeff(row[j].c, z[j].c, n, d);
    let g1 = |j: int| nc_coeff(row[j].c, y[j].c, n, d);
    let g2 = |j: int| nc_coeff(c, nc_mul(row[j].c, r[j].c, n), n, d);
    let g = |j: int| g1(j) + g2(j);
    assert forall|j: int| 0 <= j < k implies #[trigger] f(j) % q == g(j) % q by {
        let cr = seq_mul(c, r[j].c, n, q);
        lemma_seq_mul(c, r[j].c, n, q);
        let x = Seq::new(n as nat, |t: int| y[j].c[t] + nc_mul(c, r[j].c, n)[t]);
        assert forall|t: int| 0 <= t < n implies #[trigger] z[j].c[t] % q == x[t] % q by {
            lemma_trem(y[j].c[t] + cr[t], q);
            lemma_mod_add2(y[j].c[t], y[j].c[t], cr[t], nc_mul(c, r[j].c, n)[t], q);
        }
        lemma_nc_coeff_cong_right(row[j].c, z[j].c, x, n, d, q);
        lemma_nc_coeff_lin_right(row[j].c, y[j].c, nc_mul(c, r[j].c, n), x, 1, 1, n, d);
        lemma_nc_coeff_swap_outer(row[j].c, c, r[j].c, n, d);
    }
    lemma_sum_cong(f, g, k, q);
    lemma_sum_add(g1, g2, k);
}

/// `c·(row·r + e)`, with the sum as the inner product and addition compute
/// it, is `Σ_j c·(row[j]·r[j]) + c·e` modulo q.
pub proof fn lemma_times_row(
    c: Seq<int>,
    row: Seq<PolyView>,
    r: Seq<PolyView>,
    e: Seq<int>,
    k: int,
    n: int,
    q: int,
    d: int,
)
    requires
        k >= 1,
        0 <= d < n,
        modulus_ok(q),
        row[0].n == n,
        row[0].q == q,
        shaped(row, k, n, q),
        shaped(r, k, n, q),
        e.len() >= n,
    ensures
        nc_coeff(c, seq_add(ip_acc(row, r, k), e, q), n, d) % q == (sum_to(
            |j: int| nc_coeff(c, nc_mul(row[j].c, r[j].c, n), n, d),
            k,
        ) + nc_coeff(c, e, n, d)) % q,
{
    lemma_row_times(row, r, e, c, k, n, q, d);
    lemma_nc_coeff_comm(c, seq_add(ip_acc(row, r, k), e, q), n, d);
    lemma_nc_coeff_comm(c, e, n, d);
    let f1 = |j: int| nc_coeff(nc_mul(row[j].c, r[j].c, n), c, n, d);
    let f2 = |j: int| nc_coeff(c, nc_mul(row[j].c, r[j].c, n), n, d);
    assert forall|j: int| 0 <= j < k implies #[trigger] f1(j) == f2(j) by {
        lemma_nc_coeff_comm(nc_mul(row[j].c, r[j].c, n), c, n, d);
    }
    lemma_sum_ext(f1, f2, k);
}

/// The inner product distributes over vector addition in its second
/// argument, modulo q.
pub proof fn lemma_ip_int_vec_add(s: Seq<PolyView>, u1: Seq<PolyView>, u2: Seq<PolyView>, k: int, n: int, q: int, d: int)
    requires
        modulus_ok(q),
        0 <= d < n,
        shaped(u1, k, n, q),
        shaped(u2, k, n, q),
    ensures
        ip_int(s, vec_add(u1, u2), k, n, d) % q == (ip_int(s, u1, k, n, d) + ip_int(s, u2, k, n, d)) % q,
{
    let u = vec_add(u1, u2);
    let f = |i: int| nc_coeff(s[i].c, u[i].c, n, d);
    let g1 = |i: int| nc_coeff(s[i].c, u1[i].c, n, d);
    let g2 = |i: int| nc_coeff(s[i].c, u2[i].c, n, d);
    let g = |i: int| g1(i) + g2(i);
    assert forall|i: int| 0 <= i < k implies #[trigger] f(i) % q == g(i) % q by {
        let x = Seq::new(n as nat, |t: int| u1[i].c[t] + u2[i].c[t]);
        assert forall|t: int| 0 <= t < n implies #[trigger] u[i].c[t] % q == x[t] % q by {
            lemma_trem(u1[i].c[t] + u2[i].c[t], q);
        }
        lemma_nc_coeff_cong_right(s[i].c, u[i].c, x, n, d, q);
        lemma_nc_coeff_lin_right(s[i].c, u1[i].c, u2[i].c, x, 1, 1, n, d);
    }
    lemma_sum_cong(f, g, k, q);
    lemma_sum_add(g1, g2, k);
}

} // verus!
