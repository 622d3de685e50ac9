//! The negacyclic ring Z[X]/(X^n + 1) on integer coefficient sequences,
//! and the coefficient arithmetic of the schoolbook product modulo q.

use crate::arith::{lemma_trem, lemma_trem_shift, sum_to, trem};
use vstd::arithmetic::div_mod::*;
use vstd::prelude::*;

verus! {

/// Sign with which the monomial `X^i * X^j` lands on `X^d` modulo `X^n + 1`.
pub open spec fn chi(i: int, j: int, d: int, n: int) -> int {
    if i + j == d {
        1
    } else if i + j == d + n {
        -1
    } else {
        0
    }
}

/// Contribution of `a[i] * b[j]` to coefficient `d` of the product.
pub open spec fn nc_term(a: Seq<int>, b: Seq<int>, n: int, d: int, i: int, j: int) -> int {
    chi(i, j, d, n) * (a[i] * b[j])
}

/// Contribution of the first `m` terms of row `i` to coefficient `d`.
pub open spec fn nc_row(a: Seq<int>, b: Seq<int>, n: int, d: int, i: int, m: int) -> int {
    sum_to(|j: int| nc_term(a, b, n, d, i, j), m)
}

/// Contribution of the first `i` rows to coefficient `d`.
pub open spec fn nc_partial(a: Seq<int>, b: Seq<int>, n: int, d: int, i: int) -> int {
    sum_to(|r: int| nc_row(a, b, n, d, r, n), i)
}

/// Coefficient `d` of the product of `a` and `b` in Z[X]/(X^n + 1).
pub open spec fn nc_coeff(a: Seq<int>, b: Seq<int>, n: int, d: int) -> int {
    nc_partial(a, b, n, d, n)
}

/// The product of `a` and `b` in Z[X]/(X^n + 1), over the integers.
pub open spec fn nc_mul(a: Seq<int>, b: Seq<int>, n: int) -> Seq<int> {
    Seq::new(n as nat, |d: int| nc_coeff(a, b, n, d))
}

/// Two coefficient sequences of length `n` that agree modulo `q`.
pub open spec fn cong(x: Seq<int>, y: Seq<int>, n: int, q: int) -> bool {
    &&& x.len() == n
    &&& y.len() == n
    &&& forall|d: int| 0 <= d < n ==> #[trigger] x[d] % q == y[d] % q
}

/// Every coefficient lies in `[0, q)`.
pub open spec fn canonical(x: Seq<int>, q: int) -> bool {
    forall|d: int| 0 <= d < x.len() ==> 0 <= #[trigger] x[d] < q
}

/// Every coefficient lies strictly between `-q` and `q`.
pub open spec fn within(x: Seq<int>, q: int) -> bool {
    forall|d: int| 0 <= d < x.len() ==> -q < #[trigger] x[d] < q
}

/// Every coefficient among the first `n` is non-negative.
pub open spec fn nonneg(x: Seq<int>, n: int) -> bool {
    forall|d: int| 0 <= d < n ==> 0 <= #[trigger] x[d]
}

/// One step of the schoolbook product: fold `x * y` (for monomial degree `deg`)
/// into the accumulator, with the remainders the multiplication loop takes.
pub open spec fn mul_update(res: Seq<int>, x: int, y: int, deg: int, n: int, q: int) -> Seq<int> {
    if x == 0 || y == 0 {
        res
    } else if deg < n {
        res.update(deg, trem(res[deg] + trem(x * y, q), q))
    } else {
        res.update(deg - n, trem(trem(res[deg - n] - trem(x * y, q), q) + q, q))
    }
}

/// Accumulator after the first `j` columns of row `i`, starting from `start`.
pub open spec fn mul_row_state(
    a: Seq<int>,
    b: Seq<int>,
    n: int,
    q: int,
    i: int,
    j: int,
    start: Seq<int>,
) -> Seq<int>
    decreases j,
{
    if j <= 0 {
        start
    } else {
        mul_update(mul_row_state(a, b, n, q, i, j - 1, start), a[i], b[j - 1], i + j - 1, n, q)
    }
}

/// Accumulator after the first `i` rows of the schoolbook product.
pub open spec fn mul_state(a: Seq<int>, b: Seq<int>, n: int, q: int, i: int) -> Seq<int>
    decreases i,
{
    if i <= 0 {
        Seq::new(n as nat, |d: int| 0int)
    } else {
        mul_row_state(a, b, n, q, i - 1, n, mul_state(a, b, n, q, i - 1))
    }
}

/// The coefficients that the schoolbook product modulo `q` computes.
pub open spec fn seq_mul(a: Seq<int>, b: Seq<int>, n: int, q: int) -> Seq<int> {
    mul_state(a, b, n, q, n)
}

pub proof fn lemma_add_cong(x: int, y: int, y2: int, q: int)
    requires
        q > 0,
        y % q == y2 % q,
    ensures
        (x + y) % q == (x + y2) % q,
{
    lemma_add_mod_noop(x, y, q);
    lemma_add_mod_noop(x, y2, q);
}

/// The effect of one update on a coefficient.
proof fn lemma_mul_update(
    a: Seq<int>,
    b: Seq<int>,
    n: int,
    q: int,
    i: int,
    j: int,
    res: Seq<int>,
)
    requires
        q > 0,
        0 <= i < n,
        0 <= j < n,
        a.len() >= n,
        b.len() >= n,
        res.len() == n,
        within(res, q),
    ensures
        ({
            let r2 = mul_update(res, a[i], b[j], i + j, n, q);
            &&& r2.len() == n
            &&& within(r2, q)
            &&& forall|d: int|
                0 <= d < n ==> #[trigger] r2[d] % q == (res[d] + nc_term(a, b, n, d, i, j)) % q
            &&& (nonneg(res, n) && a[i] >= 0 && b[j] >= 0) ==> nonneg(r2, n)
        }),
{
    let x = a[i];
    let y = b[j];
    let r2 = mul_update(res, x, y, i + j, n, q);
    lemma_trem(x * y, q);
    if x == 0 || y == 0 {
        assert(x * y == 0) by (nonlinear_arith)
            requires
                x == 0 || y == 0,
        ;
        assert forall|d: int| 0 <= d < n implies #[trigger] r2[d] % q == (res[d] + nc_term(
            a,
            b,
            n,
            d,
            i,
            j,
        )) % q by {
            assert(nc_term(a, b, n, d, i, j) == 0);
        }
    } else if i + j < n {
        let deg = i + j;
        lemma_trem(res[deg] + trem(x * y, q), q);
        lemma_add_cong(res[deg], trem(x * y, q), x * y, q);
        assert forall|d: int| 0 <= d < n implies #[trigger] r2[d] % q == (res[d] + nc_term(
            a,
            b,
            n,
            d,
            i,
            j,
        )) % q by {
            if d == deg {
                assert(nc_term(a, b, n, d, i, j) == x * y);
            } else {
                assert(nc_term(a, b, n, d, i, j) == 0);
            }
        }
        if nonneg(res, n) && x >= 0 && y >= 0 {
            assert(x * y >= 0) by (nonlinear_arith)
                requires
                    x >= 0,
                    y >= 0,
            ;
            assert forall|d: int| 0 <= d < n implies 0 <= #[trigger] r2[d] by {
                if d == deg {
                    assert(res[deg] >= 0);
                }
            }
        }
    } else {
        let w = i + j - n;
        lemma_trem_shift(res[w] - trem(x * y, q), q);
        lemma_sub_mod_noop(res[w], trem(x * y, q), q);
        lemma_sub_mod_noop(res[w], x * y, q);
        assert forall|d: int| 0 <= d < n implies #[trigger] r2[d] % q == (res[d] + nc_term(
            a,
            b,
            n,
            d,
            i,
            j,
        )) % q by {
            if d == w {
                assert(nc_term(a, b, n, d, i, j) == -(x * y));
                lemma_mod_twice(res[w] - x * y, q);
            } else {
                assert(nc_term(a, b, n, d, i, j) == 0);
            }
        }
    }
}

/// Invariant of one row of the schoolbook product.
pub proof fn lemma_mul_row(
    a: Seq<int>,
    b: Seq<int>,
    n: int,
    q: int,
    i: int,
    j: int,
    start: Seq<int>,
)
    requires
        q > 0,
        0 <= i < n,
        0 <= j <= n,
        a.len() >= n,
        b.len() >= n,
        start.len() == n,
        within(start, q),
    ensures
        ({
            let r = mul_row_state(a, b, n, q, i, j, start);
            &&& r.len() == n
            &&& within(r, q)
            &&& forall|d: int|
                0 <= d < n ==> #[trigger] r[d] % q == (start[d] + nc_row(a, b, n, d, i, j)) % q
            &&& (nonneg(start, n) && nonneg(a, n) && nonneg(b, n)) ==> nonneg(r, n)
        }),
    decreases j,
{
    if j > 0 {
        lemma_mul_row(a, b, n, q, i, j - 1, start);
        let prev = mul_row_state(a, b, n, q, i, j - 1, start);
        lemma_mul_update(a, b, n, q, i, j - 1, prev);
        let r = mul_row_state(a, b, n, q, i, j, start);
        assert forall|d: int| 0 <= d < n implies #[trigger] r[d] % q == (start[d] + nc_row(
            a,
            b,
            n,
            d,
            i,
            j,
        )) % q by {
            let t = nc_term(a, b, n, d, i, j - 1);
            let row = nc_row(a, b, n, d, i, j - 1);
            assert(nc_row(a, b, n, d, i, j) == row + t);
            assert(r[d] % q == (prev[d] + t) % q);
            lemma_add_mod_noop(prev[d], t, q);
            lemma_add_mod_noop(start[d] + row, t, q);
        }
    } else {
        assert forall|d: int| 0 <= d < n implies #[trigger] start[d] % q == (start[d] + nc_row(
            a,
            b,
            n,
            d,
            i,
            j,
        )) % q by {
            assert(nc_row(a, b, n, d, i, j) == 0);
        }
    }
}

/// Invariant of the rows of the schoolbook product.
pub proof fn lemma_mul_state(a: Seq<int>, b: Seq<int>, n: int, q: int, i: int)
    requires
        q > 0,
        0 <= i <= n,
        a.len() >= n,
        b.len() >= n,
    ensures
        ({
            let r = mul_state(a, b, n, q, i);
            &&& r.len() == n
            &&& within(r, q)
            &&& forall|d: int| 0 <= d < n ==> #[trigger] r[d] % q == nc_partial(a, b, n, d, i) % q
            &&& (nonneg(a, n) && nonneg(b, n)) ==> nonneg(r, n)
        }),
    decreases i,
{
    let r = mul_state(a, b, n, q, i);
    if i > 0 {
        lemma_mul_state(a, b, n, q, i - 1);
        let prev = mul_state(a, b, n, q, i - 1);
        lemma_mul_row(a, b, n, q, i - 1, n, prev);
        assert forall|d: int| 0 <= d < n implies #[trigger] r[d] % q == nc_partial(a, b, n, d, i)
            % q by {
            let row = nc_row(a, b, n, d, i - 1, n);
            assert(nc_partial(a, b, n, d, i) == nc_partial(a, b, n, d, i - 1) + row);
            lemma_add_mod_noop(prev[d], row, q);
            lemma_add_mod_noop(nc_partial(a, b, n, d, i - 1), row, q);
        }
    } else {
        assert forall|d: int| 0 <= d < n implies #[trigger] r[d] % q == nc_partial(a, b, n, d, i)
            % q by {
            assert(r[d] == 0);
        }
    }
}

/// The schoolbook product modulo `q` agrees with the ring product modulo `q`,
/// stays strictly between `-q` and `q`, and is canonical for canonical inputs.
pub proof fn lemma_seq_mul(a: Seq<int>, b: Seq<int>, n: int, q: int)
    requires
        q > 0,
        n >= 0,
        a.len() >= n,
        b.len() >= n,
    ensures
        cong(seq_mul(a, b, n, q), nc_mul(a, b, n), n, q),
        within(seq_mul(a, b, n, q), q),
        (nonneg(a, n) && nonneg(b, n)) ==> canonical(seq_mul(a, b, n, q), q),
{
    lemma_mul_state(a, b, n, q, n);
}

} // verus!
