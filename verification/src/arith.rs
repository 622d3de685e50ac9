//! Integer facts shared by the ring arithmetic: Rust's truncated remainder
//! and finite sums.

use vstd::arithmetic::div_mod::*;
use vstd::prelude::*;

verus! {

/// Rust's `%` on signed integers (the remainder truncated toward zero),
/// for a positive modulus `m`.
pub open spec fn trem(a: int, m: int) -> int {
    if a >= 0 {
        a % m
    } else {
        -((-a) % m)
    }
}

/// Bounds of the truncated remainder and its agreement with `%` modulo `m`.
pub proof fn lemma_trem(a: int, m: int)
    requires
        m > 0,
    ensures
        -m < trem(a, m) < m,
        trem(a, m) % m == a % m,
        a >= 0 ==> trem(a, m) == a % m && trem(a, m) >= 0,
        a <= 0 ==> trem(a, m) <= 0,
        -m < a < m ==> trem(a, m) == a,
{
    lemma_mod_bound(a, m);
    lemma_mod_bound(-a, m);
    if a < 0 {
        lemma_fundamental_div_mod(-a, m);
        lemma_mod_multiples_vanish((-a) / m, a, m);
        assert(trem(a, m) == m * ((-a) / m) + a);
        if -m < a {
            lemma_small_mod((-a) as nat, m as nat);
        }
    } else {
        lemma_mod_twice(a, m);
        if a < m {
            lemma_small_mod(a as nat, m as nat);
        }
    }
}

/// `((x % m) + m) % m` in Rust, for `-m < x`, is the least non-negative residue.
pub proof fn lemma_trem_shift(x: int, m: int)
    requires
        m > 0,
    ensures
        0 <= trem(trem(x, m) + m, m) < m,
        trem(trem(x, m) + m, m) == x % m,
{
    lemma_trem(x, m);
    let t = trem(x, m);
    lemma_trem(t + m, m);
    lemma_mod_add_multiples_vanish(t, m);
}

/// The sum `f(0) + f(1) + ... + f(n - 1)`.
pub open spec fn sum_to(f: spec_fn(int) -> int, n: int) -> int
    decreases n,
{
    if n <= 0 {
        0
    } else {
        sum_to(f, n - 1) + f(n - 1)
    }
}

pub proof fn lemma_sum_ext(f: spec_fn(int) -> int, g: spec_fn(int) -> int, n: int)
    requires
        forall|i: int| 0 <= i < n ==> #[trigger] f(i) == g(i),
    ensures
        sum_to(f, n) == sum_to(g, n),
    decreases n,
{
    if n > 0 {
        lemma_sum_ext(f, g, n - 1);
    }
}

pub proof fn lemma_sum_add(f: spec_fn(int) -> int, g: spec_fn(int) -> int, n: int)
    ensures
        sum_to(|i: int| f(i) + g(i), n) == sum_to(f, n) + sum_to(g, n),
    decreases n,
{
    if n > 0 {
        lemma_sum_add(f, g, n - 1);
    }
}

pub proof fn lemma_sum_scale(f: spec_fn(int) -> int, c: int, n: int)
    ensures
        sum_to(|i: int| c * f(i), n) == c * sum_to(f, n),
    decreases n,
{
    if n > 0 {
        lemma_sum_scale(f, c, n - 1);
        let s = sum_to(f, n - 1);
        let x = f(n - 1);
        assert(c * (s + x) == c * s + c * x) by (nonlinear_arith);
    }
}

pub proof fn lemma_sum_zero(f: spec_fn(int) -> int, n: int)
    requires
        forall|i: int| 0 <= i < n ==> #[trigger] f(i) == 0,
    ensures
        sum_to(f, n) == 0,
    decreases n,
{
    if n > 0 {
        lemma_sum_zero(f, n - 1);
    }
}

/// A sum whose terms vanish everywhere but at `k` is the term at `k`.
pub proof fn lemma_sum_single(f: spec_fn(int) -> int, n: int, k: int)
    requires
        0 <= k < n,
        forall|i: int| 0 <= i < n && i != k ==> #[trigger] f(i) == 0,
    ensures
        sum_to(f, n) == f(k),
    decreases n,
{
    if n - 1 == k {
        lemma_sum_zero(f, n - 1);
    } else {
        lemma_sum_single(f, n - 1, k);
    }
}

/// Sums of termwise congruent terms are congruent.
pub proof fn lemma_sum_cong(f: spec_fn(int) -> int, g: spec_fn(int) -> int, n: int, m: int)
    requires
        m > 0,
        forall|i: int| 0 <= i < n ==> #[trigger] f(i) % m == g(i) % m,
    ensures
        sum_to(f, n) % m == sum_to(g, n) % m,
    decreases n,
{
    if n > 0 {
        lemma_sum_cong(f, g, n - 1, m);
        lemma_add_mod_noop(sum_to(f, n - 1), f(n - 1), m);
        lemma_add_mod_noop(sum_to(g, n - 1), g(n - 1), m);
    }
}

/// Exchanging the order of a finite double sum.
pub proof fn lemma_sum_swap(g: spec_fn(int, int) -> int, n: int, m: int)
    ensures
        sum_to(|i: int| sum_to(|j: int| g(i, j), m), n) == sum_to(
            |j: int| sum_to(|i: int| g(i, j), n),
            m,
        ),
    decreases n,
{
    if n > 0 {
        lemma_sum_swap(g, n - 1, m);
        let f1 = |j: int| sum_to(|i: int| g(i, j), n - 1);
        let f2 = |j: int| g(n - 1, j);
        lemma_sum_add(f1, f2, m);
        lemma_sum_ext(
            |j: int| sum_to(|i: int| g(i, j), n),
            |j: int| f1(j) + f2(j),
            m,
        );
        lemma_sum_ext(|j: int| g(n - 1, j), f2, m);
    } else {
        lemma_sum_zero(|j: int| sum_to(|i: int| g(i, j), n), m);
    }
}

/// A sum of `n` terms each in [0, m] lies in [0, n·m].
pub proof fn lemma_sum_bound_nonneg(f: spec_fn(int) -> int, n: int, m: int)
    requires
        n >= 0,
        forall|i: int| 0 <= i < n ==> 0 <= #[trigger] f(i) <= m,
    ensures
        0 <= sum_to(f, n) <= n * m,
    decreases n,
{
    if n > 0 {
        lemma_sum_bound_nonneg(f, n - 1, m);
        assert(0 <= f(n - 1) <= m);
        assert(sum_to(f, n) == sum_to(f, n - 1) + f(n - 1));
        assert(n * m == (n - 1) * m + m) by (nonlinear_arith);
    } else {
        assert(n * m == 0) by (nonlinear_arith)
            requires
                n == 0,
        ;
    }
}

} // verus!
