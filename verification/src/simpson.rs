//! Composite Simpson's rule: interval count and sample weights.
use vstd::prelude::*;

verus! {

/// The interval count Simpson's rule uses for a requested count `n`:
/// the rule pairs intervals, so an odd request is rounded up by one.
pub open spec fn spec_simpson_intervals(n: nat) -> nat {
    if n % 2 == 0 {
        n
    } else {
        n + 1
    }
}

/// Rounds a requested interval count up to the next even number.
pub fn simpson_intervals(n: usize) -> (m: usize)
    requires
        n < usize::MAX,
    ensures
        m == spec_simpson_intervals(n as nat),
        m % 2 == 0,
        n <= m <= n + 1,
{
    if n % 2 == 0 {
        n
    } else {
        n + 1
    }
}

/// Weight of sample `i` (with `0 <= i <= n`) in the composite Simpson sum over `n`
/// intervals: 1 at both ends, 4 at odd interior points, 2 at even interior points.
pub open spec fn spec_simpson_weight(i: int, n: int) -> int {
    if i == 0 || i == n {
        1
    } else if i % 2 == 1 {
        4
    } else {
        2
    }
}

/// The Simpson weight of sample `i` out of the samples `0..=n`.
pub fn simpson_weight(i: usize, n: usize) -> (w: u32)
    requires
        i <= n,
    ensures
        w == spec_simpson_weight(i as int, n as int),
{
    if i == 0 || i == n {
        1
    } else if i % 2 == 1 {
        4
    } else {
        2
    }
}

/// The weights are symmetric about the middle of the interval when the interval count is
/// even, so a symmetric integrand (such as the Gaussian over `[-L, L]`) is weighted alike on
/// both sides.
pub proof fn lemma_simpson_weights_symmetric(i: int, n: int)
    requires
        0 <= i <= n,
        n % 2 == 0,
    ensures
        spec_simpson_weight(i, n) == spec_simpson_weight(n - i, n),
{
}

/// `sum_{i < m} w(i, n) * f(i)`: the first `m` terms of the Simpson sum over `n` intervals,
/// with samples taken at the integers.
pub open spec fn weighted_prefix(n: int, m: int, f: spec_fn(int) -> int) -> int
    decreases m,
{
    if m <= 0 {
        0
    } else {
        weighted_prefix(n, m - 1, f) + spec_simpson_weight(m - 1, n) * f(m - 1)
    }
}

/// The whole Simpson sum `sum_{i = 0}^{n} w(i, n) * f(i)` over `n` unit intervals.
pub open spec fn simpson_sum(n: int, f: spec_fn(int) -> int) -> int {
    weighted_prefix(n, n + 1, f)
}

/// Interior weights, which do not depend on where the sum ends.
spec fn interior_weight(i: int) -> int {
    if i == 0 {
        1
    } else if i % 2 == 1 {
        4
    } else {
        2
    }
}

spec fn interior_prefix(m: int, f: spec_fn(int) -> int) -> int
    decreases m,
{
    if m <= 0 {
        0
    } else {
        interior_prefix(m - 1, f) + interior_weight(m - 1) * f(m - 1)
    }
}

proof fn lemma_prefix_is_interior(n: int, m: int, f: spec_fn(int) -> int)
    requires
        0 <= m <= n,
    ensures
        weighted_prefix(n, m, f) == interior_prefix(m, f),
    decreases m,
{
    if m > 0 {
        lemma_prefix_is_interior(n, m - 1, f);
    }
}

proof fn lemma_interior_step(m: int, f: spec_fn(int) -> int)
    requires
        m >= 4,
        m % 2 == 0,
    ensures
        interior_prefix(m, f) == interior_prefix(m - 2, f) + 2 * f(m - 2) + 4 * f(m - 1),
{
    assert(interior_prefix(m, f) == interior_prefix(m - 1, f) + interior_weight(m - 1) * f(m - 1));
    assert(interior_prefix(m - 1, f) == interior_prefix(m - 2, f) + interior_weight(m - 2) * f(
        m - 2,
    ));
}

proof fn lemma_interior_start(f: spec_fn(int) -> int)
    ensures
        interior_prefix(2, f) == f(0) + 4 * f(1),
{
    assert(interior_prefix(1, f) == interior_prefix(0, f) + interior_weight(0) * f(0));
    assert(interior_prefix(2, f) == interior_prefix(1, f) + interior_weight(1) * f(1));
}

proof fn lemma_interior_moments(m: int)
    requires
        m >= 2,
        m % 2 == 0,
    ensures
        interior_prefix(m, |x: int| 1) == 3 * m - 1,
        2 * interior_prefix(m, |x: int| x) == 3 * m * m - 2 * m,
        interior_prefix(m, |x: int| x * x) == m * m * m - m * m,
        4 * interior_prefix(m, |x: int| x * x * x) == 3 * m * m * m * m - 4 * m * m * m,
    decreases m,
{
    let f0 = |x: int| 1;
    let f1 = |x: int| x;
    let f2 = |x: int| x * x;
    let f3 = |x: int| x * x * x;
    if m == 2 {
        lemma_interior_start(f0);
        lemma_interior_start(f1);
        lemma_interior_start(f2);
        lemma_interior_start(f3);
    } else {
        let p = m - 2;
        lemma_interior_moments(p);
        lemma_interior_step(m, f0);
        lemma_interior_step(m, f1);
        lemma_interior_step(m, f2);
        lemma_interior_step(m, f3);
        let t1 = interior_prefix(p, f1);
        let t2 = interior_prefix(p, f2);
        let t3 = interior_prefix(p, f3);
        assert(2 * (t1 + 2 * p + 4 * (p + 1)) == 3 * m * m - 2 * m) by (nonlinear_arith)
            requires
                2 * t1 == 3 * p * p - 2 * p,
                m == p + 2,
        ;
        assert(t2 + 2 * (p * p) + 4 * ((p + 1) * (p + 1)) == m * m * m - m * m) by (nonlinear_arith)
            requires
                t2 == p * p * p - p * p,
                m == p + 2,
        ;
        assert(4 * (t3 + 2 * (p * p * p) + 4 * ((p + 1) * (p + 1) * (p + 1))) == 3 * m * m * m * m
            - 4 * m * m * m) by (nonlinear_arith)
            requires
                4 * t3 == 3 * p * p * p * p - 4 * p * p * p,
                m == p + 2,
        ;
    }
}

/// Simpson's rule integrates every cubic exactly. Over an even number `n >= 2` of unit
/// intervals, a third of the Simpson sum of `x^k` equals `integral_0^n x^k dx = n^(k+1) / (k+1)`
/// for `k = 0, 1, 2, 3` (each line below is that equation times `3 * (k + 1)`).
pub proof fn lemma_simpson_exact_for_cubics(n: int)
    requires
        n >= 2,
        n % 2 == 0,
    ensures
        simpson_sum(n, |x: int| 1) == 3 * n,
        2 * simpson_sum(n, |x: int| x) == 3 * n * n,
        simpson_sum(n, |x: int| x * x) == n * n * n,
        4 * simpson_sum(n, |x: int| x * x * x) == 3 * n * n * n * n,
{
    let f0 = |x: int| 1;
    let f1 = |x: int| x;
    let f2 = |x: int| x * x;
    let f3 = |x: int| x * x * x;
    lemma_interior_moments(n);
    lemma_prefix_is_interior(n, n, f0);
    lemma_prefix_is_interior(n, n, f1);
    lemma_prefix_is_interior(n, n, f2);
    lemma_prefix_is_interior(n, n, f3);
    assert(simpson_sum(n, f0) == weighted_prefix(n, n, f0) + f0(n));
    assert(simpson_sum(n, f1) == weighted_prefix(n, n, f1) + f1(n));
    assert(simpson_sum(n, f2) == weighted_prefix(n, n, f2) + f2(n));
    assert(simpson_sum(n, f3) == weighted_prefix(n, n, f3) + f3(n));
    let t3 = interior_prefix(n, f3);
    assert(4 * (t3 + n * n * n) == 3 * n * n * n * n) by (nonlinear_arith)
        requires
            4 * t3 == 3 * n * n * n * n - 4 * n * n * n,
    ;
}

} // verus!
