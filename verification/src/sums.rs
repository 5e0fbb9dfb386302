use vstd::prelude::*;

verus! {

/// `f(0) + f(1) + ... + f(n - 1)`, and `0` when `n <= 0`.
pub open spec fn sum(f: spec_fn(int) -> int, n: int) -> int
    decreases n,
{
    if n <= 0 {
        0
    } else {
        sum(f, n - 1) + f(n - 1)
    }
}

/// Sums of functions that agree on `0..n` are equal.
pub proof fn lemma_sum_congruent(f: spec_fn(int) -> int, g: spec_fn(int) -> int, n: int)
    requires
        forall|x: int| 0 <= x < n ==> #[trigger] f(x) == g(x),
    ensures
        sum(f, n) == sum(g, n),
    decreases n,
{
    if n > 0 {
        lemma_sum_congruent(f, g, n - 1);
    }
}

/// If `f` and `g` agree on `0..n` except at `a`, the sums differ by `g(a) - f(a)`.
pub proof fn lemma_sum_differs_at_one(f: spec_fn(int) -> int, g: spec_fn(int) -> int, n: int, a: int)
    requires
        0 <= a < n,
        forall|x: int| 0 <= x < n && x != a ==> #[trigger] f(x) == g(x),
    ensures
        sum(g, n) - sum(f, n) == g(a) - f(a),
    decreases n,
{
    if n - 1 == a {
        lemma_sum_congruent(f, g, n - 1);
    } else {
        lemma_sum_differs_at_one(f, g, n - 1, a);
    }
}

/// If `f` and `g` agree on `0..n` except at the distinct points `a` and `b`,
/// the sums differ by `(g(a) - f(a)) + (g(b) - f(b))`.
pub proof fn lemma_sum_differs_at_two(
    f: spec_fn(int) -> int,
    g: spec_fn(int) -> int,
    n: int,
    a: int,
    b: int,
)
    requires
        0 <= a < n,
        0 <= b < n,
        a != b,
        forall|x: int| 0 <= x < n && x != a && x != b ==> #[trigger] f(x) == g(x),
    ensures
        sum(g, n) - sum(f, n) == (g(a) - f(a)) + (g(b) - f(b)),
    decreases n,
{
    if n - 1 == a {
        lemma_sum_differs_at_one(f, g, n - 1, b);
    } else if n - 1 == b {
        lemma_sum_differs_at_one(f, g, n - 1, a);
    } else {
        lemma_sum_differs_at_two(f, g, n - 1, a, b);
    }
}

/// The sum of a constant `k` over `0..n` is `k * n`.
pub proof fn lemma_sum_constant(f: spec_fn(int) -> int, n: int, k: int)
    requires
        n >= 0,
        forall|x: int| 0 <= x < n ==> #[trigger] f(x) == k,
    ensures
        sum(f, n) == k * n,
    decreases n,
{
    if n > 0 {
        lemma_sum_constant(f, n - 1, k);
        assert(f(n - 1) == k);
        assert(k * n == k * (n - 1) + k) by (nonlinear_arith);
    } else {
        assert(k * n == 0) by (nonlinear_arith)
            requires
                n == 0,
        ;
    }
}

/// Negating every term negates the sum.
pub proof fn lemma_sum_negate(f: spec_fn(int) -> int, g: spec_fn(int) -> int, n: int)
    requires
        forall|x: int| 0 <= x < n ==> #[trigger] g(x) == -f(x),
    ensures
        sum(g, n) == -sum(f, n),
    decreases n,
{
    if n > 0 {
        lemma_sum_negate(f, g, n - 1);
    }
}

/// One more term: `sum(f, n + 1) == sum(f, n) + f(n)`.
pub proof fn lemma_sum_step(f: spec_fn(int) -> int, n: int)
    requires
        0 <= n,
    ensures
        sum(f, n + 1) == sum(f, n) + f(n),
{
}

/// Each term lies in `[lo, hi]`, so the sum lies in `[lo * n, hi * n]`.
pub proof fn lemma_sum_bounds(f: spec_fn(int) -> int, n: int, lo: int, hi: int)
    requires
        n >= 0,
        forall|x: int| 0 <= x < n ==> lo <= #[trigger] f(x) <= hi,
    ensures
        lo * n <= sum(f, n) <= hi * n,
    decreases n,
{
    if n > 0 {
        lemma_sum_bounds(f, n - 1, lo, hi);
        assert(lo <= f(n - 1) <= hi);
        assert(lo * n == lo * (n - 1) + lo) by (nonlinear_arith);
        assert(hi * n == hi * (n - 1) + hi) by (nonlinear_arith);
    } else {
        assert(lo * n == 0 && hi * n == 0) by (nonlinear_arith)
            requires
                n == 0,
        ;
    }
}

/// When every term is at least `lo` and the sum is exactly `lo * n`, every
/// term equals `lo`.
pub proof fn lemma_sum_at_minimum(f: spec_fn(int) -> int, n: int, lo: int)
    requires
        n >= 0,
        forall|x: int| 0 <= x < n ==> lo <= #[trigger] f(x),
        sum(f, n) == lo * n,
    ensures
        forall|x: int| 0 <= x < n ==> #[trigger] f(x) == lo,
    decreases n,
{
    if n > 0 {
        lemma_sum_lower(f, n - 1, lo);
        assert(lo * n == lo * (n - 1) + lo) by (nonlinear_arith);
        assert(f(n - 1) == lo);
        lemma_sum_at_minimum(f, n - 1, lo);
    }
}

/// Each term is at least `lo`, so the sum is at least `lo * n`.
pub proof fn lemma_sum_lower(f: spec_fn(int) -> int, n: int, lo: int)
    requires
        n >= 0,
        forall|x: int| 0 <= x < n ==> lo <= #[trigger] f(x),
    ensures
        lo * n <= sum(f, n),
    decreases n,
{
    if n > 0 {
        lemma_sum_lower(f, n - 1, lo);
        assert(lo <= f(n - 1));
        assert(lo * n == lo * (n - 1) + lo) by (nonlinear_arith);
    } else {
        assert(lo * n == 0) by (nonlinear_arith)
            requires
                n == 0,
        ;
    }
}

/// `x + d` on a ring of `n` positions, for `0 <= x, d < n`.
pub open spec fn ring_add(n: int, x: int, d: int) -> int {
    if x + d < n {
        x + d
    } else {
        x + d - n
    }
}

/// `f` read `d` positions further round a ring of `n` positions.
pub open spec fn rotate(f: spec_fn(int) -> int, n: int, d: int) -> spec_fn(int) -> int {
    |x: int| f(ring_add(n, x, d))
}

/// `f` read one position further, without wrapping.
pub open spec fn shift_one(f: spec_fn(int) -> int) -> spec_fn(int) -> int {
    |x: int| f(x + 1)
}

/// `f(1) + ... + f(n) == sum(f, n + 1) - f(0)`.
pub proof fn lemma_sum_shift_one(f: spec_fn(int) -> int, n: int)
    requires
        0 <= n,
    ensures
        sum(shift_one(f), n) == sum(f, n + 1) - f(0),
    decreases n,
{
    assert(sum(f, 0) == 0);
    if n > 0 {
        lemma_sum_shift_one(f, n - 1);
        assert(sum(shift_one(f), n) == sum(shift_one(f), n - 1) + f(n));
        assert(sum(f, n + 1) == sum(f, n) + f(n));
    }
}

/// Summing round a ring from any starting point gives the same total.
pub proof fn lemma_sum_rotate(f: spec_fn(int) -> int, n: int, d: int)
    requires
        0 <= d < n,
    ensures
        sum(rotate(f, n, d), n) == sum(f, n),
    decreases d,
{
    if d == 0 {
        lemma_sum_congruent(rotate(f, n, 0), f, n);
    } else {
        let g = rotate(f, n, d - 1);
        lemma_sum_rotate(f, n, d - 1);
        // Rotating by one more: the first n - 1 terms are g shifted by one, the
        // last is g(0).
        assert forall|x: int| 0 <= x < n - 1 implies #[trigger] rotate(f, n, d)(x) == shift_one(
            g,
        )(x) by {}
        lemma_sum_congruent(rotate(f, n, d), shift_one(g), n - 1);
        lemma_sum_shift_one(g, n - 1);
        assert(rotate(f, n, d)(n - 1) == g(0));
    }
}

} // verus!
