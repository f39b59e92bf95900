//! Forward differences of integer functions.
//!
//! The difference of order `n` of a polynomial of degree below `n` is zero
//! everywhere. Here a function counts as such a polynomial where its
//! difference of that order is zero; products of linear forms and their
//! sums are the ones that matter. A function whose difference of order `n`
//! is zero is determined by its values at `0, ..., n - 1`.

use crate::algebra::product_to;
use crate::algebra::sum_to;
use crate::field::lemma_reduce_add;
use crate::field::lemma_reduce_sub;
use crate::field::lemma_reduce_zero_one;
use crate::field::reduce;
use vstd::prelude::*;

verus! {

/// The forward difference of order `n` of `f`, at `t`.
pub open spec fn difference(f: spec_fn(int) -> int, n: nat, t: int) -> int
    decreases n,
{
    if n == 0 {
        f(t)
    } else {
        difference(f, (n - 1) as nat, t + 1) - difference(f, (n - 1) as nat, t)
    }
}

/// The difference of order `n` of `f` is zero everywhere.
pub open spec fn flat_from(f: spec_fn(int) -> int, n: nat) -> bool {
    forall|t: int| #[trigger] difference(f, n, t) == 0
}

/// The differences of functions that agree everywhere agree.
pub proof fn lemma_difference_equal(
    f: spec_fn(int) -> int,
    g: spec_fn(int) -> int,
    n: nat,
    t: int,
)
    requires
        forall|s: int| #[trigger] f(s) == g(s),
    ensures
        difference(f, n, t) == difference(g, n, t),
    decreases n,
{
    if n > 0 {
        lemma_difference_equal(f, g, (n - 1) as nat, t + 1);
        lemma_difference_equal(f, g, (n - 1) as nat, t);
    }
}

/// Functions that agree everywhere have their differences zero from the
/// same order on.
pub proof fn lemma_flat_equal(f: spec_fn(int) -> int, g: spec_fn(int) -> int, n: nat)
    requires
        forall|s: int| #[trigger] f(s) == g(s),
        flat_from(f, n),
    ensures
        flat_from(g, n),
{
    assert forall|t: int| #[trigger] difference(g, n, t) == 0 by {
        lemma_difference_equal(f, g, n, t);
        assert(difference(f, n, t) == 0);
    }
}

/// Where a difference is zero everywhere, so is the next.
pub proof fn lemma_flat_next(f: spec_fn(int) -> int, n: nat)
    requires
        flat_from(f, n),
    ensures
        flat_from(f, n + 1),
{
    assert forall|t: int| #[trigger] difference(f, n + 1, t) == 0 by {
        assert(difference(f, n, t + 1) == 0);
        assert(difference(f, n, t) == 0);
    }
}

/// Where a difference is zero everywhere, so is every later one.
pub proof fn lemma_flat_later(f: spec_fn(int) -> int, n: nat, m: nat)
    requires
        flat_from(f, n),
        n <= m,
    ensures
        flat_from(f, m),
    decreases m - n,
{
    if n < m {
        lemma_flat_next(f, n);
        lemma_flat_later(f, n + 1, m);
    }
}

/// The first difference of a constant is zero.
pub proof fn lemma_constant_flat(f: spec_fn(int) -> int, c: int)
    requires
        forall|s: int| #[trigger] f(s) == c,
    ensures
        flat_from(f, 1),
{
    assert forall|t: int| #[trigger] difference(f, 1, t) == 0 by {
        assert(difference(f, 0, t + 1) == f(t + 1));
        assert(difference(f, 0, t) == f(t));
    }
}

/// Differences are linear.
pub proof fn lemma_difference_linear(
    f: spec_fn(int) -> int,
    g: spec_fn(int) -> int,
    h: spec_fn(int) -> int,
    a: int,
    b: int,
    n: nat,
    t: int,
)
    requires
        forall|s: int| #[trigger] h(s) == a * f(s) + b * g(s),
    ensures
        difference(h, n, t) == a * difference(f, n, t) + b * difference(g, n, t),
    decreases n,
{
    if n > 0 {
        let m = (n - 1) as nat;
        lemma_difference_linear(f, g, h, a, b, m, t + 1);
        lemma_difference_linear(f, g, h, a, b, m, t);
        let (f1, f0) = (difference(f, m, t + 1), difference(f, m, t));
        let (g1, g0) = (difference(g, m, t + 1), difference(g, m, t));
        assert((a * f1 + b * g1) - (a * f0 + b * g0) == a * (f1 - f0) + b * (g1 - g0))
            by (nonlinear_arith);
    }
}

/// A linear combination of functions whose difference of order `n` is zero
/// has a difference of order `n` that is zero.
pub proof fn lemma_flat_linear(
    f: spec_fn(int) -> int,
    g: spec_fn(int) -> int,
    h: spec_fn(int) -> int,
    a: int,
    b: int,
    n: nat,
)
    requires
        forall|s: int| #[trigger] h(s) == a * f(s) + b * g(s),
        flat_from(f, n),
        flat_from(g, n),
    ensures
        flat_from(h, n),
{
    assert forall|t: int| #[trigger] difference(h, n, t) == 0 by {
        lemma_difference_linear(f, g, h, a, b, n, t);
        assert(difference(f, n, t) == 0);
        assert(difference(g, n, t) == 0);
        assert(a * 0 + b * 0 == 0);
    }
}

/// The difference of a product with a linear form.
pub proof fn lemma_difference_times_linear(
    f: spec_fn(int) -> int,
    h: spec_fn(int) -> int,
    alpha: int,
    beta: int,
    n: nat,
    t: int,
)
    requires
        forall|s: int| #[trigger] h(s) == f(s) * (alpha + beta * s),
        n >= 1,
    ensures
        difference(h, n, t) == difference(f, n, t) * (alpha + beta * (t + n)) + (n * beta)
            * difference(f, (n - 1) as nat, t),
    decreases n,
{
    if n == 1 {
        let (f1, f0) = (f(t + 1), f(t));
        assert(difference(h, 0, t + 1) == h(t + 1));
        assert(difference(h, 0, t) == h(t));
        assert(difference(f, 0, t + 1) == f1);
        assert(difference(f, 0, t) == f0);
        assert(difference(f, 1, t) == f1 - f0);
        let x = alpha + beta * (t + 1);
        let y = alpha + beta * t;
        assert(x - y == beta) by (nonlinear_arith)
            requires
                x == alpha + beta * (t + 1),
                y == alpha + beta * t,
        ;
        assert(f1 * x - f0 * y == (f1 - f0) * x + (1 * beta) * f0) by (nonlinear_arith)
            requires
                x - y == beta,
        ;
    } else {
        let m = (n - 1) as nat;
        let k = (n - 2) as nat;
        lemma_difference_times_linear(f, h, alpha, beta, m, t + 1);
        lemma_difference_times_linear(f, h, alpha, beta, m, t);
        let (a1, a0) = (difference(f, m, t + 1), difference(f, m, t));
        let (b1, b0) = (difference(f, k, t + 1), difference(f, k, t));
        assert(b1 - b0 == a0);
        let x = alpha + beta * (t + n);
        let y = alpha + beta * (t + m);
        let c = m * beta;
        assert(alpha + beta * (t + 1 + m) == x);
        assert(x - y == beta) by (nonlinear_arith)
            requires
                x == alpha + beta * (t + n),
                y == alpha + beta * (t + m),
                n == m + 1,
        ;
        assert(n * beta == c + beta) by (nonlinear_arith)
            requires
                c == m * beta,
                n == m + 1,
        ;
        let d = n * beta;
        assert((a1 * x + c * b1) - (a0 * y + c * b0) == (a1 - a0) * x + d * a0)
            by (nonlinear_arith)
            requires
                b1 - b0 == a0,
                x - y == beta,
                d == c + beta,
        ;
    }
}

/// The product with a linear form raises by one the order from which the
/// differences are zero.
pub proof fn lemma_flat_times_linear(
    f: spec_fn(int) -> int,
    h: spec_fn(int) -> int,
    alpha: int,
    beta: int,
    n: nat,
)
    requires
        forall|s: int| #[trigger] h(s) == f(s) * (alpha + beta * s),
        flat_from(f, n),
    ensures
        flat_from(h, n + 1),
{
    lemma_flat_next(f, n);
    assert forall|t: int| #[trigger] difference(h, n + 1, t) == 0 by {
        lemma_difference_times_linear(f, h, alpha, beta, n + 1, t);
        assert(difference(f, n + 1, t) == 0);
        assert(difference(f, n, t) == 0);
    }
}

/// The differences of the first difference are the differences of one order
/// more.
pub proof fn lemma_difference_shift(
    f: spec_fn(int) -> int,
    g: spec_fn(int) -> int,
    n: nat,
    t: int,
)
    requires
        forall|s: int| #[trigger] g(s) == f(s + 1) - f(s),
    ensures
        difference(g, n, t) == difference(f, n + 1, t),
    decreases n,
{
    if n == 0 {
        assert(difference(f, 0, t + 1) == f(t + 1));
        assert(difference(f, 0, t) == f(t));
    } else {
        lemma_difference_shift(f, g, (n - 1) as nat, t + 1);
        lemma_difference_shift(f, g, (n - 1) as nat, t);
    }
}

/// A function whose difference of order `n` is zero, and that is zero in the
/// field at `0, ..., n - 1`, is zero in the field at every natural number.
pub proof fn lemma_flat_vanishes(f: spec_fn(int) -> int, n: nat, t: int)
    requires
        flat_from(f, n),
        forall|i: int| 0 <= i < n ==> reduce(#[trigger] f(i)) == 0,
        0 <= t,
    ensures
        reduce(f(t)) == 0,
    decreases n, t,
{
    lemma_reduce_zero_one();
    if n == 0 {
        assert(difference(f, 0, t) == 0);
    } else if t > 0 {
        let g = |s: int| f(s + 1) - f(s);
        assert forall|s: int| #[trigger] difference(g, (n - 1) as nat, s) == 0 by {
            lemma_difference_shift(f, g, (n - 1) as nat, s);
            assert(difference(f, n, s) == 0);
        }
        assert forall|i: int| 0 <= i < n - 1 implies reduce(#[trigger] g(i)) == 0 by {
            assert(reduce(f(i)) == 0);
            assert(reduce(f(i + 1)) == 0);
            lemma_reduce_sub(f(i + 1), f(i));
        }
        lemma_flat_vanishes(g, (n - 1) as nat, t - 1);
        lemma_flat_vanishes(f, n, t - 1);
        assert(f(t) == f(t - 1) + g(t - 1));
        lemma_reduce_add(f(t - 1), g(t - 1));
    } else {
        assert(reduce(f(0)) == 0);
    }
}

/// A product of `n` linear forms has a difference of order `n + 1` that is
/// zero.
pub proof fn lemma_product_flat(
    forms: spec_fn(int) -> spec_fn(int) -> int,
    alpha: spec_fn(int) -> int,
    beta: spec_fn(int) -> int,
    n: nat,
)
    requires
        forall|k: int, s: int| 0 <= k < n ==> #[trigger] forms(s)(k) == alpha(k) + beta(k) * s,
    ensures
        flat_from(|s: int| product_to(n, forms(s)), n + 1),
    decreases n,
{
    let whole = |s: int| product_to(n, forms(s));
    if n == 0 {
        lemma_constant_flat(whole, 1);
    } else {
        let m = (n - 1) as nat;
        let part = |s: int| product_to(m, forms(s));
        lemma_product_flat(forms, alpha, beta, m);
        assert forall|s: int| #[trigger] whole(s) == part(s) * (alpha(m as int) + beta(m as int)
            * s) by {
            assert(forms(s)(m as int) == alpha(m as int) + beta(m as int) * s);
        }
        lemma_flat_times_linear(part, whole, alpha(m as int), beta(m as int), n);
    }
}

/// A sum of functions whose difference of order `n` is zero has a
/// difference of order `n` that is zero.
pub proof fn lemma_sum_flat(terms: spec_fn(int) -> spec_fn(int) -> int, count: nat, n: nat)
    requires
        n >= 1,
        forall|i: int| 0 <= i < count ==> flat_from(#[trigger] term_at(terms, i), n),
    ensures
        flat_from(|s: int| sum_to(count, terms(s)), n),
    decreases count,
{
    let whole = |s: int| sum_to(count, terms(s));
    if count == 0 {
        lemma_constant_flat(whole, 0);
        lemma_flat_later(whole, 1, n);
    } else {
        let m = (count - 1) as nat;
        let part = |s: int| sum_to(m, terms(s));
        lemma_sum_flat(terms, m, n);
        let last = term_at(terms, m as int);
        assert(flat_from(last, n));
        assert forall|s: int| #[trigger] whole(s) == 1 * part(s) + 1 * last(s) by {
            assert(last(s) == terms(s)(m as int));
        }
        lemma_flat_linear(part, last, whole, 1, 1, n);
    }
}

/// The term of index `i` of a sum, as a function of the variable.
pub open spec fn term_at(terms: spec_fn(int) -> spec_fn(int) -> int, i: int) -> spec_fn(
    int,
) -> int {
    |s: int| terms(s)(i)
}

} // verus!
