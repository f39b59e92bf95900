//! Lagrange interpolation is exact: the polynomial through the values of a
//! polynomial of degree at most `d` at the nodes `0, ..., d` is that
//! polynomial.

use crate::algebra::product_to;
use crate::algebra::sum_to;
use crate::differences::difference;
use crate::differences::flat_from;
use crate::differences::lemma_constant_flat;
use crate::differences::lemma_flat_linear;
use crate::differences::lemma_flat_times_linear;
use crate::differences::lemma_flat_vanishes;
use crate::differences::lemma_sum_flat;
use crate::differences::term_at;
use crate::field::inverse_of;
use crate::field::invertible;
use crate::field::is_inverse;
use crate::field::lemma_congruent_mul;
use crate::field::lemma_invertible_mul;
use crate::field::lemma_invertible_neg;
use crate::field::lemma_invertible_one;
use crate::field::lemma_reduce_equal;
use crate::field::lemma_reduce_range;
use crate::field::lemma_reduce_sub;
use crate::field::lemma_reduce_zero_one;
use crate::field::reduce;
use crate::field::units_upto;
use crate::multilinear::line;
use crate::univariate::denominator;
use crate::univariate::evaluate;
use crate::univariate::interpolate;
use crate::univariate::lagrange_terms;
use crate::univariate::node_factors;
use crate::univariate::nodes_invertible;
use crate::univariate::numerator;
use vstd::prelude::*;

verus! {

/// A product with a factor that is zero is zero.
pub proof fn lemma_product_zero(n: nat, f: spec_fn(int) -> int, j: int)
    requires
        0 <= j < n,
        f(j) == 0,
    ensures
        product_to(n, f) == 0,
    decreases n,
{
    if j < n - 1 {
        lemma_product_zero((n - 1) as nat, f, j);
        assert(0 * f(n - 1) == 0);
    } else {
        assert(product_to((n - 1) as nat, f) * 0 == 0);
    }
}

/// A sum of which only one term is not zero is that term.
pub proof fn lemma_sum_single(n: nat, f: spec_fn(int) -> int, i: int)
    requires
        forall|k: int| 0 <= k < n && k != i ==> #[trigger] f(k) == 0,
    ensures
        0 <= i < n ==> sum_to(n, f) == f(i),
        !(0 <= i < n) ==> sum_to(n, f) == 0,
    decreases n,
{
    if n > 0 {
        lemma_sum_single((n - 1) as nat, f, i);
    }
}

/// A product of invertible factors is invertible.
pub proof fn lemma_product_invertible(n: nat, f: spec_fn(int) -> int)
    requires
        forall|j: int| 0 <= j < n ==> invertible(#[trigger] f(j)),
    ensures
        invertible(product_to(n, f)),
    decreases n,
{
    if n == 0 {
        lemma_invertible_one();
    } else {
        lemma_product_invertible((n - 1) as nat, f);
        assert(invertible(f(n - 1)));
        lemma_invertible_mul(product_to((n - 1) as nat, f), f(n - 1));
    }
}

/// Where the integers up to `d` are invertible, so are the denominators of
/// the interpolation formula over the nodes `0, ..., d`.
pub proof fn lemma_nodes_invertible(d: nat)
    requires
        units_upto(d),
    ensures
        nodes_invertible(d),
{
    assert forall|i: int| 0 <= i <= d implies invertible(#[trigger] denominator(d, i)) by {
        let f = node_factors(i, i);
        assert forall|j: int| 0 <= j < d + 1 implies invertible(#[trigger] f(j)) by {
            if j == i {
                lemma_invertible_one();
            } else if j < i {
                assert(invertible(i - j));
            } else {
                assert(invertible(j - i));
                lemma_invertible_neg(j - i);
                assert(-(j - i) == i - j);
            }
        }
        lemma_product_invertible(d + 1, f);
    }
}

/// A partial numerator, as a function of the variable.
pub open spec fn partial_numerator(n: nat, i: int) -> spec_fn(int) -> int {
    |s: int| product_to(n, node_factors(i, s))
}

/// A partial numerator is a polynomial of degree at most its number of
/// factors, not counting the factor that is left out.
pub proof fn lemma_partial_numerator_flat(n: nat, i: int)
    ensures
        0 <= i < n ==> flat_from(partial_numerator(n, i), n),
        !(0 <= i < n) ==> flat_from(partial_numerator(n, i), n + 1),
    decreases n,
{
    let whole = partial_numerator(n, i);
    if n == 0 {
        lemma_constant_flat(whole, 1);
    } else {
        let m = (n - 1) as nat;
        let part = partial_numerator(m, i);
        lemma_partial_numerator_flat(m, i);
        if i == m {
            assert forall|s: int| #[trigger] whole(s) == 1 * part(s) + 0 * part(s) by {
                assert(node_factors(i, s)(m as int) == 1);
                assert(part(s) * 1 == 1 * part(s) + 0 * part(s)) by (nonlinear_arith);
            }
            lemma_flat_linear(part, part, whole, 1, 0, n);
        } else {
            assert forall|s: int| #[trigger] whole(s) == part(s) * ((-m) + 1 * s) by {
                assert(node_factors(i, s)(m as int) == s - m);
            }
            if 0 <= i < m {
                lemma_flat_times_linear(part, whole, -m, 1, m);
            } else {
                lemma_flat_times_linear(part, whole, -m, 1, n);
            }
        }
    }
}

/// The terms of the interpolation formula, as functions of the variable.
pub open spec fn lagrange_terms_of(points: Seq<int>) -> spec_fn(int) -> spec_fn(int) -> int {
    |s: int| lagrange_terms(points, s)
}

/// The interpolation formula, before reduction, as a function of the
/// variable.
pub open spec fn lagrange_sum_of(points: Seq<int>) -> spec_fn(int) -> int {
    |s: int| sum_to(points.len(), lagrange_terms(points, s))
}

/// The interpolation formula is a polynomial of degree below the number of
/// points.
pub proof fn lemma_lagrange_flat(points: Seq<int>)
    requires
        points.len() >= 1,
    ensures
        flat_from(lagrange_sum_of(points), points.len()),
{
    let n = points.len();
    let d = (n - 1) as nat;
    let terms = lagrange_terms_of(points);
    assert forall|i: int| 0 <= i < n implies flat_from(#[trigger] term_at(terms, i), n) by {
        let term = term_at(terms, i);
        let num = partial_numerator(n, i);
        let c = points[i] * inverse_of(denominator(d, i));
        lemma_partial_numerator_flat(n, i);
        assert forall|s: int| #[trigger] term(s) == c * num(s) + 0 * num(s) by {
            let w = inverse_of(denominator(d, i));
            let v = numerator(d, i, s);
            assert(term(s) == points[i] * (v * w));
            assert(num(s) == v);
            assert(points[i] * (v * w) == (points[i] * w) * v + 0 * v) by (nonlinear_arith);
        }
        lemma_flat_linear(num, num, term, c, 0, n);
    }
    lemma_sum_flat(terms, n, n);
    let built = |s: int| sum_to(n, terms(s));
    let whole = lagrange_sum_of(points);
    assert forall|t: int| #[trigger] difference(whole, n, t) == 0 by {
        assert forall|s: int| #[trigger] whole(s) == built(s) by {}
        crate::differences::lemma_difference_equal(whole, built, n, t);
        assert(difference(built, n, t) == 0);
    }
}

/// At a node the interpolation formula gives the point of the node.
pub proof fn lemma_lagrange_at_node(points: Seq<int>, i: int)
    requires
        0 <= i < points.len(),
        nodes_invertible((points.len() - 1) as nat),
    ensures
        reduce(sum_to(points.len(), lagrange_terms(points, i))) == reduce(points[i]),
        interpolate(points, i) == reduce(points[i]),
{
    let n = points.len();
    let d = (n - 1) as nat;
    let terms = lagrange_terms(points, i);
    assert forall|k: int| 0 <= k < n && k != i implies #[trigger] terms(k) == 0 by {
        assert(node_factors(k, i)(i) == 0);
        lemma_product_zero(n, node_factors(k, i), i);
        assert(numerator(d, k, i) == 0);
        assert(0 * inverse_of(denominator(d, k)) == 0);
        assert(points[k] * 0 == 0);
    }
    lemma_sum_single(n, terms, i);
    let den = denominator(d, i);
    let w = inverse_of(den);
    assert(invertible(den));
    assert(is_inverse(den, w));
    assert(terms(i) == points[i] * (den * w));
    lemma_reduce_zero_one();
    lemma_reduce_range(den * w);
    lemma_congruent_mul(points[i], points[i], den * w, 1);
    assert(points[i] * 1 == points[i]);
}

/// Interpolation is exact. Let `h` be a polynomial of degree below the
/// number of points, and let each point be the value of `h` at its node.
/// Then what is interpolated at any natural number is the value of `h`
/// there.
pub proof fn lemma_interpolation_exact(points: Seq<int>, h: spec_fn(int) -> int, x: int)
    requires
        points.len() >= 1,
        nodes_invertible((points.len() - 1) as nat),
        flat_from(h, points.len()),
        forall|i: int| 0 <= i < points.len() ==> reduce(#[trigger] points[i]) == reduce(h(i)),
        0 <= x,
    ensures
        interpolate(points, x) == reduce(h(x)),
        reduce(evaluate(points, x)) == reduce(h(x)),
{
    let n = points.len();
    let whole = lagrange_sum_of(points);
    let error = |s: int| whole(s) - h(s);
    lemma_lagrange_flat(points);
    assert forall|s: int| #[trigger] error(s) == 1 * whole(s) + (-1) * h(s) by {}
    lemma_flat_linear(whole, h, error, 1, -1, n);
    assert forall|i: int| 0 <= i < n implies reduce(#[trigger] error(i)) == 0 by {
        lemma_lagrange_at_node(points, i);
        assert(whole(i) == sum_to(n, lagrange_terms(points, i)));
        lemma_reduce_sub(whole(i), h(i));
        lemma_reduce_zero_one();
        assert(reduce(whole(i)) - reduce(h(i)) == 0);
    }
    lemma_flat_vanishes(error, n, x);
    lemma_reduce_equal(whole(x), h(x));
    assert(whole(x) == sum_to(n, lagrange_terms(points, x)));
    lemma_reduce_range(sum_to(n, lagrange_terms(points, x)));
}

/// The line through two values, as a function of the variable.
pub open spec fn line_of(lo: int, hi: int) -> spec_fn(int) -> int {
    |t: int| line(lo, hi, t)
}

/// The polynomial through two values is the line through them.
pub proof fn lemma_evaluate_pair(lo: int, hi: int, x: int)
    requires
        reduce(lo) == lo,
        reduce(hi) == hi,
        0 <= x,
    ensures
        evaluate(seq![lo, hi], x) == reduce(line(lo, hi, x)),
{
    let points = seq![lo, hi];
    let h = line_of(lo, hi);
    let one = |t: int| 1int;
    lemma_constant_flat(one, 1);
    assert forall|s: int| #[trigger] h(s) == one(s) * (lo + (hi - lo) * s) by {
        assert(line(lo, hi, s) == 1 * (lo + (hi - lo) * s)) by (nonlinear_arith);
    }
    lemma_flat_times_linear(one, h, lo, hi - lo, 1);
    crate::field::lemma_units_three();
    lemma_nodes_invertible(1);
    assert forall|i: int| 0 <= i < points.len() implies reduce(#[trigger] points[i]) == reduce(
        h(i),
    ) by {
        assert(line(lo, hi, 0) == lo);
        assert(line(lo, hi, 1) == hi);
    }
    lemma_interpolation_exact(points, h, x);
    if 0 <= x < 2 {
    } else {
        lemma_reduce_range(sum_to(2, lagrange_terms(points, x)));
    }
}

} // verus!
