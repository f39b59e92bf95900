//! Finite sums and products of integers, over an index that runs from zero.

use crate::field::lemma_congruent_add;
use crate::field::lemma_congruent_mul;
use crate::field::reduce;
use vstd::prelude::*;

verus! {

/// `f(0) + f(1) + ... + f(n - 1)`.
pub open spec fn sum_to(n: nat, f: spec_fn(int) -> int) -> int
    decreases n,
{
    if n == 0 {
        0
    } else {
        sum_to((n - 1) as nat, f) + f(n - 1)
    }
}

/// `f(0) * f(1) * ... * f(n - 1)`.
pub open spec fn product_to(n: nat, f: spec_fn(int) -> int) -> int
    decreases n,
{
    if n == 0 {
        1
    } else {
        product_to((n - 1) as nat, f) * f(n - 1)
    }
}

/// The entries of a list, as a function of the index.
pub open spec fn entries(list: Seq<int>) -> spec_fn(int) -> int {
    |i: int| list[i]
}

/// The product of the entries of a list.
pub open spec fn product_of(list: Seq<int>) -> int {
    product_to(list.len(), entries(list))
}

/// Sums of terms that agree are equal.
pub proof fn lemma_sum_to_equal(n: nat, f: spec_fn(int) -> int, g: spec_fn(int) -> int)
    requires
        forall|i: int| 0 <= i < n ==> #[trigger] f(i) == g(i),
    ensures
        sum_to(n, f) == sum_to(n, g),
    decreases n,
{
    if n > 0 {
        lemma_sum_to_equal((n - 1) as nat, f, g);
    }
}

/// Products of factors that agree are equal.
pub proof fn lemma_product_to_equal(n: nat, f: spec_fn(int) -> int, g: spec_fn(int) -> int)
    requires
        forall|i: int| 0 <= i < n ==> #[trigger] f(i) == g(i),
    ensures
        product_to(n, f) == product_to(n, g),
    decreases n,
{
    if n > 0 {
        lemma_product_to_equal((n - 1) as nat, f, g);
    }
}

/// Sums of terms that are congruent are congruent.
pub proof fn lemma_sum_to_congruent(n: nat, f: spec_fn(int) -> int, g: spec_fn(int) -> int)
    requires
        forall|i: int| 0 <= i < n ==> reduce(#[trigger] f(i)) == reduce(g(i)),
    ensures
        reduce(sum_to(n, f)) == reduce(sum_to(n, g)),
    decreases n,
{
    if n > 0 {
        lemma_sum_to_congruent((n - 1) as nat, f, g);
        lemma_congruent_add(
            sum_to((n - 1) as nat, f),
            sum_to((n - 1) as nat, g),
            f(n - 1),
            g(n - 1),
        );
    }
}

/// Products of factors that are congruent are congruent.
pub proof fn lemma_product_to_congruent(n: nat, f: spec_fn(int) -> int, g: spec_fn(int) -> int)
    requires
        forall|i: int| 0 <= i < n ==> reduce(#[trigger] f(i)) == reduce(g(i)),
    ensures
        reduce(product_to(n, f)) == reduce(product_to(n, g)),
    decreases n,
{
    if n > 0 {
        lemma_product_to_congruent((n - 1) as nat, f, g);
        lemma_congruent_mul(
            product_to((n - 1) as nat, f),
            product_to((n - 1) as nat, g),
            f(n - 1),
            g(n - 1),
        );
    }
}

/// A sum splits at any index.
pub proof fn lemma_sum_split(n: nat, m: nat, f: spec_fn(int) -> int, g: spec_fn(int) -> int)
    requires
        forall|i: int| 0 <= i < m ==> #[trigger] g(i) == f(i + n),
    ensures
        sum_to(n + m, f) == sum_to(n, f) + sum_to(m, g),
    decreases m,
{
    if m > 0 {
        lemma_sum_split(n, (m - 1) as nat, f, g);
        assert(g(m - 1) == f(m - 1 + n));
    }
}

/// Terms that are zero do not change a sum.
pub proof fn lemma_sum_zeros(n: nat, m: nat, f: spec_fn(int) -> int)
    requires
        forall|i: int| n <= i < n + m ==> #[trigger] f(i) == 0,
    ensures
        sum_to(n + m, f) == sum_to(n, f),
    decreases m,
{
    if m > 0 {
        lemma_sum_zeros(n, (m - 1) as nat, f);
        assert(f(n + m - 1) == 0);
    }
}

/// A sum of linear combinations is the linear combination of the sums.
pub proof fn lemma_sum_linear(
    n: nat,
    f: spec_fn(int) -> int,
    g: spec_fn(int) -> int,
    h: spec_fn(int) -> int,
    a: int,
    b: int,
)
    requires
        forall|i: int| 0 <= i < n ==> #[trigger] h(i) == a * f(i) + b * g(i),
    ensures
        sum_to(n, h) == a * sum_to(n, f) + b * sum_to(n, g),
    decreases n,
{
    if n > 0 {
        let m = (n - 1) as nat;
        lemma_sum_linear(m, f, g, h, a, b);
        let (sf, sg) = (sum_to(m, f), sum_to(m, g));
        let (x, y) = (f(n - 1), g(n - 1));
        assert(h(n - 1) == a * x + b * y);
        assert((a * sf + b * sg) + (a * x + b * y) == a * (sf + x) + b * (sg + y))
            by (nonlinear_arith);
    } else {
        assert(a * 0 + b * 0 == 0);
    }
}

/// A sum over pairs of neighbours is the sum over all.
pub proof fn lemma_sum_pairs(m: nat, f: spec_fn(int) -> int, g: spec_fn(int) -> int)
    requires
        forall|t: int| 0 <= t < m ==> #[trigger] g(t) == f(2 * t) + f(2 * t + 1),
    ensures
        sum_to(2 * m, f) == sum_to(m, g),
    decreases m,
{
    if m > 0 {
        lemma_sum_pairs((m - 1) as nat, f, g);
        assert(g(m - 1) == f(2 * (m - 1)) + f(2 * (m - 1) + 1));
        assert(sum_to(2 * m, f) == sum_to((2 * m - 1) as nat, f) + f(2 * m - 1));
        assert(sum_to((2 * m - 1) as nat, f) == sum_to((2 * m - 2) as nat, f) + f(2 * m - 2));
    }
}

/// A product over pairs of neighbours is the product over all.
pub proof fn lemma_product_pairs(m: nat, f: spec_fn(int) -> int, g: spec_fn(int) -> int)
    requires
        forall|t: int| 0 <= t < m ==> #[trigger] g(t) == f(2 * t) * f(2 * t + 1),
    ensures
        product_to(2 * m, f) == product_to(m, g),
    decreases m,
{
    if m > 0 {
        lemma_product_pairs((m - 1) as nat, f, g);
        assert(g(m - 1) == f(2 * (m - 1)) * f(2 * (m - 1) + 1));
        assert(product_to(2 * m, f) == product_to((2 * m - 1) as nat, f) * f(2 * m - 1));
        assert(product_to((2 * m - 1) as nat, f) == product_to((2 * m - 2) as nat, f) * f(
            2 * m - 2,
        ));
        let p = product_to((2 * m - 2) as nat, f);
        let (x, y) = (f(2 * m - 2), f(2 * m - 1));
        assert((p * x) * y == p * (x * y)) by (nonlinear_arith);
    }
}

/// The first factor of a product can be taken out.
pub proof fn lemma_product_first(n: nat, f: spec_fn(int) -> int, g: spec_fn(int) -> int)
    requires
        forall|i: int| 0 <= i < n ==> #[trigger] g(i) == f(i + 1),
    ensures
        product_to(n + 1, f) == f(0) * product_to(n, g),
    decreases n,
{
    if n > 0 {
        lemma_product_first((n - 1) as nat, f, g);
        assert(g(n - 1) == f(n as int));
        let p = product_to((n - 1) as nat, g);
        assert((f(0) * p) * f(n as int) == f(0) * (p * f(n as int))) by (nonlinear_arith);
    } else {
        assert(product_to(1, f) == product_to(0, f) * f(0));
    }
}

/// A product splits at any index.
pub proof fn lemma_product_split(n: nat, m: nat, f: spec_fn(int) -> int, g: spec_fn(int) -> int)
    requires
        forall|i: int| 0 <= i < m ==> #[trigger] g(i) == f(i + n),
    ensures
        product_to(n + m, f) == product_to(n, f) * product_to(m, g),
    decreases m,
{
    if m > 0 {
        lemma_product_split(n, (m - 1) as nat, f, g);
        assert(g(m - 1) == f(m - 1 + n));
        let (p, q, x) = (product_to(n, f), product_to((m - 1) as nat, g), g(m - 1));
        assert((p * q) * x == p * (q * x)) by (nonlinear_arith);
    } else {
        assert(product_to(n, f) * 1 == product_to(n, f));
    }
}

/// Factors that are one do not change a product.
pub proof fn lemma_product_ones(n: nat, m: nat, f: spec_fn(int) -> int)
    requires
        forall|i: int| n <= i < n + m ==> #[trigger] f(i) == 1,
    ensures
        product_to(n + m, f) == product_to(n, f),
    decreases m,
{
    if m > 0 {
        lemma_product_ones(n, (m - 1) as nat, f);
        assert(f(n + m - 1) == 1);
    }
}

/// Replacing one factor of a product: the new product times the old factor
/// is the old product times the new factor.
pub proof fn lemma_product_replace(
    n: nat,
    f: spec_fn(int) -> int,
    g: spec_fn(int) -> int,
    at: int,
)
    requires
        forall|i: int| 0 <= i < n && i != at ==> #[trigger] g(i) == f(i),
    ensures
        0 <= at < n ==> product_to(n, g) * f(at) == product_to(n, f) * g(at),
        !(0 <= at < n) ==> product_to(n, g) == product_to(n, f),
    decreases n,
{
    if n > 0 {
        let m = (n - 1) as nat;
        lemma_product_replace(m, f, g, at);
        let (pf, pg) = (product_to(m, f), product_to(m, g));
        if at == m {
            assert((pg * g(at)) * f(at) == (pf * f(at)) * g(at)) by (nonlinear_arith)
                requires
                    pg == pf,
            ;
        } else if 0 <= at < m {
            let x = f(m as int);
            assert(g(m as int) == x);
            assert((pg * x) * f(at) == (pf * x) * g(at)) by (nonlinear_arith)
                requires
                    pg * f(at) == pf * g(at),
            ;
        } else {
            assert(g(m as int) == f(m as int));
        }
    }
}

} // verus!
