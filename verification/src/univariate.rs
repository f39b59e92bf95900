//! Polynomials in one variable, given by their values at `0, 1, ..., d`.

use crate::algebra::product_to;
use crate::algebra::sum_to;
use crate::field::inverse_of;
use crate::field::invertible;
use crate::field::is_inverse;
use crate::field::lemma_inverse_witness;
use crate::field::lemma_modulus_large;
use crate::field::lemma_reduce_add;
use crate::field::lemma_reduce_mul;
use crate::field::lemma_reduce_range;
use crate::field::lemma_reduce_small;
use crate::field::modulus;
use crate::field::reduce;
use crate::field::Scalar;
use vstd::arithmetic::div_mod::lemma_fundamental_div_mod_converse;
use vstd::prelude::*;

verus! {

/// The factors of `(x - 0)(x - 1)...` with the one for node `i` left out.
pub open spec fn node_factors(i: int, x: int) -> spec_fn(int) -> int {
    |j: int|
        if j == i {
            1
        } else {
            x - j
        }
}

/// The product of `x - j` over the nodes `j` in `0..=d` other than `i`.
pub open spec fn numerator(d: nat, i: int, x: int) -> int {
    product_to(d + 1, node_factors(i, x))
}

/// The product of `i - j` over the nodes `j` in `0..=d` other than `i`.
pub open spec fn denominator(d: nat, i: int) -> int {
    numerator(d, i, i)
}

/// The Lagrange basis polynomial of node `i` among the nodes `0..=d`, at `x`.
pub open spec fn basis(d: nat, i: int, x: int) -> int {
    numerator(d, i, x) * inverse_of(denominator(d, i))
}

/// The terms of the Lagrange interpolation formula.
pub open spec fn lagrange_terms(points: Seq<int>, x: int) -> spec_fn(int) -> int {
    |i: int| points[i] * basis((points.len() - 1) as nat, i, x)
}

/// The value at `x` of the polynomial of degree below `points.len()` that
/// takes the value `points[i]` at each `i`.
pub open spec fn interpolate(points: Seq<int>, x: int) -> int {
    reduce(sum_to(points.len(), lagrange_terms(points, x)))
}

/// The value at `x` of the polynomial given by `points`: read off at a node,
/// interpolated elsewhere.
pub open spec fn evaluate(points: Seq<int>, x: int) -> int {
    if 0 <= x < points.len() {
        points[x]
    } else {
        interpolate(points, x)
    }
}

/// Every denominator of the interpolation formula over the nodes `0..=d` has
/// an inverse.
pub open spec fn nodes_invertible(d: nat) -> bool {
    forall|i: int| 0 <= i <= d ==> invertible(#[trigger] denominator(d, i))
}

/// Putting the missing factor back gives the product over all nodes.
proof fn lemma_numerator_full(n: nat, i: int, x: int)
    ensures
        0 <= i < n ==> product_to(n, node_factors(i, x)) * (x - i) == product_to(
            n,
            node_factors(-1, x),
        ),
        i >= n ==> product_to(n, node_factors(i, x)) == product_to(n, node_factors(-1, x)),
    decreases n,
{
    if n > 0 {
        lemma_numerator_full((n - 1) as nat, i, x);
        let a = product_to((n - 1) as nat, node_factors(i, x));
        let b = product_to((n - 1) as nat, node_factors(-1, x));
        if i == n - 1 {
            assert(a * 1 * (x - i) == b * (x - i)) by (nonlinear_arith)
                requires
                    a == b,
            ;
        } else if 0 <= i < n - 1 {
            assert(a * (x - (n - 1)) * (x - i) == b * (x - (n - 1))) by (nonlinear_arith)
                requires
                    a * (x - i) == b,
            ;
        }
    }
}

/// Below node `i`, the denominator's factors are `i, i - 1, ...`; shifting
/// the node by one shifts them all.
proof fn lemma_denominator_low(i: int, k: nat)
    requires
        k < i,
    ensures
        product_to(k + 1, node_factors(i, i)) == i * product_to(k, node_factors(i - 1, i - 1)),
    decreases k,
{
    if k > 0 {
        lemma_denominator_low(i, (k - 1) as nat);
        let a = product_to(k, node_factors(i, i));
        let b = product_to((k - 1) as nat, node_factors(i - 1, i - 1));
        assert(a * (i - k) == i * (b * (i - 1 - (k - 1)))) by (nonlinear_arith)
            requires
                a == i * b,
        ;
    } else {
        assert(product_to(1, node_factors(i, i)) == product_to(0, node_factors(i, i)) * (i - 0));
    }
}

/// From one node to the next the denominator gains the factor `i` and loses
/// the factor `-(d + 1 - i)`.
proof fn lemma_denominator_step(n: nat, i: int)
    requires
        1 <= i,
    ensures
        i < n ==> product_to(n, node_factors(i, i)) * (-(n - i)) == product_to(
            n,
            node_factors(i - 1, i - 1),
        ) * i,
        i >= n >= 1 ==> product_to(n, node_factors(i, i)) == product_to(
            (n - 1) as nat,
            node_factors(i - 1, i - 1),
        ) * i,
    decreases n,
{
    if n == 0 {
    } else if i >= n {
        let k = (n - 1) as nat;
        lemma_denominator_low(i, k);
        assert(k + 1 == n);
        let p = product_to(k, node_factors(i - 1, i - 1));
        assert(product_to(n, node_factors(i, i)) == i * p);
        assert(i * p == p * i) by (nonlinear_arith);
    } else {
        lemma_denominator_step((n - 1) as nat, i);
        let a = product_to((n - 1) as nat, node_factors(i, i));
        let b = product_to((n - 1) as nat, node_factors(i - 1, i - 1));
        if i == n - 1 {
            // the new factor is the one left out for `i`, and `1 - n + i`
            // for `i - 1`
            let c = product_to((n - 2) as nat, node_factors(i - 1, i - 1));
            assert(b == c * 1);
            assert(a * 1 * (-(n - i)) == c * (i - 1 - (n - 1)) * i) by (nonlinear_arith)
                requires
                    a == c * i,
                    n - i == 1,
            ;
            assert(b * (i - 1 - (n - 1)) == c * (i - 1 - (n - 1))) by (nonlinear_arith)
                requires
                    b == c * 1,
            ;
        } else {
            assert(a * (i - (n - 1)) * (-(n - i)) == b * (i - 1 - (n - 1)) * i)
                by (nonlinear_arith)
                requires
                    a * (-(n - 1 - i)) == b * i,
            ;
        }
    }
}

/// The negative of a small positive number is not zero in the field.
proof fn lemma_reduce_negative(k: int)
    requires
        0 < k < modulus(),
    ensures
        reduce(-k) == modulus() - k,
{
    lemma_fundamental_div_mod_converse(-k, modulus(), -1, modulus() - k);
}

/// One more factor of the first coefficient: `(x - k)` above, `-k` below.
proof fn lemma_first_coefficient_step(
    num: int,
    den: int,
    w: int,
    m: int,
    x: int,
    k: int,
    diff: int,
    inv: int,
    next: int,
)
    requires
        m == reduce(num * w),
        is_inverse(den, w),
        diff == reduce(x - k),
        is_inverse(reduce(-k), inv),
        next == reduce(reduce(m * diff) * inv),
    ensures
        next == reduce((num * (x - k)) * (w * inv)),
        is_inverse(den * (0 - k), w * inv),
{
    lemma_reduce_mul(m, diff);
    lemma_reduce_mul(num * w, x - k);
    lemma_reduce_mul(m * diff, inv);
    lemma_reduce_mul((num * w) * (x - k), inv);
    lemma_reduce_mul(num * w, diff);
    assert(reduce(m * diff) == reduce((num * w) * (x - k))) by {
        lemma_reduce_mul(num * w, diff);
        lemma_reduce_mul(num * w, x - k);
    }
    assert(((num * w) * (x - k)) * inv == (num * (x - k)) * (w * inv)) by (nonlinear_arith);
    lemma_reduce_mul(-k, inv);
    crate::field::lemma_inverse_mul(den, w, 0 - k, inv);
}

/// From the coefficient of node `i - 1` to that of node `i`.
proof fn lemma_coefficient_step(
    d: nat,
    i: int,
    x: int,
    m: int,
    a: int,
    binv: int,
    cinv: int,
    e: int,
    next: int,
)
    requires
        1 <= i <= d,
        invertible(denominator(d, i - 1)),
        m == reduce(basis(d, i - 1, x)),
        a == reduce(x - (i - 1)),
        is_inverse(reduce(x - i), binv),
        is_inverse(i, cinv),
        e == reduce(-(d + 1 - i)),
        next == reduce(reduce(reduce(m * a) * reduce(binv * cinv)) * e),
    ensures
        invertible(denominator(d, i)),
        next == reduce(basis(d, i, x)),
{
    let num_prev = numerator(d, i - 1, x);
    let num = numerator(d, i, x);
    let den_prev = denominator(d, i - 1);
    let den = denominator(d, i);
    let w_prev = inverse_of(den_prev);
    let full = product_to(d + 1, node_factors(-1, x));
    lemma_numerator_full(d + 1, i - 1, x);
    lemma_numerator_full(d + 1, i, x);
    lemma_denominator_step(d + 1, i);
    assert(is_inverse(den_prev, w_prev));
    let neg = -(d + 1 - i);
    let w = w_prev * cinv * neg;
    // the new denominator has the inverse `w`
    assert(den * w == (den_prev * w_prev) * (i * cinv)) by (nonlinear_arith)
        requires
            den * neg == den_prev * i,
            w == w_prev * cinv * neg,
    ;
    lemma_reduce_mul(den_prev * w_prev, i * cinv);
    lemma_reduce_small(1);
    lemma_modulus_large();
    assert(is_inverse(den, w));
    lemma_reduce_mul(den, w);
    lemma_reduce_range(w);
    lemma_inverse_witness(den, reduce(w));
    // the computed value is the new numerator times `w`
    let t = m * (x - (i - 1)) * (binv * cinv) * neg;
    assert(next == reduce(basis(d, i - 1, x) * (x - (i - 1)) * (binv * cinv) * neg)) by {
        lemma_reduce_mul(m, a);
        lemma_reduce_mul(m, x - (i - 1));
        lemma_reduce_mul(basis(d, i - 1, x), x - (i - 1));
        let step_one = basis(d, i - 1, x) * (x - (i - 1));
        assert(reduce(m * a) == reduce(step_one));
        lemma_reduce_mul(reduce(m * a), reduce(binv * cinv));
        lemma_reduce_mul(m * a, binv * cinv);
        lemma_reduce_mul(step_one, binv * cinv);
        let step_two = step_one * (binv * cinv);
        assert(reduce(reduce(m * a) * reduce(binv * cinv)) == reduce(step_two));
        lemma_reduce_mul(reduce(step_two), e);
        lemma_reduce_mul(step_two, e);
        lemma_reduce_mul(step_two, neg);
    }
    let big = basis(d, i - 1, x) * (x - (i - 1)) * (binv * cinv) * neg;
    let x1 = x - (i - 1);
    let bc = binv * cinv;
    assert((num_prev * w_prev) * x1 == full * w_prev) by (nonlinear_arith)
        requires
            num_prev * x1 == full,
    ;
    assert(w_prev * bc * neg == binv * w) by (nonlinear_arith)
        requires
            bc == binv * cinv,
            w == w_prev * cinv * neg,
    ;
    let fw = full * w_prev;
    assert(fw * bc * neg == full * (w_prev * bc * neg)) by (nonlinear_arith)
        requires
            fw == full * w_prev,
    ;
    let bw = binv * w;
    assert(full * bw == (num * w) * ((x - i) * binv)) by (nonlinear_arith)
        requires
            num * (x - i) == full,
            bw == binv * w,
    ;
    assert(big == (num * w) * ((x - i) * binv));
    lemma_reduce_mul(x - i, binv);
    lemma_reduce_mul(num * w, (x - i) * binv);
    assert(reduce(big) == reduce(num * w));
    lemma_reduce_mul(num, w);
}

/// Evaluates at `r` the polynomial that takes the value `points[i]` at each
/// `i` below `points.len()`.
///
/// At one of the nodes the value is read off; elsewhere it is computed by
/// Lagrange's formula, one coefficient from the one before, and every
/// denominator of the formula is then known to have an inverse.
pub fn eval_ule(points: &[Scalar], r: Scalar) -> (value: Scalar)
    requires
        points.len() >= 1,
    ensures
        value@ == evaluate(points.deep_view(), r@),
        r@ < points.len() ==> value == points[r@],
        r@ >= points.len() ==> nodes_invertible((points.len() - 1) as nat),
{
    let n = points.len();
    let small = r.as_u64();
    if small.is_some() {
        let x = small.unwrap();
        if x < n as u64 {
            return points[x as usize];
        }
    }
    r.check_canonical();
    assert(r@ >= n);
    let ghost d = (n - 1) as nat;
    let ghost x = r@;
    let ghost values = points.deep_view();
    proof {
        lemma_modulus_large();
    }
    let mut multiplier = Scalar::one();
    let ghost mut w: int = 1;
    let mut k: usize = 1;
    proof {
        assert(product_to(1, node_factors(0, x)) == 1) by {
            assert(product_to(0, node_factors(0, x)) == 1);
        }
        assert(product_to(1, node_factors(0, 0)) == 1) by {
            assert(product_to(0, node_factors(0, 0)) == 1);
        }
        lemma_reduce_small(1);
    }
    while k < n
        invariant
            1 <= k <= n,
            n == points.len(),
            x == r@,
            modulus() > 0x1_0000_0000_0000_0000_0000_0000_0000_0000,
            multiplier@ == reduce(product_to(k as nat, node_factors(0, x)) * w),
            is_inverse(product_to(k as nat, node_factors(0, 0)), w),
        decreases n - k,
    {
        let kf = Scalar::from_u64(k as u64);
        let diff = r.sub(&kf);
        let negk = kf.neg();
        proof {
            lemma_reduce_negative(k as int);
        }
        let inv = negk.inverse().unwrap();
        let next = multiplier.mul(&diff).mul(&inv);
        proof {
            lemma_first_coefficient_step(
                product_to(k as nat, node_factors(0, x)),
                product_to(k as nat, node_factors(0, 0)),
                w,
                multiplier@,
                x,
                k as int,
                diff@,
                inv@,
                next@,
            );
            w = w * inv@;
        }
        multiplier = next;
        k += 1;
    }
    proof {
        // the first coefficient is the basis polynomial of node 0
        let den = denominator(d, 0);
        lemma_reduce_mul(den, w);
        lemma_reduce_range(w);
        lemma_inverse_witness(den, reduce(w));
        lemma_reduce_mul(numerator(d, 0, x), w);
    }
    let mut total = multiplier.mul(&points[0]);
    proof {
        let terms = lagrange_terms(values, x);
        assert(sum_to(1, terms) == terms(0)) by {
            assert(sum_to(0, terms) == 0);
        }
        lemma_reduce_mul(basis(d, 0, x), values[0]);
        assert(basis(d, 0, x) * values[0] == values[0] * basis(d, 0, x)) by (nonlinear_arith);
    }
    let mut i: usize = 1;
    while i < n
        invariant
            1 <= i <= n,
            n == points.len(),
            d == n - 1,
            x == r@,
            x >= n,
            x < modulus(),
            values == points.deep_view(),
            modulus() > 0x1_0000_0000_0000_0000_0000_0000_0000_0000,
            multiplier@ == reduce(basis(d, i - 1, x)),
            forall|j: int| 0 <= j < i ==> invertible(#[trigger] denominator(d, j)),
            total@ == reduce(sum_to(i as nat, lagrange_terms(values, x))),
        decreases n - i,
    {
        let a = r.sub(&Scalar::from_u64((i - 1) as u64));
        let b = r.sub(&Scalar::from_u64(i as u64));
        let c = Scalar::from_u64(i as u64);
        let e = Scalar::from_u64((n - i) as u64).neg();
        proof {
            lemma_reduce_small(x - i);
        }
        let binv = b.inverse().unwrap();
        let cinv = c.inverse().unwrap();
        let next = multiplier.mul(&a).mul(&binv.mul(&cinv)).mul(&e);
        proof {
            lemma_coefficient_step(
                d,
                i as int,
                x,
                multiplier@,
                a@,
                binv@,
                cinv@,
                e@,
                next@,
            );
        }
        multiplier = next;
        let term = multiplier.mul(&points[i]);
        let sum = total.add(&term);
        proof {
            let terms = lagrange_terms(values, x);
            let before = sum_to(i as nat, terms);
            assert(sum_to((i + 1) as nat, terms) == before + terms(i as int));
            lemma_reduce_mul(basis(d, i as int, x), values[i as int]);
            assert(basis(d, i as int, x) * values[i as int] == terms(i as int))
                by (nonlinear_arith)
                requires
                    terms(i as int) == values[i as int] * basis(d, i as int, x),
            ;
            lemma_reduce_add(before, terms(i as int));
        }
        total = sum;
        i += 1;
    }
    total
}

} // verus!
