//! How the evaluation of a multilinear extension goes through its
//! variables: setting the first variable of a table, or the last, and
//! evaluating at the rest is evaluating at all of them.

use crate::algebra::lemma_product_first;
use crate::algebra::lemma_product_to_equal;
use crate::algebra::lemma_sum_linear;
use crate::algebra::lemma_sum_pairs;
use crate::algebra::lemma_sum_split;
use crate::algebra::lemma_sum_to_congruent;
use crate::algebra::product_to;
use crate::algebra::sum_to;
use crate::field::lemma_reduce_mul;
use crate::field::reduce;
use crate::multilinear::chi;
use crate::multilinear::eq_factors;
use crate::multilinear::eq_product;
use crate::multilinear::eq_term;
use crate::multilinear::fold_low;
use crate::multilinear::fold_rows;
use crate::multilinear::index_bit;
use crate::multilinear::index_bits;
use crate::multilinear::lemma_chi_push;
use crate::multilinear::line;
use crate::multilinear::mle_eval;
use crate::multilinear::mle_terms;
use vstd::arithmetic::div_mod::lemma_fundamental_div_mod_converse;
use vstd::arithmetic::div_mod::lemma_hoist_over_denominator;
use vstd::arithmetic::div_mod::lemma_mod_multiples_vanish;
use vstd::arithmetic::power2::lemma2_to64;
use vstd::arithmetic::power2::lemma_pow2_adds;
use vstd::arithmetic::power2::lemma_pow2_pos;
use vstd::arithmetic::power2::lemma_pow2_unfold;
use vstd::arithmetic::power2::pow2;
use vstd::prelude::*;

verus! {

/// Prepending a variable prepends a bit to every index.
pub proof fn lemma_index_bits_first(m: nat, t: int, c: int)
    requires
        0 <= t < pow2(m),
        c == 0 || c == 1,
    ensures
        index_bits(m + 1, c * pow2(m) + t) =~= seq![c] + index_bits(m, t),
{
    let x = c * pow2(m) + t;
    let longer = index_bits(m + 1, x);
    let shorter = seq![c] + index_bits(m, t);
    assert forall|i: int| 0 <= i < m + 1 implies longer[i] == shorter[i] by {
        assert(longer[i] == index_bit(m + 1, i, x));
        if i == 0 {
            assert(pow2(m) * c == c * pow2(m)) by (nonlinear_arith);
            lemma_fundamental_div_mod_converse(x, pow2(m) as int, c, t);
            assert(x / (pow2(m) as int) == c);
        } else {
            assert(shorter[i] == index_bit(m, i - 1, t));
            let q = pow2((m - i) as nat);
            lemma_pow2_pos((m - i) as nat);
            lemma_pow2_adds(i as nat, (m - i) as nat);
            lemma_pow2_unfold(i as nat);
            let a = c * pow2((i - 1) as nat);
            assert(c * pow2(m) == (2 * a) * q) by (nonlinear_arith)
                requires
                    pow2(m) == pow2(i as nat) * q,
                    pow2(i as nat) == 2 * pow2((i - 1) as nat),
                    a == c * pow2((i - 1) as nat),
            ;
            lemma_hoist_over_denominator(t, 2 * a, q);
            assert(x / (q as int) == t / (q as int) + 2 * a);
            lemma_mod_multiples_vanish(a, t / (q as int), 2);
        }
    }
}

/// The entry of a longer point is the factor of the new first variable times
/// the entry of the shorter one.
pub proof fn lemma_chi_first(r: int, rest: Seq<int>, t: int, c: int)
    requires
        0 <= t < pow2(rest.len()),
        c == 0 || c == 1,
    ensures
        chi(seq![r] + rest, c * pow2(rest.len()) + t) == (if c == 1 {
            r
        } else {
            1 - r
        }) * chi(rest, t),
{
    let m = rest.len();
    let x = c * pow2(m) + t;
    lemma_index_bits_first(m, t, c);
    let point = seq![r] + rest;
    let longer = eq_factors(index_bits(m + 1, x), point);
    let shorter = eq_factors(index_bits(m, t), rest);
    assert forall|i: int| 0 <= i < m implies #[trigger] shorter(i) == longer(i + 1) by {
        assert(point[i + 1] == rest[i]);
        assert(index_bits(m + 1, x)[i + 1] == index_bits(m, t)[i]);
    }
    lemma_product_first(m, longer, shorter);
    assert(longer(0) == eq_term(c, r));
}

/// Setting the first variable and evaluating at the rest is evaluating at
/// all.
pub proof fn lemma_fold_first(r: int, rest: Seq<int>, table: Seq<int>)
    requires
        table.len() == pow2(rest.len() + 1),
    ensures
        reduce(mle_eval(seq![r] + rest, table)) == reduce(mle_eval(rest, fold_low(table, r))),
{
    let m = rest.len();
    let half = pow2(m);
    lemma_pow2_unfold(m + 1);
    let point = seq![r] + rest;
    let terms = mle_terms(point, table);
    let upper = |t: int| terms(t + half);
    let both = |t: int| terms(t) + terms(t + half);
    let folded = fold_low(table, r);
    lemma_sum_split(half, half, terms, upper);
    assert forall|t: int| 0 <= t < half implies #[trigger] both(t) == 1 * terms(t) + 1 * upper(
        t,
    ) by {}
    lemma_sum_linear(half, terms, upper, both, 1, 1);
    assert forall|t: int| 0 <= t < half implies reduce(#[trigger] both(t)) == reduce(
        mle_terms(rest, folded)(t),
    ) by {
        lemma_chi_first(r, rest, t, 0);
        lemma_chi_first(r, rest, t, 1);
        assert(0 * half + t == t);
        assert(1 * half + t == t + half);
        let c = chi(rest, t);
        let (lo, hi) = (table[t], table[t + half]);
        assert(((1 - r) * c) * lo + (r * c) * hi == c * line(lo, hi, r)) by (nonlinear_arith);
        assert(folded[t] == reduce(line(lo, hi, r)));
        lemma_reduce_mul(c, line(lo, hi, r));
    }
    lemma_sum_to_congruent(half, both, mle_terms(rest, folded));
}

/// Setting the first variables, one after the other, and evaluating at the
/// rest is evaluating at all.
pub proof fn lemma_fold_rows(first: Seq<int>, rest: Seq<int>, table: Seq<int>)
    requires
        table.len() == pow2(first.len() + rest.len()),
    ensures
        fold_rows(table, first).len() == pow2(rest.len()),
        reduce(mle_eval(first + rest, table)) == reduce(mle_eval(rest, fold_rows(table, first))),
    decreases first.len(),
{
    if first.len() == 0 {
        assert(first + rest =~= rest);
    } else {
        let shorter = first.drop_last();
        let r = first.last();
        let longer = seq![r] + rest;
        assert(shorter + longer =~= first + rest);
        lemma_fold_rows(shorter, longer, table);
        lemma_fold_first(r, rest, fold_rows(table, shorter));
        lemma_pow2_unfold(rest.len() + 1);
    }
}

/// Setting every variable leaves the value of the extension.
pub proof fn lemma_fold_all_rows(point: Seq<int>, table: Seq<int>)
    requires
        table.len() == pow2(point.len()),
    ensures
        fold_rows(table, point).len() == 1,
        reduce(fold_rows(table, point)[0]) == reduce(mle_eval(point, table)),
{
    lemma2_to64();
    let rest = Seq::<int>::empty();
    assert(point + rest =~= point);
    lemma_fold_rows(point, rest, table);
    let folded = fold_rows(table, point);
    let terms = mle_terms(rest, folded);
    assert(sum_to(1, terms) == sum_to(0, terms) + terms(0));
    assert(index_bits(0, 0) =~= Seq::<int>::empty());
    assert(chi(rest, 0) == 1);
    assert(terms(0) == 1 * folded[0]);
}

/// The extension at a point with one more coordinate lies on the line
/// between the extensions of the entries at the even and at the odd
/// indices.
pub proof fn lemma_mle_last(point: Seq<int>, x: int, table: Seq<int>, lows: Seq<int>, highs: Seq<int>)
    requires
        table.len() == 2 * pow2(point.len()),
        lows.len() == pow2(point.len()),
        highs.len() == pow2(point.len()),
        forall|t: int| 0 <= t < lows.len() ==> #[trigger] lows[t] == table[2 * t],
        forall|t: int| 0 <= t < highs.len() ==> #[trigger] highs[t] == table[2 * t + 1],
    ensures
        mle_eval(point.push(x), table) == line(mle_eval(point, lows), mle_eval(point, highs), x),
{
    let half = pow2(point.len());
    let terms = mle_terms(point.push(x), table);
    let low_terms = mle_terms(point, lows);
    let high_terms = mle_terms(point, highs);
    let pairs = |t: int| terms(2 * t) + terms(2 * t + 1);
    lemma_sum_pairs(half, terms, pairs);
    assert forall|t: int| 0 <= t < half implies #[trigger] pairs(t) == (1 - x) * low_terms(t) + x
        * high_terms(t) by {
        lemma_chi_push(point, x, t, 0);
        lemma_chi_push(point, x, t, 1);
        let c = chi(point, t);
        let (lo, hi) = (table[2 * t], table[2 * t + 1]);
        assert(lows[t] == lo);
        assert(highs[t] == hi);
        assert((c * (1 - x)) * lo + (c * x) * hi == (1 - x) * (c * lo) + x * (c * hi))
            by (nonlinear_arith);
    }
    lemma_sum_linear(half, low_terms, high_terms, pairs, 1 - x, x);
}

/// The products of the entries of two equality tables.
pub open spec fn eq_table_terms(r: Seq<int>, z: Seq<int>) -> spec_fn(int) -> int {
    |b: int| chi(r, b) * chi(z, b)
}

/// The inner product of the equality tables of two points is the equality
/// polynomial of the points.
pub proof fn lemma_eq_tables(r: Seq<int>, z: Seq<int>)
    requires
        r.len() == z.len(),
    ensures
        sum_to(pow2(r.len()), eq_table_terms(r, z)) == eq_product(z, r),
    decreases r.len(),
{
    lemma2_to64();
    if r.len() == 0 {
        let terms = eq_table_terms(r, z);
        assert(sum_to(1, terms) == sum_to(0, terms) + terms(0));
        assert(index_bits(0, 0) =~= Seq::<int>::empty());
        assert(chi(r, 0) == 1);
        assert(chi(z, 0) == 1);
    } else {
        let n = (r.len() - 1) as nat;
        let (r0, x) = (r.drop_last(), r.last());
        let (z0, y) = (z.drop_last(), z.last());
        assert(r =~= r0.push(x));
        assert(z =~= z0.push(y));
        lemma_eq_tables(r0, z0);
        lemma_pow2_unfold(r.len());
        let half = pow2(n);
        let terms = eq_table_terms(r, z);
        let shorter = eq_table_terms(r0, z0);
        let pairs = |t: int| terms(2 * t) + terms(2 * t + 1);
        lemma_sum_pairs(half, terms, pairs);
        let e = eq_term(y, x);
        assert forall|t: int| 0 <= t < half implies #[trigger] pairs(t) == e * shorter(t) + 0
            * shorter(t) by {
            lemma_chi_push(r0, x, t, 0);
            lemma_chi_push(r0, x, t, 1);
            lemma_chi_push(z0, y, t, 0);
            lemma_chi_push(z0, y, t, 1);
            let (a, b) = (chi(r0, t), chi(z0, t));
            let (u, v) = (1 - x, 1 - y);
            assert((a * u) * (b * v) == (a * b) * (u * v)) by (nonlinear_arith);
            assert((a * x) * (b * y) == (a * b) * (x * y)) by (nonlinear_arith);
            assert(y * x == x * y && v * u == u * v) by (nonlinear_arith);
            let (ab, uv, xy) = (a * b, u * v, x * y);
            assert(ab * uv + ab * xy == (xy + uv) * ab + 0 * ab) by (nonlinear_arith);
        }
        lemma_sum_linear(half, shorter, shorter, pairs, e, 0);
        let longer_factors = eq_factors(z, r);
        let shorter_factors = eq_factors(z0, r0);
        lemma_product_to_equal(n, longer_factors, shorter_factors);
        assert(longer_factors(n as int) == e);
        let p = product_to(n, shorter_factors);
        assert(e * p + 0 * p == p * e) by (nonlinear_arith);
    }
}

} // verus!
